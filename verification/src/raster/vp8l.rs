//! The entropy-coded image of a lossless WebP stream: an optional colour cache,
//! an optional image that routes blocks of pixels to different prefix codes,
//! the codes, then pixels as literals, back references and cache references.
use super::argb::{argb, green, pack, red};
use super::bits::{
    lemma_value_bound, peek_bits, peek_value, skip_bits, BitR,
};
use super::huffman::{decode_symbol, in_alphabet, lemma_symbol_in_alphabet, Code, Huff};
use super::tree::{extended, parse_lengths, parse_max_symbol, parse_order, parse_tree, read_tree};
use vstd::arithmetic::power2::{lemma_pow2_pos, lemma_pow2_strictly_increases, pow2};
use vstd::prelude::*;

verus! {

/// The largest width or height of an image.
pub const MAX_SIDE: u32 = 16384;

// ── lengths and distances ───────────────────────────────────────────────────

/// The neighbourhood that short distance codes address: the high digit is the
/// row offset, eight minus the low digit the column offset.
pub const DISTANCE_PLANE: [u8; 120] = [
    0x18, 0x07, 0x17, 0x19, 0x28, 0x06, 0x27, 0x29, 0x16, 0x1a, 0x26, 0x2a, 0x38, 0x05, 0x37, 0x39,
    0x15, 0x1b, 0x36, 0x3a, 0x25, 0x2b, 0x48, 0x04, 0x47, 0x49, 0x14, 0x1c, 0x35, 0x3b, 0x46, 0x4a,
    0x24, 0x2c, 0x58, 0x45, 0x4b, 0x34, 0x3c, 0x03, 0x57, 0x59, 0x13, 0x1d, 0x56, 0x5a, 0x23, 0x2d,
    0x44, 0x4c, 0x55, 0x5b, 0x33, 0x3d, 0x68, 0x02, 0x67, 0x69, 0x12, 0x1e, 0x66, 0x6a, 0x22, 0x2e,
    0x54, 0x5c, 0x43, 0x4d, 0x65, 0x6b, 0x32, 0x3e, 0x78, 0x01, 0x77, 0x79, 0x53, 0x5d, 0x11, 0x1f,
    0x64, 0x6c, 0x42, 0x4e, 0x76, 0x7a, 0x21, 0x2f, 0x75, 0x7b, 0x31, 0x3f, 0x63, 0x6d, 0x52, 0x5e,
    0x00, 0x74, 0x7c, 0x41, 0x4f, 0x10, 0x20, 0x62, 0x6e, 0x30, 0x73, 0x7d, 0x51, 0x5f, 0x40, 0x72,
    0x7e, 0x61, 0x6f, 0x50, 0x71, 0x7f, 0x60, 0x70,
];

/// The length or distance code that a prefix symbol and its extra bits stand
/// for, counted from one.
pub open spec fn prefix_number(prefix: nat, s: Seq<bool>) -> (nat, Seq<bool>) {
    if prefix < 4 {
        (prefix + 1, s)
    } else {
        let extra = ((prefix - 2) / 2) as nat;
        ((2 + prefix % 2) * pow2(extra) + peek_value(s, extra) + 1, skip_bits(s, extra))
    }
}

/// The number that a prefix symbol and its extra bits stand for.
pub fn prefix_value(prefix: u32, r: &mut BitR) -> (v: u32)
    requires
        old(r).wf(),
        prefix <= 62,
    ensures
        final(r).wf(),
        v == prefix_number(prefix as nat, old(r)@).0,
        final(r)@ == prefix_number(prefix as nat, old(r)@).1,
        v >= 1,
        prefix < 40 ==> v <= 0x20_0000,
{
    if prefix < 4 {
        return prefix + 1;
    }
    let extra: u32 = (prefix - 2) / 2;
    let base: u32 = 2 + prefix % 2;
    proof {
        vstd::arithmetic::power2::lemma2_to64();
        lemma_pow2_pos(extra as nat);
        if extra < 30 {
            lemma_pow2_strictly_increases(extra as nat, 30);
        }
        if extra < 29 {
            lemma_pow2_strictly_increases(extra as nat, 29);
        }
        if prefix < 40 && extra < 18 {
            lemma_pow2_strictly_increases(extra as nat, 18);
        }
        assert(base == 2 || extra <= 29);
        let p = pow2(extra as nat);
        assert(base * p + p <= 0xFFFF_FFFF) by (nonlinear_arith)
            requires
                base <= 3,
                p <= 0x4000_0000,
                base == 2 || p <= 0x2000_0000,
        ;
        assert(prefix < 40 ==> base * p + p <= 0x20_0000) by (nonlinear_arith)
            requires
                base <= 3,
                p <= 0x4000_0000,
                prefix < 40 ==> p <= 0x4_0000,
        ;
        vstd::bits::lemma_u32_shl_is_mul(base, extra);
        lemma_value_bound(peek_bits(r@, extra as nat));
    }
    let offset: u32 = base << extra;
    offset + r.read(extra) + 1
}

/// The pixel distance that a distance code stands for in an image of this
/// width.
pub open spec fn pixel_distance(code: nat, width: nat) -> nat {
    if code > 120 {
        (code - 120) as nat
    } else {
        let v = DISTANCE_PLANE@[code - 1] as nat;
        let d = (v / 16) * width + 8 - v % 16;
        if d < 1 {
            1
        } else {
            d as nat
        }
    }
}

/// Translate a distance code into a pixel distance.
pub fn dist_code_to_pixels(dist_code: u32, width: u32) -> (d: u32)
    requires
        1 <= dist_code,
        width <= 0x0FFF_FFFF,
    ensures
        d == pixel_distance(dist_code as nat, width as nat),
        d >= 1,
{
    if dist_code > 120 {
        return dist_code - 120;
    }
    let v: u8 = DISTANCE_PLANE[(dist_code - 1) as usize];
    let y: u32 = (v / 16) as u32;
    let x: u32 = (v % 16) as u32;
    proof {
        assert(v / 16 < 16);
        assert(forall|k: int| 0 <= k < 120 ==> #[trigger] DISTANCE_PLANE@[k] < 0x80);
        assert(y * width <= 7 * width) by (nonlinear_arith)
            requires
                y <= 7,
        ;
    }
    let up: u32 = y * width + 8;
    if up <= x {
        1
    } else {
        up - x
    }
}

// ── prefix codes ────────────────────────────────────────────────────────────

/// The five prefix codes of a pixel.
pub ghost struct Group {
    pub green: Code,
    pub red: Code,
    pub blue: Code,
    pub alpha: Code,
    pub dist: Code,
}

/// Literals, lengths, and one symbol per cache entry.
pub open spec fn green_symbols(cache_bits: nat) -> nat {
    280 + cache_size(cache_bits)
}

pub open spec fn cache_size(cache_bits: nat) -> nat {
    if cache_bits > 0 {
        pow2(cache_bits)
    } else {
        0
    }
}

pub open spec fn parse_group(s: Seq<bool>, cache_bits: nat) -> Option<(Group, Seq<bool>)> {
    match parse_tree(s, green_symbols(cache_bits)) {
        None => None,
        Some((green, s1)) => match parse_tree(s1, 256) {
            None => None,
            Some((red, s2)) => match parse_tree(s2, 256) {
                None => None,
                Some((blue, s3)) => match parse_tree(s3, 256) {
                    None => None,
                    Some((alpha, s4)) => match parse_tree(s4, 40) {
                        None => None,
                        Some((dist, s5)) => Some((Group { green, red, blue, alpha, dist }, s5)),
                    },
                },
            },
        },
    }
}

pub open spec fn parse_groups(s: Seq<bool>, n: nat, cache_bits: nat) -> Option<
    (Seq<Group>, Seq<bool>),
>
    decreases n,
{
    if n == 0 {
        Some((Seq::empty(), s))
    } else {
        match parse_groups(s, (n - 1) as nat, cache_bits) {
            None => None,
            Some((gs, s1)) => match parse_group(s1, cache_bits) {
                None => None,
                Some((g, s2)) => Some((gs.push(g), s2)),
            },
        }
    }
}

pub open spec fn group_ok(g: Group, cache_bits: nat) -> bool {
    &&& in_alphabet(g.green, green_symbols(cache_bits))
    &&& in_alphabet(g.red, 256)
    &&& in_alphabet(g.blue, 256)
    &&& in_alphabet(g.alpha, 256)
    &&& in_alphabet(g.dist, 40)
}

proof fn lemma_parse_lengths_len(
    cl: Seq<u8>,
    s: Seq<bool>,
    n: nat,
    acc: Seq<u8>,
    prev: u8,
    left: nat,
)
    requires
        acc.len() <= n,
    ensures
        parse_lengths(cl, s, n, acc, prev, left) matches Some(r) ==> r.0.len() == n,
    decreases n - acc.len(),
{
    if acc.len() < n && left > 0 {
        if let Some((sym, s1)) = decode_symbol(Code::Lengths(cl), s) {
            let rest = (left - 1) as nat;
            if sym <= 15 {
                let p = if sym == 0 {
                    prev
                } else {
                    sym as u8
                };
                lemma_parse_lengths_len(cl, s1, n, acc.push(sym as u8), p, rest);
            } else if sym == 16 {
                let k = 3 + peek_value(s1, 2);
                lemma_parse_lengths_len(
                    cl,
                    skip_bits(s1, 2),
                    n,
                    extended(acc, prev, k, n),
                    prev,
                    rest,
                );
            } else if sym == 17 {
                let k = 3 + peek_value(s1, 3);
                lemma_parse_lengths_len(
                    cl,
                    skip_bits(s1, 3),
                    n,
                    extended(acc, 0, k, n),
                    prev,
                    rest,
                );
            } else if sym == 18 {
                let k = 11 + peek_value(s1, 7);
                lemma_parse_lengths_len(
                    cl,
                    skip_bits(s1, 7),
                    n,
                    extended(acc, 0, k, n),
                    prev,
                    rest,
                );
            }
        }
    }
}

/// A code read for an alphabet has no symbol outside it.
pub proof fn lemma_tree_alphabet(s: Seq<bool>, n: nat)
    requires
        n > 0,
    ensures
        parse_tree(s, n) matches Some(r) ==> in_alphabet(r.0, n),
{
    let s1 = skip_bits(s, 1);
    if peek_value(s, 1) != 1 {
        let num = peek_value(s1, 4) + 4;
        let s2 = skip_bits(s1, 4);
        let cl = parse_order(s2, num);
        let s3 = skip_bits(s2, 3 * num);
        let (left, s4) = parse_max_symbol(s3, n);
        lemma_parse_lengths_len(cl, s4, n, Seq::empty(), 8, left);
    }
}

/// The five tables of a pixel.
pub struct HGroup {
    green: Huff,
    red: Huff,
    blue: Huff,
    alpha: Huff,
    dist: Huff,
}

impl View for HGroup {
    type V = Group;

    closed spec fn view(&self) -> Group {
        Group {
            green: self.green@,
            red: self.red@,
            blue: self.blue@,
            alpha: self.alpha@,
            dist: self.dist@,
        }
    }
}

impl HGroup {
    pub closed spec fn wf(&self) -> bool {
        &&& self.green.wf()
        &&& self.red.wf()
        &&& self.blue.wf()
        &&& self.alpha.wf()
        &&& self.dist.wf()
    }
}

/// Read the five codes of a group.
pub fn read_hgroup(r: &mut BitR, cache_bits: u32) -> (g: Option<HGroup>)
    requires
        old(r).wf(),
        cache_bits <= 11,
    ensures
        final(r).wf(),
        match parse_group(old(r)@, cache_bits as nat) {
            Some(d) => g is Some && g->0.wf() && g->0@ == d.0 && final(r)@ == d.1 && group_ok(
                d.0,
                cache_bits as nat,
            ),
            None => g is None,
        },
{
    let size: usize = table_size(cache_bits);
    proof {
        lemma_cache_size(cache_bits as nat);
        lemma_tree_alphabet(r@, green_symbols(cache_bits as nat));
    }
    let green: Huff = match read_tree(r, 280 + size) {
        Some(h) => h,
        None => {
            return None;
        },
    };
    proof {
        lemma_tree_alphabet(r@, 256);
    }
    let red: Huff = match read_tree(r, 256) {
        Some(h) => h,
        None => {
            return None;
        },
    };
    proof {
        lemma_tree_alphabet(r@, 256);
    }
    let blue: Huff = match read_tree(r, 256) {
        Some(h) => h,
        None => {
            return None;
        },
    };
    proof {
        lemma_tree_alphabet(r@, 256);
    }
    let alpha: Huff = match read_tree(r, 256) {
        Some(h) => h,
        None => {
            return None;
        },
    };
    proof {
        lemma_tree_alphabet(r@, 40);
    }
    let dist: Huff = match read_tree(r, 40) {
        Some(h) => h,
        None => {
            return None;
        },
    };
    Some(HGroup { green, red, blue, alpha, dist })
}

proof fn lemma_cache_size(b: nat)
    requires
        b <= 11,
    ensures
        cache_size(b) <= 2048,
        b > 0 ==> cache_size(b) >= 1,
{
    vstd::arithmetic::power2::lemma2_to64();
    lemma_pow2_pos(b);
    if b < 11 {
        lemma_pow2_strictly_increases(b, 11);
    }
}

fn table_size(cache_bits: u32) -> (n: usize)
    requires
        cache_bits <= 11,
    ensures
        n == cache_size(cache_bits as nat),
        n <= 2048,
{
    proof {
        lemma_cache_size(cache_bits as nat);
    }
    if cache_bits > 0 {
        proof {
            vstd::arithmetic::power2::lemma2_to64();
            vstd::bits::lemma_u32_shl_is_mul(1u32, cache_bits);
        }
        (1u32 << cache_bits) as usize
    } else {
        0
    }
}

// ── the colour cache ────────────────────────────────────────────────────────

/// The cache entry of a colour.
pub open spec fn cache_index(p: u32, cache_bits: nat) -> nat {
    ((p * 0x1e35a7bd) as nat % 0x1_0000_0000) / pow2((32 - cache_bits) as nat)
}

/// The cache entry of a colour.
pub fn cache_hash(argb: u32, cache_bits: u32) -> (i: usize)
    requires
        1 <= cache_bits <= 32,
    ensures
        i == cache_index(argb, cache_bits as nat),
        i < pow2(cache_bits as nat),
{
    let h: u64 = (argb as u64 * 0x1e35a7bd) % 0x1_0000_0000;
    let k: u64 = (32 - cache_bits) as u64;
    proof {
        vstd::bits::lemma_u64_shr_is_div(h, k);
        vstd::arithmetic::power2::lemma2_to64();
        vstd::arithmetic::power2::lemma2_to64_rest();
        vstd::arithmetic::power2::lemma_pow2_adds(cache_bits as nat, k as nat);
        lemma_pow2_pos(k as nat);
        let p = pow2(k as nat);
        let q = pow2(cache_bits as nat);
        assert(h as nat / p < q) by (nonlinear_arith)
            requires
                h < q * p,
                p > 0,
        ;
        if cache_bits < 32 {
            lemma_pow2_strictly_increases(cache_bits as nat, 32);
        }
    }
    (h >> k) as usize
}

// ── pixels ──────────────────────────────────────────────────────────────────

/// What the pixel stream is decoded with.
pub ghost struct Scene {
    pub groups: Seq<Group>,
    pub routes: Seq<u32>,
    pub route_bits: nat,
    pub route_width: nat,
    pub cache_bits: nat,
    pub width: nat,
    pub count: nat,
}

/// The pixels so far, and the colour cache.
pub ghost struct Pixels {
    pub out: Seq<u32>,
    pub cache: Seq<u32>,
}

/// Append a pixel and remember its colour.
pub open spec fn emit(p: Pixels, v: u32, cache_bits: nat) -> Pixels {
    Pixels {
        out: p.out.push(v),
        cache: if cache_bits > 0 {
            p.cache.update(cache_index(v, cache_bits) as int, v)
        } else {
            p.cache
        },
    }
}

/// Repeat `n` pixels from `dist` pixels back.
pub open spec fn repeat_back(p: Pixels, dist: nat, n: nat, cache_bits: nat) -> Pixels
    decreases n,
{
    if n == 0 {
        p
    } else {
        repeat_back(emit(p, p.out[p.out.len() - dist], cache_bits), dist, (n - 1) as nat, cache_bits)
    }
}

pub proof fn lemma_repeat_len(p: Pixels, dist: nat, n: nat, cache_bits: nat)
    ensures
        repeat_back(p, dist, n, cache_bits).out.len() == p.out.len() + n,
    decreases n,
{
    if n > 0 {
        lemma_repeat_len(
            emit(p, p.out[p.out.len() - dist], cache_bits),
            dist,
            (n - 1) as nat,
            cache_bits,
        );
    }
}

/// The group number that a routing pixel holds.
pub open spec fn route_group(p: u32) -> nat {
    red(p) * 256 + green(p)
}

/// The group of pixel `i`.
pub open spec fn group_of(c: Scene, i: nat) -> nat {
    if c.routes.len() == 0 || c.width == 0 {
        0
    } else {
        let x = (i % c.width) / pow2(c.route_bits);
        let y = (i / c.width) / pow2(c.route_bits);
        let k = y * c.route_width + x;
        if k < c.routes.len() {
            route_group(c.routes[k as int])
        } else {
            route_group(0)
        }
    }
}

/// Decode one literal, back reference or cache reference.
pub open spec fn parse_step(c: Scene, p: Pixels, s: Seq<bool>) -> Option<(Pixels, Seq<bool>)> {
    let i = p.out.len();
    if group_of(c, i) >= c.groups.len() {
        None
    } else {
        let g = c.groups[group_of(c, i) as int];
        match decode_symbol(g.green, s) {
            None => None,
            Some((sym, s1)) => if sym < 256 {
                parse_literal(c, g, p, sym, s1)
            } else if sym < 280 {
                parse_reference(c, g, p, (sym - 256) as nat, s1)
            } else if c.cache_bits == 0 || sym - 280 >= p.cache.len() {
                None
            } else {
                Some((Pixels { out: p.out.push(p.cache[sym - 280]), ..p }, s1))
            },
        }
    }
}

/// The other channels of a literal pixel whose green is known.
pub open spec fn parse_literal(c: Scene, g: Group, p: Pixels, sym: nat, s1: Seq<bool>) -> Option<
    (Pixels, Seq<bool>),
> {
    match decode_symbol(g.red, s1) {
        None => None,
        Some((rr, s2)) => match decode_symbol(g.blue, s2) {
            None => None,
            Some((bb, s3)) => match decode_symbol(g.alpha, s3) {
                None => None,
                Some((aa, s4)) => Some((emit(p, argb(aa, rr, sym, bb), c.cache_bits), s4)),
            },
        },
    }
}

/// A back reference: a length, then a distance. It must stay inside the image.
pub open spec fn parse_reference(
    c: Scene,
    g: Group,
    p: Pixels,
    sym: nat,
    s1: Seq<bool>,
) -> Option<(Pixels, Seq<bool>)> {
    let i = p.out.len();
    let (len, s2) = prefix_number(sym, s1);
    match decode_symbol(g.dist, s2) {
        None => None,
        Some((prefix, s3)) => {
            let (code, s4) = prefix_number(prefix, s3);
            let dist = pixel_distance(code, c.width);
            if dist > i || i + len > c.count {
                None
            } else {
                Some((repeat_back(p, dist, len, c.cache_bits), s4))
            }
        },
    }
}

pub proof fn lemma_step_grows(c: Scene, p: Pixels, s: Seq<bool>)
    requires
        p.out.len() < c.count,
    ensures
        parse_step(c, p, s) matches Some(d) ==> p.out.len() < d.0.out.len() <= c.count,
{
    let i = p.out.len();
    if group_of(c, i) < c.groups.len() {
        let g = c.groups[group_of(c, i) as int];
        if let Some((sym, s1)) = decode_symbol(g.green, s) {
            if 256 <= sym < 280 {
                let (len, s2) = prefix_number((sym - 256) as nat, s1);
                if let Some((prefix, s3)) = decode_symbol(g.dist, s2) {
                    let (code, s4) = prefix_number(prefix, s3);
                    lemma_repeat_len(p, pixel_distance(code, c.width), len, c.cache_bits);
                }
            }
        }
    }
}

/// Decode pixels until the image is full.
pub open spec fn parse_pixels(c: Scene, p: Pixels, s: Seq<bool>) -> Option<(Seq<u32>, Seq<bool>)>
    decreases c.count - p.out.len(),
{
    if p.out.len() >= c.count {
        Some((p.out, s))
    } else {
        match parse_step(c, p, s) {
            None => None,
            Some((p1, s1)) => {
                proof {
                    lemma_step_grows(c, p, s);
                }
                parse_pixels(c, p1, s1)
            },
        }
    }
}

// ── the image ───────────────────────────────────────────────────────────────

/// The size in blocks of `2^bits` pixels.
pub open spec fn blocks(size: nat, bits: nat) -> nat {
    (size + pow2(bits) - 1) as nat / pow2(bits)
}

/// The number of blocks of `2^bits` pixels that `size` pixels reach into.
pub fn sub_size(size: u32, bits: u32) -> (n: u32)
    requires
        size <= 0x7FFF_FFFF,
        bits <= 30,
    ensures
        n == blocks(size as nat, bits as nat),
        size > 0 ==> 1 <= n <= size,
{
    proof {
        vstd::arithmetic::power2::lemma2_to64();
        lemma_pow2_pos(bits as nat);
        if bits < 30 {
            lemma_pow2_strictly_increases(bits as nat, 30);
        }
        vstd::bits::lemma_u32_shl_is_mul(1u32, bits);
        let t = (size + pow2(bits as nat) - 1) as u32;
        vstd::bits::lemma_u32_shr_is_div(t, bits);
        lemma_blocks_bounds(size as nat, bits as nat);
    }
    (size + (1u32 << bits) - 1) >> bits
}

pub proof fn lemma_blocks_bounds(size: nat, bits: nat)
    ensures
        pow2(bits) > 0,
        size > 0 ==> 1 <= blocks(size, bits) <= size,
{
    lemma_pow2_pos(bits);
    let p = pow2(bits);
    if size > 0 {
        let t = (size + p - 1) as nat;
        assert(t / p >= 1) by (nonlinear_arith)
            requires
                t >= p,
                p > 0,
        ;
        assert(t / p <= size) by (nonlinear_arith)
            requires
                t == size + p - 1,
                p > 0,
                size > 0,
        ;
    }
}

/// One more than the largest group number in a routing image.
pub open spec fn group_count(img: Seq<u32>, upto: int) -> nat
    decreases upto,
{
    if upto <= 0 {
        1
    } else {
        let m = group_count(img, upto - 1);
        let g = route_group(img[upto - 1]) + 1;
        if g > m {
            g
        } else {
            m
        }
    }
}

/// The width of colour cache indices; zero when there is no cache.
pub open spec fn parse_cache_bits(s: Seq<bool>) -> Option<(nat, Seq<bool>)> {
    let s1 = skip_bits(s, 1);
    if peek_value(s, 1) == 1 {
        let b = peek_value(s1, 4);
        if b == 0 || b > 11 {
            None
        } else {
            Some((b, skip_bits(s1, 4)))
        }
    } else {
        Some((0, s1))
    }
}

/// The codes and the pixels, once the routing image is known.
pub open spec fn parse_body(
    s: Seq<bool>,
    width: nat,
    height: nat,
    cache_bits: nat,
    routes: Seq<u32>,
    route_bits: nat,
    route_width: nat,
    groups: nat,
) -> Option<(Seq<u32>, Seq<bool>)> {
    match parse_groups(s, groups, cache_bits) {
        None => None,
        Some((gs, s1)) => parse_pixels(
            Scene {
                groups: gs,
                routes,
                route_bits,
                route_width,
                cache_bits,
                width,
                count: width * height,
            },
            Pixels {
                out: Seq::empty(),
                cache: Seq::new(cache_size(cache_bits), |i: int| 0u32),
            },
            s1,
        ),
    }
}

/// An entropy-coded image. Only the main image may have a routing image.
pub open spec fn parse_image(s: Seq<bool>, width: nat, height: nat, main: bool) -> Option<
    (Seq<u32>, Seq<bool>),
>
    decreases main as int,
{
    match parse_cache_bits(s) {
        None => None,
        Some((cache_bits, s1)) => if main && peek_value(s1, 1) == 1 {
            let s2 = skip_bits(s1, 1);
            let bits = peek_value(s2, 3) + 2;
            let xs = blocks(width, bits);
            let ys = blocks(height, bits);
            match parse_image(skip_bits(s2, 3), xs, ys, false) {
                None => None,
                Some((img, s3)) => parse_body(
                    s3,
                    width,
                    height,
                    cache_bits,
                    img,
                    bits,
                    xs,
                    group_count(img, img.len() as int),
                ),
            }
        } else {
            let s2 = if main {
                skip_bits(s1, 1)
            } else {
                s1
            };
            parse_body(s2, width, height, cache_bits, Seq::empty(), 0, 1, 1)
        },
    }
}

fn count_groups(img: &Vec<u32>) -> (n: usize)
    ensures
        n == group_count(img@, img@.len() as int),
{
    let mut n: usize = 1;
    let mut i: usize = 0;
    while i < img.len()
        invariant
            i <= img.len(),
            1 <= n <= 0x10000,
            n == group_count(img@, i as int),
        decreases img.len() - i,
    {
        let px: u32 = img[i];
        let g: usize = ((px / 0x10000 % 256) * 256 + px / 0x100 % 256) as usize;
        if g + 1 > n {
            n = g + 1;
        }
        i = i + 1;
    }
    n
}

fn read_cache_bits(r: &mut BitR) -> (b: Option<u32>)
    requires
        old(r).wf(),
    ensures
        final(r).wf(),
        match parse_cache_bits(old(r)@) {
            Some(d) => b is Some && b->0 == d.0 && d.0 <= 11 && final(r)@ == d.1,
            None => b is None,
        },
{
    if r.read(1) == 1 {
        let b: u32 = r.read(4);
        if b == 0 || b > 11 {
            return None;
        }
        Some(b)
    } else {
        Some(0)
    }
}

fn read_groups(r: &mut BitR, n: usize, cache_bits: u32) -> (gs: Option<Vec<HGroup>>)
    requires
        old(r).wf(),
        cache_bits <= 11,
    ensures
        final(r).wf(),
        match parse_groups(old(r)@, n as nat, cache_bits as nat) {
            Some(d) => {
                &&& gs is Some
                &&& gs->0@.len() == d.0.len() == n
                &&& forall|k: int| 0 <= k < n ==> (#[trigger] gs->0@[k]).wf()
                &&& forall|k: int| 0 <= k < n ==> (#[trigger] gs->0@[k])@ == d.0[k]
                &&& forall|k: int| 0 <= k < n ==> group_ok(#[trigger] d.0[k], cache_bits as nat)
                &&& final(r)@ == d.1
            },
            None => gs is None,
        },
{
    let ghost s = r@;
    let mut gs: Vec<HGroup> = Vec::new();
    let mut k: usize = 0;
    while k < n
        invariant
            k <= n,
            r.wf(),
            cache_bits <= 11,
            s == old(r)@,
            parse_groups(s, k as nat, cache_bits as nat) is Some,
            ({
                let d = parse_groups(s, k as nat, cache_bits as nat)->0;
                &&& gs@.len() == d.0.len() == k
                &&& forall|j: int| 0 <= j < k ==> (#[trigger] gs@[j]).wf()
                &&& forall|j: int| 0 <= j < k ==> (#[trigger] gs@[j])@ == d.0[j]
                &&& forall|j: int| 0 <= j < k ==> group_ok(#[trigger] d.0[j], cache_bits as nat)
                &&& r@ == d.1
            }),
        decreases n - k,
    {
        match read_hgroup(r, cache_bits) {
            Some(g) => {
                gs.push(g);
            },
            None => {
                proof {
                    lemma_groups_fail(s, (k + 1) as nat, n as nat, cache_bits as nat);
                }
                return None;
            },
        }
        k = k + 1;
    }
    Some(gs)
}

proof fn lemma_groups_fail(s: Seq<bool>, k: nat, n: nat, cache_bits: nat)
    requires
        k <= n,
        parse_groups(s, k, cache_bits) is None,
    ensures
        parse_groups(s, n, cache_bits) is None,
    decreases n,
{
    if k < n {
        lemma_groups_fail(s, k, (n - 1) as nat, cache_bits);
    }
}

fn group_at(
    routes: &Vec<u32>,
    route_bits: u32,
    route_width: u32,
    width: u32,
    i: usize,
    Ghost(c): Ghost<Scene>,
) -> (g: usize)
    requires
        1 <= width <= MAX_SIDE,
        1 <= route_width <= MAX_SIDE,
        route_bits <= 9,
        i < 0x1000_0000,
        c.routes == routes@,
        c.route_bits == route_bits,
        c.route_width == route_width,
        c.width == width,
    ensures
        g == group_of(c, i as nat),
{
    if routes.len() == 0 {
        return 0;
    }
    let x: u32 = (i % width as usize) as u32;
    let y: u32 = (i / width as usize) as u32;
    let bx: u32 = x >> route_bits;
    let by: u32 = y >> route_bits;
    proof {
        vstd::bits::lemma_u32_shr_is_div(x, route_bits);
        vstd::bits::lemma_u32_shr_is_div(y, route_bits);
        lemma_pow2_pos(route_bits as nat);
        let p = pow2(route_bits as nat);
        assert(i as nat / width as nat <= i) by (nonlinear_arith)
            requires
                width >= 1,
        ;
        assert(bx <= x) by (nonlinear_arith)
            requires
                bx == x as nat / p,
                p > 0,
        ;
        assert(by <= y) by (nonlinear_arith)
            requires
                by == y as nat / p,
                p > 0,
        ;
        assert(by * route_width <= 0x1000_0000 * 0x4000) by (nonlinear_arith)
            requires
                by <= 0x1000_0000,
                route_width <= 0x4000,
        ;
    }
    let k: u64 = by as u64 * route_width as u64 + bx as u64;
    let px: u32 = if k < routes.len() as u64 {
        routes[k as usize]
    } else {
        0
    };
    ((px / 0x10000 % 256) * 256 + px / 0x100 % 256) as usize
}

fn emit_pixel(out: &mut Vec<u32>, cache: &mut Vec<u32>, cache_bits: u32, v: u32)
    requires
        cache_bits <= 11,
        old(cache)@.len() == cache_size(cache_bits as nat),
    ensures
        ({
            let p = emit(
                Pixels { out: old(out)@, cache: old(cache)@ },
                v,
                cache_bits as nat,
            );
            &&& final(out)@ == p.out
            &&& final(cache)@ == p.cache
        }),
        final(cache)@.len() == cache_size(cache_bits as nat),
{
    out.push(v);
    if cache_bits > 0 {
        let k: usize = cache_hash(v, cache_bits);
        cache.set(k, v);
    }
}

fn copy_back(out: &mut Vec<u32>, cache: &mut Vec<u32>, cache_bits: u32, dist: usize, n: usize)
    requires
        cache_bits <= 11,
        old(cache)@.len() == cache_size(cache_bits as nat),
        1 <= dist <= old(out)@.len(),
    ensures
        ({
            let p = repeat_back(
                Pixels { out: old(out)@, cache: old(cache)@ },
                dist as nat,
                n as nat,
                cache_bits as nat,
            );
            &&& final(out)@ == p.out
            &&& final(cache)@ == p.cache
        }),
        final(cache)@.len() == cache_size(cache_bits as nat),
{
    let ghost goal = repeat_back(
        Pixels { out: out@, cache: cache@ },
        dist as nat,
        n as nat,
        cache_bits as nat,
    );
    let mut k: usize = 0;
    while k < n
        invariant
            k <= n,
            cache_bits <= 11,
            cache@.len() == cache_size(cache_bits as nat),
            1 <= dist <= out@.len(),
            repeat_back(
                Pixels { out: out@, cache: cache@ },
                dist as nat,
                (n - k) as nat,
                cache_bits as nat,
            ) == goal,
        decreases n - k,
    {
        let v: u32 = out[out.len() - dist];
        let ghost p = Pixels { out: out@, cache: cache@ };
        emit_pixel(out, cache, cache_bits, v);
        assert(Pixels { out: out@, cache: cache@ } == emit(p, v, cache_bits as nat));
        k = k + 1;
    }
}

/// The tables and sizes that belong to a scene.
spec fn scene_ok(c: Scene, groups: Seq<HGroup>, cache_bits: u32, width: u32) -> bool {
    &&& cache_bits <= 11
    &&& 1 <= width <= MAX_SIDE
    &&& c.cache_bits == cache_bits
    &&& c.width == width
    &&& c.count <= 0x1000_0000
    &&& c.groups.len() == groups.len()
    &&& forall|k: int| 0 <= k < groups.len() ==> (#[trigger] groups[k]).wf()
    &&& forall|k: int| 0 <= k < groups.len() ==> (#[trigger] groups[k])@ == c.groups[k]
    &&& forall|k: int|
        0 <= k < groups.len() ==> group_ok((#[trigger] groups[k])@, cache_bits as nat)
}

fn read_literal(r: &mut BitR, g: &HGroup, sym: u16, Ghost(c): Ghost<Scene>, Ghost(p): Ghost<Pixels>) -> (v:
    Option<u32>)
    requires
        old(r).wf(),
        g.wf(),
        group_ok(g@, c.cache_bits),
        sym < 256,
    ensures
        final(r).wf(),
        match parse_literal(c, g@, p, sym as nat, old(r)@) {
            Some(d) => v is Some && d.0 == emit(p, v->0, c.cache_bits) && final(r)@ == d.1,
            None => v is None,
        },
{
    proof {
        lemma_symbol_in_alphabet(g.red@, 256, r@);
    }
    let rr: u16 = match g.red.decode(r) {
        Some(v) => v,
        None => {
            return None;
        },
    };
    proof {
        lemma_symbol_in_alphabet(g.blue@, 256, r@);
    }
    let bb: u16 = match g.blue.decode(r) {
        Some(v) => v,
        None => {
            return None;
        },
    };
    proof {
        lemma_symbol_in_alphabet(g.alpha@, 256, r@);
    }
    let aa: u16 = match g.alpha.decode(r) {
        Some(v) => v,
        None => {
            return None;
        },
    };
    Some(pack(aa as u32, rr as u32, sym as u32, bb as u32))
}

fn read_reference(
    r: &mut BitR,
    g: &HGroup,
    sym: u16,
    i: usize,
    width: u32,
    count: usize,
    Ghost(c): Ghost<Scene>,
    Ghost(p): Ghost<Pixels>,
) -> (v: Option<(usize, usize)>)
    requires
        old(r).wf(),
        g.wf(),
        group_ok(g@, c.cache_bits),
        sym < 24,
        c.width == width,
        1 <= width <= MAX_SIDE,
        c.count == count <= 0x1000_0000,
        p.out.len() == i < count,
    ensures
        final(r).wf(),
        match parse_reference(c, g@, p, sym as nat, old(r)@) {
            Some(d) => {
                &&& v is Some
                &&& 1 <= (v->0).0 <= i
                &&& d.0 == repeat_back(p, (v->0).0 as nat, (v->0).1 as nat, c.cache_bits)
                &&& final(r)@ == d.1
            },
            None => v is None,
        },
{
    let len: usize = prefix_value(sym as u32, r) as usize;
    proof {
        lemma_symbol_in_alphabet(g.dist@, 40, r@);
    }
    let prefix: u16 = match g.dist.decode(r) {
        Some(v) => v,
        None => {
            return None;
        },
    };
    let code: u32 = prefix_value(prefix as u32, r);
    let dist: usize = dist_code_to_pixels(code, width) as usize;
    if dist > i || i + len > count {
        return None;
    }
    Some((dist, len))
}

fn read_step(
    r: &mut BitR,
    g: &HGroup,
    out: &mut Vec<u32>,
    cache: &mut Vec<u32>,
    cache_bits: u32,
    width: u32,
    count: usize,
    Ghost(c): Ghost<Scene>,
) -> (ok: bool)
    requires
        old(r).wf(),
        g.wf(),
        cache_bits <= 11,
        group_ok(g@, cache_bits as nat),
        c.cache_bits == cache_bits,
        c.width == width,
        1 <= width <= MAX_SIDE,
        c.count == count <= 0x1000_0000,
        old(out)@.len() < count,
        old(cache)@.len() == cache_size(cache_bits as nat),
        group_of(c, old(out)@.len()) < c.groups.len(),
        c.groups[group_of(c, old(out)@.len()) as int] == g@,
    ensures
        final(r).wf(),
        match parse_step(c, Pixels { out: old(out)@, cache: old(cache)@ }, old(r)@) {
            Some(d) => {
                &&& ok
                &&& final(out)@ == d.0.out
                &&& final(cache)@ == d.0.cache
                &&& final(cache)@.len() == cache_size(cache_bits as nat)
                &&& final(r)@ == d.1
            },
            None => !ok,
        },
{
    let ghost p = Pixels { out: out@, cache: cache@ };
    proof {
        lemma_symbol_in_alphabet(g.green@, green_symbols(cache_bits as nat), r@);
    }
    let sym: u16 = match g.green.decode(r) {
        Some(v) => v,
        None => {
            return false;
        },
    };
    if sym < 256 {
        match read_literal(r, g, sym, Ghost(c), Ghost(p)) {
            Some(v) => {
                emit_pixel(out, cache, cache_bits, v);
                true
            },
            None => false,
        }
    } else if sym < 280 {
        let i: usize = out.len();
        match read_reference(r, g, sym - 256, i, width, count, Ghost(c), Ghost(p)) {
            Some((dist, len)) => {
                copy_back(out, cache, cache_bits, dist, len);
                true
            },
            None => false,
        }
    } else {
        let idx: usize = (sym - 280) as usize;
        if cache_bits == 0 || idx >= cache.len() {
            return false;
        }
        let v: u32 = cache[idx];
        out.push(v);
        true
    }
}

fn read_pixels(
    r: &mut BitR,
    groups: &Vec<HGroup>,
    routes: &Vec<u32>,
    route_bits: u32,
    route_width: u32,
    cache_bits: u32,
    width: u32,
    count: usize,
    Ghost(c): Ghost<Scene>,
) -> (px: Option<Vec<u32>>)
    requires
        old(r).wf(),
        scene_ok(c, groups@, cache_bits, width),
        1 <= route_width <= MAX_SIDE,
        route_bits <= 9,
        c.routes == routes@,
        c.route_bits == route_bits,
        c.route_width == route_width,
        c.count == count,
    ensures
        final(r).wf(),
        match parse_pixels(
            c,
            Pixels {
                out: Seq::empty(),
                cache: Seq::new(cache_size(cache_bits as nat), |i: int| 0u32),
            },
            old(r)@,
        ) {
            Some(d) => px is Some && px->0@ == d.0 && d.0.len() == count && final(r)@ == d.1,
            None => px is None,
        },
{
    let size: usize = table_size(cache_bits);
    let mut cache: Vec<u32> = vec![0u32; size];
    let mut out: Vec<u32> = Vec::new();
    let ghost zero = Seq::new(cache_size(cache_bits as nat), |i: int| 0u32);
    let ghost goal = parse_pixels(c, Pixels { out: Seq::empty(), cache: zero }, r@);
    assert(cache@ =~= zero);
    assert(out@ =~= Seq::empty());
    while out.len() < count
        invariant
            r.wf(),
            scene_ok(c, groups@, cache_bits, width),
            1 <= route_width <= MAX_SIDE,
            route_bits <= 9,
            c.routes == routes@,
            c.route_bits == route_bits,
            c.route_width == route_width,
            c.count == count,
            out@.len() <= count,
            cache@.len() == cache_size(cache_bits as nat),
            parse_pixels(c, Pixels { out: out@, cache: cache@ }, r@) == goal,
            goal == parse_pixels(
                c,
                Pixels {
                    out: Seq::empty(),
                    cache: Seq::new(cache_size(cache_bits as nat), |i: int| 0u32),
                },
                old(r)@,
            ),
        decreases count - out@.len(),
    {
        let ghost p = Pixels { out: out@, cache: cache@ };
        let i: usize = out.len();
        let k: usize = group_at(routes, route_bits, route_width, width, i, Ghost(c));
        if k >= groups.len() {
            return None;
        }
        proof {
            assert(group_ok(groups@[k as int]@, cache_bits as nat));
            lemma_step_grows(c, p, r@);
        }
        let ok: bool = read_step(
            r,
            &groups[k],
            &mut out,
            &mut cache,
            cache_bits,
            width,
            count,
            Ghost(c),
        );
        if !ok {
            return None;
        }
    }
    Some(out)
}

/// Decode an entropy-coded image into pixels. Only the main image (`allow_meta`)
/// may route its blocks to several groups of codes.
pub fn decode_vp8l_image(r: &mut BitR, width: u32, height: u32, allow_meta: bool) -> (px: Option<
    Vec<u32>,
>)
    requires
        old(r).wf(),
        1 <= width <= MAX_SIDE,
        1 <= height <= MAX_SIDE,
    ensures
        final(r).wf(),
        match parse_image(old(r)@, width as nat, height as nat, allow_meta) {
            Some(d) => px is Some && px->0@ == d.0 && d.0.len() == width * height && final(r)@
                == d.1,
            None => px is None,
        },
    decreases allow_meta as int,
{
    proof {
        vstd::arithmetic::power2::lemma2_to64();
        assert(width * height <= 0x1000_0000) by (nonlinear_arith)
            requires
                width <= 16384,
                height <= 16384,
        ;
    }
    let count: usize = width as usize * height as usize;
    let cache_bits: u32 = match read_cache_bits(r) {
        Some(b) => b,
        None => {
            return None;
        },
    };
    let mut route_bits: u32 = 0;
    let mut route_width: u32 = 1;
    let mut routes: Vec<u32> = Vec::new();
    let mut num_groups: usize = 1;
    assert(routes@ =~= Seq::empty());
    if allow_meta {
        if r.read(1) == 1 {
            route_bits = r.read(3) + 2;
            route_width = sub_size(width, route_bits);
            let route_height: u32 = sub_size(height, route_bits);
            let img: Vec<u32> = match decode_vp8l_image(r, route_width, route_height, false) {
                Some(v) => v,
                None => {
                    return None;
                },
            };
            num_groups = count_groups(&img);
            routes = img;
        }
    }
    let ghost body = r@;
    let groups: Vec<HGroup> = match read_groups(r, num_groups, cache_bits) {
        Some(gs) => gs,
        None => {
            return None;
        },
    };
    let ghost c = Scene {
        groups: (parse_groups(body, num_groups as nat, cache_bits as nat)->0).0,
        routes: routes@,
        route_bits: route_bits as nat,
        route_width: route_width as nat,
        cache_bits: cache_bits as nat,
        width: width as nat,
        count: width as nat * height as nat,
    };
    read_pixels(
        r,
        &groups,
        &routes,
        route_bits,
        route_width,
        cache_bits,
        width,
        count,
        Ghost(c),
    )
}

// ── laws ────────────────────────────────────────────────────────────────────

/// A back reference repeats what stands `dist` pixels before, pixel by pixel, so
/// that it may run into what it wrote itself; all that was there stays.
pub proof fn law_references_repeat(p: Pixels, dist: nat, n: nat, cache_bits: nat, i: int)
    requires
        1 <= dist <= p.out.len(),
        0 <= i < p.out.len() + n,
    ensures
        ({
            let q = repeat_back(p, dist, n, cache_bits).out;
            &&& q.len() == p.out.len() + n
            &&& i < p.out.len() ==> q[i] == p.out[i]
            &&& i >= p.out.len() ==> q[i] == q[i - dist]
        }),
    decreases n,
{
    lemma_repeat_len(p, dist, n, cache_bits);
    if n > 0 {
        let v = p.out[p.out.len() - dist];
        let e = emit(p, v, cache_bits);
        law_references_repeat(e, dist, (n - 1) as nat, cache_bits, i);
        if i == p.out.len() {
            law_references_repeat(e, dist, (n - 1) as nat, cache_bits, i - dist);
        }
    }
}

/// A pixel that was written is found in the colour cache under its own index,
/// and every other entry stays.
pub proof fn law_written_colours_are_found(p: Pixels, v: u32, cache_bits: nat, k: int)
    requires
        cache_bits > 0,
        cache_index(v, cache_bits) < p.cache.len(),
        0 <= k < p.cache.len(),
    ensures
        emit(p, v, cache_bits).out == p.out.push(v),
        emit(p, v, cache_bits).cache[cache_index(v, cache_bits) as int] == v,
        k != cache_index(v, cache_bits) ==> emit(p, v, cache_bits).cache[k] == p.cache[k],
{
}

/// The numbers of a prefix symbol follow on those of the one before it: the
/// largest number of a symbol and one more is the least of the next, and extra
/// bits count up from there.
pub proof fn law_prefix_numbers_leave_no_gap(
    prefix: nat,
    s: Seq<bool>,
    t: Seq<bool>,
    u: Seq<bool>,
)
    requires
        prefix >= 4 ==> peek_value(s, ((prefix - 2) / 2) as nat) == pow2(
            ((prefix - 2) / 2) as nat,
        ) - 1,
        prefix + 1 >= 4 ==> peek_value(t, ((prefix - 1) / 2) as nat) == 0,
    ensures
        prefix_number(0, s).0 == 1,
        prefix_number(prefix, s).0 + 1 == prefix_number(prefix + 1, t).0,
        prefix >= 3 ==> prefix_number(prefix + 1, u).0 == prefix_number(prefix + 1, t).0 + peek_value(
            u,
            ((prefix - 1) / 2) as nat,
        ),
{
    vstd::arithmetic::power2::lemma2_to64();
    if prefix >= 4 {
        let e = ((prefix - 2) / 2) as nat;
        let f = ((prefix - 1) / 2) as nat;
        let p = pow2(e);
        if prefix % 2 == 1 {
            assert(f == e + 1);
            vstd::arithmetic::power2::lemma_pow2_unfold(f);
            let a = 2 + prefix % 2;
            let b = 2 + (prefix + 1) % 2;
            let q = pow2(f);
            assert(a * p == 3 * p && b * q == 2 * q) by (nonlinear_arith)
                requires
                    a == 3,
                    b == 2,
            ;
            lemma_pow2_pos(e);
        } else {
            assert(f == e);
            let a = 2 + prefix % 2;
            let b = 2 + (prefix + 1) % 2;
            assert(a * p == 2 * p && b * p == 3 * p) by (nonlinear_arith)
                requires
                    a == 2,
                    b == 3,
            ;
            lemma_pow2_pos(e);
        }
    }
    if prefix == 3 {
        assert(((prefix - 1) / 2) as nat == 1);
        let b = 2 + (prefix + 1) % 2;
        let q = pow2(1);
        assert(b * q == 4) by (nonlinear_arith)
            requires
                b == 2,
                q == 2,
        ;
    }
}

/// Codes beyond the neighbourhood count pixels back, from one on.
pub proof fn law_far_distances_count_on(code: nat, width: nat)
    requires
        code > 120,
    ensures
        pixel_distance(121, width) == 1,
        pixel_distance(code + 1, width) == pixel_distance(code, width) + 1,
{
}

/// The pixels of one block share one group of codes: that of its entry, row by
/// row, in the image that routes them, which is the number in its red and green
/// channels. Without such an image all pixels share the first.
pub proof fn law_blocks_share_their_codes(c: Scene, x: nat, y: nat)
    requires
        x < c.width,
    ensures
        ({
            let side = pow2(c.route_bits);
            let k = (y / side) * c.route_width + x / side;
            &&& c.routes.len() == 0 ==> group_of(c, y * c.width + x) == 0
            &&& k < c.routes.len() ==> group_of(c, y * c.width + x) == 256 * red(
                c.routes[k as int],
            ) + green(c.routes[k as int])
        }),
{
    let i = y * c.width + x;
    let w = c.width;
    assert(i / w == y && i % w == x) by (nonlinear_arith)
        requires
            i == y * w + x,
            x < w,
    ;
}

} // verus!
