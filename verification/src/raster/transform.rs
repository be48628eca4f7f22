//! The reversible transforms of a lossless WebP image, undone.
use super::argb::{add_argb, alpha, argb, blue, green, pack, red, sum_of};
use super::bits::BitR;
use super::vp8l::{
    blocks, decode_vp8l_image, lemma_blocks_bounds, parse_image, sub_size, MAX_SIDE,
};
use vstd::arithmetic::power2::pow2;
use vstd::prelude::*;

verus! {

// ── prediction from neighbours ──────────────────────────────────────────────

/// Channel-wise mean, rounded down.
pub open spec fn mean(p: u32, q: u32) -> u32 {
    argb(
        (alpha(p) + alpha(q)) / 2,
        (red(p) + red(q)) / 2,
        (green(p) + green(q)) / 2,
        (blue(p) + blue(q)) / 2,
    )
}

/// The mean of two pixels, channel by channel.
pub fn avg2(a: u32, b: u32) -> (p: u32)
    ensures
        p == mean(a, b),
{
    pack(
        (a / 0x1000000 + b / 0x1000000) / 2,
        (a / 0x10000 % 256 + b / 0x10000 % 256) / 2,
        (a / 0x100 % 256 + b / 0x100 % 256) / 2,
        (a % 256 + b % 256) / 2,
    )
}

pub open spec fn clamp_byte(v: int) -> nat {
    if v < 0 {
        0
    } else if v > 255 {
        255
    } else {
        v as nat
    }
}

/// `p + q - o`, channel-wise, clamped.
pub open spec fn gradient(p: u32, q: u32, o: u32) -> u32 {
    argb(
        clamp_byte(alpha(p) + alpha(q) - alpha(o)),
        clamp_byte(red(p) + red(q) - red(o)),
        clamp_byte(green(p) + green(q) - green(o)),
        clamp_byte(blue(p) + blue(q) - blue(o)),
    )
}

fn clamp_sum(a: u32, b: u32, c: u32) -> (v: u32)
    requires
        a < 256,
        b < 256,
        c < 256,
    ensures
        v == clamp_byte(a + b - c),
        v < 256,
{
    if a + b < c {
        0
    } else if a + b - c > 255 {
        255
    } else {
        a + b - c
    }
}

/// `a + b - c`, channel by channel, clamped to a byte.
pub fn clamp_add_sub_full(a: u32, b: u32, c: u32) -> (p: u32)
    ensures
        p == gradient(a, b, c),
{
    pack(
        clamp_sum(a / 0x1000000, b / 0x1000000, c / 0x1000000),
        clamp_sum(a / 0x10000 % 256, b / 0x10000 % 256, c / 0x10000 % 256),
        clamp_sum(a / 0x100 % 256, b / 0x100 % 256, c / 0x100 % 256),
        clamp_sum(a % 256, b % 256, c % 256),
    )
}

/// Half of `a - b`, rounded toward zero.
pub open spec fn half_step(a: nat, b: nat) -> int {
    if a >= b {
        (a - b) / 2
    } else {
        -((b - a) / 2)
    }
}

/// `p` and half of its distance from `o`, channel-wise, clamped.
pub open spec fn overshoot(p: u32, o: u32) -> u32 {
    argb(
        clamp_byte(alpha(p) + half_step(alpha(p), alpha(o))),
        clamp_byte(red(p) + half_step(red(p), red(o))),
        clamp_byte(green(p) + half_step(green(p), green(o))),
        clamp_byte(blue(p) + half_step(blue(p), blue(o))),
    )
}

fn clamp_half(a: u32, b: u32) -> (v: u32)
    requires
        a < 256,
        b < 256,
    ensures
        v == clamp_byte(a + half_step(a as nat, b as nat)),
        v < 256,
{
    if a >= b {
        let s: u32 = a + (a - b) / 2;
        if s > 255 {
            255
        } else {
            s
        }
    } else {
        let d: u32 = (b - a) / 2;
        if d > a {
            0
        } else {
            a - d
        }
    }
}

/// `a + (a - b) / 2`, channel by channel, clamped to a byte.
pub fn clamp_add_sub_half(a: u32, b: u32) -> (p: u32)
    ensures
        p == overshoot(a, b),
{
    pack(
        clamp_half(a / 0x1000000, b / 0x1000000),
        clamp_half(a / 0x10000 % 256, b / 0x10000 % 256),
        clamp_half(a / 0x100 % 256, b / 0x100 % 256),
        clamp_half(a % 256, b % 256),
    )
}

pub open spec fn gap(a: nat, b: nat) -> nat {
    if a >= b {
        (a - b) as nat
    } else {
        (b - a) as nat
    }
}

/// The sum of the channel differences.
pub open spec fn distance(p: u32, q: u32) -> nat {
    gap(alpha(p), alpha(q)) + gap(red(p), red(q)) + gap(green(p), green(q)) + gap(
        blue(p),
        blue(q),
    )
}

/// `l` where the top differs less from the corner than the left does, else `t`.
pub open spec fn selected(t: u32, l: u32, tl: u32) -> u32 {
    if distance(t, tl) < distance(l, tl) {
        l
    } else {
        t
    }
}

fn byte_gap(a: u32, b: u32) -> (d: u32)
    requires
        a < 256,
        b < 256,
    ensures
        d == gap(a as nat, b as nat),
        d < 256,
{
    if a >= b {
        a - b
    } else {
        b - a
    }
}

fn channel_distance(p: u32, q: u32) -> (d: u32)
    ensures
        d == distance(p, q),
{
    byte_gap(p / 0x1000000, q / 0x1000000) + byte_gap(p / 0x10000 % 256, q / 0x10000 % 256)
        + byte_gap(p / 0x100 % 256, q / 0x100 % 256) + byte_gap(p % 256, q % 256)
}

/// Choose the top or the left neighbour by the gradient.
pub fn select_pred(t: u32, l: u32, tl: u32) -> (p: u32)
    ensures
        p == selected(t, l, tl),
{
    if channel_distance(t, tl) < channel_distance(l, tl) {
        l
    } else {
        t
    }
}

/// The prediction of a mode from the left, top, top-left and top-right
/// neighbours.
pub open spec fn prediction(mode: nat, l: u32, t: u32, tl: u32, tr: u32) -> u32 {
    if mode == 0 {
        0xff00_0000
    } else if mode == 1 {
        l
    } else if mode == 2 {
        t
    } else if mode == 3 {
        tr
    } else if mode == 4 {
        tl
    } else if mode == 5 {
        mean(mean(l, tr), t)
    } else if mode == 6 {
        mean(l, tl)
    } else if mode == 7 {
        mean(l, t)
    } else if mode == 8 {
        mean(tl, t)
    } else if mode == 9 {
        mean(t, tr)
    } else if mode == 10 {
        mean(mean(l, tl), mean(t, tr))
    } else if mode == 11 {
        selected(t, l, tl)
    } else if mode == 12 {
        gradient(l, t, tl)
    } else if mode == 13 {
        overshoot(mean(l, t), tl)
    } else {
        l
    }
}

/// Predict a pixel from its neighbours.
pub fn predict(mode: u8, l: u32, t: u32, tl: u32, tr: u32) -> (p: u32)
    ensures
        p == prediction(mode as nat, l, t, tl, tr),
{
    match mode {
        0 => 0xff00_0000,
        1 => l,
        2 => t,
        3 => tr,
        4 => tl,
        5 => avg2(avg2(l, tr), t),
        6 => avg2(l, tl),
        7 => avg2(l, t),
        8 => avg2(tl, t),
        9 => avg2(t, tr),
        10 => avg2(avg2(l, tl), avg2(t, tr)),
        11 => select_pred(t, l, tl),
        12 => clamp_add_sub_full(l, t, tl),
        13 => clamp_add_sub_half(avg2(l, t), tl),
        _ => l,
    }
}

/// The block of pixel `i`.
pub open spec fn block_of(i: nat, width: nat, bits: nat) -> nat {
    ((i / width) / pow2(bits)) * blocks(width, bits) + (i % width) / pow2(bits)
}

/// The prediction of pixel `i`, from the pixels before it. The first row and
/// column use fixed neighbours; elsewhere the mode is in the green channel of
/// the block's entry.
pub open spec fn predicted(px: Seq<u32>, i: nat, width: nat, bits: nat, modes: Seq<u32>) -> Option<
    u32,
> {
    let w = width as int;
    if i == 0 {
        Some(0xff00_0000)
    } else if i < width {
        Some(px[i - 1])
    } else if i % width == 0 {
        Some(px[i - w])
    } else if block_of(i, width, bits) >= modes.len() {
        None
    } else {
        Some(
            prediction(
                green(modes[block_of(i, width, bits) as int]),
                px[i - 1],
                px[i - w],
                px[i - w - 1],
                px[i - w + 1],
            ),
        )
    }
}

/// The pixels once the first `upto` have their predictions added back.
pub open spec fn unpredicted(
    px: Seq<u32>,
    width: nat,
    bits: nat,
    modes: Seq<u32>,
    upto: nat,
) -> Option<Seq<u32>>
    decreases upto,
{
    if upto == 0 {
        Some(px)
    } else {
        let i = (upto - 1) as nat;
        match unpredicted(px, width, bits, modes, i) {
            None => None,
            Some(q) => match predicted(q, i, width, bits, modes) {
                None => None,
                Some(v) => Some(q.update(i as int, sum_of(q[i as int], v))),
            },
        }
    }
}

proof fn lemma_unpredicted_fails(
    px: Seq<u32>,
    width: nat,
    bits: nat,
    modes: Seq<u32>,
    a: nat,
    b: nat,
)
    requires
        a <= b,
        unpredicted(px, width, bits, modes, a) is None,
    ensures
        unpredicted(px, width, bits, modes, b) is None,
    decreases b,
{
    if a < b {
        lemma_unpredicted_fails(px, width, bits, modes, a, (b - 1) as nat);
    }
}

fn block_index(i: usize, width: u32, bits: u32) -> (b: usize)
    requires
        1 <= width <= MAX_SIDE,
        bits <= 9,
        i < 0x1000_0000,
    ensures
        b == block_of(i as nat, width as nat, bits as nat),
{
    let x: usize = i % width as usize;
    let y: usize = i / width as usize;
    proof {
        vstd::bits::lemma_usize_shr_is_div(x, bits as usize);
        vstd::bits::lemma_usize_shr_is_div(y, bits as usize);
        lemma_blocks_bounds(width as nat, bits as nat);
        let p = pow2(bits as nat);
        assert(i as nat / width as nat <= i) by (nonlinear_arith)
            requires
                width >= 1,
        ;
        assert(x as nat / p <= x) by (nonlinear_arith)
            requires
                p > 0,
        ;
        let by = y as nat / p;
        let xs = blocks(width as nat, bits as nat);
        lemma_row_fits(i as nat, width as nat, p, by, xs);
    }
    let xs: usize = sub_size(width, bits) as usize;
    (y >> bits) * xs + (x >> bits)
}

proof fn lemma_row_fits(i: nat, width: nat, p: nat, by: nat, xs: nat)
    requires
        1 <= width <= MAX_SIDE,
        p > 0,
        i < 0x1000_0000,
        by == (i / width) / p,
        xs <= width,
    ensures
        by * xs <= 0x1000_0000,
{
    let y = i / width;
    assert(by <= y) by (nonlinear_arith)
        requires
            by == y / p,
            p > 0,
    ;
    assert(y * width <= i) by (nonlinear_arith)
        requires
            y == i / width,
            width >= 1,
    ;
    assert(by * xs <= y * width) by (nonlinear_arith)
        requires
            by <= y,
            xs <= width,
    ;
}

/// Add the predictions back, pixel by pixel. `None` when the block image is too
/// small.
pub fn apply_predictor(px: &mut Vec<u32>, width: u32, height: u32, bits: u32, pred_img: &[u32]) -> (r:
    Option<()>)
    requires
        1 <= width <= MAX_SIDE,
        1 <= height <= MAX_SIDE,
        bits <= 9,
        old(px)@.len() == width * height,
    ensures
        match unpredicted(
            old(px)@,
            width as nat,
            bits as nat,
            pred_img@,
            width as nat * height as nat,
        ) {
            Some(q) => r is Some && final(px)@ == q && q.len() == width * height,
            None => r is None,
        },
{
    let ghost px0 = px@;
    let w: usize = width as usize;
    proof {
        assert(width * height <= 0x1000_0000) by (nonlinear_arith)
            requires
                width <= 16384,
                height <= 16384,
        ;
    }
    let n: usize = width as usize * height as usize;
    let mut i: usize = 0;
    while i < n
        invariant
            1 <= width <= MAX_SIDE,
            bits <= 9,
            w == width,
            i <= n <= 0x1000_0000,
            n == width as nat * height as nat,
            px@.len() == n,
            px0 == old(px)@,
            unpredicted(px0, width as nat, bits as nat, pred_img@, i as nat) == Some(px@),
        decreases n - i,
    {
        let v: u32 = if i == 0 {
            0xff00_0000
        } else if i < w {
            px[i - 1]
        } else if i % w == 0 {
            px[i - w]
        } else {
            let b: usize = block_index(i, width, bits);
            if b >= pred_img.len() {
                proof {
                    lemma_unpredicted_fails(
                        px0,
                        width as nat,
                        bits as nat,
                        pred_img@,
                        (i + 1) as nat,
                        n as nat,
                    );
                }
                return None;
            }
            let mode: u8 = (pred_img[b] / 0x100 % 256) as u8;
            proof {
                assert(w > 1) by {
                    if w == 1 {
                        assert(i % w == 0);
                    }
                }
                assert(i > w) by {
                    if i == w {
                        vstd::arithmetic::div_mod::lemma_mod_self_0(w as int);
                    }
                }
            }
            predict(mode, px[i - 1], px[i - w], px[i - w - 1], px[i - w + 1])
        };
        let u: u32 = add_argb(px[i], v);
        px.set(i, u);
        i = i + 1;
    }
    Some(())
}

// ── colour correlation ──────────────────────────────────────────────────────

/// A byte read as a signed number.
pub open spec fn signed(v: nat) -> int {
    if v < 128 {
        v as int
    } else {
        v - 256
    }
}

/// A pixel with red and blue correlated with green, and blue with red, by the
/// signed multipliers in `c`.
pub open spec fn recolored(p: u32, c: u32) -> u32 {
    let g = signed(green(p));
    let r = red(p) + (signed(blue(c)) * g) / 32;
    let b = blue(p) + (signed(green(c)) * g) / 32 + (signed(red(c)) * signed((r % 256) as nat))
        / 32;
    argb(alpha(p), (r % 256) as nat, green(p), (b % 256) as nat)
}

/// The pixels of an image recoloured block by block. `None` when the block
/// image is too small.
pub open spec fn uncolored(px: Seq<u32>, width: nat, bits: nat, img: Seq<u32>) -> Option<
    Seq<u32>,
> {
    if exists|i: int|
        0 <= i < px.len() && #[trigger] block_of(i as nat, width, bits) >= img.len() {
        None
    } else {
        Some(
            Seq::new(
                px.len(),
                |i: int| recolored(px[i], img[block_of(i as nat, width, bits) as int]),
            ),
        )
    }
}

/// A byte read as a signed number.
pub fn sign_ext8(v: u32) -> (r: i32)
    ensures
        r == signed(v as nat % 256),
{
    let b: u32 = v % 256;
    if b < 128 {
        b as i32
    } else {
        b as i32 - 256
    }
}

/// A product of two signed bytes, divided by 32 and rounded down.
fn delta(a: i32, b: i32) -> (r: i32)
    requires
        -128 <= a <= 127,
        -128 <= b <= 127,
    ensures
        r == (a * b) / 32,
        -508 <= r <= 512,
{
    proof {
        assert(-16256 <= a * b <= 16384) by (nonlinear_arith)
            requires
                -128 <= a <= 127,
                -128 <= b <= 127,
        ;
    }
    let p: i32 = a * b;
    let q: u32 = (p + 0x8000) as u32;
    (q / 32) as i32 - 0x400
}

/// The low byte of a small signed number.
fn low_byte(v: i32) -> (r: u32)
    requires
        -0x1000 <= v <= 0x1000,
    ensures
        r == v as int % 256,
        r < 256,
{
    ((v + 0x1000) as u32) % 256
}

fn recolor(p: u32, c: u32) -> (q: u32)
    ensures
        q == recolored(p, c),
{
    let g: i32 = sign_ext8(p / 0x100);
    let r: i32 = (p / 0x10000 % 256) as i32 + delta(sign_ext8(c), g);
    let low: u32 = low_byte(r);
    let b: i32 = (p % 256) as i32 + delta(sign_ext8(c / 0x100), g) + delta(
        sign_ext8(c / 0x10000),
        sign_ext8(low),
    );
    pack(p / 0x1000000, low, p / 0x100 % 256, low_byte(b))
}

/// Undo the colour transform. `None` when the block image is too small.
pub fn apply_color_transform(
    px: &mut Vec<u32>,
    width: u32,
    height: u32,
    bits: u32,
    cimg: &[u32],
) -> (r: Option<()>)
    requires
        1 <= width <= MAX_SIDE,
        1 <= height <= MAX_SIDE,
        bits <= 9,
        old(px)@.len() == width * height,
    ensures
        match uncolored(old(px)@, width as nat, bits as nat, cimg@) {
            Some(q) => r is Some && final(px)@ == q && q.len() == width * height,
            None => r is None,
        },
{
    let ghost px0 = px@;
    proof {
        assert(width * height <= 0x1000_0000) by (nonlinear_arith)
            requires
                width <= 16384,
                height <= 16384,
        ;
    }
    let n: usize = px.len();
    let mut i: usize = 0;
    while i < n
        invariant
            1 <= width <= MAX_SIDE,
            bits <= 9,
            i <= n <= 0x1000_0000,
            px@.len() == n,
            px0 == old(px)@,
            px0.len() == n,
            forall|k: int|
                0 <= k < i ==> #[trigger] block_of(k as nat, width as nat, bits as nat)
                    < cimg@.len(),
            forall|k: int|
                0 <= k < i ==> #[trigger] px@[k] == recolored(
                    px0[k],
                    cimg@[block_of(k as nat, width as nat, bits as nat) as int],
                ),
            forall|k: int| i <= k < n ==> #[trigger] px@[k] == px0[k],
        decreases n - i,
    {
        let b: usize = block_index(i, width, bits);
        if b >= cimg.len() {
            proof {
                let k = i as int;
                assert(block_of(k as nat, width as nat, bits as nat) >= cimg@.len());
            }
            return None;
        }
        let u: u32 = recolor(px[i], cimg[b]);
        px.set(i, u);
        i = i + 1;
    }
    proof {
        let q = Seq::new(
            px0.len(),
            |k: int|
                recolored(px0[k], cimg@[block_of(k as nat, width as nat, bits as nat) as int]),
        );
        assert(px@ =~= q);
    }
    Some(())
}

/// A pixel with green added to red and blue.
pub open spec fn green_added(p: u32) -> u32 {
    argb(alpha(p), (red(p) + green(p)) % 256, green(p), (blue(p) + green(p)) % 256)
}

/// A pixel with green taken from red and blue.
pub open spec fn green_subtracted(p: u32) -> u32 {
    argb(
        alpha(p),
        ((red(p) + 256 - green(p)) % 256) as nat,
        green(p),
        ((blue(p) + 256 - green(p)) % 256) as nat,
    )
}

/// Adding green back undoes subtracting it.
pub proof fn law_green_round_trip(p: u32)
    ensures
        green_added(green_subtracted(p)) == p,
{
    let r = ((red(p) + 256 - green(p)) % 256) as nat;
    let b = ((blue(p) + 256 - green(p)) % 256) as nat;
    super::argb::law_channels_pack(p);
    super::argb::law_pack_channels(alpha(p), r, green(p), b);
    super::argb::lemma_mod_back(red(p), green(p));
    super::argb::lemma_mod_back(blue(p), green(p));
    let q = green_subtracted(p);
    assert(alpha(q) == alpha(p) && red(q) == r && green(q) == green(p) && blue(q) == b);
    assert(green_added(q) == argb(alpha(p), red(p), green(p), blue(p)));
}

/// Add the green channel back to red and blue.
pub fn apply_subtract_green(px: &mut Vec<u32>)
    ensures
        final(px)@ == old(px)@.map_values(|p: u32| green_added(p)),
{
    let ghost px0 = px@;
    let n: usize = px.len();
    let mut i: usize = 0;
    while i < n
        invariant
            i <= n,
            px@.len() == n == px0.len(),
            forall|k: int| 0 <= k < i ==> #[trigger] px@[k] == green_added(px0[k]),
            forall|k: int| i <= k < n ==> #[trigger] px@[k] == px0[k],
        decreases n - i,
    {
        let p: u32 = px[i];
        let g: u32 = p / 0x100 % 256;
        let u: u32 = pack(
            p / 0x1000000,
            (p / 0x10000 % 256 + g) % 256,
            g,
            (p % 256 + g) % 256,
        );
        px.set(i, u);
        i = i + 1;
    }
    assert(px@ =~= px0.map_values(|p: u32| green_added(p)));
}

// ── palettes ────────────────────────────────────────────────────────────────

/// How many doublings of the index count one green byte holds, for a palette of
/// this size.
pub open spec fn bundle_bits(size: nat) -> nat {
    if size <= 2 {
        3
    } else if size <= 4 {
        2
    } else if size <= 16 {
        1
    } else {
        0
    }
}

/// The palette entry of an index; transparent black when there is none.
pub open spec fn palette_color(palette: Seq<u32>, i: nat) -> u32 {
    if i < palette.len() {
        palette[i as int]
    } else {
        0
    }
}

/// The packed sample that holds pixel `i`.
pub open spec fn bundle_of(i: nat, width: nat, bits: nat) -> nat {
    (i / width) * blocks(width, bits) + (i % width) / pow2(bits)
}

/// The palette index of pixel `i` in its packed sample, low bits first.
pub open spec fn bundled_index(p: u32, i: nat, width: nat, bits: nat) -> nat {
    let field = 8nat / pow2(bits);
    let sub = (i % width) % pow2(bits);
    (green(p) / pow2(sub * field)) % pow2(field)
}

/// The pixels of an indexed image. `None` when it has too few samples.
pub open spec fn unindexed(px: Seq<u32>, width: nat, height: nat, palette: Seq<u32>) -> Option<
    Seq<u32>,
> {
    let n = width * height;
    let bits = bundle_bits(palette.len());
    if bits == 0 {
        Some(
            Seq::new(
                n,
                |i: int|
                    if i < px.len() {
                        palette_color(palette, green(px[i]))
                    } else {
                        0
                    },
            ),
        )
    } else if exists|i: int| 0 <= i < n && #[trigger] bundle_of(i as nat, width, bits) >= px.len() {
        None
    } else {
        Some(
            Seq::new(
                n,
                |i: int|
                    palette_color(
                        palette,
                        bundled_index(
                            px[bundle_of(i as nat, width, bits) as int],
                            i as nat,
                            width,
                            bits,
                        ),
                    ),
            ),
        )
    }
}

fn color_at(palette: &[u32], i: usize) -> (p: u32)
    ensures
        p == palette_color(palette@, i as nat),
{
    if i < palette.len() {
        palette[i]
    } else {
        0
    }
}

/// The number of bits by which a palette of this size shrinks an image.
pub fn bundle_width(size: usize) -> (bits: u32)
    ensures
        bits == bundle_bits(size as nat),
        bits <= 3,
{
    if size <= 2 {
        3
    } else if size <= 4 {
        2
    } else if size <= 16 {
        1
    } else {
        0
    }
}

fn unbundle(px: &[u32], i: usize, width: u32, bits: u32) -> (idx: Option<usize>)
    requires
        1 <= width <= MAX_SIDE,
        1 <= bits <= 3,
        i < 0x1000_0000,
    ensures
        ({
            let b = bundle_of(i as nat, width as nat, bits as nat);
            if b < px@.len() {
                idx is Some && idx->0 == bundled_index(
                    px@[b as int],
                    i as nat,
                    width as nat,
                    bits as nat,
                )
            } else {
                idx is None
            }
        }),
{
    proof {
        vstd::arithmetic::power2::lemma2_to64();
        lemma_blocks_bounds(width as nat, bits as nat);
        lemma_row_fits(i as nat, width as nat, 1, i as nat / width as nat, blocks(width as nat, bits as nat));
    }
    let per: usize = if bits == 1 {
        2
    } else if bits == 2 {
        4
    } else {
        8
    };
    let field: u32 = if bits == 1 {
        4
    } else if bits == 2 {
        2
    } else {
        1
    };
    let x: usize = i % width as usize;
    let packed_w: usize = sub_size(width, bits) as usize;
    let b: usize = (i / width as usize) * packed_w + x / per;
    if b >= px.len() {
        return None;
    }
    let g: u32 = px[b] / 0x100 % 256;
    let sub: u32 = (x % per) as u32;
    let shift: u32 = sub * field;
    let modulus: u32 = if bits == 1 {
        16
    } else if bits == 2 {
        4
    } else {
        2
    };
    proof {
        vstd::bits::lemma_u32_shr_is_div(g, shift);
    }
    Some(((g >> shift) % modulus) as usize)
}

/// Replace indices by palette entries, taking packed samples apart.
pub fn apply_color_indexing(px: &[u32], width: u32, height: u32, palette: &[u32]) -> (r: Option<
    Vec<u32>,
>)
    requires
        1 <= width <= MAX_SIDE,
        1 <= height <= MAX_SIDE,
    ensures
        match unindexed(px@, width as nat, height as nat, palette@) {
            Some(q) => r is Some && r->0@ == q && q.len() == width * height,
            None => r is None,
        },
{
    let bits: u32 = bundle_width(palette.len());
    proof {
        assert(width * height <= 0x1000_0000) by (nonlinear_arith)
            requires
                width <= 16384,
                height <= 16384,
        ;
    }
    let n: usize = width as usize * height as usize;
    let mut out: Vec<u32> = Vec::new();
    let mut i: usize = 0;
    if bits == 0 {
        while i < n
            invariant
                i <= n,
                out@.len() == i,
                forall|k: int|
                    0 <= k < i ==> #[trigger] out@[k] == if k < px@.len() {
                        palette_color(palette@, green(px@[k]))
                    } else {
                        0
                    },
            decreases n - i,
        {
            if i < px.len() {
                out.push(color_at(palette, (px[i] / 0x100 % 256) as usize));
            } else {
                out.push(0);
            }
            i = i + 1;
        }
        proof {
            let q = unindexed(px@, width as nat, height as nat, palette@)->0;
            assert(out@ =~= q);
        }
        return Some(out);
    }
    while i < n
        invariant
            i <= n <= 0x1000_0000,
            n == width * height,
            1 <= width <= MAX_SIDE,
            1 <= bits <= 3,
            bits == bundle_bits(palette@.len()),
            out@.len() == i,
            forall|k: int|
                0 <= k < i ==> #[trigger] bundle_of(k as nat, width as nat, bits as nat)
                    < px@.len(),
            forall|k: int|
                0 <= k < i ==> #[trigger] out@[k] == palette_color(
                    palette@,
                    bundled_index(
                        px@[bundle_of(k as nat, width as nat, bits as nat) as int],
                        k as nat,
                        width as nat,
                        bits as nat,
                    ),
                ),
        decreases n - i,
    {
        match unbundle(px, i, width, bits) {
            Some(idx) => {
                out.push(color_at(palette, idx));
            },
            None => {
                proof {
                    let k = i as int;
                    assert(bundle_of(k as nat, width as nat, bits as nat) >= px@.len());
                }
                return None;
            },
        }
        i = i + 1;
    }
    proof {
        let q = unindexed(px@, width as nat, height as nat, palette@)->0;
        assert(out@ =~= q);
    }
    Some(out)
}

/// Entries stored as differences, summed up.
pub open spec fn summed(px: Seq<u32>, upto: nat) -> Seq<u32>
    decreases upto,
{
    if upto == 0 {
        Seq::empty()
    } else {
        let q = summed(px, (upto - 1) as nat);
        let v = px[upto - 1];
        q.push(
            if upto == 1 {
                v
            } else {
                sum_of(v, q[upto - 2])
            },
        )
    }
}

/// A palette: a one-row image of differences.
pub open spec fn parse_palette(s: Seq<bool>, size: nat) -> Option<(Seq<u32>, Seq<bool>)> {
    match parse_image(s, size, 1, false) {
        None => None,
        Some((px, rest)) => Some((summed(px, px.len()), rest)),
    }
}

/// Read a palette of `size` entries.
pub fn read_palette(r: &mut BitR, size: u32) -> (p: Option<Vec<u32>>)
    requires
        old(r).wf(),
        1 <= size <= 256,
    ensures
        final(r).wf(),
        match parse_palette(old(r)@, size as nat) {
            Some(d) => p is Some && p->0@ == d.0 && d.0.len() == size && final(r)@ == d.1,
            None => p is None,
        },
{
    let px: Vec<u32> = match decode_vp8l_image(r, size, 1, false) {
        Some(px) => px,
        None => {
            return None;
        },
    };
    let mut pal: Vec<u32> = Vec::new();
    let mut k: usize = 0;
    assert(pal@ =~= summed(px@, 0));
    while k < px.len()
        invariant
            k <= px.len(),
            pal@ == summed(px@, k as nat),
            pal@.len() == k,
        decreases px.len() - k,
    {
        if k == 0 {
            pal.push(px[k]);
        } else {
            let v: u32 = add_argb(px[k], pal[k - 1]);
            pal.push(v);
        }
        k = k + 1;
        assert(pal@ =~= summed(px@, k as nat));
    }
    Some(pal)
}

// ── laws of prediction ──────────────────────────────────────────────────────

/// One of the four channels of a pixel.
#[verifier::opaque]
pub open spec fn channel(p: u32, k: int) -> int {
    if k == 0 {
        alpha(p) as int
    } else if k == 1 {
        red(p) as int
    } else if k == 2 {
        green(p) as int
    } else {
        blue(p) as int
    }
}

proof fn lemma_mean_channel(p: u32, q: u32, k: int)
    ensures
        0 <= channel(p, k) < 256,
        0 <= channel(q, k) < 256,
        channel(mean(p, q), k) == (channel(p, k) + channel(q, k)) / 2,
{
    reveal(channel);
    super::argb::law_channels_pack(p);
    super::argb::law_channels_pack(q);
    super::argb::law_pack_channels(
        (alpha(p) + alpha(q)) / 2,
        (red(p) + red(q)) / 2,
        (green(p) + green(q)) / 2,
        (blue(p) + blue(q)) / 2,
    );
}

/// What an averaging mode takes of the left, top, top-left and top-right
/// neighbours, in quarters.
pub open spec fn quarters(mode: nat, l: int, t: int, tl: int, tr: int) -> int {
    if mode == 1 {
        4 * l
    } else if mode == 2 {
        4 * t
    } else if mode == 3 {
        4 * tr
    } else if mode == 4 {
        4 * tl
    } else if mode == 5 {
        l + 2 * t + tr
    } else if mode == 6 {
        2 * l + 2 * tl
    } else if mode == 7 {
        2 * l + 2 * t
    } else if mode == 8 {
        2 * tl + 2 * t
    } else if mode == 9 {
        2 * t + 2 * tr
    } else {
        l + t + tl + tr
    }
}

/// A mode that averages predicts each channel as the weighted mean of that
/// channel of its neighbours, rounded down, or, of all four of them, one less.
pub proof fn law_averages_are_weighted_means(
    mode: nat,
    l: u32,
    t: u32,
    tl: u32,
    tr: u32,
    k: int,
)
    requires
        1 <= mode <= 10,
    ensures
        ({
            let whole = quarters(
                mode,
                channel(l, k),
                channel(t, k),
                channel(tl, k),
                channel(tr, k),
            );
            let v = channel(prediction(mode, l, t, tl, tr), k);
            &&& 4 * v <= whole <= 4 * v + 4
            &&& mode != 10 ==> v == whole / 4
        }),
{
    if mode == 5 {
        lemma_mean_channel(l, tr, k);
        lemma_mean_channel(mean(l, tr), t, k);
    } else if mode == 6 {
        lemma_mean_channel(l, tl, k);
    } else if mode == 7 {
        lemma_mean_channel(l, t, k);
    } else if mode == 8 {
        lemma_mean_channel(tl, t, k);
    } else if mode == 9 {
        lemma_mean_channel(t, tr, k);
    } else if mode == 10 {
        lemma_mean_channel(l, tl, k);
        lemma_mean_channel(t, tr, k);
        lemma_mean_channel(mean(l, tl), mean(t, tr), k);
    }
}

proof fn lemma_clamp_channel(p: u32, q: u32, o: u32, k: int)
    ensures
        channel(gradient(p, q, o), k) == clamp_byte(channel(p, k) + channel(q, k) - channel(o, k)),
        channel(overshoot(p, o), k) == clamp_byte(
            channel(p, k) + half_step(channel(p, k) as nat, channel(o, k) as nat),
        ),
        0 <= channel(p, k) < 256,
        0 <= channel(q, k) < 256,
        0 <= channel(o, k) < 256,
{
    reveal(channel);
    super::argb::law_channels_pack(p);
    super::argb::law_channels_pack(q);
    super::argb::law_channels_pack(o);
    super::argb::law_pack_channels(
        clamp_byte(alpha(p) + alpha(q) - alpha(o)),
        clamp_byte(red(p) + red(q) - red(o)),
        clamp_byte(green(p) + green(q) - green(o)),
        clamp_byte(blue(p) + blue(q) - blue(o)),
    );
    super::argb::law_pack_channels(
        clamp_byte(alpha(p) + half_step(alpha(p), alpha(o))),
        clamp_byte(red(p) + half_step(red(p), red(o))),
        clamp_byte(green(p) + half_step(green(p), green(o))),
        clamp_byte(blue(p) + half_step(blue(p), blue(o))),
    );
}

/// How far pixel `p` is from the plane through the neighbours, which goes on
/// from the corner as the left and the top do, summed over the channels.
pub open spec fn off_plane(p: u32, l: u32, t: u32, tl: u32, n: int) -> int
    decreases n,
{
    if n <= 0 {
        0
    } else {
        let d = channel(p, n - 1) - (channel(l, n - 1) + channel(t, n - 1) - channel(tl, n - 1));
        off_plane(p, l, t, tl, n - 1) + (if d < 0 {
            -d
        } else {
            d
        })
    }
}

proof fn lemma_selected(l: u32, t: u32, tl: u32)
    ensures
        selected(t, l, tl) == (if off_plane(l, l, t, tl, 4) < off_plane(t, l, t, tl, 4) {
            l
        } else {
            t
        }),
{
    reveal(channel);
    reveal_with_fuel(off_plane, 5);
    assert(off_plane(l, l, t, tl, 4) == distance(t, tl));
    assert(off_plane(t, l, t, tl, 4) == distance(l, tl));
}

/// The modes that follow a slope. One takes the left or the top, whichever is
/// nearer to the plane through the neighbours, the top where neither is. One
/// takes the plane itself, as near as a byte comes to it. One goes on from the
/// mean of left and top, half as far again as it is from the corner.
pub proof fn law_slopes_are_followed(l: u32, t: u32, tl: u32, tr: u32, k: int)
    ensures
        prediction(11, l, t, tl, tr) == (if off_plane(l, l, t, tl, 4) < off_plane(t, l, t, tl, 4) {
            l
        } else {
            t
        }),
        ({
            let plane = channel(l, k) + channel(t, k) - channel(tl, k);
            let v = channel(prediction(12, l, t, tl, tr), k);
            &&& 0 <= v <= 255
            &&& 0 <= plane <= 255 ==> v == plane
            &&& plane < 0 ==> v == 0
            &&& plane > 255 ==> v == 255
        }),
        ({
            let mid = (channel(l, k) + channel(t, k)) / 2;
            let rise = mid - channel(tl, k);
            let v = channel(prediction(13, l, t, tl, tr), k);
            &&& 0 <= v <= 255
            &&& 0 < v < 255 ==> -1 <= 2 * (v - mid) - rise <= 1
            &&& rise >= 0 ==> v >= mid
            &&& rise <= 0 ==> v <= mid
            &&& v == 0 ==> 2 * mid + rise <= 1
            &&& v == 255 ==> 2 * mid + rise >= 509
        }),
{
    lemma_selected(l, t, tl);
    lemma_clamp_channel(l, t, tl, k);
    lemma_clamp_channel(mean(l, t), l, tl, k);
    lemma_mean_channel(l, t, k);
}

/// Turned about the diagonal, so that left and top change places, each mode that
/// does not look to the top right is another such mode.
pub proof fn law_modes_mirror_each_other(l: u32, t: u32, tl: u32, tr: u32)
    ensures
        prediction(1, l, t, tl, tr) == prediction(2, t, l, tl, tr),
        prediction(4, l, t, tl, tr) == prediction(4, t, l, tl, tr),
        prediction(6, l, t, tl, tr) == prediction(8, t, l, tl, tr),
        prediction(7, l, t, tl, tr) == prediction(7, t, l, tl, tr),
        prediction(12, l, t, tl, tr) == prediction(12, t, l, tl, tr),
        prediction(13, l, t, tl, tr) == prediction(13, t, l, tl, tr),
{
}

/// Where all neighbours are of one colour, every mode but the first predicts
/// that colour; the first predicts opaque black.
pub proof fn law_flat_neighbours_predict_themselves(mode: nat, p: u32)
    requires
        mode <= 13,
    ensures
        mode > 0 ==> prediction(mode, p, p, p, p) == p,
        mode == 0 ==> prediction(mode, p, p, p, p) == argb(255, 0, 0, 0),
{
    super::argb::law_channels_pack(p);
    let m = mean(p, p);
    assert(m == p);
}

/// Every pixel is what is stored for it and its prediction from the pixels
/// around it as they come out, which are to the left, above, and to both sides
/// of the one above. In the first row it is predicted from the left, in the
/// first column from above, and the first of all as opaque black.
pub proof fn law_pixels_come_from_their_neighbours(
    px: Seq<u32>,
    width: nat,
    bits: nat,
    modes: Seq<u32>,
    x: nat,
    y: nat,
)
    requires
        width > 0,
        x < width,
        y * width + x < px.len(),
        unpredicted(px, width, bits, modes, px.len()) is Some,
    ensures
        ({
            let q = unpredicted(px, width, bits, modes, px.len())->0;
            let at = |c: int, r: int| q[r * width + c];
            let stored = px[(y * width + x) as int];
            let here = at(x as int, y as int);
            &&& q.len() == px.len()
            &&& x == 0 && y == 0 ==> here == sum_of(stored, argb(255, 0, 0, 0))
            &&& x > 0 && y == 0 ==> here == sum_of(stored, at(x - 1, 0))
            &&& x == 0 && y > 0 ==> here == sum_of(stored, at(0, y - 1))
            &&& x > 0 && y > 0 ==> here == sum_of(
                stored,
                prediction(
                    green(modes[block_of((y * width + x) as nat, width, bits) as int]),
                    at(x - 1, y as int),
                    at(x as int, y - 1),
                    at(x - 1, y - 1),
                    at((x + 1) as int, y - 1),
                ),
            )
        }),
{
    let i = (y * width + x) as nat;
    let n = px.len();
    lemma_unpredicted_keeps(px, width, bits, modes, i, n);
    lemma_unpredicted_keeps(px, width, bits, modes, i + 1, n);
    lemma_unpredicted_rest(px, width, bits, modes, i);
    let q = unpredicted(px, width, bits, modes, n)->0;
    let before = unpredicted(px, width, bits, modes, i)->0;
    assert(i / width == y && i % width == x) by (nonlinear_arith)
        requires
            i == y * width + x,
            x < width,
    ;
    assert(y > 0 ==> y * width >= width) by (nonlinear_arith)
        requires
            width > 0,
    ;
    assert(y == 0 ==> y * width == 0) by (nonlinear_arith);
    assert((y - 1) * width == y * width - width) by (nonlinear_arith);
    assert(0 * width == 0);
}

proof fn lemma_unpredicted_keeps(
    px: Seq<u32>,
    width: nat,
    bits: nat,
    modes: Seq<u32>,
    a: nat,
    b: nat,
)
    requires
        a <= b <= px.len(),
        unpredicted(px, width, bits, modes, b) is Some,
    ensures
        unpredicted(px, width, bits, modes, a) is Some,
        unpredicted(px, width, bits, modes, a)->0.len() == px.len(),
        unpredicted(px, width, bits, modes, b)->0.len() == px.len(),
        forall|j: int|
            0 <= j < a ==> unpredicted(px, width, bits, modes, a)->0[j] == unpredicted(
                px,
                width,
                bits,
                modes,
                b,
            )->0[j],
    decreases b,
{
    if a < b {
        lemma_unpredicted_keeps(px, width, bits, modes, a, (b - 1) as nat);
    } else if b > 0 {
        lemma_unpredicted_keeps(px, width, bits, modes, (a - 1) as nat, (b - 1) as nat);
    }
}

proof fn lemma_unpredicted_rest(px: Seq<u32>, width: nat, bits: nat, modes: Seq<u32>, a: nat)
    requires
        a <= px.len(),
        unpredicted(px, width, bits, modes, a) is Some,
    ensures
        unpredicted(px, width, bits, modes, a)->0.len() == px.len(),
        forall|j: int|
            a <= j < px.len() ==> unpredicted(px, width, bits, modes, a)->0[j] == px[j],
    decreases a,
{
    if a > 0 {
        lemma_unpredicted_rest(px, width, bits, modes, (a - 1) as nat);
    }
}

// ── laws of colour ──────────────────────────────────────────────────────────

/// What a signed multiplier makes of a signed byte, in thirty-seconds.
pub open spec fn share(factor: nat, value: nat) -> int {
    (signed(factor) * signed(value)) / 32
}

/// A pixel with its correlations taken out: green's share of red, by the blue
/// byte of `c`, and green's and red's shares of blue, by its green and red
/// bytes.
pub open spec fn decorrelated(p: u32, c: u32) -> u32 {
    argb(
        alpha(p),
        ((red(p) - share(blue(c), green(p))) % 256) as nat,
        green(p),
        ((blue(p) - share(green(c), green(p)) - share(red(c), red(p))) % 256) as nat,
    )
}

/// Recolouring puts the correlations back.
pub proof fn law_recolouring_puts_correlations_back(p: u32, c: u32)
    ensures
        recolored(decorrelated(p, c), c) == p,
{
    super::argb::law_channels_pack(p);
    let x = share(blue(c), green(p));
    let y = share(green(c), green(p));
    let z = share(red(c), red(p));
    let r = ((red(p) - x) % 256) as nat;
    let b = ((blue(p) - y - z) % 256) as nat;
    super::argb::law_pack_channels(alpha(p), r, green(p), b);
    let q = decorrelated(p, c);
    assert(alpha(q) == alpha(p) && red(q) == r && green(q) == green(p) && blue(q) == b);
    assert((r + x) % 256 == red(p));
    assert((b + y + z) % 256 == blue(p));
}

/// Recolouring leaves green and the alpha alone, and a pixel without green and
/// red stays as it is.
pub proof fn law_recolouring_keeps_green(p: u32, c: u32)
    ensures
        green(recolored(p, c)) == green(p),
        alpha(recolored(p, c)) == alpha(p),
        green(p) == 0 ==> red(recolored(p, c)) == red(p),
        green(p) == 0 && red(p) == 0 ==> recolored(p, c) == p,
        recolored(p, 0) == p,
{
    super::argb::law_channels_pack(p);
    lemma_recolored_channels(p, c);
    lemma_recolored_channels(p, 0);
    let g = signed(green(p));
    let x = signed(blue(c));
    let y = signed(green(c));
    let z = signed(red(c));
    let h = signed(red(recolored(p, c)));
    assert(g == 0 ==> x * g == 0 && y * g == 0) by (nonlinear_arith);
    assert(h == 0 ==> z * h == 0) by (nonlinear_arith);
    assert(red(0) == 0 && green(0) == 0 && blue(0) == 0);
    let h0 = signed(red(recolored(p, 0)));
    let zero = signed(0);
    assert(zero * g == 0 && zero * h0 == 0) by (nonlinear_arith)
        requires
            zero == 0,
    ;
    if green(p) == 0 && red(p) == 0 {
        super::argb::law_channels_pack(recolored(p, c));
    }
    super::argb::law_channels_pack(recolored(p, 0));
}

proof fn lemma_recolored_channels(p: u32, c: u32)
    ensures
        ({
            let q = recolored(p, c);
            let g = signed(green(p));
            &&& alpha(q) == alpha(p)
            &&& green(q) == green(p)
            &&& red(q) == (red(p) + (signed(blue(c)) * g) / 32) % 256
            &&& blue(q) == (blue(p) + (signed(green(c)) * g) / 32 + (signed(red(c)) * signed(
                red(q),
            )) / 32) % 256
        }),
{
    super::argb::law_channels_pack(p);
    let g = signed(green(p));
    let r = red(p) + (signed(blue(c)) * g) / 32;
    let b = blue(p) + (signed(green(c)) * g) / 32 + (signed(red(c)) * signed((r % 256) as nat))
        / 32;
    super::argb::law_pack_channels(alpha(p), (r % 256) as nat, green(p), (b % 256) as nat);
}

/// A palette holds its first entry as it is stored, and each other as the sum of
/// what is stored and the entry before.
pub proof fn law_palettes_add_up(px: Seq<u32>, n: nat, i: int)
    requires
        0 <= i < n <= px.len(),
    ensures
        summed(px, n).len() == n,
        i == 0 ==> summed(px, n)[i] == px[i],
        i > 0 ==> summed(px, n)[i] == sum_of(px[i], summed(px, n)[i - 1]),
    decreases n,
{
    assert(summed(px, 0).len() == 0);
    if i < n - 1 {
        law_palettes_add_up(px, (n - 1) as nat, i);
    } else if n > 1 {
        law_palettes_add_up(px, (n - 1) as nat, 0);
    }
}

/// The pixels of one block share one entry, and blocks are counted row by row.
pub proof fn law_blocks_are_counted_by_row(x: nat, y: nat, width: nat, bits: nat)
    requires
        x < width,
    ensures
        block_of(y * width + x, width, bits) == (y / pow2(bits)) * blocks(width, bits) + x / pow2(
            bits,
        ),
{
    let i = y * width + x;
    assert(i / width == y && i % width == x) by (nonlinear_arith)
        requires
            i == y * width + x,
            x < width,
    ;
}

/// Several indices in one byte are read from its low bits up: the first pixel of
/// a bundle has the lowest bits, and each next one those that come behind them.
pub proof fn law_indices_are_packed_low_bits_first(
    p: u32,
    q: u32,
    x: nat,
    y: nat,
    width: nat,
    bits: nat,
)
    requires
        1 <= bits <= 3,
        x < width,
        x + 1 < width,
        x % pow2(bits) + 1 < pow2(bits),
        green(q) == green(p) / pow2((8nat / pow2(bits)) as nat),
    ensures
        x % pow2(bits) == 0 ==> bundled_index(p, y * width + x, width, bits) == green(p) % pow2(
            (8nat / pow2(bits)) as nat,
        ),
        bundled_index(p, y * width + x + 1, width, bits) == bundled_index(
            q,
            y * width + x,
            width,
            bits,
        ),
{
    let i = y * width + x;
    assert(i / width == y && i % width == x) by (nonlinear_arith)
        requires
            i == y * width + x,
            x < width,
    ;
    assert((i + 1) / width == y && (i + 1) % width == x + 1) by (nonlinear_arith)
        requires
            i == y * width + x,
            x + 1 < width,
    ;
    let side = pow2(bits);
    let field = 8nat / side;
    let sub = x % side;
    vstd::arithmetic::power2::lemma_pow2_pos(bits);
    assert((x + 1) % side == sub + 1) by (nonlinear_arith)
        requires
            side > 0,
            sub == x % side,
            sub + 1 < side,
    ;
    vstd::arithmetic::power2::lemma2_to64();
    assert((sub + 1) * field == sub * field + field) by (nonlinear_arith);
    assert(sub == 0 ==> sub * field == 0) by (nonlinear_arith);
    vstd::arithmetic::power2::lemma_pow2_adds(field, sub * field);
    vstd::arithmetic::power2::lemma_pow2_pos(field);
    vstd::arithmetic::power2::lemma_pow2_pos(sub * field);
    let g = green(p);
    vstd::arithmetic::div_mod::lemma_div_denominator(
        g as int,
        pow2(field) as int,
        pow2(sub * field) as int,
    );
    assert(g as int / 1 == g);
}

} // verus!
