//! A whole lossless WebP stream: header, transforms, image.
//!
//! The encoder writes literal pixels with one group of codes and no
//! transforms; the decoder reads the complete format.
use super::argb::{alpha, argb, blue, green, law_pack_channels, red};
use super::bits::{
    bits_of, lemma_bits_of_len, lemma_read_back, lemma_skip_skip, peek_value, ran_short, skip_bits,
    stream_of, BitR, BitW,
};
use super::code_lengths::{
    code_lengths, huffman_lengths, lemma_code_lengths, lemma_leaves_len,
};
use super::huffman::{
    canonical_codes, codeword, fits, law_decode_codeword, lemma_word_len, lengths_ok, Code,
};
use super::transform::{
    apply_color_indexing, apply_color_transform, apply_predictor, apply_subtract_green,
    bundle_bits, bundle_width, green_added, parse_palette, read_palette, uncolored, unindexed,
    unpredicted,
};
use super::tree::{law_tree_round_trip, lemma_tree_bits_len, tree_bits, write_tree};
use super::vp8l::{
    blocks, cache_size, decode_vp8l_image, emit, group_of, parse_body, parse_group, parse_groups,
    parse_image,
    parse_pixels, sub_size, Group, Pixels, Scene, MAX_SIDE,
};
use vstd::arithmetic::power2::pow2;
use vstd::prelude::*;

verus! {

// ── decoding ────────────────────────────────────────────────────────────────

/// A transform, as the stream declares it.
pub ghost enum Change {
    Predictor(nat, Seq<u32>),
    Color(nat, Seq<u32>),
    SubtractGreen,
    Indexing(Seq<u32>),
}

/// One transform of the given kind: the transform, the width of the image it
/// leaves to decode, and the rest of the stream.
pub open spec fn parse_change(kind: nat, s: Seq<bool>, width: nat, height: nat) -> Option<
    (Change, nat, Seq<bool>),
> {
    if kind == 0 || kind == 1 {
        let bits = peek_value(s, 3) + 2;
        match parse_image(skip_bits(s, 3), blocks(width, bits), blocks(height, bits), false) {
            None => None,
            Some((img, rest)) => Some(
                (
                    if kind == 0 {
                        Change::Predictor(bits, img)
                    } else {
                        Change::Color(bits, img)
                    },
                    width,
                    rest,
                ),
            ),
        }
    } else if kind == 2 {
        Some((Change::SubtractGreen, width, s))
    } else {
        let size = peek_value(s, 8) + 1;
        match parse_palette(skip_bits(s, 8), size) {
            None => None,
            Some((palette, rest)) => Some(
                (Change::Indexing(palette), blocks(width, bundle_bits(size)), rest),
            ),
        }
    }
}

/// How many kinds of transform have not been declared.
pub open spec fn unseen(seen: Seq<bool>, upto: int) -> nat
    decreases upto,
{
    if upto <= 0 {
        0
    } else {
        unseen(seen, upto - 1) + (if seen[upto - 1] {
            0nat
        } else {
            1nat
        })
    }
}

pub proof fn lemma_unseen(seen: Seq<bool>, k: int, upto: int)
    requires
        0 <= k < upto <= seen.len(),
        !seen[k],
    ensures
        unseen(seen.update(k, true), upto) < unseen(seen, upto),
    decreases upto,
{
    if k < upto - 1 {
        lemma_unseen(seen, k, upto - 1);
    } else {
        lemma_unseen_same(seen, seen.update(k, true), k);
    }
}

proof fn lemma_unseen_same(a: Seq<bool>, b: Seq<bool>, upto: int)
    requires
        forall|i: int| 0 <= i < upto ==> #[trigger] a[i] == b[i],
    ensures
        unseen(a, upto) == unseen(b, upto),
    decreases upto,
{
    if upto > 0 {
        lemma_unseen_same(a, b, upto - 1);
    }
}

/// The transforms still to be declared, each kind at most once.
pub open spec fn parse_changes(s: Seq<bool>, width: nat, height: nat, seen: Seq<bool>) -> Option<
    (Seq<Change>, nat, Seq<bool>),
>
    decreases unseen(seen, 4),
    when seen.len() == 4
{
    let s1 = skip_bits(s, 1);
    let kind = peek_value(s1, 2);
    if peek_value(s, 1) != 1 {
        Some((Seq::empty(), width, s1))
    } else if kind >= 4 || seen[kind as int] {
        None
    } else {
        match parse_change(kind, skip_bits(s1, 2), width, height) {
            None => None,
            Some((c, w1, s2)) => {
                proof {
                    lemma_unseen(seen, kind as int, 4);
                }
                match parse_changes(s2, w1, height, seen.update(kind as int, true)) {
                    None => None,
                    Some((cs, w2, rest)) => Some((seq![c] + cs, w2, rest)),
                }
            },
        }
    }
}

/// Undo one transform of an image of width `w`, whose full width is `width`.
pub open spec fn undo(c: Change, px: Seq<u32>, w: nat, width: nat, height: nat) -> Option<
    (Seq<u32>, nat),
> {
    match c {
        Change::Predictor(bits, img) => match unpredicted(px, w, bits, img, w * height) {
            None => None,
            Some(q) => Some((q, w)),
        },
        Change::Color(bits, img) => match uncolored(px, w, bits, img) {
            None => None,
            Some(q) => Some((q, w)),
        },
        Change::SubtractGreen => Some((px.map_values(|p: u32| green_added(p)), w)),
        Change::Indexing(palette) => match unindexed(px, width, height, palette) {
            None => None,
            Some(q) => Some((q, width)),
        },
    }
}

/// Undo the first `n` transforms, the last one first.
pub open spec fn undo_all(
    cs: Seq<Change>,
    n: nat,
    px: Seq<u32>,
    w: nat,
    width: nat,
    height: nat,
) -> Option<(Seq<u32>, nat)>
    decreases n,
{
    if n == 0 {
        Some((px, w))
    } else {
        match undo(cs[n - 1], px, w, width, height) {
            None => None,
            Some((q, w1)) => undo_all(cs, (n - 1) as nat, q, w1, width, height),
        }
    }
}

/// Everything after the header: transforms and image. A stream that runs short
/// holds none.
pub open spec fn parse_content(s: Seq<bool>, width: nat, height: nat) -> Option<Seq<u32>> {
    match parse_changes(s, width, height, Seq::new(4, |i: int| false)) {
        None => None,
        Some((cs, w, s1)) => match parse_image(s1, w, height, true) {
            None => None,
            Some((px, s2)) => if ran_short(s2) {
                None
            } else {
                match undo_all(cs, cs.len(), px, w, width, height) {
                    None => None,
                    Some((q, w1)) => if w1 == width {
                        Some(q)
                    } else {
                        None
                    },
                }
            },
        },
    }
}

/// A lossless stream: width, height and pixels.
pub open spec fn parse_stream(s: Seq<bool>) -> Option<(nat, nat, Seq<u32>)> {
    let s1 = skip_bits(s, 8);
    let width = peek_value(s1, 14) + 1;
    let s2 = skip_bits(s1, 14);
    let height = peek_value(s2, 14) + 1;
    let s3 = skip_bits(s2, 15);
    if peek_value(s, 8) != 0x2F || peek_value(s3, 3) != 0 {
        None
    } else {
        match parse_content(skip_bits(s3, 3), width, height) {
            None => None,
            Some(px) => Some((width, height, px)),
        }
    }
}

/// The bytes of pixels: red, green, blue, alpha.
pub open spec fn rgba_bytes(px: Seq<u32>) -> Seq<u8> {
    Seq::new(4 * px.len(), |k: int| rgba_byte(px[k / 4], k % 4))
}

pub open spec fn rgba_byte(p: u32, c: int) -> u8 {
    if c == 0 {
        red(p) as u8
    } else if c == 1 {
        green(p) as u8
    } else if c == 2 {
        blue(p) as u8
    } else {
        alpha(p) as u8
    }
}

/// A transform, kept until the pixels are decoded.
pub enum Transform {
    Predictor { bits: u32, image: Vec<u32> },
    Color { bits: u32, image: Vec<u32> },
    SubtractGreen,
    ColorIndexing { palette: Vec<u32> },
}

impl View for Transform {
    type V = Change;

    open spec fn view(&self) -> Change {
        match self {
            Transform::Predictor { bits, image } => Change::Predictor(*bits as nat, image@),
            Transform::Color { bits, image } => Change::Color(*bits as nat, image@),
            Transform::SubtractGreen => Change::SubtractGreen,
            Transform::ColorIndexing { palette } => Change::Indexing(palette@),
        }
    }
}

spec fn views(ts: Seq<Transform>) -> Seq<Change> {
    ts.map_values(|t: Transform| t@)
}

spec fn transform_ok(t: Transform) -> bool {
    match t {
        Transform::Predictor { bits, .. } => bits <= 9,
        Transform::Color { bits, .. } => bits <= 9,
        _ => true,
    }
}

fn read_transform(r: &mut BitR, kind: u32, width: u32, height: u32) -> (t: Option<
    (Transform, u32),
>)
    requires
        old(r).wf(),
        kind < 4,
        1 <= width <= MAX_SIDE,
        1 <= height <= MAX_SIDE,
    ensures
        final(r).wf(),
        match parse_change(kind as nat, old(r)@, width as nat, height as nat) {
            Some(d) => {
                &&& t is Some
                &&& (t->0).0@ == d.0
                &&& transform_ok((t->0).0)
                &&& (t->0).1 == d.1
                &&& 1 <= (t->0).1 <= width
                &&& final(r)@ == d.2
            },
            None => t is None,
        },
{
    proof {
        vstd::arithmetic::power2::lemma2_to64();
    }
    if kind == 0 || kind == 1 {
        let bits: u32 = r.read(3) + 2;
        let xs: u32 = sub_size(width, bits);
        let ys: u32 = sub_size(height, bits);
        let image: Vec<u32> = match decode_vp8l_image(r, xs, ys, false) {
            Some(v) => v,
            None => {
                return None;
            },
        };
        if kind == 0 {
            Some((Transform::Predictor { bits, image }, width))
        } else {
            Some((Transform::Color { bits, image }, width))
        }
    } else if kind == 2 {
        Some((Transform::SubtractGreen, width))
    } else {
        let size: u32 = r.read(8) + 1;
        let palette: Vec<u32> = match read_palette(r, size) {
            Some(v) => v,
            None => {
                return None;
            },
        };
        let w: u32 = sub_size(width, bundle_width(size as usize));
        Some((Transform::ColorIndexing { palette }, w))
    }
}

/// The transforms read so far, then those that follow.
spec fn continued(
    done: Seq<Change>,
    next: Option<(Seq<Change>, nat, Seq<bool>)>,
) -> Option<(Seq<Change>, nat, Seq<bool>)> {
    match next {
        None => None,
        Some((cs, w, rest)) => Some((done + cs, w, rest)),
    }
}

fn read_transforms(r: &mut BitR, width: u32, height: u32) -> (t: Option<(Vec<Transform>, u32)>)
    requires
        old(r).wf(),
        1 <= width <= MAX_SIDE,
        1 <= height <= MAX_SIDE,
    ensures
        final(r).wf(),
        match parse_changes(
            old(r)@,
            width as nat,
            height as nat,
            Seq::new(4, |i: int| false),
        ) {
            Some(d) => {
                &&& t is Some
                &&& views((t->0).0@) == d.0
                &&& forall|i: int|
                    0 <= i < (t->0).0@.len() ==> transform_ok(#[trigger] (t->0).0@[i])
                &&& (t->0).1 == d.1
                &&& 1 <= (t->0).1 <= width
                &&& final(r)@ == d.2
            },
            None => t is None,
        },
{
    let ghost none = Seq::new(4, |i: int| false);
    let ghost goal = parse_changes(r@, width as nat, height as nat, none);
    let mut seen: [bool; 4] = [false;4];
    let mut ts: Vec<Transform> = Vec::new();
    let mut w: u32 = width;
    proof {
        vstd::arithmetic::power2::lemma2_to64();
        assert(seen@ =~= none);
        assert(views(ts@) =~= Seq::empty());
        let first = parse_changes(r@, w as nat, height as nat, seen@);
        if let Some((cs, _, _)) = first {
            assert(Seq::<Change>::empty() + cs =~= cs);
        }
    }
    loop
        invariant
            r.wf(),
            1 <= height <= MAX_SIDE,
            1 <= w <= width <= MAX_SIDE,
            pow2(2) == 4,
            seen@.len() == 4,
            forall|i: int| 0 <= i < ts@.len() ==> transform_ok(#[trigger] ts@[i]),
            continued(views(ts@), parse_changes(r@, w as nat, height as nat, seen@)) == goal,
            goal == parse_changes(
                old(r)@,
                width as nat,
                height as nat,
                Seq::new(4, |i: int| false),
            ),
        decreases unseen(seen@, 4),
    {
        let ghost done = views(ts@);
        if r.read(1) != 1 {
            assert(done + Seq::empty() =~= done);
            return Some((ts, w));
        }
        let kind: u32 = r.read(2);
        if seen[kind as usize] {
            return None;
        }
        let ghost before = seen@;
        proof {
            lemma_unseen(before, kind as int, 4);
        }
        seen[kind as usize] = true;
        match read_transform(r, kind, w, height) {
            Some((t, w1)) => {
                proof {
                    let next = parse_changes(r@, w1 as nat, height as nat, seen@);
                    if let Some((cs, _, _)) = next {
                        assert(done + (seq![t@] + cs) =~= done.push(t@) + cs);
                    }
                    assert(views(ts@.push(t)) =~= done.push(t@));
                }
                ts.push(t);
                w = w1;
            },
            None => {
                return None;
            },
        }
    }
}

fn undo_transform(t: Transform, px: Vec<u32>, w: u32, width: u32, height: u32) -> (q: Option<
    (Vec<u32>, u32),
>)
    requires
        transform_ok(t),
        1 <= w <= MAX_SIDE,
        1 <= width <= MAX_SIDE,
        1 <= height <= MAX_SIDE,
        px@.len() == w * height,
    ensures
        match undo(t@, px@, w as nat, width as nat, height as nat) {
            Some(d) => {
                &&& q is Some
                &&& (q->0).0@ == d.0
                &&& (q->0).1 == d.1
                &&& 1 <= (q->0).1 <= MAX_SIDE
                &&& (q->0).0@.len() == (q->0).1 * height
            },
            None => q is None,
        },
{
    let mut px: Vec<u32> = px;
    match t {
        Transform::Predictor { bits, image } => {
            match apply_predictor(&mut px, w, height, bits, image.as_slice()) {
                Some(_) => Some((px, w)),
                None => None,
            }
        },
        Transform::Color { bits, image } => {
            match apply_color_transform(&mut px, w, height, bits, image.as_slice()) {
                Some(_) => Some((px, w)),
                None => None,
            }
        },
        Transform::SubtractGreen => {
            apply_subtract_green(&mut px);
            Some((px, w))
        },
        Transform::ColorIndexing { palette } => {
            match apply_color_indexing(px.as_slice(), width, height, palette.as_slice()) {
                Some(v) => Some((v, width)),
                None => None,
            }
        },
    }
}

fn undo_transforms(ts: Vec<Transform>, px: Vec<u32>, w: u32, width: u32, height: u32) -> (q: Option<
    (Vec<u32>, u32),
>)
    requires
        forall|i: int| 0 <= i < ts@.len() ==> transform_ok(#[trigger] ts@[i]),
        1 <= w <= MAX_SIDE,
        1 <= width <= MAX_SIDE,
        1 <= height <= MAX_SIDE,
        px@.len() == w * height,
    ensures
        match undo_all(
            views(ts@),
            ts@.len(),
            px@,
            w as nat,
            width as nat,
            height as nat,
        ) {
            Some(d) => q is Some && (q->0).0@ == d.0 && (q->0).1 == d.1 && d.0.len() == d.1
                * height,
            None => q is None,
        },
{
    let ghost cs = views(ts@);
    let ghost goal = undo_all(cs, ts@.len(), px@, w as nat, width as nat, height as nat);
    let ghost all = ts@;
    let mut ts: Vec<Transform> = ts;
    let mut px: Vec<u32> = px;
    let mut w: u32 = w;
    #[verifier::loop_isolation(false)]
    while ts.len() > 0
        invariant
            1 <= w <= MAX_SIDE,
            1 <= width <= MAX_SIDE,
            1 <= height <= MAX_SIDE,
            px@.len() == w * height,
            ts@.len() <= all.len(),
            ts@ =~= all.subrange(0, ts@.len() as int),
            cs == views(all),
            forall|i: int| 0 <= i < all.len() ==> transform_ok(#[trigger] all[i]),
            undo_all(cs, ts@.len(), px@, w as nat, width as nat, height as nat) == goal,
        decreases ts@.len(),
    {
        let ghost k = ts@.len();
        let t: Transform = match ts.pop() {
            Some(t) => t,
            None => {
                return Some((px, w));
            },
        };
        assert(t == all[k - 1]);
        assert(cs[k - 1] == t@);
        match undo_transform(t, px, w, width, height) {
            Some((q, w1)) => {
                px = q;
                w = w1;
            },
            None => {
                return None;
            },
        }
    }
    Some((px, w))
}

/// Pixels to bytes: red, green, blue, alpha.
pub fn to_rgba(px: &Vec<u32>) -> (out: Vec<u8>)
    requires
        px@.len() <= 0x1000_0000,
    ensures
        out@ == rgba_bytes(px@),
{
    let mut out: Vec<u8> = Vec::new();
    let mut i: usize = 0;
    while i < px.len()
        invariant
            i <= px.len() <= 0x1000_0000,
            out@.len() == 4 * i,
            forall|k: int| 0 <= k < 4 * i ==> #[trigger] out@[k] == rgba_byte(px@[k / 4], k % 4),
        decreases px.len() - i,
    {
        let p: u32 = px[i];
        out.push((p / 0x10000 % 256) as u8);
        out.push((p / 0x100 % 256) as u8);
        out.push((p % 256) as u8);
        out.push((p / 0x1000000) as u8);
        i = i + 1;
    }
    assert(out@ =~= rgba_bytes(px@));
    out
}

/// Decode a lossless stream into width, height and RGBA bytes. `None` where it
/// is malformed or cut short.
pub fn decode_vp8l(data: &[u8]) -> (r: Option<(u32, u32, Vec<u8>)>)
    ensures
        match parse_stream(stream_of(data@)) {
            Some(d) => {
                &&& r is Some
                &&& (r->0).0 == d.0
                &&& (r->0).1 == d.1
                &&& (r->0).2@ == rgba_bytes(d.2)
            },
            None => r is None,
        },
{
    let mut r = BitR::new(data);
    proof {
        vstd::arithmetic::power2::lemma2_to64();
    }
    let signature: u32 = r.read(8);
    let width: u32 = r.read(14) + 1;
    let ghost s2 = r@;
    let height: u32 = r.read(14) + 1;
    let _alpha: u32 = r.read(1);
    proof {
        lemma_skip_skip(s2, 14, 1);
    }
    let version: u32 = r.read(3);
    if signature != 0x2F || version != 0 {
        return None;
    }
    let (ts, w): (Vec<Transform>, u32) = match read_transforms(&mut r, width, height) {
        Some(t) => t,
        None => {
            return None;
        },
    };
    let px: Vec<u32> = match decode_vp8l_image(&mut r, w, height, true) {
        Some(px) => px,
        None => {
            return None;
        },
    };
    if r.is_short() {
        return None;
    }
    let (px, w): (Vec<u32>, u32) = match undo_transforms(ts, px, w, width, height) {
        Some(t) => t,
        None => {
            return None;
        },
    };
    if w != width {
        return None;
    }
    proof {
        assert(width * height <= 0x1000_0000) by (nonlinear_arith)
            requires
                width <= 16384,
                height <= 16384,
        ;
    }
    Some((width, height, to_rgba(&px)))
}

// ── encoding ────────────────────────────────────────────────────────────────

/// How many of the first `upto` pixels have value `v` in channel `c`.
pub open spec fn count_value(rgba: Seq<u8>, c: int, upto: int, v: int) -> nat
    decreases upto,
{
    if upto <= 0 {
        0
    } else {
        count_value(rgba, c, upto - 1, v) + (if rgba[4 * (upto - 1) + c] == v {
            1nat
        } else {
            0nat
        })
    }
}

/// The frequencies of the values of a channel.
pub open spec fn channel_freq(rgba: Seq<u8>, c: int, size: nat) -> Seq<u32> {
    Seq::new(size, |v: int| count_value(rgba, c, rgba.len() as int / 4, v) as u32)
}

/// The word lengths for a channel; green shares its code with lengths.
pub open spec fn channel_code(rgba: Seq<u8>, c: int) -> Seq<u8> {
    code_lengths(channel_freq(rgba, c, if c == 1 {
        280
    } else {
        256
    }), 15)
}

/// The distance code, which no literal uses.
pub open spec fn distance_code() -> Seq<u8> {
    Seq::new(40, |i: int| if i == 0 {
        1u8
    } else {
        0u8
    })
}

/// Pixel `i`: green, red, blue, alpha.
pub open spec fn pixel_bits(rgba: Seq<u8>, i: int) -> Seq<bool> {
    codeword(channel_code(rgba, 1), rgba[4 * i + 1] as int) + codeword(
        channel_code(rgba, 0),
        rgba[4 * i] as int,
    ) + codeword(channel_code(rgba, 2), rgba[4 * i + 2] as int) + codeword(
        channel_code(rgba, 3),
        rgba[4 * i + 3] as int,
    )
}

/// The first `upto` pixels.
pub open spec fn pixels_bits(rgba: Seq<u8>, upto: int) -> Seq<bool>
    decreases upto,
{
    if upto <= 0 {
        Seq::empty()
    } else {
        pixels_bits(rgba, upto - 1) + pixel_bits(rgba, upto - 1)
    }
}

/// Signature, size, alpha flag, version; no transform, no cache, one group.
pub open spec fn header_bits(width: nat, height: nat) -> Seq<bool> {
    bits_of(0x2F, 8) + bits_of((width - 1) as nat, 14) + bits_of((height - 1) as nat, 14) + bits_of(
        1,
        1,
    ) + bits_of(0, 3) + bits_of(0, 1) + bits_of(0, 1) + bits_of(0, 1)
}

/// The five codes of the one group.
pub open spec fn codes_bits(rgba: Seq<u8>) -> Seq<bool> {
    tree_bits(channel_code(rgba, 1)) + tree_bits(channel_code(rgba, 0)) + tree_bits(
        channel_code(rgba, 2),
    ) + tree_bits(channel_code(rgba, 3)) + tree_bits(distance_code())
}

/// An image as a lossless stream.
pub open spec fn stream_bits(width: nat, height: nat, rgba: Seq<u8>) -> Seq<bool> {
    header_bits(width, height) + codes_bits(rgba) + pixels_bits(rgba, rgba.len() as int / 4)
}

proof fn lemma_count_value(rgba: Seq<u8>, c: int, upto: int, v: int)
    requires
        0 <= upto,
    ensures
        count_value(rgba, c, upto, v) <= upto,
        forall|i: int|
            0 <= i < upto && #[trigger] rgba[4 * i + c] == v ==> count_value(rgba, c, upto, v) > 0,
    decreases upto,
{
    if upto > 0 {
        lemma_count_value(rgba, c, upto - 1, v);
    }
}

/// Every value that occurs in a channel has a word.
proof fn lemma_channel_code(rgba: Seq<u8>, c: int)
    requires
        0 <= c < 4,
        rgba.len() <= 0x4000_0000,
    ensures
        channel_code(rgba, c).len() == if c == 1 {
            280nat
        } else {
            256nat
        },
        fits(channel_code(rgba, c)),
        forall|i: int|
            0 <= i < rgba.len() as int / 4 ==> channel_code(
                rgba,
                c,
            )[#[trigger] rgba[4 * i + c] as int] > 0,
{
    vstd::arithmetic::power2::lemma2_to64();
    let size: nat = if c == 1 {
        280
    } else {
        256
    };
    let f = channel_freq(rgba, c, size);
    lemma_leaves_len(f, f.len() as int);
    lemma_code_lengths(f, 15);
    let n = rgba.len() as int / 4;
    assert forall|i: int| 0 <= i < n implies channel_code(
        rgba,
        c,
    )[#[trigger] rgba[4 * i + c] as int] > 0 by {
        let v = rgba[4 * i + c] as int;
        lemma_count_value(rgba, c, n, v);
        assert(f[v] > 0);
    }
}

fn channel_lengths(rgba: &[u8], c: usize) -> (l: Vec<u8>)
    requires
        c < 4,
        rgba@.len() <= 0x4000_0000,
        rgba@.len() % 4 == 0,
    ensures
        l@ == channel_code(rgba@, c as int),
{
    proof {
        vstd::arithmetic::power2::lemma2_to64();
    }
    let n: usize = rgba.len() / 4;
    let size: usize = if c == 1 {
        280
    } else {
        256
    };
    let mut freq: Vec<u32> = vec![0u32; size];
    let mut i: usize = 0;
    while i < n
        invariant
            i <= n,
            n == rgba@.len() / 4,
            rgba@.len() <= 0x4000_0000,
            rgba@.len() % 4 == 0,
            c < 4,
            freq@.len() == size >= 256,
            forall|v: int|
                0 <= v < size ==> #[trigger] freq@[v] == count_value(
                    rgba@,
                    c as int,
                    i as int,
                    v,
                ),
        decreases n - i,
    {
        let v: usize = rgba[4 * i + c] as usize;
        proof {
            lemma_count_value(rgba@, c as int, i as int, v as int);
        }
        freq.set(v, freq[v] + 1);
        i = i + 1;
    }
    assert(freq@ =~= channel_freq(rgba@, c as int, size as nat));
    proof {
        vstd::arithmetic::power2::lemma2_to64();
        lemma_leaves_len(freq@, size as int);
    }
    huffman_lengths(freq.as_slice(), 15)
}

fn write_word(w: &mut BitW, lengths: &Vec<u8>, codes: &Vec<u16>, v: u8)
    requires
        old(w).wf(),
        lengths_ok(lengths@),
        lengths@.len() == codes@.len() >= 256,
        forall|j: int|
            0 <= j < codes@.len() ==> #[trigger] codes@[j] < pow2(lengths@[j] as nat),
        forall|j: int|
            0 <= j < codes@.len() ==> bits_of(#[trigger] codes@[j] as nat, lengths@[j] as nat)
                == codeword(lengths@, j),
    ensures
        final(w).wf(),
        final(w)@ == old(w)@ + codeword(lengths@, v as int),
{
    let k: usize = v as usize;
    proof {
        vstd::arithmetic::div_mod::lemma_small_mod(
            codes@[k as int] as nat,
            pow2(lengths@[k as int] as nat),
        );
    }
    w.write(codes[k] as u32, lengths[k] as u32);
}

fn write_header(w: &mut BitW, width: u32, height: u32)
    requires
        old(w).wf(),
        old(w)@.len() == 0,
        1 <= width <= MAX_SIDE,
        1 <= height <= MAX_SIDE,
    ensures
        final(w).wf(),
        final(w)@ == header_bits(width as nat, height as nat),
{
    proof {
        vstd::arithmetic::power2::lemma2_to64();
    }
    w.write(0x2F, 8);
    assert(w@ =~= bits_of(0x2F, 8));
    w.write(width - 1, 14);
    w.write(height - 1, 14);
    w.write(1, 1);
    w.write(0, 3);
    w.write(0, 1);
    w.write(0, 1);
    w.write(0, 1);
}

fn write_pixels(
    w: &mut BitW,
    rgba: &[u8],
    lg: &Vec<u8>,
    lr: &Vec<u8>,
    lb: &Vec<u8>,
    la: &Vec<u8>,
)
    requires
        old(w).wf(),
        rgba@.len() <= 0x4000_0000,
        rgba@.len() % 4 == 0,
        lg@ == channel_code(rgba@, 1),
        lr@ == channel_code(rgba@, 0),
        lb@ == channel_code(rgba@, 2),
        la@ == channel_code(rgba@, 3),
    ensures
        final(w).wf(),
        final(w)@ == old(w)@ + pixels_bits(rgba@, rgba@.len() as int / 4),
{
    let ghost w0 = w@;
    proof {
        lemma_channel_code(rgba@, 0);
        lemma_channel_code(rgba@, 1);
        lemma_channel_code(rgba@, 2);
        lemma_channel_code(rgba@, 3);
    }
    let cg: Vec<u16> = canonical_codes(lg.as_slice());
    let cr: Vec<u16> = canonical_codes(lr.as_slice());
    let cb: Vec<u16> = canonical_codes(lb.as_slice());
    let ca: Vec<u16> = canonical_codes(la.as_slice());
    let n: usize = rgba.len() / 4;
    let mut i: usize = 0;
    assert(w@ =~= w0 + pixels_bits(rgba@, 0));
    #[verifier::loop_isolation(false)]
    while i < n
        invariant
            i <= n,
            w.wf(),
            w@ == w0 + pixels_bits(rgba@, i as int),
        decreases n - i,
    {
        let ghost cur = w@;
        write_word(w, lg, &cg, rgba[4 * i + 1]);
        write_word(w, lr, &cr, rgba[4 * i]);
        write_word(w, lb, &cb, rgba[4 * i + 2]);
        write_word(w, la, &ca, rgba[4 * i + 3]);
        assert(w@ =~= cur + pixel_bits(rgba@, i as int));
        assert(cur + pixel_bits(rgba@, i as int) =~= w0 + pixels_bits(rgba@, i + 1));
        i = i + 1;
    }
}

/// Encode RGBA bytes as a lossless stream.
pub fn encode_vp8l(width: u32, height: u32, rgba: &[u8]) -> (out: Vec<u8>)
    requires
        1 <= width <= MAX_SIDE,
        1 <= height <= MAX_SIDE,
        rgba@.len() == width * height * 4,
    ensures
        out@ == super::bits::bits_bytes(stream_bits(width as nat, height as nat, rgba@)),
{
    proof {
        assert(width * height <= 0x1000_0000) by (nonlinear_arith)
            requires
                width <= 16384,
                height <= 16384,
        ;
        lemma_channel_code(rgba@, 0);
        lemma_channel_code(rgba@, 1);
        lemma_channel_code(rgba@, 2);
        lemma_channel_code(rgba@, 3);
    }
    let mut w = BitW::new();
    write_header(&mut w, width, height);
    let lg: Vec<u8> = channel_lengths(rgba, 1);
    let lr: Vec<u8> = channel_lengths(rgba, 0);
    let lb: Vec<u8> = channel_lengths(rgba, 2);
    let la: Vec<u8> = channel_lengths(rgba, 3);
    let mut ld: Vec<u8> = vec![0u8; 40];
    ld.set(0, 1);
    assert(ld@ =~= distance_code());
    let ghost w0 = w@;
    write_tree(&mut w, lg.as_slice());
    write_tree(&mut w, lr.as_slice());
    write_tree(&mut w, lb.as_slice());
    write_tree(&mut w, la.as_slice());
    write_tree(&mut w, ld.as_slice());
    proof {
        let (t1, t2, t3, t4, t5) = (
            tree_bits(lg@),
            tree_bits(lr@),
            tree_bits(lb@),
            tree_bits(la@),
            tree_bits(ld@),
        );
        lemma_regroup(w0, t1, t2, t3, t4, t5);
    }
    write_pixels(&mut w, rgba, &lg, &lr, &lb, &la);
    w.finish()
}

proof fn lemma_regroup(
    a: Seq<bool>,
    b: Seq<bool>,
    c: Seq<bool>,
    d: Seq<bool>,
    e: Seq<bool>,
    f: Seq<bool>,
)
    ensures
        a + b + c + d + e + f == a + (b + c + d + e + f),
{
    assert(a + b + c + d + e + f =~= a + (b + c + d + e + f));
}

// ── round trip ──────────────────────────────────────────────────────────────

/// The pixels of RGBA bytes.
pub open spec fn pixels_of(rgba: Seq<u8>) -> Seq<u32> {
    Seq::new(
        rgba.len() / 4,
        |i: int|
            argb(
                rgba[4 * i + 3] as nat,
                rgba[4 * i] as nat,
                rgba[4 * i + 1] as nat,
                rgba[4 * i + 2] as nat,
            ),
    )
}

/// Bytes taken for pixels come back as bytes.
pub proof fn law_bytes_pixels_bytes(rgba: Seq<u8>)
    requires
        rgba.len() % 4 == 0,
    ensures
        rgba_bytes(pixels_of(rgba)) == rgba,
{
    let px = pixels_of(rgba);
    assert forall|k: int| 0 <= k < rgba.len() implies rgba_byte(px[k / 4], k % 4) == rgba[k] by {
        let i = k / 4;
        law_pack_channels(
            rgba[4 * i + 3] as nat,
            rgba[4 * i] as nat,
            rgba[4 * i + 1] as nat,
            rgba[4 * i + 2] as nat,
        );
    }
    assert(rgba_bytes(px) =~= rgba);
}

/// The one group of an encoded image.
spec fn the_group(rgba: Seq<u8>) -> Group {
    Group {
        green: Code::Lengths(channel_code(rgba, 1)),
        red: Code::Lengths(channel_code(rgba, 0)),
        blue: Code::Lengths(channel_code(rgba, 2)),
        alpha: Code::Lengths(channel_code(rgba, 3)),
        dist: Code::Lengths(distance_code()),
    }
}

spec fn the_scene(rgba: Seq<u8>, width: nat) -> Scene {
    Scene {
        groups: seq![the_group(rgba)],
        routes: Seq::empty(),
        route_bits: 0,
        route_width: 1,
        cache_bits: 0,
        width,
        count: rgba.len() / 4,
    }
}

/// The pixels from `i` on.
spec fn bits_from(rgba: Seq<u8>, i: int) -> Seq<bool>
    decreases rgba.len() as int / 4 - i,
{
    if i < 0 || i >= rgba.len() as int / 4 {
        Seq::empty()
    } else {
        pixel_bits(rgba, i) + bits_from(rgba, i + 1)
    }
}

proof fn lemma_bits_from(rgba: Seq<u8>, i: int)
    requires
        0 <= i <= rgba.len() as int / 4,
    ensures
        pixels_bits(rgba, rgba.len() as int / 4) == pixels_bits(rgba, i) + bits_from(rgba, i),
    decreases rgba.len() as int / 4 - i,
{
    if i < rgba.len() as int / 4 {
        lemma_bits_from(rgba, i + 1);
        assert(pixels_bits(rgba, i + 1) == pixels_bits(rgba, i) + pixel_bits(rgba, i));
        assert(pixels_bits(rgba, i) + bits_from(rgba, i) =~= pixels_bits(rgba, i + 1) + bits_from(
            rgba,
            i + 1,
        ));
    } else {
        assert(pixels_bits(rgba, i) + bits_from(rgba, i) =~= pixels_bits(rgba, i));
    }
}

proof fn lemma_decode_pixels(rgba: Seq<u8>, width: nat, i: int, cache: Seq<u32>, rest: Seq<bool>)
    requires
        rgba.len() <= 0x4000_0000,
        rgba.len() % 4 == 0,
        0 <= i <= rgba.len() as int / 4,
    ensures
        parse_pixels(
            the_scene(rgba, width),
            Pixels { out: pixels_of(rgba).subrange(0, i), cache },
            bits_from(rgba, i) + rest,
        ) == Some((pixels_of(rgba), rest)),
    decreases rgba.len() as int / 4 - i,
{
    let c = the_scene(rgba, width);
    let px = pixels_of(rgba);
    let n = rgba.len() as int / 4;
    let p = Pixels { out: px.subrange(0, i), cache };
    let s = bits_from(rgba, i) + rest;
    if i == n {
        assert(px.subrange(0, i) =~= px);
        assert(s =~= rest);
    } else {
        let (lg, lr, lb, la) = (
            channel_code(rgba, 1),
            channel_code(rgba, 0),
            channel_code(rgba, 2),
            channel_code(rgba, 3),
        );
        lemma_channel_code(rgba, 0);
        lemma_channel_code(rgba, 1);
        lemma_channel_code(rgba, 2);
        lemma_channel_code(rgba, 3);
        let r8 = rgba[4 * i + 0] as int;
        let g8 = rgba[4 * i + 1] as int;
        let b8 = rgba[4 * i + 2] as int;
        let a8 = rgba[4 * i + 3] as int;
        let s4 = bits_from(rgba, i + 1) + rest;
        let s3 = codeword(la, a8) + s4;
        let s2 = codeword(lb, b8) + s3;
        let s1 = codeword(lr, r8) + s2;
        assert(s =~= codeword(lg, g8) + s1);
        law_decode_codeword(lg, g8, s1);
        law_decode_codeword(lr, r8, s2);
        law_decode_codeword(lb, b8, s3);
        law_decode_codeword(la, a8, s4);
        assert(group_of(c, i as nat) == 0);
        let v = argb(a8 as nat, r8 as nat, g8 as nat, b8 as nat);
        assert(emit(p, v, 0).out =~= px.subrange(0, i + 1));
        lemma_decode_pixels(rgba, width, i + 1, cache, rest);
    }
}

/// The codes and pixels, as far as the image decoder sees them.
spec fn body_bits(rgba: Seq<u8>, rest: Seq<bool>) -> Seq<bool> {
    tree_bits(channel_code(rgba, 1)) + (tree_bits(channel_code(rgba, 0)) + (tree_bits(
        channel_code(rgba, 2),
    ) + (tree_bits(channel_code(rgba, 3)) + (tree_bits(distance_code()) + (bits_from(rgba, 0)
        + rest)))))
}

proof fn lemma_decode_groups(rgba: Seq<u8>, rest: Seq<bool>)
    requires
        rgba.len() <= 0x4000_0000,
        rgba.len() % 4 == 0,
    ensures
        parse_groups(body_bits(rgba, rest), 1, 0) == Some(
            (seq![the_group(rgba)], bits_from(rgba, 0) + rest),
        ),
{
    lemma_channel_code(rgba, 0);
    lemma_channel_code(rgba, 1);
    lemma_channel_code(rgba, 2);
    lemma_channel_code(rgba, 3);
    let px = bits_from(rgba, 0) + rest;
    let t5 = tree_bits(distance_code()) + px;
    let t4 = tree_bits(channel_code(rgba, 3)) + t5;
    let t3 = tree_bits(channel_code(rgba, 2)) + t4;
    let t2 = tree_bits(channel_code(rgba, 0)) + t3;
    let t1 = tree_bits(channel_code(rgba, 1)) + t2;
    law_tree_round_trip(channel_code(rgba, 1), t2);
    law_tree_round_trip(channel_code(rgba, 0), t3);
    law_tree_round_trip(channel_code(rgba, 2), t4);
    law_tree_round_trip(channel_code(rgba, 3), t5);
    law_tree_round_trip(distance_code(), px);
    assert(parse_group(t1, 0) == Some((the_group(rgba), px)));
    assert(parse_groups(t1, 0, 0) == Some((Seq::<Group>::empty(), t1)));
    assert(Seq::<Group>::empty().push(the_group(rgba)) =~= seq![the_group(rgba)]);
    assert(parse_groups(t1, 1, 0) == Some((seq![the_group(rgba)], px)));
}

proof fn lemma_decode_image(width: nat, height: nat, rgba: Seq<u8>, rest: Seq<bool>)
    requires
        1 <= width <= MAX_SIDE,
        1 <= height <= MAX_SIDE,
        rgba.len() == width * height * 4,
        rgba.len() <= 0x4000_0000,
    ensures
        parse_image(
            bits_of(0, 1) + (bits_of(0, 1) + body_bits(rgba, rest)),
            width,
            height,
            true,
        ) == Some((pixels_of(rgba), rest)),
{
    vstd::arithmetic::power2::lemma2_to64();
    let body = body_bits(rgba, rest);
    lemma_read_back(0, 1, bits_of(0, 1) + body);
    lemma_read_back(0, 1, body);
    lemma_decode_groups(rgba, rest);
    let none = Seq::new(cache_size(0), |i: int| 0u32);
    lemma_decode_pixels(rgba, width, 0, none, rest);
    assert(pixels_of(rgba).subrange(0, 0) =~= Seq::empty());
    assert(rgba.len() / 4 == width * height);
    assert(parse_body(body, width, height, 0, Seq::empty(), 0, 1, 1) == Some(
        (pixels_of(rgba), rest),
    ));
}

/// Decoding what the encoder wrote gives back the image, whatever follows; the
/// end mark at least does.
pub proof fn law_stream_round_trip(width: nat, height: nat, rgba: Seq<u8>, rest: Seq<bool>)
    requires
        1 <= width <= MAX_SIDE,
        1 <= height <= MAX_SIDE,
        rgba.len() == width * height * 4,
        rest.len() > 0,
    ensures
        parse_stream(stream_bits(width, height, rgba) + rest) == Some(
            (width, height, pixels_of(rgba)),
        ),
{
    vstd::arithmetic::power2::lemma2_to64();
    assert(width * height <= 0x1000_0000) by (nonlinear_arith)
        requires
            width <= 16384,
            height <= 16384,
    ;
    let body = body_bits(rgba, rest);
    let image = bits_of(0, 1) + (bits_of(0, 1) + body);
    lemma_bits_from(rgba, 0);
    assert(pixels_bits(rgba, 0) + bits_from(rgba, 0) =~= bits_from(rgba, 0));
    lemma_regroup_body(
        header_bits(width, height),
        tree_bits(channel_code(rgba, 1)),
        tree_bits(channel_code(rgba, 0)),
        tree_bits(channel_code(rgba, 2)),
        tree_bits(channel_code(rgba, 3)),
        tree_bits(distance_code()),
        bits_from(rgba, 0),
        rest,
    );
    lemma_decode_header(width, height, body);
    lemma_read_back(0, 1, image);
    lemma_decode_image(width, height, rgba, rest);
    lemma_no_changes(image, width, height);
}

proof fn lemma_no_changes(image: Seq<bool>, width: nat, height: nat)
    ensures
        parse_changes(bits_of(0, 1) + image, width, height, Seq::new(4, |i: int| false)) == Some(
            (Seq::<Change>::empty(), width, image),
        ),
{
    vstd::arithmetic::power2::lemma2_to64();
    lemma_read_back(0, 1, image);
}

proof fn lemma_regroup_body(
    h: Seq<bool>,
    a: Seq<bool>,
    b: Seq<bool>,
    c: Seq<bool>,
    d: Seq<bool>,
    e: Seq<bool>,
    p: Seq<bool>,
    rest: Seq<bool>,
)
    ensures
        h + (a + b + c + d + e) + p + rest == h + (a + (b + (c + (d + (e + (p + rest)))))),
{
    assert(h + (a + b + c + d + e) + p + rest =~= h + (a + (b + (c + (d + (e + (p + rest)))))));
}

/// The header reads back as the size, and leaves what follows it.
proof fn lemma_decode_header(width: nat, height: nat, body: Seq<bool>)
    requires
        1 <= width <= MAX_SIDE,
        1 <= height <= MAX_SIDE,
    ensures
        ({
            let s = header_bits(width, height) + body;
            let s1 = skip_bits(s, 8);
            let s2 = skip_bits(s1, 14);
            let s3 = skip_bits(s2, 15);
            &&& peek_value(s, 8) == 0x2F
            &&& peek_value(s1, 14) + 1 == width
            &&& peek_value(s2, 14) + 1 == height
            &&& peek_value(s3, 3) == 0
            &&& skip_bits(s3, 3) == bits_of(0, 1) + (bits_of(0, 1) + (bits_of(0, 1) + body))
        }),
{
    vstd::arithmetic::power2::lemma2_to64();
    let changes = bits_of(0, 1) + (bits_of(0, 1) + (bits_of(0, 1) + body));
    let version = bits_of(0, 3) + changes;
    let flag = bits_of(1, 1) + version;
    let h = bits_of((height - 1) as nat, 14) + flag;
    let w = bits_of((width - 1) as nat, 14) + h;
    let all = bits_of(0x2F, 8) + w;
    assert(header_bits(width, height) + body =~= all);
    lemma_read_back(0x2F, 8, w);
    lemma_read_back((width - 1) as nat, 14, h);
    lemma_read_back((height - 1) as nat, 14, flag);
    lemma_read_back(1, 1, version);
    lemma_skip_skip(h, 14, 1);
    lemma_read_back(0, 3, changes);
}

/// An encoded image of any size stays below four gigabytes.
pub proof fn lemma_stream_len(width: nat, height: nat, rgba: Seq<u8>)
    requires
        1 <= width <= MAX_SIDE,
        1 <= height <= MAX_SIDE,
        rgba.len() == width * height * 4,
    ensures
        stream_bits(width, height, rgba).len() <= 0x4_0000_0000,
{
    assert(width * height <= 0x1000_0000) by (nonlinear_arith)
        requires
            width <= 16384,
            height <= 16384,
    ;
    lemma_channel_code(rgba, 0);
    lemma_channel_code(rgba, 1);
    lemma_channel_code(rgba, 2);
    lemma_channel_code(rgba, 3);
    lemma_tree_bits_len(channel_code(rgba, 0));
    lemma_tree_bits_len(channel_code(rgba, 1));
    lemma_tree_bits_len(channel_code(rgba, 2));
    lemma_tree_bits_len(channel_code(rgba, 3));
    lemma_tree_bits_len(distance_code());
    lemma_pixels_len(rgba, rgba.len() as int / 4);
    lemma_bits_of_len(0x2F, 8);
    lemma_bits_of_len((width - 1) as nat, 14);
    lemma_bits_of_len((height - 1) as nat, 14);
    lemma_bits_of_len(1, 1);
    lemma_bits_of_len(0, 3);
    lemma_bits_of_len(0, 1);
}

proof fn lemma_pixels_len(rgba: Seq<u8>, upto: int)
    requires
        rgba.len() <= 0x4000_0000,
        0 <= upto <= rgba.len() as int / 4,
    ensures
        pixels_bits(rgba, upto).len() <= 60 * upto,
    decreases upto,
{
    if upto > 0 {
        lemma_pixels_len(rgba, upto - 1);
        let i = upto - 1;
        lemma_channel_code(rgba, 0);
        lemma_channel_code(rgba, 1);
        lemma_channel_code(rgba, 2);
        lemma_channel_code(rgba, 3);
        let (lg, lr, lb, la) = (
            channel_code(rgba, 1),
            channel_code(rgba, 0),
            channel_code(rgba, 2),
            channel_code(rgba, 3),
        );
        lemma_codeword_len(lg, rgba[4 * i + 1] as int);
        lemma_codeword_len(lr, rgba[4 * i] as int);
        lemma_codeword_len(lb, rgba[4 * i + 2] as int);
        lemma_codeword_len(la, rgba[4 * i + 3] as int);
    }
}

proof fn lemma_codeword_len(l: Seq<u8>, s: int)
    requires
        lengths_ok(l),
        0 <= s < l.len(),
    ensures
        codeword(l, s).len() <= 15,
{
    lemma_word_len(super::huffman::code_number(l, s), l[s] as nat);
}

} // verus!
