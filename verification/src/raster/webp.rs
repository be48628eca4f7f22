//! WebP files: a RIFF container around a lossless (`VP8L`) or a lossy (`VP8 `)
//! image. Extended and animated files are not handled.
use super::bits::{bits_bytes, bytes_bits, lemma_bytes_of_bits, stream_of};
use super::lossless::{
    decode_vp8l, encode_vp8l, law_bytes_pixels_bytes, law_stream_round_trip, lemma_stream_len,
    parse_stream, pixels_of, rgba_bytes, stream_bits,
};
use super::vp8;
use super::vp8::frame::keyframe_rgba;
use super::vp8l::MAX_SIDE;
use vstd::prelude::*;
use vstd::slice::slice_subrange;

verus! {

pub const RIFF: [u8; 4] = [0x52, 0x49, 0x46, 0x46];

pub const WEBP: [u8; 4] = [0x57, 0x45, 0x42, 0x50];

/// The tag of a lossless image.
pub const VP8L: [u8; 4] = [0x56, 0x50, 0x38, 0x4c];

/// The tag of a lossy image.
pub const VP8: [u8; 4] = [0x56, 0x50, 0x38, 0x20];

/// The tag of an extended file.
pub const VP8X: [u8; 4] = [0x56, 0x50, 0x38, 0x58];

/// The tag of what frames of an animation share.
pub const ANIM: [u8; 4] = [0x41, 0x4E, 0x49, 0x4D];

/// The tag of a frame of an animation.
pub const ANMF: [u8; 4] = [0x41, 0x4E, 0x4D, 0x46];

// ── container ───────────────────────────────────────────────────────────────

/// The low 32 bits of a number, low byte first.
pub open spec fn le32(n: nat) -> Seq<u8> {
    seq![
        (n % 256) as u8,
        (n / 0x100 % 256) as u8,
        (n / 0x10000 % 256) as u8,
        (n / 0x1000000 % 256) as u8,
    ]
}

/// The number in four bytes, low byte first.
pub open spec fn number_at(d: Seq<u8>, i: int) -> nat {
    (d[i] + 0x100 * d[i + 1] + 0x10000 * d[i + 2] + 0x1000000 * d[i + 3]) as nat
}

/// Whether four bytes stand at `i`.
pub open spec fn tag_at(d: Seq<u8>, i: int, t: Seq<u8>) -> bool {
    d[i] == t[0] && d[i + 1] == t[1] && d[i + 2] == t[2] && d[i + 3] == t[3]
}

/// Nothing, or one zero byte that makes a length even.
pub open spec fn padding(n: nat) -> Seq<u8> {
    if n % 2 == 1 {
        seq![0u8]
    } else {
        Seq::empty()
    }
}

/// A lossless stream in its container.
pub open spec fn wrapped(body: Seq<u8>) -> Seq<u8> {
    RIFF@ + le32(body.len() + body.len() % 2 + 12) + WEBP@ + VP8L@ + le32(body.len()) + body
        + padding(body.len())
}

fn push_all(out: &mut Vec<u8>, s: &[u8])
    ensures
        final(out)@ == old(out)@ + s@,
{
    let ghost out0 = out@;
    let mut i: usize = 0;
    assert(out@ =~= out0 + s@.subrange(0, 0));
    while i < s.len()
        invariant
            i <= s.len(),
            out@ == out0 + s@.subrange(0, i as int),
        decreases s.len() - i,
    {
        out.push(s[i]);
        i = i + 1;
        assert(out@ =~= out0 + s@.subrange(0, i as int));
    }
    assert(s@.subrange(0, s@.len() as int) =~= s@);
}

fn push_le32(out: &mut Vec<u8>, n: u64)
    ensures
        final(out)@ == old(out)@ + le32(n as nat),
{
    let ghost out0 = out@;
    out.push((n % 256) as u8);
    out.push((n / 0x100 % 256) as u8);
    out.push((n / 0x10000 % 256) as u8);
    out.push((n / 0x1000000 % 256) as u8);
    assert(out@ =~= out0 + le32(n as nat));
}

/// Put a lossless stream into a container.
pub fn riff_wrap(vp8l: &[u8]) -> (out: Vec<u8>)
    requires
        vp8l@.len() + 13 <= u64::MAX,
    ensures
        out@ == wrapped(vp8l@),
{
    let n: u64 = vp8l.len() as u64;
    let mut out: Vec<u8> = Vec::new();
    push_all(&mut out, RIFF.as_slice());
    push_le32(&mut out, n + n % 2 + 12);
    push_all(&mut out, WEBP.as_slice());
    push_all(&mut out, VP8L.as_slice());
    push_le32(&mut out, n);
    push_all(&mut out, vp8l);
    if n % 2 == 1 {
        out.push(0);
    }
    assert(out@ =~= wrapped(vp8l@));
    out
}

/// A chunk that only an extended or an animated file has.
pub open spec fn is_beyond(d: Seq<u8>, pos: int) -> bool {
    tag_at(d, pos, VP8X@) || tag_at(d, pos, ANIM@) || tag_at(d, pos, ANMF@)
}

/// The first image chunk from `pos` on: whether it is lossy, and its body. There
/// is none in an extended or an animated file.
pub open spec fn find_image(d: Seq<u8>, pos: nat) -> Option<(bool, Seq<u8>)>
    decreases d.len() + 2 - pos,
{
    if pos + 8 > d.len() || is_beyond(d, pos as int) {
        None
    } else {
        let size = number_at(d, pos as int + 4);
        let from = pos + 8;
        if from + size > d.len() {
            None
        } else if tag_at(d, pos as int, VP8@) {
            Some((true, d.subrange(from as int, (from + size) as int)))
        } else if tag_at(d, pos as int, VP8L@) {
            Some((false, d.subrange(from as int, (from + size) as int)))
        } else {
            find_image(d, from + size + size % 2)
        }
    }
}

/// A file's image: width, height and RGBA bytes.
pub open spec fn image_of(d: Seq<u8>) -> Option<(nat, nat, Seq<u8>)> {
    if d.len() < 20 || !tag_at(d, 0, RIFF@) || !tag_at(d, 8, WEBP@) {
        None
    } else {
        match find_image(d, 12) {
            None => None,
            Some((lossy, body)) => if lossy {
                keyframe_rgba(body)
            } else {
                match parse_stream(stream_of(body)) {
                    None => None,
                    Some((w, h, px)) => Some((w, h, rgba_bytes(px))),
                }
            },
        }
    }
}

fn is_tag(d: &[u8], i: usize, t: &[u8; 4]) -> (r: bool)
    requires
        i + 4 <= d@.len(),
    ensures
        r == tag_at(d@, i as int, t@),
{
    d[i] == t[0] && d[i + 1] == t[1] && d[i + 2] == t[2] && d[i + 3] == t[3]
}

fn read_number(d: &[u8], i: usize) -> (n: usize)
    requires
        i + 4 <= d@.len(),
    ensures
        n == number_at(d@, i as int),
{
    (d[i] as u32 + 0x100 * d[i + 1] as u32 + 0x10000 * d[i + 2] as u32 + 0x1000000 * d[i
        + 3] as u32) as usize
}

fn find_chunk<'a>(d: &'a [u8]) -> (r: Option<(bool, &'a [u8])>)
    requires
        d@.len() >= 20,
    ensures
        match find_image(d@, 12) {
            Some(c) => r is Some && (r->0).0 == c.0 && (r->0).1@ == c.1,
            None => r is None,
        },
{
    let mut pos: usize = 12;
    while pos <= d.len() - 8
        invariant
            d@.len() >= 20,
            find_image(d@, pos as nat) == find_image(d@, 12),
        decreases d@.len() - pos,
    {
        if is_tag(d, pos, &VP8X) || is_tag(d, pos, &ANIM) || is_tag(d, pos, &ANMF) {
            return None;
        }
        let size: usize = read_number(d, pos + 4);
        let from: usize = pos + 8;
        if size > d.len() - from {
            return None;
        }
        let body: &'a [u8] = slice_subrange(d, from, from + size);
        if is_tag(d, pos, &VP8) {
            return Some((true, body));
        }
        if is_tag(d, pos, &VP8L) {
            return Some((false, body));
        }
        let next: usize = from + size;
        if next > d.len() - 8 {
            assert(find_image(d@, (next + size % 2) as nat) is None);
            return None;
        }
        pos = next + size % 2;
    }
    None
}

/// Decode a WebP file into width, height and RGBA bytes, lossless or lossy.
/// `None` for extended files and for streams that are malformed or cut short.
pub fn decode_webp(data: &[u8]) -> (r: Option<(u32, u32, Vec<u8>)>)
    ensures
        match image_of(data@) {
            Some(d) => r is Some && (r->0).0 == d.0 && (r->0).1 == d.1 && (r->0).2@ == d.2,
            None => r is None,
        },
{
    if data.len() < 20 || !is_tag(data, 0, &RIFF) || !is_tag(data, 8, &WEBP) {
        return None;
    }
    match find_chunk(data) {
        None => None,
        Some((lossy, body)) => {
            if lossy {
                vp8::decode(body)
            } else {
                decode_vp8l(body)
            }
        },
    }
}

// ── encoding ────────────────────────────────────────────────────────────────

/// Sizes that a file can hold, and as many bytes as pixels need.
pub open spec fn encodable(width: nat, height: nat, rgba: Seq<u8>) -> bool {
    &&& 1 <= width <= MAX_SIDE
    &&& 1 <= height <= MAX_SIDE
    &&& rgba.len() == width * height * 4
}

/// An image as a lossless file.
pub open spec fn file_of(width: nat, height: nat, rgba: Seq<u8>) -> Seq<u8> {
    wrapped(bits_bytes(stream_bits(width, height, rgba)))
}

/// Encode RGBA bytes as a lossless WebP file. Empty when the size is zero, too
/// large, or does not fit the bytes.
pub fn encode_webp(width: u32, height: u32, rgba: &[u8]) -> (out: Vec<u8>)
    ensures
        encodable(width as nat, height as nat, rgba@) ==> out@ == file_of(
            width as nat,
            height as nat,
            rgba@,
        ),
        !encodable(width as nat, height as nat, rgba@) ==> out@.len() == 0,
{
    if width == 0 || height == 0 || width > MAX_SIDE || height > MAX_SIDE {
        return Vec::new();
    }
    proof {
        assert(width * height <= 0x1000_0000) by (nonlinear_arith)
            requires
                width <= 16384,
                height <= 16384,
        ;
    }
    if rgba.len() != width as usize * height as usize * 4 {
        return Vec::new();
    }
    let body: Vec<u8> = encode_vp8l(width, height, rgba);
    proof {
        lemma_body_len(width as nat, height as nat, rgba@);
    }
    riff_wrap(body.as_slice())
}

proof fn lemma_body_len(width: nat, height: nat, rgba: Seq<u8>)
    requires
        encodable(width, height, rgba),
    ensures
        bits_bytes(stream_bits(width, height, rgba)).len() <= 0x8000_0000,
{
    let s = stream_bits(width, height, rgba);
    lemma_stream_len(width, height, rgba);
    lemma_bytes_of_bits(s);
    let n = choose|n: nat|
        n < 8 && #[trigger] (s.len() + n) % 8 == 0 && bytes_bits(bits_bytes(s)) == s + Seq::new(
            n,
            |i: int| false,
        );
    assert(bytes_bits(bits_bytes(s)).len() == 8 * bits_bytes(s).len());
}

proof fn lemma_le32(n: nat, d: Seq<u8>, i: int)
    requires
        n <= 0xFFFF_FFFF,
        0 <= i,
        i + 4 <= d.len(),
        d.subrange(i, i + 4) == le32(n),
    ensures
        number_at(d, i) == n,
{
    let t = d.subrange(i, i + 4);
    assert(t[0] == d[i] && t[1] == d[i + 1] && t[2] == d[i + 2] && t[3] == d[i + 3]);
    assert(n / 0x1000000 < 256);
    assert(n == n % 256 + 0x100 * (n / 0x100 % 256) + 0x10000 * (n / 0x10000 % 256) + 0x1000000 * (n
        / 0x1000000));
}

proof fn lemma_find_wrapped(body: Seq<u8>)
    requires
        body.len() <= 0xFFFF_FFFF,
    ensures
        wrapped(body).len() >= 20,
        tag_at(wrapped(body), 0, RIFF@),
        tag_at(wrapped(body), 8, WEBP@),
        find_image(wrapped(body), 12) == Some((false, body)),
{
    let d = wrapped(body);
    let size = le32(body.len() + body.len() % 2 + 12);
    assert(RIFF@.len() == 4 && WEBP@.len() == 4 && VP8L@.len() == 4 && size.len() == 4);
    assert(le32(body.len()).len() == 4);
    assert(d.subrange(0, 4) =~= RIFF@);
    assert(d.subrange(8, 12) =~= WEBP@);
    assert(d.subrange(12, 16) =~= VP8L@);
    assert(d.subrange(16, 20) =~= le32(body.len()));
    assert(d.subrange(20, 20 + body.len() as int) =~= body);
    lemma_tag(d, 0, RIFF@);
    lemma_tag(d, 8, WEBP@);
    lemma_tag(d, 12, VP8L@);
    lemma_le32(body.len(), d, 16);
}

proof fn lemma_tag(d: Seq<u8>, i: int, t: Seq<u8>)
    requires
        0 <= i,
        i + 4 <= d.len(),
        t.len() == 4,
        d.subrange(i, i + 4) == t,
    ensures
        tag_at(d, i, t),
{
    let s = d.subrange(i, i + 4);
    assert(s[0] == d[i] && s[1] == d[i + 1] && s[2] == d[i + 2] && s[3] == d[i + 3]);
}

/// Encoding is lossless: decoding an encoded image gives back its size and its
/// bytes.
pub proof fn law_round_trip(width: nat, height: nat, rgba: Seq<u8>)
    requires
        encodable(width, height, rgba),
    ensures
        image_of(file_of(width, height, rgba)) == Some((width, height, rgba)),
{
    let s = stream_bits(width, height, rgba);
    lemma_body_len(width, height, rgba);
    lemma_decode_body(width, height, rgba);
    lemma_wrapped_image(bits_bytes(s), width, height, pixels_of(rgba));
    assert(rgba.len() % 4 == 0) by (nonlinear_arith)
        requires
            rgba.len() == width * height * 4,
    ;
    law_bytes_pixels_bytes(rgba);
}

proof fn lemma_decode_body(width: nat, height: nat, rgba: Seq<u8>)
    requires
        encodable(width, height, rgba),
    ensures
        parse_stream(stream_of(bits_bytes(stream_bits(width, height, rgba)))) == Some(
            (width, height, pixels_of(rgba)),
        ),
{
    let s = stream_bits(width, height, rgba);
    lemma_bytes_of_bits(s);
    let n = choose|n: nat|
        n < 8 && #[trigger] (s.len() + n) % 8 == 0 && bytes_bits(bits_bytes(s)) == s + Seq::new(
            n,
            |i: int| false,
        );
    let rest = Seq::new(n, |i: int| false).push(false);
    assert(stream_of(bits_bytes(s)) =~= s + rest);
    law_stream_round_trip(width, height, rgba, rest);
}

proof fn lemma_wrapped_image(body: Seq<u8>, width: nat, height: nat, px: Seq<u32>)
    requires
        body.len() <= 0xFFFF_FFFF,
        parse_stream(stream_of(body)) == Some((width, height, px)),
    ensures
        image_of(wrapped(body)) == Some((width, height, rgba_bytes(px))),
{
    lemma_find_wrapped(body);
}

/// A container counts its bytes: the number behind its first tag is how many
/// follow it, and the one behind the tag of the image how many the image has,
/// without what fills it up to an even length.
pub proof fn law_containers_count_their_bytes(body: Seq<u8>)
    requires
        body.len() <= 0xffff_0000,
    ensures
        ({
            let d = wrapped(body);
            &&& d.len() % 2 == 0
            &&& number_at(d, 4) == d.len() - 8
            &&& number_at(d, 16) == body.len()
            &&& d.subrange(20, (20 + body.len()) as int) == body
            &&& d.len() == 20 + body.len() + body.len() % 2
        }),
{
    let d = wrapped(body);
    let n = body.len() + body.len() % 2 + 12;
    assert(d.len() == 20 + body.len() + padding(body.len()).len());
    assert(d.subrange(4, 8) =~= le32(n));
    assert(d.subrange(16, 20) =~= le32(body.len()));
    lemma_le32(n, d, 4);
    lemma_le32(body.len(), d, 16);
    assert(d.subrange(20, (20 + body.len()) as int) =~= body);
}

} // verus!
