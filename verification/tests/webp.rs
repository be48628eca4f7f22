//! Lossless images: round trips and each transform.
use pagecore::raster::argb::add_argb;
use pagecore::raster::bits::BitW;
use pagecore::raster::code_lengths::huffman_lengths;
use pagecore::raster::huffman::canonical_codes;
use pagecore::raster::tree::write_tree;
use pagecore::raster::webp::{decode_webp, encode_webp, riff_wrap};

#[test]
fn lossless_round_trip() {
    let (w, h) = (12u32, 9u32);
    let mut rgba = vec![0u8; (w * h * 4) as usize];
    for y in 0..h {
        for x in 0..w {
            let p = ((y * w + x) * 4) as usize;
            rgba[p] = (x * 20) as u8;
            rgba[p + 1] = (y * 25) as u8;
            rgba[p + 2] = ((x + y) * 10) as u8;
            rgba[p + 3] = 255;
        }
    }
    let webp = encode_webp(w, h, &rgba);
    assert_eq!(&webp[0..4], b"RIFF");
    assert_eq!(&webp[8..12], b"WEBP");
    let (dw, dh, dec) = decode_webp(&webp).expect("decodes");
    assert_eq!((dw, dh), (w, h));
    assert_eq!(dec, rgba, "lossless: exact round-trip");
}

#[test]
fn webp_rejects_bad_input() {
    assert!(encode_webp(0, 0, &[]).is_empty());
    assert!(decode_webp(b"not webp").is_none());
}

/// A small image of many colours.
fn coloured() -> (u32, u32, Vec<u8>) {
    let mut rgba = Vec::new();
    for i in 0..48u32 {
        rgba.extend([(i * 5) as u8, (i * 11) as u8, (255 - i * 3) as u8, 255]);
    }
    (8, 6, rgba)
}

#[test]
fn a_stream_that_ends_early_is_no_image() {
    let (w, h, rgba) = coloured();
    let webp = encode_webp(w, h, &rgba);
    let size = u32::from_le_bytes([webp[16], webp[17], webp[18], webp[19]]) as usize;
    let payload = &webp[20..20 + size];
    assert_eq!(decode_webp(&riff_wrap(payload)), Some((w, h, rgba)));
    for cut in [1usize, 8, size / 2, size - 5] {
        assert!(decode_webp(&riff_wrap(&payload[..size - cut])).is_none());
    }
}

#[test]
fn the_extended_format_is_not_read() {
    let (w, h, rgba) = coloured();
    let webp = encode_webp(w, h, &rgba);
    let mut file = webp[..12].to_vec();
    file.extend(b"VP8X");
    file.extend(10u32.to_le_bytes());
    file.extend([0u8; 4]);
    file.extend([(w - 1) as u8, 0, 0, (h - 1) as u8, 0, 0]);
    file.extend(&webp[12..]);
    let size = (file.len() - 8) as u32;
    file[4..8].copy_from_slice(&size.to_le_bytes());
    assert!(decode_webp(&file).is_none());
}

#[test]
fn words_are_bounded_by_the_symbols_that_occur() {
    let mut freq = vec![0u32; 100];
    freq[7] = 2;
    freq[40] = 9;
    freq[99] = 3;
    let lengths = huffman_lengths(&freq, 2);
    assert_eq!((lengths[7], lengths[40], lengths[99]), (2, 1, 2));
    assert_eq!(lengths.iter().filter(|b| **b > 0).count(), 3);
}

#[test]
fn no_other_words_are_shorter() {
    let freq = [5u32, 9, 12, 13, 16, 45];
    let lengths = huffman_lengths(&freq, 15);
    let bits: u32 = freq.iter().zip(&lengths).map(|(f, b)| f * *b as u32).sum();
    assert_eq!(bits, 224);
    let filled: u32 = lengths.iter().map(|b| 1u32 << (15 - *b)).sum();
    assert_eq!(filled, 1 << 15);
}

// ── hand-crafted VP8L bitstreams exercising each transform ────────────────
//
// These build real VP8L streams with `BitW` (the same writer the encoder
// uses) and assert the decoder undoes each transform to the expected
// pixels. They prove the transform decode paths independently of any
// external `cwebp`/`libwebp` binary (zero-dependency at test time).

/// Emit a single-Huffman-group, no-cache VP8L image *body* (everything
/// after the per-image header) carrying `pixels` as literals. The
/// meta-Huffman bit is written only for a top-level image (`with_meta`);
/// sub-images (transform/entropy images) never carry it, matching the
/// decoder's `allow_meta` gating.
fn emit_literal_body(w: &mut BitW, with_meta: bool, pixels: &[u32]) {
    w.write(0, 1); // colour cache present = 0
    if with_meta {
        w.write(0, 1); // meta-huffman = 0
    }
    let (mut fg, mut fr, mut fb, mut fa) =
        ([0u32; 280], [0u32; 256], [0u32; 256], [0u32; 256]);
    for &p in pixels {
        fr[((p >> 16) & 0xff) as usize] += 1;
        fg[((p >> 8) & 0xff) as usize] += 1;
        fb[(p & 0xff) as usize] += 1;
        fa[((p >> 24) & 0xff) as usize] += 1;
    }
    let lg = huffman_lengths(&fg, 15);
    let lr = huffman_lengths(&fr, 15);
    let lb = huffman_lengths(&fb, 15);
    let la = huffman_lengths(&fa, 15);
    let mut ld = vec![0u8; 40];
    ld[0] = 1; // single dummy distance symbol (never emitted)
    write_tree(w, &lg);
    write_tree(w, &lr);
    write_tree(w, &lb);
    write_tree(w, &la);
    write_tree(w, &ld);
    let cg = canonical_codes(&lg);
    let cr = canonical_codes(&lr);
    let cb = canonical_codes(&lb);
    let ca = canonical_codes(&la);
    for &p in pixels {
        let (r8, g8, b8, a8) = (
            ((p >> 16) & 0xff) as usize,
            ((p >> 8) & 0xff) as usize,
            (p & 0xff) as usize,
            ((p >> 24) & 0xff) as usize,
        );
        w.write(cg[g8] as u32, lg[g8] as u32);
        w.write(cr[r8] as u32, lr[r8] as u32);
        w.write(cb[b8] as u32, lb[b8] as u32);
        w.write(ca[a8] as u32, la[a8] as u32);
    }
}

/// Build a complete VP8L WebP: header + `transforms` (each a closure that
/// writes its transform sub-stream) + the literal main image `pixels` at
/// `main_w`×`height`.
fn build_vp8l(
    width: u32,
    height: u32,
    transforms: &[&dyn Fn(&mut BitW)],
    main_w: u32,
    pixels: &[u32],
) -> Vec<u8> {
    let mut w = BitW::new();
    w.write(0x2F, 8);
    w.write(width - 1, 14);
    w.write(height - 1, 14);
    w.write(1, 1); // alpha used
    w.write(0, 3); // version
    for t in transforms {
        w.write(1, 1); // transform present
        t(&mut w);
    }
    w.write(0, 1); // no more transforms
    let _ = main_w;
    emit_literal_body(&mut w, true, pixels);
    riff_wrap(&w.finish())
}

fn decoded_argb(webp: &[u8], width: u32, height: u32) -> Vec<u32> {
    let (dw, dh, rgba) = decode_webp(webp).expect("decode");
    assert_eq!((dw, dh), (width, height));
    rgba
        .chunks_exact(4)
        .map(|c| {
            ((c[3] as u32) << 24)
                | ((c[0] as u32) << 16)
                | ((c[1] as u32) << 8)
                | c[2] as u32
        })
        .collect()
}

#[test]
fn transform_subtract_green() {
    // 2×2 residuals; decoder must add green back into red & blue.
    // residual ARGB → expected: red = (r+g)&0xff, blue = (b+g)&0xff.
    let (w, h) = (2u32, 2u32);
    let resid = [0xff10_2030u32, 0xff00_ff00, 0xff40_0801, 0xfffe_0102];
    let sg = |bw: &mut BitW| bw.write(2, 2); // type 2 = subtract-green
    let webp = build_vp8l(w, h, &[&sg], w, &resid);
    let got = decoded_argb(&webp, w, h);
    let expect: Vec<u32> = resid
        .iter()
        .map(|&p| {
            let g = (p >> 8) & 0xff;
            let r = ((p >> 16) + g) & 0xff;
            let b = (p + g) & 0xff;
            (p & 0xff00_ff00) | (r << 16) | b
        })
        .collect();
    assert_eq!(got, expect, "subtract-green inverse");
}

#[test]
fn transform_predictor_modes() {
    // 3×2 image, one 4×4 block (size_bits=2 → block 4 covers the image), so
    // a single mode pixel applies to all interior pixels. Use mode 1 (left).
    let (w, h) = (3u32, 2u32);
    // residuals (these are added to the spatial prediction)
    let resid = [
        0xff01_0203u32, 0xff00_0001, 0xff00_0001, // row 0
        0xff00_0102, 0xff00_0000, 0xff00_0000, // row 1
    ];
    // sub-image is 1×1 (ceil(3/4)=1, ceil(2/4)=1); green byte = mode 1.
    let pred = |bw: &mut BitW| {
        bw.write(0, 2); // type 0 = predictor
        bw.write(0, 3); // size_bits - 2 = 0 → size_bits 2 → block 4
        emit_literal_body(bw, false, &[0x0000_0100]); // green = 1 (mode 1 = left)
    };
    let webp = build_vp8l(w, h, &[&pred], w, &resid);
    let got = decoded_argb(&webp, w, h);
    // Reconstruct expected by the spec rules.
    let mut exp = vec![0u32; (w * h) as usize];
    for y in 0..h as usize {
        for x in 0..w as usize {
            let i = y * w as usize + x;
            let pred = if x == 0 && y == 0 {
                0xff00_0000
            } else if y == 0 {
                exp[i - 1] // left
            } else if x == 0 {
                exp[i - w as usize] // top
            } else {
                exp[i - 1] // mode 1 = left
            };
            exp[i] = add_argb(resid[i], pred);
        }
    }
    assert_eq!(got, exp, "predictor mode-1 inverse");
}

#[test]
fn transform_color() {
    // 2×2; colour transform with a known ColorTransformElement.
    // sub-image pixel packs: blue=g2r, green=g2b, red=r2b (signed 8-bit).
    let (w, h) = (2u32, 2u32);
    let resid = [0xff20_4060u32, 0xff10_2030, 0xff80_1008, 0xff00_70a0];
    let g2r = 12i32;
    let g2b = -8i32;
    let r2b = 5i32;
    let cte = (((r2b as u8 as u32) << 16) | ((g2b as u8 as u32) << 8) | (g2r as u8 as u32))
        & 0x00ff_ffff;
    let color = move |bw: &mut BitW| {
        bw.write(1, 2); // type 1 = colour transform
        bw.write(0, 3); // size_bits 2 → 1×1 sub-image
        emit_literal_body(bw, false, &[cte]);
    };
    let webp = build_vp8l(w, h, &[&color], w, &resid);
    let got = decoded_argb(&webp, w, h);
    let expect: Vec<u32> = resid
        .iter()
        .map(|&p| {
            let green = ((p >> 8) & 0xff) as i32;
            let mut red = ((p >> 16) & 0xff) as i32;
            let mut blue = (p & 0xff) as i32;
            red += (g2r * (green as u8 as i8 as i32)) >> 5;
            blue += (g2b * (green as u8 as i8 as i32)) >> 5;
            blue += (r2b * ((red & 0xff) as u8 as i8 as i32)) >> 5;
            (p & 0xff00_ff00) | (((red & 0xff) as u32) << 16) | ((blue & 0xff) as u32)
        })
        .collect();
    assert_eq!(got, expect, "colour transform inverse");
}

#[test]
fn transform_color_indexing_unbundled() {
    // 4 colours but a 32-entry palette forces no bundling (bits=0): each
    // pixel's green byte is a direct palette index.
    let (w, h) = (3u32, 2u32);
    let palette: Vec<u32> = (0..20u32)
        .map(|k| 0xff00_0000 | (k * 0x010203))
        .collect();
    let size = palette.len() as u32; // 20 > 16 → unbundled
    // palette delta-coded for transmission
    let mut deltas = vec![palette[0]];
    for k in 1..palette.len() {
        // delta = entry - prev (component-wise, mod 256)
        let a = palette[k];
        let b = palette[k - 1];
        let d = (((a >> 24).wrapping_sub(b >> 24) & 0xff) << 24)
            | ((((a >> 16) & 0xff).wrapping_sub((b >> 16) & 0xff) & 0xff) << 16)
            | ((((a >> 8) & 0xff).wrapping_sub((b >> 8) & 0xff) & 0xff) << 8)
            | ((a & 0xff).wrapping_sub(b & 0xff) & 0xff);
        deltas.push(d);
    }
    let cidx = move |bw: &mut BitW| {
        bw.write(3, 2); // type 3 = colour indexing
        bw.write(size - 1, 8);
        emit_literal_body(bw, false, &deltas);
    };
    // main image carries indices in the green byte.
    let idx = [3u32, 7, 19, 0, 11, 5];
    let main: Vec<u32> = idx.iter().map(|&k| 0xff00_0000 | (k << 8)).collect();
    let webp = build_vp8l(w, h, &[&cidx], w, &main);
    let got = decoded_argb(&webp, w, h);
    let expect: Vec<u32> = idx.iter().map(|&k| palette[k as usize]).collect();
    assert_eq!(got, expect, "colour-indexing (unbundled) inverse");
}

#[test]
fn transform_color_indexing_bundled() {
    // 2-colour palette → 3-bit bundling (8 pixels per packed byte). Verify
    // the un-bundling un-packs the correct indices.
    let (w, h) = (5u32, 2u32); // 10 px, packs into ceil(5/8)=1 sample/row
    let palette = [0xff10_2030u32, 0xfffa_fbfc];
    let deltas = [palette[0], {
        let a = palette[1];
        let b = palette[0];
        (((a >> 24).wrapping_sub(b >> 24) & 0xff) << 24)
            | ((((a >> 16) & 0xff).wrapping_sub((b >> 16) & 0xff) & 0xff) << 16)
            | ((((a >> 8) & 0xff).wrapping_sub((b >> 8) & 0xff) & 0xff) << 8)
            | ((a & 0xff).wrapping_sub(b & 0xff) & 0xff)
    }];
    let cidx = move |bw: &mut BitW| {
        bw.write(3, 2);
        bw.write(1, 8); // table_size - 1 = 1 → 2 colours
        emit_literal_body(bw, false, &deltas);
    };
    // Choose per-pixel indices, then pack 8 per byte (low bits first).
    let idx_row0 = [1u32, 0, 1, 1, 0]; // 5 indices in row 0
    let idx_row1 = [0u32, 1, 0, 0, 1];
    let pack = |idxs: &[u32]| -> u32 {
        let mut g = 0u32;
        for (j, &v) in idxs.iter().enumerate() {
            g |= v << (j as u32); // 1 bit per index (8 >> 3 = 1)
        }
        0xff00_0000 | (g << 8)
    };
    // packed image is 1 wide × 2 tall (one byte per row).
    let main = [pack(&idx_row0), pack(&idx_row1)];
    let webp = build_vp8l(w, h, &[&cidx], 1, &main);
    let got = decoded_argb(&webp, w, h);
    let mut expect = Vec::new();
    for &k in idx_row0.iter() {
        expect.push(palette[k as usize]);
    }
    for &k in idx_row1.iter() {
        expect.push(palette[k as usize]);
    }
    assert_eq!(got, expect, "colour-indexing (3-bit bundle) inverse");
}

/// The four channel length/code tables for one Huffman group, built from
/// the symbols it must encode.
struct GroupCodes {
    lg: Vec<u8>,
    lr: Vec<u8>,
    lb: Vec<u8>,
    la: Vec<u8>,
    cg: Vec<u16>,
    cr: Vec<u16>,
    cb: Vec<u16>,
    ca: Vec<u16>,
}
fn group_codes(pixels: &[u32]) -> GroupCodes {
    let (mut fg, mut fr, mut fb, mut fa) =
        ([0u32; 280], [0u32; 256], [0u32; 256], [0u32; 256]);
    for &p in pixels {
        fr[((p >> 16) & 0xff) as usize] += 1;
        fg[((p >> 8) & 0xff) as usize] += 1;
        fb[(p & 0xff) as usize] += 1;
        fa[((p >> 24) & 0xff) as usize] += 1;
    }
    let lg = huffman_lengths(&fg, 15);
    let lr = huffman_lengths(&fr, 15);
    let lb = huffman_lengths(&fb, 15);
    let la = huffman_lengths(&fa, 15);
    GroupCodes {
        cg: canonical_codes(&lg),
        cr: canonical_codes(&lr),
        cb: canonical_codes(&lb),
        ca: canonical_codes(&la),
        lg,
        lr,
        lb,
        la,
    }
}
/// Write a group's five trees (the dummy distance tree included).
fn write_group_trees(w: &mut BitW, gc: &GroupCodes) {
    write_tree(w, &gc.lg);
    write_tree(w, &gc.lr);
    write_tree(w, &gc.lb);
    write_tree(w, &gc.la);
    let mut ld = vec![0u8; 40];
    ld[0] = 1;
    write_tree(w, &ld);
}
/// Emit one literal pixel with a group's codes.
fn write_pixel(w: &mut BitW, gc: &GroupCodes, p: u32) {
    let (r8, g8, b8, a8) = (
        ((p >> 16) & 0xff) as usize,
        ((p >> 8) & 0xff) as usize,
        (p & 0xff) as usize,
        ((p >> 24) & 0xff) as usize,
    );
    w.write(gc.cg[g8] as u32, gc.lg[g8] as u32);
    w.write(gc.cr[r8] as u32, gc.lr[r8] as u32);
    w.write(gc.cb[b8] as u32, gc.lb[b8] as u32);
    w.write(gc.ca[a8] as u32, gc.la[a8] as u32);
}

#[test]
fn meta_huffman_two_groups() {
    // 8×1 image, huff_bits=2 (block size 4) → a 2×1 entropy image routes the
    // left half to Huffman group 0 and the right half to group 1. VP8L writes
    // ALL group trees first, then one combined raster pixel stream, so the
    // test proves both the entropy-image sub-decode and per-pixel group
    // routing are correct.
    let (w, h) = (8u32, 1u32);
    let main = [
        0xff11_2233u32, 0xff44_5566, 0xff11_2233, 0xff44_5566, // block 0 → group 0
        0xff77_8899, 0xffaa_bbcc, 0xff77_8899, 0xffaa_bbcc, // block 1 → group 1
    ];
    // Entropy image 2×1; group index = (red<<8 | green). Left=0, right=1.
    let entropy = [0x0000_0000u32, 0x0000_0100];
    let g0 = group_codes(&main[0..4]);
    let g1 = group_codes(&main[4..8]);
    let mut bw = BitW::new();
    bw.write(0x2F, 8);
    bw.write(w - 1, 14);
    bw.write(h - 1, 14);
    bw.write(1, 1); // alpha used
    bw.write(0, 3); // version
    bw.write(0, 1); // no transforms
    // Main image header.
    bw.write(0, 1); // colour cache present = 0
    bw.write(1, 1); // use meta-huffman = 1
    bw.write(0, 3); // huff_bits - 2 = 0 → block size 4
    emit_literal_body(&mut bw, false, &entropy); // entropy image (2×1)
    // All group trees first…
    write_group_trees(&mut bw, &g0);
    write_group_trees(&mut bw, &g1);
    // …then the raster pixel stream, each pixel via its routed group.
    for (x, &p) in main.iter().enumerate() {
        let gc = if (x >> 2) == 0 { &g0 } else { &g1 };
        write_pixel(&mut bw, gc, p);
    }
    let webp = riff_wrap(&bw.finish());
    let got = decoded_argb(&webp, w, h);
    assert_eq!(got, main, "meta-huffman group routing");
}

// ── real libwebp lossless fixtures (decode `cwebp`/libwebp output) ────────
//
// These byte arrays are genuine lossless WebP files produced by libwebp
// (PIL `save(lossless=True, method=6)`), so they exercise libwebp's *own*
// tree encoding (simple codes, max_symbol, etc.) and transforms — not just
// this crate's encoder. They are fully opaque (alpha = 255), so the decoded
// pixels equal the generating formula exactly (a true round-trip).

/// 32×24 gradient, PREDICTOR transform (libwebp). RGB = (x·7, y·9, (x+y)·5).
const GRAD_WEBP: &[u8] = &[
    0x52, 0x49, 0x46, 0x46, 0x30, 0x00, 0x00, 0x00, 0x57, 0x45, 0x42, 0x50, 0x56, 0x50, 0x38, 0x4c,
    0x24, 0x00, 0x00, 0x00, 0x2f, 0x1f, 0xc0, 0x05, 0x00, 0xb9, 0x8c, 0xe8, 0x7f, 0xec, 0x22, 0xa2,
    0xff, 0x01, 0x21, 0x01, 0xa1, 0xfa, 0xbf, 0x5a, 0x95, 0xe6, 0x40, 0x41, 0xda, 0x06, 0x2c, 0x6c,
    0x77, 0x62, 0x02, 0x00, 0x5f, 0xeb, 0x7b, 0x03,
];

/// 19×11 black/white checkerboard, COLOR_INDEXING transform with 3-bit
/// pixel bundling (2-colour palette). Index = `(x·y) % 2`.
const PAL2_WEBP: &[u8] = &[
    0x52, 0x49, 0x46, 0x46, 0x2e, 0x00, 0x00, 0x00, 0x57, 0x45, 0x42, 0x50, 0x56, 0x50, 0x38, 0x4c,
    0x22, 0x00, 0x00, 0x00, 0x2f, 0x12, 0x80, 0x02, 0x00, 0x0f, 0x30, 0xff, 0xf3, 0x3f, 0xff, 0xf3,
    0x1f, 0x78, 0x20, 0xc8, 0xb6, 0x69, 0xee, 0x4f, 0x32, 0xd3, 0x1b, 0x44, 0xf4, 0x9f, 0x60, 0x92,
    0xa6, 0xda, 0x8e, 0x41, 0xed, 0x39,
];

#[test]
fn real_libwebp_predictor() {
    let (w, h) = (32u32, 24u32);
    let (dw, dh, rgba) = decode_webp(GRAD_WEBP).expect("decode real predictor WebP");
    assert_eq!((dw, dh), (w, h));
    let mut expect = vec![0u8; (w * h * 4) as usize];
    for y in 0..h {
        for x in 0..w {
            let p = ((y * w + x) * 4) as usize;
            expect[p] = ((x * 7) & 0xff) as u8;
            expect[p + 1] = ((y * 9) & 0xff) as u8;
            expect[p + 2] = (((x + y) * 5) & 0xff) as u8;
            expect[p + 3] = 255;
        }
    }
    assert_eq!(rgba, expect, "libwebp predictor decode");
}

#[test]
fn real_libwebp_color_indexing() {
    let (w, h) = (19u32, 11u32);
    let (dw, dh, rgba) = decode_webp(PAL2_WEBP).expect("decode real colour-indexed WebP");
    assert_eq!((dw, dh), (w, h));
    let mut expect = vec![0u8; (w * h * 4) as usize];
    for y in 0..h {
        for x in 0..w {
            let p = ((y * w + x) * 4) as usize;
            let white = (x * y) % 2 != 0;
            let v = if white { 255 } else { 0 };
            expect[p] = v;
            expect[p + 1] = v;
            expect[p + 2] = v;
            expect[p + 3] = 255;
        }
    }
    assert_eq!(rgba, expect, "libwebp colour-indexing (bundled) decode");
}
