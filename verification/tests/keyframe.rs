//! Whole VP8 keyframes, and the arithmetic they are made of.
use pagecore::raster::vp8::arith::Bool;
use pagecore::raster::vp8::dct::{clamp255, idct_add, iwht};
use pagecore::raster::vp8::filter::{
    filter_common, filter_mb_edge, hev, normal_thresh, simple_thresh,
};
use pagecore::raster::vp8::frame::{decode_keyframe, decode_to_planes};
use pagecore::raster::vp8::header::{ac_q, dc_q};
use pagecore::raster::vp8::predict::{avg2, avg3};
use pagecore::raster::vp8::tables::{bmode_prob, default_prob, update_prob};
use pagecore::raster::vp8::tokens::decode_block;
use pagecore::raster::webp::{decode_webp, riff_wrap};

/// A writer of bits with probabilities.
struct Writer {
    out: Vec<u8>,
    range: u32,
    bottom: u32,
    left: u32,
}

impl Writer {
    fn new() -> Writer {
        Writer { out: Vec::new(), range: 255, bottom: 0, left: 24 }
    }

    fn carry(&mut self) {
        let mut i = self.out.len();
        loop {
            i -= 1;
            if self.out[i] == 255 {
                self.out[i] = 0;
            } else {
                self.out[i] += 1;
                return;
            }
        }
    }

    fn put(&mut self, prob: u8, bit: u32) {
        let split = 1 + (((self.range - 1) * prob as u32) >> 8);
        if bit == 1 {
            let (bottom, over) = self.bottom.overflowing_add(split);
            self.bottom = bottom;
            if over {
                self.carry();
            }
            self.range -= split;
        } else {
            self.range = split;
        }
        while self.range < 128 {
            self.range <<= 1;
            if self.bottom >= 1 << 31 {
                self.carry();
            }
            self.bottom <<= 1;
            self.left -= 1;
            if self.left == 0 {
                self.out.push((self.bottom >> 24) as u8);
                self.bottom &= (1 << 24) - 1;
                self.left = 8;
            }
        }
    }

    fn literal(&mut self, n: u32, v: u32) {
        for i in (0..n).rev() {
            self.put(128, (v >> i) & 1);
        }
    }

    fn finish(mut self) -> Vec<u8> {
        for _ in 0..32 {
            self.put(128, 0);
        }
        self.out
    }
}

/// A header without segments and deltas.
fn write_header(w: &mut Writer, level: u32, q: u32, skips: bool) {
    w.literal(2, 0);
    w.literal(1, 0);
    w.literal(1, 0);
    w.literal(6, level);
    w.literal(3, 0);
    w.literal(1, 0);
    w.literal(2, 0);
    w.literal(7, q);
    w.literal(5, 0);
    w.literal(1, 0);
    for i in 0..1056 {
        w.put(update_prob(i), 0);
    }
    w.literal(1, skips as u32);
    if skips {
        w.literal(8, 128);
    }
}

/// The modes of a macroblock predicted whole: 0 from the average, 1 from
/// above, 2 from the left.
fn write_modes(w: &mut Writer, mode: u32) {
    w.put(145, 1);
    match mode {
        0 | 1 => {
            w.put(156, 0);
            w.put(163, mode);
        }
        _ => {
            w.put(156, 1);
            w.put(128, 0);
        }
    }
    w.put(142, 0);
}

fn frame(width: u16, height: u16, first: Vec<u8>, tokens: Vec<u8>) -> Vec<u8> {
    let tag = (first.len() as u32) << 5 | 1 << 4;
    let mut body = vec![tag as u8, (tag >> 8) as u8, (tag >> 16) as u8, 0x9d, 0x01, 0x2a];
    body.extend(width.to_le_bytes());
    body.extend(height.to_le_bytes());
    body.extend(first);
    body.extend(tokens);
    body
}

/// A frame whose macroblocks are only predicted.
fn flat_frame(width: u16, height: u16, modes: &[u32]) -> Vec<u8> {
    let mut w = Writer::new();
    write_header(&mut w, 0, 10, true);
    for m in modes {
        w.put(128, 1);
        write_modes(&mut w, *m);
    }
    frame(width, height, w.finish(), vec![0; 4])
}

fn luma(body: &[u8], x: usize, y: usize) -> u8 {
    let p = decode_to_planes(body).unwrap();
    p.y[p.y0 + y * p.ys + x]
}

fn node(typ: usize, band: usize, ctx: usize, i: usize) -> u8 {
    default_prob(((typ * 8 + band) * 3 + ctx) * 11 + i)
}

/// A frame of one macroblock whose only coefficient is the average of all.
fn average_frame(q: u32, negative: bool) -> Vec<u8> {
    let mut w = Writer::new();
    write_header(&mut w, 0, q, false);
    write_modes(&mut w, 0);
    let mut t = Writer::new();
    t.put(node(1, 0, 0, 0), 1);
    t.put(node(1, 0, 0, 1), 1);
    t.put(node(1, 0, 0, 2), 0);
    t.put(128, negative as u32);
    t.put(node(1, 1, 1, 0), 0);
    for _ in 0..16 {
        t.put(node(0, 1, 0, 0), 0);
    }
    for _ in 0..8 {
        t.put(node(2, 0, 0, 0), 0);
    }
    frame(16, 16, w.finish(), t.finish())
}

#[test]
fn a_frame_without_residue_is_grey() {
    let (w, h, rgba) = decode_keyframe(&flat_frame(17, 9, &[0, 0])).unwrap();
    assert_eq!((w, h, rgba.len()), (17, 9, 17 * 9 * 4));
    assert!(rgba.chunks(4).all(|p| p == [128, 128, 128, 255]));
}

#[test]
fn prediction_at_the_edges_of_a_frame() {
    let above = flat_frame(16, 16, &[1]);
    assert_eq!((luma(&above, 0, 0), luma(&above, 15, 15)), (127, 127));
    let left = flat_frame(16, 16, &[2]);
    assert_eq!((luma(&left, 0, 0), luma(&left, 15, 15)), (129, 129));
    // The second macroblock follows the first, not the edge.
    let two = flat_frame(32, 16, &[1, 2]);
    assert_eq!(luma(&two, 20, 5), 127);
}

#[test]
fn an_average_shifts_the_whole_macroblock() {
    // 2 * 157 = 314; (314 + 3) >> 3 = 39; (39 + 4) >> 3 = 5.
    let up = average_frame(127, false);
    assert_eq!((luma(&up, 0, 0), luma(&up, 15, 15)), (133, 133));
    // (-314 + 3) >> 3 = -39; (-39 + 4) >> 3 = -5.
    let down = average_frame(127, true);
    assert_eq!((luma(&down, 0, 0), luma(&down, 9, 3)), (123, 123));
    // 2 * 4 = 8; (8 + 3) >> 3 = 1; (1 + 4) >> 3 = 0.
    assert_eq!(luma(&average_frame(0, false), 4, 4), 128);
}

#[test]
fn subblocks_predict_from_each_other() {
    let mut w = Writer::new();
    write_header(&mut w, 0, 10, true);
    w.put(128, 1);
    w.put(145, 0);
    for _ in 0..16 {
        w.put(bmode_prob(0), 0);
    }
    w.put(142, 0);
    let body = frame(16, 16, w.finish(), vec![0; 4]);
    // Four of 127 above and four of 129 to the left.
    assert_eq!((luma(&body, 0, 0), luma(&body, 15, 0)), (128, 128));
    // Four of 128 above and four of 129 to the left round up.
    assert_eq!(luma(&body, 0, 4), 129);
}

#[test]
fn what_is_no_keyframe_is_refused() {
    let good = flat_frame(16, 16, &[0]);
    assert!(decode_keyframe(&good).is_some());
    assert!(decode_keyframe(&good[..9]).is_none(), "cut short");
    let mut inter = good.clone();
    inter[0] |= 1;
    assert!(decode_keyframe(&inter).is_none());
    let mut start = good.clone();
    start[3] = 0;
    assert!(decode_keyframe(&start).is_none());
    let mut empty = good.clone();
    empty[6] = 0;
    assert!(decode_keyframe(&empty).is_none(), "no width");
    let mut long = good;
    long[2] = 255;
    assert!(decode_keyframe(&long).is_none(), "a first part longer than the data");
}

#[test]
fn a_lossy_file_holds_a_keyframe() {
    let body = flat_frame(4, 2, &[0]);
    let mut file = riff_wrap(&body);
    file[12..16].copy_from_slice(b"VP8 ");
    let (w, h, rgba) = decode_webp(&file).unwrap();
    assert_eq!((w, h), (4, 2));
    assert_eq!(&rgba[..4], &[128, 128, 128, 255]);
}

#[test]
fn bits_come_back_with_their_probabilities() {
    let mut w = Writer::new();
    let bits: Vec<u32> = (0..200).map(|i| ((i * 7 + i / 3) % 5 == 0) as u32).collect();
    for (i, b) in bits.iter().enumerate() {
        w.put((1 + i * 5 % 255) as u8, *b);
    }
    w.literal(7, 93);
    let data = w.finish();
    let mut r = Bool::new(&data);
    for (i, b) in bits.iter().enumerate() {
        assert_eq!(r.get((1 + i * 5 % 255) as u8), *b, "bit {i}");
    }
    assert_eq!(r.literal(7), 93);
}

#[test]
fn steps_of_the_quantizer() {
    assert_eq!((dc_q(-5), dc_q(0), dc_q(127), dc_q(500)), (4, 4, 157, 157));
    assert_eq!((ac_q(-5), ac_q(0), ac_q(127), ac_q(500)), (4, 4, 284, 284));
}

#[test]
fn transforms_of_single_coefficients() {
    let mut input = [0; 16];
    input[0] = 80;
    assert_eq!(iwht(&input), vec![10; 16]);
    input[0] = 0;
    input[1] = 8;
    let row = [1, 1, -1, -1].map(|v: i32| (8 * v + 3) >> 3);
    assert_eq!(iwht(&input)[..4], row);
    let mut buf = vec![100u8; 64];
    let mut coeffs = [0; 16];
    coeffs[0] = -36;
    idct_add(&mut buf, 9, 8, &coeffs);
    assert_eq!((buf[9], buf[12], buf[36], buf[8], buf[13]), (96, 96, 96, 100, 100));
    assert_eq!((clamp255(-3), clamp255(77), clamp255(300)), (0, 77, 255));
}

#[test]
fn averages_round_up() {
    assert_eq!((avg2(1, 2), avg2(255, 255)), (2, 255));
    assert_eq!((avg3(1, 2, 2), avg3(0, 0, 1), avg3(255, 255, 255)), (2, 0, 255));
}

#[test]
fn thresholds_of_the_loop_filter() {
    let flat = vec![100u8, 100, 100, 100, 108, 108, 108, 108];
    assert!(simple_thresh(&flat, 4, 1, 20));
    assert!(!simple_thresh(&flat, 4, 1, 19));
    assert!(normal_thresh(&flat, 4, 1, 20, 0));
    assert!(!hev(&flat, 4, 1, 0));
    let rough = vec![100u8, 100, 100, 103, 108, 108, 108, 108];
    assert!(hev(&rough, 4, 1, 2) && !hev(&rough, 4, 1, 3));
    assert!(!normal_thresh(&rough, 4, 1, 60, 2) && normal_thresh(&rough, 4, 1, 60, 3));
}

#[test]
fn edges_are_smoothed() {
    let step = vec![100u8, 100, 100, 100, 108, 108, 108, 108];
    // Without the outer pixels: 3 * 8 = 24, 28 >> 3 = 3 and 27 >> 3 = 3, and
    // (3 + 1) >> 1 = 2 for the pixels beyond.
    let mut buf = step.clone();
    filter_common(&mut buf, 4, 1, false);
    assert_eq!(buf, [100, 100, 102, 103, 105, 106, 108, 108]);
    // With them: 24 - 8 = 16, 20 >> 3 = 2 and 19 >> 3 = 2.
    let mut buf = step.clone();
    filter_common(&mut buf, 4, 1, true);
    assert_eq!(buf, [100, 100, 100, 102, 106, 108, 108, 108]);
    // Parts of 27, 18 and 9 in 128 of 16: 3, 2 and 1.
    let mut buf = step;
    filter_mb_edge(&mut buf, 4, 1);
    assert_eq!(buf, [100, 101, 102, 103, 105, 106, 107, 108]);
}

#[test]
fn the_flag_of_a_block_tells_whether_it_has_coefficients() {
    let probs = vec![128u8; 1056];
    for (data, first, ac) in [
        ([0x80u8, 0x00, 0x00, 0x00], 0usize, 1i32),
        ([0x80, 0x00, 0x00, 0x00], 1, 1),
        ([0x00, 0x00, 0x00, 0x00], 0, 3),
        ([0xff, 0xff, 0x35, 0x71], 0, 2),
        ([0xc3, 0x5a, 0x91, 0x0f], 1, 5),
    ] {
        let mut b = Bool::new(&data);
        let mut coeffs = vec![0i32; 16];
        let flag = decode_block(&mut b, &probs, 0, 0, first, 1, ac, &mut coeffs, 0);
        assert_eq!(flag, coeffs.iter().any(|c| *c != 0));
        assert!(first == 0 || coeffs[0] == 0);
    }
    let mut b = Bool::new(&[0x80, 0x00]);
    let mut coeffs = vec![0i32; 16];
    assert!(!decode_block(&mut b, &probs, 0, 0, 0, 1, 1, &mut coeffs, 0));
    let mut b = Bool::new(&[0xff, 0xff]);
    assert!(decode_block(&mut b, &probs, 0, 0, 0, 1, 1, &mut coeffs, 0));
}
