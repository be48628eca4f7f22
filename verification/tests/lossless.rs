//! The pieces of lossless images.
use pagecore::raster::argb::pack;
use pagecore::raster::bits::{BitR, BitW};
use pagecore::raster::huffman::{canonical_codes, reverse_bits, Huff};
use pagecore::raster::lossless::{decode_vp8l, encode_vp8l, to_rgba};
use pagecore::raster::transform::{
    apply_color_indexing, apply_color_transform, apply_predictor, apply_subtract_green,
    bundle_width, clamp_add_sub_full, clamp_add_sub_half, select_pred, sign_ext8,
};
use pagecore::raster::tree::{read_tree, write_tree};
use pagecore::raster::vp8l::{cache_hash, dist_code_to_pixels, prefix_value, sub_size};

#[test]
fn prefixes_with_extra_bits() {
    let mut r = BitR::new(&[0b0000_0001]);
    assert_eq!(prefix_value(0, &mut r), 1);
    assert_eq!(prefix_value(3, &mut r), 4);
    // One extra bit, a one: 4 + 1 + 1.
    assert_eq!(prefix_value(4, &mut r), 6);
    // One extra bit, a zero: 6 + 0 + 1.
    assert_eq!(prefix_value(5, &mut r), 7);
}

#[test]
fn small_distances_run_over_the_plane() {
    assert_eq!(dist_code_to_pixels(1, 10), 10);
    assert_eq!(dist_code_to_pixels(2, 10), 1);
    assert_eq!(dist_code_to_pixels(3, 10), 11);
    assert_eq!(dist_code_to_pixels(4, 10), 9);
    assert_eq!(dist_code_to_pixels(4, 1), 1, "never less than a pixel");
    assert_eq!(dist_code_to_pixels(121, 10), 1);
    assert_eq!(dist_code_to_pixels(500, 10), 380);
}

#[test]
fn predictors_keep_channels_apart() {
    let a = pack(200, 10, 100, 0);
    let b = pack(100, 5, 50, 255);
    let c = pack(30, 30, 30, 0);
    assert_eq!(clamp_add_sub_full(a, b, c), pack(255, 0, 120, 255));
    assert_eq!(clamp_add_sub_half(a, b), pack(250, 12, 125, 0));
    let near = pack(0, 0, 0, 1);
    let far = pack(0, 0, 0, 9);
    assert_eq!(select_pred(near, far, 0), far);
    assert_eq!(select_pred(far, near, 0), far);
    assert_eq!(select_pred(near, pack(0, 0, 1, 0), 0), near, "the upper one wins a tie");
}

#[test]
fn bytes_have_signs() {
    assert_eq!((sign_ext8(0), sign_ext8(127), sign_ext8(128), sign_ext8(255)), (0, 127, -128, -1));
}

#[test]
fn transforms_are_undone() {
    let mut px = vec![0x0010_2030];
    apply_subtract_green(&mut px);
    assert_eq!(px, [0x0030_2050]);
    // 32 * 64 >> 5 goes to red.
    let mut px = vec![0xff00_4000];
    assert_eq!(apply_color_transform(&mut px, 1, 1, 2, &[0x20]), Some(()));
    assert_eq!(px, [0xff40_4000]);
    assert_eq!(apply_color_transform(&mut px, 1, 1, 2, &[]), None);
    // The first pixel is predicted black, the others of a first row from the left.
    let mut px = vec![0x0000_0001, 0x0000_0002, 0x0000_0003];
    assert_eq!(apply_predictor(&mut px, 3, 1, 2, &[0]), Some(()));
    assert_eq!(px, [0xff00_0001, 0xff00_0003, 0xff00_0006]);
    // A mode is asked for only away from the edges.
    assert_eq!(apply_predictor(&mut px, 3, 1, 2, &[]), Some(()));
    assert_eq!(apply_predictor(&mut vec![0; 4], 2, 2, 2, &[]), None);
}

#[test]
fn palettes_bundle_their_pixels() {
    assert_eq!((bundle_width(2), bundle_width(4), bundle_width(16), bundle_width(17)), (3, 2, 1, 0));
    // Eight pixels to a byte of the green channel, the lowest bit first.
    let out = apply_color_indexing(&[0x0000_0500], 3, 1, &[7, 9]);
    assert_eq!(out, Some(vec![9, 7, 9]));
    let out = apply_color_indexing(&[0x0000_0200, 0x0000_0000], 2, 1, &[1; 20]);
    assert_eq!(out, Some(vec![1, 1]));
}

#[test]
fn hashes_and_sizes() {
    assert_eq!((cache_hash(0, 4), cache_hash(1, 4), cache_hash(1, 8)), (0, 1, 0x1e));
    assert_eq!((sub_size(16, 3), sub_size(17, 3), sub_size(1, 9)), (2, 3, 1));
    assert_eq!((reverse_bits(0b001, 3), reverse_bits(0b0110, 4), reverse_bits(1, 0)), (4, 6, 0));
}

#[test]
fn codewords_decode_to_their_symbols() {
    let lengths = [2u8, 1, 0, 3, 3];
    let codes = canonical_codes(&lengths);
    let h = Huff::from_lengths(&lengths);
    let mut w = BitW::new();
    for s in [3usize, 0, 4, 1] {
        w.write(codes[s] as u32, lengths[s] as u32);
    }
    let bytes = w.finish();
    let mut r = BitR::new(&bytes);
    let read: Vec<Option<u16>> = (0..4).map(|_| h.decode(&mut r)).collect();
    assert_eq!(read, [Some(3), Some(0), Some(4), Some(1)]);
    assert_eq!(Huff::single(7).decode(&mut r), Some(7));
}

#[test]
fn trees_come_back() {
    let mut lengths = vec![0u8; 256];
    for (i, l) in [(3usize, 1u8), (70, 2), (200, 3), (255, 3)] {
        lengths[i] = l;
    }
    let mut w = BitW::new();
    write_tree(&mut w, &lengths);
    w.write(canonical_codes(&lengths)[200] as u32, 3);
    let bytes = w.finish();
    let mut r = BitR::new(&bytes);
    let h = read_tree(&mut r, 256).unwrap();
    assert_eq!(h.decode(&mut r), Some(200));
}

#[test]
fn streams_come_back() {
    let rgba: Vec<u8> = (0..5 * 3 * 4).map(|i| (i * 37 % 251) as u8).collect();
    let stream = encode_vp8l(5, 3, &rgba);
    assert_eq!(decode_vp8l(&stream), Some((5, 3, rgba)));
    assert_eq!(decode_vp8l(&[]), None);
    assert_eq!(to_rgba(&vec![0x0102_0304]), [2, 3, 4, 1]);
}
