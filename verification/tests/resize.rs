//! Resampling.
use pagecore::raster::resize::resize_rgba;

#[test]
fn resize_rejects_bad_input() {
    assert!(resize_rgba(&[], 0, 0, 2, 2).is_empty());
    assert!(resize_rgba(&[0; 3], 1, 1, 2, 2).is_empty(), "length mismatch");
}

#[test]
fn downscale_averages_a_2x2_to_1x1() {
    let src = [
        255, 0, 0, 255, //
        0, 255, 0, 255, //
        0, 0, 255, 255, //
        255, 255, 255, 255, //
    ];
    let out = resize_rgba(&src, 2, 2, 1, 1);
    assert_eq!(out.len(), 4);
    for (c, &v) in out[..3].iter().enumerate() {
        assert!((v as i32 - 128).abs() <= 1, "channel {c} ≈ 128, got {v}");
    }
    assert_eq!(out[3], 255, "opaque");
    assert_eq!(out, vec![128, 128, 128, 255], "a half rounds up");
}

#[test]
fn upscale_preserves_dimensions_and_a_flat_colour() {
    let src = [10, 20, 30, 255];
    let out = resize_rgba(&src, 1, 1, 4, 3);
    assert_eq!(out.len(), 4 * 3 * 4);
    for px in out.chunks_exact(4) {
        assert_eq!(px, [10, 20, 30, 255]);
    }
}

#[test]
fn transparent_pixels_do_not_bleed_colour() {
    let src = [255, 0, 0, 255, 0, 255, 0, 0];
    let out = resize_rgba(&src, 2, 1, 1, 1);
    assert!(out[0] > 200 && out[1] < 60, "stays red: {:?}", &out[..4]);
    assert_eq!(out[3], 128, "alpha averaged (255+0)/2");
}

#[test]
fn zero_sides_give_nothing() {
    let src = [1, 2, 3, 4];
    assert!(resize_rgba(&src, 1, 1, 0, 1).is_empty());
    assert!(resize_rgba(&src, 1, 1, 1, 0).is_empty());
    assert!(resize_rgba(&src, 0, 1, 1, 1).is_empty());
}

#[test]
fn same_size_keeps_visible_pixels() {
    let src = [9, 8, 7, 255, 6, 5, 4, 3, 2, 1, 0, 0];
    assert_eq!(resize_rgba(&src, 3, 1, 3, 1), vec![9, 8, 7, 255, 6, 5, 4, 3, 0, 0, 0, 0]);
}

#[test]
fn enlarging_interpolates_between_pixels() {
    let src = [0, 0, 0, 255, 100, 100, 100, 255];
    let out = resize_rgba(&src, 2, 1, 4, 1);
    let reds: Vec<u8> = out.chunks_exact(4).map(|p| p[0]).collect();
    assert_eq!(reds, vec![0, 25, 75, 100]);
}

#[test]
fn colours_count_by_their_alpha() {
    let src = [200, 0, 0, 255, 0, 0, 0, 85];
    assert_eq!(resize_rgba(&src, 2, 1, 1, 1), vec![150, 0, 0, 170]);
}

#[test]
fn hidden_colours_do_not_change_the_result() {
    let a = [255, 0, 0, 255, 0, 255, 0, 0];
    let b = [255, 0, 0, 255, 9, 9, 9, 0];
    assert_eq!(resize_rgba(&a, 2, 1, 3, 2), resize_rgba(&b, 2, 1, 3, 2));
}
