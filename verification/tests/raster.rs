use pyxel_core::raster::{circle_scan_ranges, dither_pick, ClipRect};
use pyxel_core::rasterizer::{resolve_shade, FaceShade, DEFAULT_SHADE_PALETTE};

#[test]
fn test_clip_rect_contains() {
    let clip = ClipRect {
        left: 10,
        top: 20,
        right: 30,
        bottom: 40,
    };

    assert!(clip.contains(10, 20));
    assert!(clip.contains(30, 40));
    assert!(clip.contains(20, 30));
    assert!(!clip.contains(9, 20));
    assert!(!clip.contains(31, 20));
    assert!(!clip.contains(20, 19));
    assert!(!clip.contains(20, 41));
}

#[test]
fn test_circle_scan_ranges_bound_enclosing_and_partial_circles() {
    let clip = ClipRect {
        left: 0,
        top: 0,
        right: 15,
        bottom: 15,
    };

    assert_eq!(circle_scan_ranges(8, 8, 100_000, clip), [(0, 8), (1, 0)]);
    assert_eq!(
        circle_scan_ranges(-99_995, 8, 100_000, clip),
        [(0, 8), (99_995, 100_000)]
    );
    assert!(circle_scan_ranges(-100_100, -100_100, 100_000, clip)
        .into_iter()
        .all(|(start, end)| start > end));
}

#[test]
fn dither_pick_alternates_like_a_checkerboard() {
    assert_eq!(dither_pick(3, 7, 0, 0), 3);
    assert_eq!(dither_pick(3, 7, 1, 0), 7);
    assert_eq!(dither_pick(3, 7, 1, 1), 3);
    assert_eq!(dither_pick(3, 7, -1, 0), 7);
}

#[test]
fn circle_scan_ranges_of_empty_clip_are_empty() {
    let clip = ClipRect {
        left: 5,
        top: 5,
        right: 4,
        bottom: 10,
    };
    assert!(circle_scan_ranges(5, 5, 3, clip)
        .into_iter()
        .all(|(start, end)| start > end));
}

#[test]
fn flat_fill_reads_no_coordinates() {
    assert_eq!(dither_pick(5, 5, i32::MAX, i32::MAX), 5);
}

#[test]
fn default_shades_remap_the_low_four_bits() {
    assert_eq!(resolve_shade(FaceShade::Solid(1), 0x17, i32::MAX, i32::MAX, &DEFAULT_SHADE_PALETTE), 7);
    assert_eq!(resolve_shade(FaceShade::Solid(0), 1, 0, 0, &DEFAULT_SHADE_PALETTE), 5);
    assert_eq!(resolve_shade(FaceShade::Checker(2, 3), 7, 0, 0, &DEFAULT_SHADE_PALETTE), 13);
    assert_eq!(resolve_shade(FaceShade::Checker(2, 3), 7, 1, 0, &DEFAULT_SHADE_PALETTE), 5);
    assert_eq!(resolve_shade(FaceShade::Checker(4, 9), 7, 2, 2, &DEFAULT_SHADE_PALETTE), 1);
}
