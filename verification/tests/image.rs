use pyxel_core::image::{Image, ImageDataError, MAX_COLORS};

fn rows(lines: &[&str]) -> Vec<String> {
    lines.iter().map(|s| s.to_string()).collect()
}

#[test]
fn try_new_refuses_sides_beyond_i32() {
    assert!(Image::try_new(u32::MAX, 1).is_err());
    let img = Image::try_new(4, 3).unwrap();
    assert_eq!(img.width(), 4);
    assert_eq!(img.height(), 3);
    assert_eq!(img.data(), &vec![0; 12]);
}

#[test]
fn set_writes_hex_digits_at_position() {
    let mut img = Image::new(4, 3);
    assert!(img.set(1, 1, &rows(&["12", "a F"])).is_ok());
    assert_eq!(img.data(), &vec![0, 0, 0, 0, 0, 1, 2, 0, 0, 10, 15, 0]);
}

#[test]
fn set_is_clipped_and_shifted_by_camera() {
    let mut img = Image::new(3, 3);
    img.set_clip_rect(0, 0, 2, 3);
    img.set_camera(1, 0);
    assert!(img.set(1, 0, &rows(&["123", "456"])).is_ok());
    assert_eq!(img.data(), &vec![1, 2, 0, 4, 5, 0, 0, 0, 0]);
    img.reset_clip_rect();
    img.reset_camera();
    assert!(img.set(2, 2, &rows(&["7"])).is_ok());
    assert_eq!(img.data()[8], 7);
}

#[test]
fn set_goes_through_the_color_map() {
    let mut img = Image::new(2, 1);
    img.map_color(3, 9);
    assert!(img.set(0, 0, &rows(&["34"])).is_ok());
    assert_eq!(img.data(), &vec![9, 4]);
    img.reset_color_map();
    assert!(img.set(0, 0, &rows(&["3"])).is_ok());
    assert_eq!(img.data(), &vec![3, 4]);
}

#[test]
fn clear_fills_with_mapped_color() {
    let mut img = Image::new(2, 2);
    img.map_color(1, 5);
    img.clear(1);
    assert_eq!(img.data(), &vec![5; 4]);
}

#[test]
fn set_reports_each_error() {
    let mut img = Image::new(4, 4);
    assert!(matches!(img.set(0, 0, &rows(&[])), Err(ImageDataError::NoRows)));
    assert!(matches!(img.set(0, 0, &rows(&["  "])), Err(ImageDataError::NoPixels)));
    assert!(matches!(
        img.set(0, 0, &rows(&["12", "123"])),
        Err(ImageDataError::RowWidth { row: 1, expected: 2, got: 3 })
    ));
    assert!(matches!(
        img.set(0, 0, &rows(&["12", "1g"])),
        Err(ImageDataError::NotHexDigit { row: 1, column: 1, digit: 'g' })
    ));
    assert_eq!(img.data(), &vec![0; 16]);
}

#[test]
fn palette_has_max_colors_entries() {
    assert_eq!(MAX_COLORS, 255);
}

#[test]
fn from_image_picks_nearest_palette_colors() {
    let pixels = vec![(0, 0, 0), (250, 250, 250), (200, 10, 10), (0, 0, 0)];
    let mut colors = vec![0x000000, 0xffffff, 0xff0000, 0xff0000];
    let img = Image::from_image(2, 2, &pixels, &mut colors, false).unwrap();
    assert_eq!(img.data(), &vec![0, 1, 2, 0]);
    assert_eq!(colors, vec![0x000000, 0xffffff, 0xff0000, 0xff0000]);
}

#[test]
fn from_image_with_own_colors_lists_them_in_order() {
    let pixels = vec![(1, 2, 3), (4, 5, 6), (1, 2, 3)];
    let mut colors = vec![0xffffff];
    let img = Image::from_image(3, 1, &pixels, &mut colors, true).unwrap();
    assert_eq!(colors, vec![0x010203, 0x040506]);
    assert_eq!(img.data(), &vec![0, 1, 0]);
}

#[test]
fn load_draws_a_whole_image_through_the_clip() {
    let mut target = Image::new(3, 2);
    let mut colors = vec![0x000000, 0x111111, 0x222222];
    let source = Image::from_image(2, 1, &vec![(0x11, 0x11, 0x11), (0x22, 0x22, 0x22)], &mut colors, false).unwrap();
    target.set_clip_rect(0, 0, 2, 2);
    target.load(1, 1, &source);
    assert_eq!(target.data(), &vec![0, 0, 0, 0, 1, 0]);
}

#[test]
fn nearest_index_of_a_long_palette_keeps_its_low_byte() {
    let mut colors: Vec<u32> = (0..300u32).map(|i| i * 0x10101 % 0x1000000).collect();
    colors[260] = 0xabcdef;
    let img = Image::from_image(1, 1, &vec![(0xab, 0xcd, 0xef)], &mut colors, false).unwrap();
    assert_eq!(img.data(), &vec![4]);
    assert_eq!(colors.len(), 300);
}

fn tile_source() -> Image {
    let mut src = Image::new(16, 8);
    let rows: Vec<String> = (0..8).map(|_| "0123456789abcdef".to_string()).collect();
    src.set(0, 0, &rows).unwrap();
    src
}

fn swapped_tiles() -> pyxel_core::old_resource_data::Tilemap {
    pyxel_core::old_resource_data::Tilemap { width: 2, height: 1, tiles: vec![(1, 0), (0, 0)], imgsrc: 0 }
}

#[test]
fn tilemap_draws_the_cells_its_tiles_name() {
    let mut img = Image::new(16, 8);
    img.draw_tilemap(0, 0, &swapped_tiles(), &tile_source(), 0, 0, 16, 8, None);
    let row: Vec<u8> = (8..16).chain(0..8).collect();
    assert_eq!(&img.data()[0..16], &row[..]);
    assert_eq!(&img.data()[112..128], &row[..]);
}

#[test]
fn tilemap_negative_width_mirrors_and_transparent_color_is_skipped() {
    let mut img = Image::new(16, 8);
    img.draw_tilemap(0, 0, &swapped_tiles(), &tile_source(), 0, 0, -16, 8, Some(8));
    let row: Vec<u8> = vec![7, 6, 5, 4, 3, 2, 1, 0, 15, 14, 13, 12, 11, 10, 9, 0];
    assert_eq!(&img.data()[0..16], &row[..]);
}

#[test]
fn tilemap_region_off_the_grid_leaves_pixels() {
    let mut img = Image::new(8, 1);
    img.clear(1);
    img.draw_tilemap(2, 0, &swapped_tiles(), &tile_source(), 12, 0, 8, 1, None);
    assert_eq!(img.data(), &vec![1, 1, 4, 5, 6, 7, 1, 1]);
}

#[test]
fn rgb_pixels_read_the_palette() {
    let mut img = Image::new(2, 1);
    img.set(0, 0, &rows(&["10"])).unwrap();
    let colors: Vec<u32> = vec![0x010203, 0xa0b0c0];
    assert_eq!(img.rgb_pixels(&colors), vec![(0xa0, 0xb0, 0xc0), (1, 2, 3)]);
}
