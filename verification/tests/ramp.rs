use pyxel_core::color::{rgb24_to_rgb8, DEFAULT_COLORS};
use pyxel_core::ramp::{Ramp, LEVEL_COUNT};

fn default_palette() -> Vec<u32> {
    DEFAULT_COLORS.to_vec()
}

// The default planning by nearest color, in f32 as the engine plans it.
fn nearest(palette: &[u32], tr: f32, tg: f32, tb: f32) -> i32 {
    let mut best_idx: i32 = 0;
    let mut best_dist = f32::INFINITY;
    for (i, &c) in palette.iter().enumerate() {
        let (r, g, b) = rgb24_to_rgb8(c);
        let (dr, dg, db) = (r as f32 - tr, g as f32 - tg, b as f32 - tb);
        let dist = dr * dr + dg * dg + db * db;
        if dist < best_dist {
            best_dist = dist;
            best_idx = i as i32;
        }
    }
    best_idx
}

fn plan(palette: &[u32]) -> Vec<Vec<i32>> {
    palette
        .iter()
        .map(|&c| {
            let (r, g, b) = rgb24_to_rgb8(c);
            (0..LEVEL_COUNT)
                .map(|level| {
                    let f = level as f32 / (LEVEL_COUNT - 1) as f32;
                    nearest(palette, r as f32 * f, g as f32 * f, b as f32 * f)
                })
                .collect()
        })
        .collect()
}

#[test]
fn test_default_dimensions() {
    let r = Ramp::new(plan(&default_palette()));
    assert!(r.palette_size() > 0);
    for row in &r.data {
        assert_eq!(row.len(), LEVEL_COUNT);
    }
}

#[test]
fn test_brightest_level_matches_self() {
    let r = Ramp::new(plan(&default_palette()));
    for col in 0..r.palette_size() {
        assert_eq!(r.get(col, LEVEL_COUNT - 1), col as i32);
    }
}

#[test]
fn test_get_set() {
    let mut r = Ramp::new(plan(&default_palette()));
    r.set(0, 0, 42);
    assert_eq!(r.get(0, 0), 42);
}

#[test]
fn test_build_resets_table() {
    let mut r = Ramp::new(plan(&default_palette()));
    r.set(0, 0, 99);
    r.build(plan(&default_palette()));
    assert_ne!(r.get(0, 0), 99);
}

#[test]
fn ramp_darkest_level_of_default_palette_is_black() {
    let r = Ramp::new(plan(&default_palette()));
    for col in 0..r.palette_size() {
        assert_eq!(r.get(col, 0), 0);
    }
}

#[test]
fn ramp_of_empty_palette_has_no_rows() {
    let r = Ramp::new(Vec::new());
    assert_eq!(r.palette_size(), 0);
}

#[test]
fn ramp_keeps_the_table_it_is_given() {
    let r = Ramp::new(vec![vec![3; LEVEL_COUNT], vec![1; LEVEL_COUNT]]);
    assert_eq!(r.palette_size(), 2);
    assert_eq!(r.get(1, 7), 1);
}
