use crate::color::Color;
use vstd::prelude::*;

verus! {

/// Shade levels, from the highlight (0) to the darkest (4).
pub const NUM_SHADE_LEVELS: usize = 5;

/// For each shade level, a remap of the 16 base colors.
pub type ShadePalette = [[Color; 16]; 5];

/// The default remaps, from the highlight level to the darkest; level 1 keeps every
/// color.
pub const DEFAULT_SHADE_PALETTE: ShadePalette = [
    [13, 5, 14, 11, 9, 12, 6, 7, 14, 10, 10, 11, 12, 13, 14, 15],
    [0, 1, 2, 3, 4, 5, 6, 7, 8, 9, 10, 11, 12, 13, 14, 15],
    [0, 0, 1, 1, 1, 1, 12, 13, 2, 4, 9, 3, 5, 5, 8, 9],
    [0, 0, 0, 0, 0, 0, 5, 5, 1, 1, 4, 1, 1, 1, 2, 4],
    [0, 0, 0, 0, 0, 0, 1, 1, 0, 0, 1, 0, 0, 0, 1, 1],
];

/// The shade of a face: one palette remap, or a 50% checker of two adjacent levels.
#[derive(Clone, Copy, PartialEq, Eq, Structural, Debug)]
pub enum FaceShade {
    Solid(usize),
    Checker(usize, usize),
}

pub open spec fn shade_level(face_shade: FaceShade, px: int, py: int) -> int {
    match face_shade {
        FaceShade::Solid(level) => level as int,
        FaceShade::Checker(a, b) => if (px + py) % 2 == 0 { a as int } else { b as int },
    }
}

/// Pixel color of a face pixel: the level's remap of the low four bits of `col`.
pub fn resolve_shade(face_shade: FaceShade, col: Color, px: i32, py: i32, palette: &ShadePalette) -> (r: Color)
    requires
        match face_shade {
            FaceShade::Solid(level) => level < NUM_SHADE_LEVELS,
            FaceShade::Checker(_, _) => i32::MIN <= px + py <= i32::MAX
                && 0 <= shade_level(face_shade, px as int, py as int) < NUM_SHADE_LEVELS,
        },
    ensures
        r == palette@[shade_level(face_shade, px as int, py as int)]@[col as int % 16],
{
    let index = (col & 0x0f) as usize;
    assert(col & 0x0f == col % 16) by (bit_vector);
    match face_shade {
        FaceShade::Solid(level) => palette[level][index],
        FaceShade::Checker(a, b) => {
            let s = px + py;
            assert(s & 1 == 0 <==> s % 2 == 0) by (bit_vector);
            let level = if s & 1 == 0 { a } else { b };
            palette[level][index]
        },
    }
}

} // verus!
