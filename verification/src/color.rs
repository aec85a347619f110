use vstd::prelude::*;

verus! {

/// A color as `0xRRGGBB`.
pub type Rgb24 = u32;

/// A palette index.
pub type Color = u8;

/// The palette an application starts with.
pub const DEFAULT_COLORS: [Rgb24; 16] = [
    0x000000, 0x2b335f, 0x7e2072, 0x19959c, 0x8b4852, 0x395c98, 0xa9c1ff, 0xeeeeee,
    0xd4186c, 0xd38441, 0xe9c35b, 0x70c6a9, 0x7696de, 0xa3a3a3, 0xff9798, 0xedc7b0,
];

pub open spec fn red(rgb: Rgb24) -> int {
    (rgb as int / 65536) % 256
}

pub open spec fn green(rgb: Rgb24) -> int {
    (rgb as int / 256) % 256
}

pub open spec fn blue(rgb: Rgb24) -> int {
    rgb as int % 256
}

/// Splits `0xRRGGBB` into its channels; bits above the 24th are ignored.
pub fn rgb24_to_rgb8(rgb: Rgb24) -> (r: (u8, u8, u8))
    ensures
        r.0 == red(rgb),
        r.1 == green(rgb),
        r.2 == blue(rgb),
{
    let r = ((rgb >> 16) & 0xff) as u8;
    let g = ((rgb >> 8) & 0xff) as u8;
    let b = (rgb & 0xff) as u8;
    assert((rgb >> 16) & 0xff == (rgb / 65536) % 256) by (bit_vector);
    assert((rgb >> 8) & 0xff == (rgb / 256) % 256) by (bit_vector);
    assert(rgb & 0xff == rgb % 256) by (bit_vector);
    (r, g, b)
}

} // verus!
