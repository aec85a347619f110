use vstd::prelude::*;

use vstd::string::StrSliceExecFns;

use crate::color::{blue, green, red, rgb24_to_rgb8, Color, Rgb24};
use crate::old_resource_data::{first_non_hex, lines_of, split_lines, tile_of, write_tiles, ResourceError, Tile, Tilemap};

verus! {

/// Number of palette entries an image can remap.
pub const MAX_COLORS: u32 = 255;

/// Why image data given as rows of hexadecimal digits was refused.
#[derive(Debug)]
pub enum ImageDataError {
    /// There is no row.
    NoRows,
    /// The first row holds no pixel.
    NoPixels,
    /// Row `row` holds `got` digits where the first row holds `expected`.
    RowWidth { row: usize, expected: usize, got: usize },
    /// The character at `row`, `column` is not a hexadecimal digit.
    NotHexDigit { row: usize, column: usize, digit: char },
}

/// The requested width times height does not fit the address space.
#[derive(Debug)]
pub struct DimensionsTooLarge;

/// A paletted image: pixels row by row, a color remapping, a clip rectangle and a camera
/// offset that drawing goes through.
#[derive(Clone)]
pub struct Image {
    width: u32,
    height: u32,
    data: Vec<Color>,
    palette: Vec<Color>,
    palette_is_identity: bool,
    clip_x: i32,
    clip_y: i32,
    clip_w: i32,
    clip_h: i32,
    camera_x: i32,
    camera_y: i32,
}

/// What drawing on an image sees of it.
pub struct ImageView {
    pub width: nat,
    pub height: nat,
    pub data: Seq<Color>,
    pub palette: Seq<Color>,
    pub palette_is_identity: bool,
    pub clip: (int, int, int, int),
    pub camera: (int, int),
}

/// The value of a hexadecimal digit.
pub open spec fn hex_digit(c: char) -> Option<u8> {
    if '0' <= c && c <= '9' {
        Some((c as int - '0' as int) as u8)
    } else if 'a' <= c && c <= 'f' {
        Some((c as int - 'a' as int + 10) as u8)
    } else if 'A' <= c && c <= 'F' {
        Some((c as int - 'A' as int + 10) as u8)
    } else {
        None
    }
}

/// A row of image data with its spaces and line breaks removed.
pub open spec fn simplified(row: Seq<char>) -> Seq<char> {
    row.filter(|c: char| c != ' ' && c != '\n')
}

/// The first row at or after `k` whose length is not `w`.
pub open spec fn first_bad_width(rows: Seq<Seq<char>>, w: int, k: int) -> Option<int>
    decreases rows.len() - k,
{
    if k < 0 || k >= rows.len() {
        None
    } else if rows[k].len() != w {
        Some(k)
    } else {
        first_bad_width(rows, w, k + 1)
    }
}

/// The first cell, in row order, at or after cell `k` of a `w`-wide grid that is not a
/// hexadecimal digit.
pub open spec fn first_bad_digit(rows: Seq<Seq<char>>, w: int, k: int) -> Option<int>
    decreases rows.len() * w - k,
{
    if w <= 0 || k < 0 || k >= rows.len() * w {
        None
    } else if hex_digit(rows[k / w][k % w]) is None {
        Some(k)
    } else {
        first_bad_digit(rows, w, k + 1)
    }
}

/// The characters of each string.
pub open spec fn string_views(raw: Seq<String>) -> Seq<Seq<char>> {
    raw.map_values(|s: String| s@)
}

/// Each row simplified.
pub open spec fn simplified_rows(raw: Seq<Seq<char>>) -> Seq<Seq<char>> {
    raw.map_values(|r: Seq<char>| simplified(r))
}

/// Rows of hexadecimal digits read as a `width` by `height` image, or why they cannot be.
pub open spec fn parse_rows(raw: Seq<Seq<char>>) -> Result<(int, int, Seq<Color>), ImageDataError> {
    let rows = simplified_rows(raw);
    if rows.len() == 0 {
        Err(ImageDataError::NoRows)
    } else if rows[0].len() == 0 {
        Err(ImageDataError::NoPixels)
    } else {
        let w = rows[0].len() as int;
        match first_bad_width(rows, w, 0) {
            Some(k) => Err(ImageDataError::RowWidth { row: k as usize, expected: w as usize, got: rows[k].len() as usize }),
            None => match first_bad_digit(rows, w, 0) {
                Some(k) => Err(ImageDataError::NotHexDigit { row: (k / w) as usize, column: (k % w) as usize, digit: rows[k / w][k % w] }),
                None => Ok((w, rows.len() as int, Seq::new((rows.len() * w) as nat, |k: int| hex_digit(rows[k / w][k % w])->0))),
            },
        }
    }
}

/// Whether `(px, py)` lies in the rectangle `(x, y, w, h)`.
pub open spec fn in_rect(rect: (int, int, int, int), px: int, py: int) -> bool {
    rect.0 <= px < rect.0 + rect.2 && rect.1 <= py < rect.1 + rect.3
}

/// The image after copying a `sw` by `sh` source to `(x, y)`, shifted by the camera,
/// through the color remapping and inside the clip rectangle.
pub open spec fn blit_data(v: ImageView, x: int, y: int, sw: int, sh: int, src: Seq<Color>) -> Seq<Color> {
    Seq::new(v.data.len(), |k: int| {
        let px = k % (v.width as int);
        let py = k / (v.width as int);
        let i = px - (x - v.camera.0);
        let j = py - (y - v.camera.1);
        if 0 <= i < sw && 0 <= j < sh && in_rect(v.clip, px, py) {
            let c = src[j * sw + i];
            if v.palette_is_identity { c } else { v.palette[c as int] }
        } else {
            v.data[k]
        }
    })
}

/// Side of a tile, in pixels.
pub const TILE_SIZE: u32 = 8;

/// Pixel `(sx, sy)` of the picture a `tw` by `th` grid of tiles makes: the pixel of
/// `source` in the cell that its tile names, or `None` off the grid or off the source.
pub open spec fn tilemap_pixel(tiles: Seq<Tile>, tw: int, th: int, source: ImageView, sx: int, sy: int) -> Option<Color> {
    if 0 <= sx < tw * 8 && 0 <= sy < th * 8 {
        let tile = tiles[(sy / 8) * tw + sx / 8];
        let ix = tile.0 * 8 + sx % 8;
        let iy = tile.1 * 8 + sy % 8;
        if ix < source.width && iy < source.height {
            Some(source.data[iy * (source.width as int) + ix])
        } else {
            None
        }
    } else {
        None
    }
}

/// The color that drawing a `w` by `h` region of the tile picture, from its pixel
/// `(tx, ty)`, at `(x, y)` puts at pixel `(px, py)`, or `None` where the pixel stays.
/// A negative `w` or `h` mirrors the region on that axis; the region goes through the
/// camera, the clip rectangle, the transparent color and the color remapping.
pub open spec fn tilemap_cell(
    v: ImageView, x: int, y: int, tiles: Seq<Tile>, tw: int, th: int, source: ImageView,
    tx: int, ty: int, w: int, h: int, transparent: Option<Color>, px: int, py: int,
) -> Option<Color> {
    let aw = if w < 0 { -w } else { w };
    let ah = if h < 0 { -h } else { h };
    let i = px - (x - v.camera.0);
    let j = py - (y - v.camera.1);
    if 0 <= i < aw && 0 <= j < ah && in_rect(v.clip, px, py) {
        let sx = if w < 0 { tx + aw - 1 - i } else { tx + i };
        let sy = if h < 0 { ty + ah - 1 - j } else { ty + j };
        match tilemap_pixel(tiles, tw, th, source, sx, sy) {
            Some(c) => if transparent == Some(c) {
                None
            } else if v.palette_is_identity {
                Some(c)
            } else {
                Some(v.palette[c as int])
            },
            None => None,
        }
    } else {
        None
    }
}

/// The image after drawing a region of a tile picture (see `tilemap_cell`).
pub open spec fn tilemap_blit_data(
    v: ImageView, x: int, y: int, tiles: Seq<Tile>, tw: int, th: int, source: ImageView,
    tx: int, ty: int, w: int, h: int, transparent: Option<Color>,
) -> Seq<Color> {
    Seq::new(v.data.len(), |k: int|
        match tilemap_cell(v, x, y, tiles, tw, th, source, tx, ty, w, h, transparent, k % (v.width as int), k / (v.width as int)) {
            Some(c) => c,
            None => v.data[k],
        })
}

/// The remapping that leaves every color as it is.
pub open spec fn identity_palette() -> Seq<Color> {
    Seq::new(MAX_COLORS as nat, |i: int| i as Color)
}

proof fn lemma_flat_index(px: int, py: int, w: int, h: int)
    requires
        0 <= px < w,
        0 <= py < h,
    ensures
        0 <= py * w + px < w * h,
        (py * w + px) % w == px,
        (py * w + px) / w == py,
{
    assert(0 <= py * w + px < w * h) by (nonlinear_arith)
        requires 0 <= px < w, 0 <= py < h;
    vstd::arithmetic::div_mod::lemma_fundamental_div_mod_converse(py * w + px, w, py, px);
}

proof fn lemma_flat_split(k: int, w: int, h: int)
    requires
        0 <= k < w * h,
        w >= 0,
        h >= 0,
    ensures
        w > 0,
        0 <= k % w < w,
        0 <= k / w < h,
        k == (k / w) * w + k % w,
{
    assert(w > 0) by (nonlinear_arith)
        requires 0 <= k < w * h, w >= 0, h >= 0;
    vstd::arithmetic::div_mod::lemma_fundamental_div_mod(k, w);
    assert((k / w) * w == w * (k / w)) by (nonlinear_arith);
    assert(0 <= k / w < h) by (nonlinear_arith)
        requires 0 <= k < w * h, w > 0, k == (k / w) * w + k % w, 0 <= k % w < w;
}

impl View for Image {
    type V = ImageView;

    closed spec fn view(&self) -> ImageView {
        ImageView {
            width: self.width as nat,
            height: self.height as nat,
            data: self.data@,
            palette: self.palette@,
            palette_is_identity: self.palette_is_identity,
            clip: (self.clip_x as int, self.clip_y as int, self.clip_w as int, self.clip_h as int),
            camera: (self.camera_x as int, self.camera_y as int),
        }
    }
}

impl Image {
    /// The image's representation is consistent.
    pub closed spec fn wf(&self) -> bool {
        &&& self.width <= i32::MAX
        &&& self.height <= i32::MAX
        &&& self.data@.len() == self.width * self.height
        &&& self.width * self.height <= usize::MAX
        &&& self.palette@.len() == MAX_COLORS
        &&& (self.palette_is_identity ==> self.palette@ == identity_palette())
        &&& 0 <= self.clip_x
        &&& 0 <= self.clip_y
        &&& 0 <= self.clip_w
        &&& 0 <= self.clip_h
        &&& self.clip_x + self.clip_w <= self.width
        &&& self.clip_y + self.clip_h <= self.height
    }

    /// A `width` by `height` image of color 0, or an error where the pixels cannot be
    /// addressed (more than the address space, or a side over `i32::MAX`).
    pub fn try_new(width: u32, height: u32) -> (r: Result<Image, DimensionsTooLarge>)
        ensures
            r is Ok <==> (width <= i32::MAX && height <= i32::MAX && width * height <= usize::MAX),
            r matches Ok(img) ==> {
                &&& img.wf()
                &&& img@.width == width
                &&& img@.height == height
                &&& img@.data == Seq::new((width * height) as nat, |k: int| 0u8)
                &&& img@.palette == identity_palette()
                &&& img@.palette_is_identity
                &&& img@.clip == (0int, 0int, width as int, height as int)
                &&& img@.camera == (0int, 0int)
            },
    {
        if width > i32::MAX as u32 || height > i32::MAX as u32 {
            return Err(DimensionsTooLarge);
        }
        let n = match (width as usize).checked_mul(height as usize) {
            Some(n) => n,
            None => {
                return Err(DimensionsTooLarge);
            },
        };
        let mut data: Vec<Color> = Vec::new();
        let mut k: usize = 0;
        while k < n
            invariant
                k <= n,
                data@ == Seq::new(k as nat, |i: int| 0u8),
            decreases n - k,
        {
            data.push(0);
            k = k + 1;
            assert(data@ =~= Seq::new(k as nat, |i: int| 0u8));
        }
        let img = Image {
            width,
            height,
            data,
            palette: identity_colors(),
            palette_is_identity: true,
            clip_x: 0,
            clip_y: 0,
            clip_w: width as i32,
            clip_h: height as i32,
            camera_x: 0,
            camera_y: 0,
        };
        assert(img@.data =~= Seq::new((width * height) as nat, |k: int| 0u8));
        Ok(img)
    }

    /// `try_new` for dimensions known to fit.
    pub fn new(width: u32, height: u32) -> (r: Image)
        requires
            width <= i32::MAX,
            height <= i32::MAX,
            width * height <= usize::MAX,
        ensures
            r.wf(),
            r@.width == width,
            r@.height == height,
            r@.data == Seq::new((width * height) as nat, |k: int| 0u8),
            r@.palette == identity_palette(),
            r@.palette_is_identity,
            r@.clip == (0int, 0int, width as int, height as int),
            r@.camera == (0int, 0int),
    {
        match Self::try_new(width, height) {
            Ok(img) => img,
            Err(_) => vstd::pervasive::unreached(),
        }
    }

    pub fn width(&self) -> (r: u32)
        ensures
            r == self@.width,
    {
        self.width
    }

    pub fn height(&self) -> (r: u32)
        ensures
            r == self@.height,
    {
        self.height
    }

    /// The pixels, row by row.
    pub fn data(&self) -> (r: &Vec<Color>)
        ensures
            r@ == self@.data,
    {
        &self.data
    }

    /// Clipping covers the whole image again.
    pub fn reset_clip_rect(&mut self)
        requires
            old(self).wf(),
        ensures
            final(self).wf(),
            final(self)@ == (ImageView { clip: (0int, 0int, old(self)@.width as int, old(self)@.height as int), ..old(self)@ }),
    {
        self.clip_x = 0;
        self.clip_y = 0;
        self.clip_w = self.width as i32;
        self.clip_h = self.height as i32;
    }

    /// Clipping to the part of the rectangle at `(x, y)` of the given size that lies in
    /// the image; a negative size is an empty rectangle.
    pub fn set_clip_rect(&mut self, x: i32, y: i32, width: i32, height: i32)
        requires
            old(self).wf(),
        ensures
            final(self).wf(),
            final(self)@.data == old(self)@.data,
            final(self)@.palette == old(self)@.palette,
            final(self)@.camera == old(self)@.camera,
            final(self)@.width == old(self)@.width,
            final(self)@.height == old(self)@.height,
            forall|px: int, py: int| in_rect(final(self)@.clip, px, py) <==> (in_rect((x as int, y as int, width as int, height as int), px, py)
                && in_rect((0int, 0int, old(self)@.width as int, old(self)@.height as int), px, py)),
    {
        let w = self.width as i64;
        let h = self.height as i64;
        let left = if (x as i64) < 0 { 0 } else if (x as i64) > w { w } else { x as i64 };
        let top = if (y as i64) < 0 { 0 } else if (y as i64) > h { h } else { y as i64 };
        let r0 = x as i64 + width as i64;
        let b0 = y as i64 + height as i64;
        let right = if r0 > w { w } else if r0 < left { left } else { r0 };
        let bottom = if b0 > h { h } else if b0 < top { top } else { b0 };
        self.clip_x = left as i32;
        self.clip_y = top as i32;
        self.clip_w = (right - left) as i32;
        self.clip_h = (bottom - top) as i32;
    }

    /// Moves the drawing origin to `(x, y)`.
    pub fn set_camera(&mut self, x: i32, y: i32)
        requires
            old(self).wf(),
        ensures
            final(self).wf(),
            final(self)@ == (ImageView { camera: (x as int, y as int), ..old(self)@ }),
    {
        self.camera_x = x;
        self.camera_y = y;
    }

    /// The drawing origin is the image's corner again.
    pub fn reset_camera(&mut self)
        requires
            old(self).wf(),
        ensures
            final(self).wf(),
            final(self)@ == (ImageView { camera: (0int, 0int), ..old(self)@ }),
    {
        self.camera_x = 0;
        self.camera_y = 0;
    }

    /// Drawing with `src_color` draws `dst_color` from now on.
    pub fn map_color(&mut self, src_color: Color, dst_color: Color)
        requires
            old(self).wf(),
            src_color < MAX_COLORS,
        ensures
            final(self).wf(),
            final(self)@ == (ImageView {
                palette: old(self)@.palette.update(src_color as int, dst_color),
                palette_is_identity: false,
                ..old(self)@
            }),
    {
        self.palette.set(src_color as usize, dst_color);
        self.palette_is_identity = false;
    }

    /// Every color draws as itself again.
    pub fn reset_color_map(&mut self)
        requires
            old(self).wf(),
        ensures
            final(self).wf(),
            final(self)@ == (ImageView { palette: identity_palette(), palette_is_identity: true, ..old(self)@ }),
    {
        self.palette = identity_colors();
        self.palette_is_identity = true;
    }

    /// Fills the whole image with the remapped `color`.
    pub fn clear(&mut self, color: Color)
        requires
            old(self).wf(),
            color < MAX_COLORS,
        ensures
            final(self).wf(),
            final(self)@ == (ImageView {
                data: Seq::new(old(self)@.data.len(), |k: int| old(self)@.palette[color as int]),
                ..old(self)@
            }),
    {
        let value = self.palette[color as usize];
        let n = self.data.len();
        let mut k: usize = 0;
        while k < n
            invariant
                k <= n == self.data@.len(),
                self.wf(),
                self@ == (ImageView { data: self@.data, ..old(self)@ }),
                value == old(self)@.palette[color as int],
                forall|i: int| 0 <= i < k ==> self.data@[i] == value,
            decreases n - k,
        {
            self.data.set(k, value);
            k = k + 1;
        }
        assert(self.data@ =~= Seq::new(n as nat, |i: int| value));
    }

    /// Draws rows of hexadecimal digits, one pixel each, with the top-left pixel at
    /// `(x, y)`; spaces and line breaks in a row are ignored.
    pub fn set(&mut self, x: i32, y: i32, rows: &Vec<String>) -> (r: Result<(), ImageDataError>)
        requires
            old(self).wf(),
            parse_rows(string_views(rows@)) matches Ok((w, h, _)) ==> w <= i32::MAX && h <= i32::MAX && w * h <= usize::MAX,
        ensures
            final(self).wf(),
            match parse_rows(string_views(rows@)) {
                Err(e) => r == Err::<(), ImageDataError>(e) && final(self)@ == old(self)@,
                Ok((sw, sh, src)) => r is Ok && final(self)@ == (ImageView {
                    data: blit_data(old(self)@, x as int, y as int, sw, sh, src),
                    ..old(self)@
                }),
            },
    {
        let parsed = parse_data(rows);
        match parsed {
            Err(e) => Err(e),
            Ok((sw, sh, src)) => {
                self.blit(x, y, sw, sh, &src);
                Ok(())
            },
        }
    }

    /// Draws `source` whole with its top-left pixel at `(x, y)`, as `set` draws its digits.
    pub fn load(&mut self, x: i32, y: i32, source: &Image)
        requires
            old(self).wf(),
            source.wf(),
            !old(self)@.palette_is_identity ==> forall|k: int| 0 <= k < source@.data.len() ==> source@.data[k] < MAX_COLORS,
        ensures
            final(self).wf(),
            final(self)@ == (ImageView {
                data: blit_data(old(self)@, x as int, y as int, source@.width as int, source@.height as int, source@.data),
                ..old(self)@
            }),
    {
        self.blit(x, y, source.width as usize, source.height as usize, &source.data);
    }

    /// The RGB channels of each pixel, row by row, with the pixel's value taken as an
    /// index into `colors`.
    pub fn rgb_pixels(&self, colors: &Vec<Rgb24>) -> (r: Vec<(u8, u8, u8)>)
        requires
            forall|k: int| 0 <= k < self@.data.len() ==> self@.data[k] < colors@.len(),
        ensures
            r@.len() == self@.data.len(),
            forall|k: int| 0 <= k < r@.len() ==> {
                let c = colors@[self@.data[k] as int];
                #[trigger] r@[k] == (red(c) as u8, green(c) as u8, blue(c) as u8)
            },
    {
        let mut out: Vec<(u8, u8, u8)> = Vec::new();
        let mut k: usize = 0;
        while k < self.data.len()
            invariant
                k <= self@.data.len(),
                out@.len() == k,
                forall|m: int| 0 <= m < self@.data.len() ==> self@.data[m] < colors@.len(),
                forall|m: int| 0 <= m < k ==> {
                    let c = colors@[self@.data[m] as int];
                    #[trigger] out@[m] == (red(c) as u8, green(c) as u8, blue(c) as u8)
                },
            decreases self@.data.len() - k,
        {
            let c = colors[self.data[k] as usize];
            out.push(rgb24_to_rgb8(c));
            k = k + 1;
        }
        out
    }

    /// A copy of the image, its pixels, remapping, clip rectangle and camera.
    pub fn copy(&self) -> (r: Image)
        requires
            self.wf(),
        ensures
            r.wf(),
            r@ == self@,
    {
        let data = self.data.clone();
        let palette = self.palette.clone();
        assert(data@ == self.data@);
        assert(palette@ == self.palette@);
        Image {
            width: self.width,
            height: self.height,
            data,
            palette,
            palette_is_identity: self.palette_is_identity,
            clip_x: self.clip_x,
            clip_y: self.clip_y,
            clip_w: self.clip_w,
            clip_h: self.clip_h,
            camera_x: self.camera_x,
            camera_y: self.camera_y,
        }
    }

    /// Whether drawing remaps colors through the palette (else colors are drawn as they are).
    pub fn remaps_colors(&self) -> (r: bool)
        ensures
            r == !self@.palette_is_identity,
    {
        !self.palette_is_identity
    }

    /// Draws a `width` by `height` region of the picture that `tilemap`'s tiles make from
    /// `source`, from its pixel `(tilemap_x, tilemap_y)`, with the region's top-left pixel
    /// at `(x, y)`; a negative width or height mirrors the region on that axis (see
    /// `tilemap_cell`).
    pub fn draw_tilemap(&mut self, x: i32, y: i32, tilemap: &Tilemap, source: &Image,
        tilemap_x: i32, tilemap_y: i32, width: i32, height: i32, transparent: Option<Color>)
        requires
            old(self).wf(),
            source.wf(),
            tilemap.grid_ok(),
            !old(self)@.palette_is_identity ==> forall|k: int| 0 <= k < source@.data.len() ==> source@.data[k] < MAX_COLORS,
        ensures
            final(self).wf(),
            final(self)@ == (ImageView {
                data: tilemap_blit_data(old(self)@, x as int, y as int, tilemap.tiles@, tilemap.width as int,
                    tilemap.height as int, source@, tilemap_x as int, tilemap_y as int, width as int, height as int,
                    transparent),
                ..old(self)@
            }),
    {
        let ghost v0 = self@;
        let ghost tw = tilemap.width as int;
        let ghost th = tilemap.height as int;
        let w = self.width as i64;
        let ox = x as i64 - self.camera_x as i64;
        let oy = y as i64 - self.camera_y as i64;
        let aw: i64 = if width < 0 { -(width as i64) } else { width as i64 };
        let ah: i64 = if height < 0 { -(height as i64) } else { height as i64 };
        let cx0 = self.clip_x as i64;
        let cy0 = self.clip_y as i64;
        let cx1 = cx0 + self.clip_w as i64;
        let cy1 = cy0 + self.clip_h as i64;
        let mut py: i64 = cy0;
        while py < cy1
            invariant
                self.wf(),
                source.wf(),
                tilemap.grid_ok(),
                tw == tilemap.width,
                th == tilemap.height,
                !v0.palette_is_identity ==> forall|k: int| 0 <= k < source@.data.len() ==> source@.data[k] < MAX_COLORS,
                v0.width == self.width,
                v0.height == self.height,
                self@ == (ImageView { data: self@.data, ..v0 }),
                self@.data.len() == v0.data.len(),
                w == self.width as i64,
                ox == x as i64 - v0.camera.0,
                oy == y as i64 - v0.camera.1,
                aw == (if width < 0 { -width } else { width as int }),
                ah == (if height < 0 { -height } else { height as int }),
                cx0 == v0.clip.0,
                cy0 == v0.clip.1,
                cx1 == v0.clip.0 + v0.clip.2,
                cy1 == v0.clip.1 + v0.clip.3,
                cy0 <= py <= cy1,
                forall|k: int| 0 <= k < self@.data.len() ==> #[trigger] self@.data[k] == if k / (v0.width as int) < py {
                    tilemap_blit_data(v0, x as int, y as int, tilemap.tiles@, tw, th, source@, tilemap_x as int, tilemap_y as int, width as int, height as int, transparent)[k]
                } else {
                    v0.data[k]
                },
            decreases cy1 - py,
        {
            let mut px: i64 = cx0;
            while px < cx1
                invariant
                    self.wf(),
                    source.wf(),
                    tilemap.grid_ok(),
                    tw == tilemap.width,
                    th == tilemap.height,
                    !v0.palette_is_identity ==> forall|k: int| 0 <= k < source@.data.len() ==> source@.data[k] < MAX_COLORS,
                    v0.width == self.width,
                    v0.height == self.height,
                    self@ == (ImageView { data: self@.data, ..v0 }),
                    self@.data.len() == v0.data.len(),
                    w == self.width as i64,
                    ox == x as i64 - v0.camera.0,
                    oy == y as i64 - v0.camera.1,
                    aw == (if width < 0 { -width } else { width as int }),
                    ah == (if height < 0 { -height } else { height as int }),
                    cx0 == v0.clip.0,
                    cy0 == v0.clip.1,
                    cx1 == v0.clip.0 + v0.clip.2,
                    cy1 == v0.clip.1 + v0.clip.3,
                    cy0 <= py < cy1,
                    cx0 <= px <= cx1,
                    forall|k: int| 0 <= k < self@.data.len() ==> #[trigger] self@.data[k] == if k / (v0.width as int) < py
                        || (k / (v0.width as int) == py && cx0 <= k % (v0.width as int) < px) {
                        tilemap_blit_data(v0, x as int, y as int, tilemap.tiles@, tw, th, source@, tilemap_x as int, tilemap_y as int, width as int, height as int, transparent)[k]
                    } else {
                        v0.data[k]
                    },
                decreases cx1 - px,
            {
                proof {
                    lemma_flat_index(px as int, py as int, w as int, v0.height as int);
                    assert(py * w <= (i32::MAX as int) * (i32::MAX as int)) by (nonlinear_arith)
                        requires 0 <= py <= i32::MAX, 0 <= w <= i32::MAX;
                }
                let k = (py * w + px) as usize;
                let i = px - ox;
                let j = py - oy;
                let cell: Option<Color> = if 0 <= i && i < aw && 0 <= j && j < ah {
                    let sx = if width < 0 { tilemap_x as i64 + aw - 1 - i } else { tilemap_x as i64 + i };
                    let sy = if height < 0 { tilemap_y as i64 + ah - 1 - j } else { tilemap_y as i64 + j };
                    match tile_pixel(tilemap, source, sx, sy) {
                        Some(c) => {
                            let hidden = match transparent {
                                Some(t) => t == c,
                                None => false,
                            };
                            if hidden {
                                None
                            } else if self.palette_is_identity {
                                Some(c)
                            } else {
                                Some(self.palette[c as usize])
                            }
                        },
                        None => None,
                    }
                } else {
                    None
                };
                assert(k as int == py * w + px);
                assert((k as int) % (v0.width as int) == px);
                assert((k as int) / (v0.width as int) == py);
                assert(in_rect(v0.clip, px as int, py as int));
                assert(cell == tilemap_cell(v0, x as int, y as int, tilemap.tiles@, tw, th, source@, tilemap_x as int, tilemap_y as int, width as int, height as int, transparent, px as int, py as int));
                match cell {
                    Some(value) => {
                        self.data.set(k, value);
                    },
                    None => {},
                }
                proof {
                    assert forall|k2: int| 0 <= k2 < self@.data.len() implies #[trigger] self@.data[k2] == if k2 / (v0.width as int) < py
                        || (k2 / (v0.width as int) == py && cx0 <= k2 % (v0.width as int) < px + 1) {
                        tilemap_blit_data(v0, x as int, y as int, tilemap.tiles@, tw, th, source@, tilemap_x as int, tilemap_y as int, width as int, height as int, transparent)[k2]
                    } else {
                        v0.data[k2]
                    } by {
                        lemma_flat_split(k2, w as int, v0.height as int);
                    }
                }
                px = px + 1;
            }
            proof {
                assert forall|k2: int| 0 <= k2 < self@.data.len() implies #[trigger] self@.data[k2] == if k2 / (v0.width as int) < py + 1 {
                    tilemap_blit_data(v0, x as int, y as int, tilemap.tiles@, tw, th, source@, tilemap_x as int, tilemap_y as int, width as int, height as int, transparent)[k2]
                } else {
                    v0.data[k2]
                } by {
                    lemma_flat_split(k2, w as int, v0.height as int);
                    let kx = k2 % (v0.width as int);
                    if k2 / (v0.width as int) == py && (kx >= cx1 || kx < cx0) {
                        assert(!in_rect(v0.clip, kx, py as int));
                    }
                }
            }
            py = py + 1;
        }
        proof {
            assert forall|k2: int| 0 <= k2 < self@.data.len() implies #[trigger] self@.data[k2]
                == tilemap_blit_data(v0, x as int, y as int, tilemap.tiles@, tw, th, source@, tilemap_x as int, tilemap_y as int, width as int, height as int, transparent)[k2] by {
                lemma_flat_split(k2, w as int, v0.height as int);
                if k2 / (v0.width as int) >= py {
                    assert(!in_rect(v0.clip, k2 % (v0.width as int), k2 / (v0.width as int)));
                }
            }
            assert(self@.data =~= tilemap_blit_data(v0, x as int, y as int, tilemap.tiles@, tw, th, source@, tilemap_x as int, tilemap_y as int, width as int, height as int, transparent));
        }
    }

    fn blit(&mut self, x: i32, y: i32, sw: usize, sh: usize, src: &Vec<Color>)
        requires
            old(self).wf(),
            src@.len() == sw * sh,
            sw * sh <= usize::MAX,
            sw <= i32::MAX,
            sh <= i32::MAX,
            !old(self)@.palette_is_identity ==> forall|k: int| 0 <= k < src@.len() ==> src@[k] < MAX_COLORS,
        ensures
            final(self).wf(),
            final(self)@ == (ImageView { data: blit_data(old(self)@, x as int, y as int, sw as int, sh as int, src@), ..old(self)@ }),
    {
        let ghost v0 = self@;
        let w = self.width as i64;
        let ox = x as i64 - self.camera_x as i64;
        let oy = y as i64 - self.camera_y as i64;
        let cx0 = self.clip_x as i64;
        let cy0 = self.clip_y as i64;
        let cx1 = cx0 + self.clip_w as i64;
        let cy1 = cy0 + self.clip_h as i64;
        let mut py: i64 = cy0;
        while py < cy1
            invariant
                self.wf(),
                v0.width == self.width,
                v0.height == self.height,
                self@ == (ImageView { data: self@.data, ..v0 }),
                self@.data.len() == v0.data.len(),
                w == self.width as i64,
                ox == x as i64 - v0.camera.0,
                oy == y as i64 - v0.camera.1,
                cx0 == v0.clip.0,
                cy0 == v0.clip.1,
                cx1 == v0.clip.0 + v0.clip.2,
                cy1 == v0.clip.1 + v0.clip.3,
                cy0 <= py <= cy1,
                src@.len() == sw * sh,
                sw * sh <= usize::MAX,
                sw <= i32::MAX,
                sh <= i32::MAX,
                !v0.palette_is_identity ==> forall|k: int| 0 <= k < src@.len() ==> src@[k] < MAX_COLORS,
                forall|k: int| 0 <= k < self@.data.len() ==> #[trigger] self@.data[k] == if k / (v0.width as int) < py {
                    blit_data(v0, x as int, y as int, sw as int, sh as int, src@)[k]
                } else {
                    v0.data[k]
                },
            decreases cy1 - py,
        {
            let mut px: i64 = cx0;
            while px < cx1
                invariant
                    self.wf(),
                    v0.width == self.width,
                    v0.height == self.height,
                    self@ == (ImageView { data: self@.data, ..v0 }),
                    self@.data.len() == v0.data.len(),
                    w == self.width as i64,
                    ox == x as i64 - v0.camera.0,
                    oy == y as i64 - v0.camera.1,
                    cx0 == v0.clip.0,
                    cy0 == v0.clip.1,
                    cx1 == v0.clip.0 + v0.clip.2,
                    cy1 == v0.clip.1 + v0.clip.3,
                    cy0 <= py < cy1,
                    cx0 <= px <= cx1,
                    src@.len() == sw * sh,
                    sw * sh <= usize::MAX,
                    sw <= i32::MAX,
                    sh <= i32::MAX,
                    !v0.palette_is_identity ==> forall|k: int| 0 <= k < src@.len() ==> src@[k] < MAX_COLORS,
                    forall|k: int| 0 <= k < self@.data.len() ==> #[trigger] self@.data[k] == if k / (v0.width as int) < py
                        || (k / (v0.width as int) == py && cx0 <= k % (v0.width as int) < px) {
                        blit_data(v0, x as int, y as int, sw as int, sh as int, src@)[k]
                    } else {
                        v0.data[k]
                    },
                decreases cx1 - px,
            {
                proof {
                    lemma_flat_index(px as int, py as int, w as int, v0.height as int);
                    assert(py * w <= (i32::MAX as int) * (i32::MAX as int)) by (nonlinear_arith)
                        requires 0 <= py <= i32::MAX, 0 <= w <= i32::MAX;
                }
                let k = (py * w + px) as usize;
                let i = px - ox;
                let j = py - oy;
                if 0 <= i && i < sw as i64 && 0 <= j && j < sh as i64 {
                    let ju = j as usize;
                    let iu = i as usize;
                    proof {
                        lemma_flat_index(iu as int, ju as int, sw as int, sh as int);
                    }
                    let c = src[ju * sw + iu];
                    let value = if self.palette_is_identity { c } else { self.palette[c as usize] };
                    self.data.set(k, value);
                } else {
                    assert(k as int == py * w + px);
                    assert((k as int) % (v0.width as int) == px);
                    assert((k as int) / (v0.width as int) == py);
                    assert(0 <= k < v0.data.len());
                    assert(blit_data(v0, x as int, y as int, sw as int, sh as int, src@)[k as int] == v0.data[k as int]);
                }
                proof {
                    assert forall|k2: int| 0 <= k2 < self@.data.len() implies #[trigger] self@.data[k2] == if k2 / (v0.width as int) < py
                        || (k2 / (v0.width as int) == py && cx0 <= k2 % (v0.width as int) < px + 1) {
                        blit_data(v0, x as int, y as int, sw as int, sh as int, src@)[k2]
                    } else {
                        v0.data[k2]
                    } by {
                        lemma_flat_split(k2, w as int, v0.height as int);
                    }
                }
                px = px + 1;
            }
            proof {
                assert forall|k2: int| 0 <= k2 < self@.data.len() implies #[trigger] self@.data[k2] == if k2 / (v0.width as int) < py + 1 {
                    blit_data(v0, x as int, y as int, sw as int, sh as int, src@)[k2]
                } else {
                    v0.data[k2]
                } by {
                    lemma_flat_split(k2, w as int, v0.height as int);
                    let kx = k2 % (v0.width as int);
                    if k2 / (v0.width as int) == py && (kx >= cx1 || kx < cx0) {
                        assert(!in_rect(v0.clip, kx, py as int));
                    }
                }
            }
            py = py + 1;
        }
        proof {
            assert forall|k2: int| 0 <= k2 < self@.data.len() implies #[trigger] self@.data[k2]
                == blit_data(v0, x as int, y as int, sw as int, sh as int, src@)[k2] by {
                lemma_flat_split(k2, w as int, v0.height as int);
                if k2 / (v0.width as int) >= py {
                    assert(!in_rect(v0.clip, k2 % (v0.width as int), k2 / (v0.width as int)));
                }
            }
            assert(self@.data =~= blit_data(v0, x as int, y as int, sw as int, sh as int, src@));
        }
    }
}

/// Pixel `(sx, sy)` of the picture the tiles make from `source` (see `tilemap_pixel`).
fn tile_pixel(tilemap: &Tilemap, source: &Image, sx: i64, sy: i64) -> (r: Option<Color>)
    requires
        tilemap.grid_ok(),
        source.wf(),
    ensures
        r == tilemap_pixel(tilemap.tiles@, tilemap.width as int, tilemap.height as int, source@, sx as int, sy as int),
        r matches Some(c) ==> exists|k: int| 0 <= k < source@.data.len() && source@.data[k] == c,
{
    let tw = tilemap.width as i64;
    let th = tilemap.height as i64;
    if sx < 0 || sx >= tw * 8 || sy < 0 || sy >= th * 8 {
        return None;
    }
    let cx = sx / 8;
    let cy = sy / 8;
    assert(0 <= cx < tw && 0 <= cy < th) by (nonlinear_arith)
        requires 0 <= sx < tw * 8, 0 <= sy < th * 8, cx == sx / 8, cy == sy / 8;
    proof {
        lemma_flat_index(cx as int, cy as int, tw as int, th as int);
    }
    let index = cy as usize * tilemap.width as usize + cx as usize;
    let tile = tilemap.tiles[index];
    let ix = tile.0 as i64 * 8 + sx % 8;
    let iy = tile.1 as i64 * 8 + sy % 8;
    if ix < source.width as i64 && iy < source.height as i64 {
        proof {
            lemma_flat_index(ix as int, iy as int, source.width as int, source.height as int);
        }
        let idx = iy as usize * source.width as usize + ix as usize;
        assert(0 <= idx < source@.data.len());
        Some(source.data[idx])
    } else {
        None
    }
}

/// The remapping that leaves every color as it is.
fn identity_colors() -> (r: Vec<Color>)
    ensures
        r@ == identity_palette(),
{
    let mut p: Vec<Color> = Vec::new();
    let mut i: u32 = 0;
    while i < MAX_COLORS
        invariant
            i <= MAX_COLORS,
            p@ == Seq::new(i as nat, |k: int| k as Color),
        decreases MAX_COLORS - i,
    {
        p.push(i as Color);
        i = i + 1;
        assert(p@ =~= Seq::new(i as nat, |k: int| k as Color));
    }
    p
}

/// The value of a hexadecimal digit.
fn hex_value(c: char) -> (r: Option<u8>)
    ensures
        r == hex_digit(c),
{
    if '0' <= c && c <= '9' {
        Some((c as u32 - '0' as u32) as u8)
    } else if 'a' <= c && c <= 'f' {
        Some((c as u32 - 'a' as u32 + 10) as u8)
    } else if 'A' <= c && c <= 'F' {
        Some((c as u32 - 'A' as u32 + 10) as u8)
    } else {
        None
    }
}

/// A row with its spaces and line breaks removed.
fn simplify_row(row: &String) -> (r: Vec<char>)
    ensures
        r@ == simplified(row@),
{
    let s = row.as_str();
    let n = s.unicode_len();
    let mut out: Vec<char> = Vec::new();
    let mut i: usize = 0;
    while i < n
        invariant
            i <= n == s@.len(),
            s@ == row@,
            out@ == simplified(s@.take(i as int)),
        decreases n - i,
    {
        let c = s.get_char(i);
        proof {
            reveal_with_fuel(Seq::<_>::filter, 1);
            assert(s@.take(i + 1).drop_last() =~= s@.take(i as int));
        }
        if c != ' ' && c != '\n' {
            out.push(c);
        }
        i = i + 1;
    }
    assert(s@.take(n as int) =~= s@);
    out
}

/// Rows of hexadecimal digits read as an image (see `parse_rows`).
fn parse_data(raw: &Vec<String>) -> (r: Result<(usize, usize, Vec<Color>), ImageDataError>)
    ensures
        match parse_rows(string_views(raw@)) {
            Err(e) => r == Err::<(usize, usize, Vec<Color>), ImageDataError>(e),
            Ok((w, h, d)) => r matches Ok((w2, h2, d2)) && w2 == w && h2 == h && d2@ == d,
        },
        r matches Ok((w, h, d)) ==> d@.len() == w * h && forall|k: int| 0 <= k < d@.len() ==> d@[k] < 16,
{
    let ghost strs = string_views(raw@);
    let ghost spec_rows = simplified_rows(strs);
    let mut rows: Vec<Vec<char>> = Vec::new();
    let mut i: usize = 0;
    while i < raw.len()
        invariant
            i <= raw@.len(),
            strs == string_views(raw@),
            spec_rows == simplified_rows(strs),
            rows@.len() == i,
            forall|k: int| 0 <= k < i ==> (#[trigger] rows@[k])@ == spec_rows[k],
        decreases raw@.len() - i,
    {
        let row = simplify_row(&raw[i]);
        rows.push(row);
        i = i + 1;
    }
    assert(rows@.len() == spec_rows.len());
    if rows.len() == 0 {
        return Err(ImageDataError::NoRows);
    }
    if rows[0].len() == 0 {
        return Err(ImageDataError::NoPixels);
    }
    let w = rows[0].len();
    let h = rows.len();
    let mut k: usize = 0;
    while k < h
        invariant
            k <= h == rows@.len() == spec_rows.len(),
            w == spec_rows[0].len(),
            w > 0,
            forall|m: int| 0 <= m < h ==> (#[trigger] rows@[m])@ == spec_rows[m],
            first_bad_width(spec_rows, w as int, 0) == first_bad_width(spec_rows, w as int, k as int),
            forall|m: int| 0 <= m < k ==> (#[trigger] spec_rows[m]).len() == w,
            spec_rows == simplified_rows(strs),
            strs == string_views(raw@),
        decreases h - k,
    {
        if rows[k].len() != w {
            assert(first_bad_width(spec_rows, w as int, k as int) == Some(k as int));
            assert(simplified_rows(strs) == spec_rows);
            assert(spec_rows.len() != 0 && spec_rows[0].len() != 0);
            assert(first_bad_width(spec_rows, spec_rows[0].len() as int, 0) == Some(k as int));
            assert(parse_rows(strs) == Err::<(int, int, Seq<Color>), ImageDataError>(
                ImageDataError::RowWidth { row: k, expected: w, got: rows@[k as int]@.len() as usize }));
            return Err(ImageDataError::RowWidth { row: k, expected: w, got: rows[k].len() });
        }
        assert(first_bad_width(spec_rows, w as int, k as int) == first_bad_width(spec_rows, w as int, k + 1));
        k = k + 1;
    }
    assert(first_bad_width(spec_rows, w as int, h as int) is None);
    let mut data: Vec<Color> = Vec::new();
    let mut y: usize = 0;
    while y < h
        invariant
            y <= h == rows@.len() == spec_rows.len(),
            w == spec_rows[0].len(),
            w > 0,
            forall|m: int| 0 <= m < h ==> (#[trigger] rows@[m])@ == spec_rows[m],
            forall|m: int| 0 <= m < h ==> (#[trigger] spec_rows[m]).len() == w,
            data@.len() == y * w,
            first_bad_digit(spec_rows, w as int, 0) == first_bad_digit(spec_rows, w as int, y * w),
            first_bad_width(spec_rows, w as int, 0) is None,
            spec_rows == simplified_rows(strs),
            strs == string_views(raw@),
            forall|m: int| 0 <= m < data@.len() ==> #[trigger] data@[m] == hex_digit(spec_rows[m / (w as int)][m % (w as int)])->0,
            forall|m: int| 0 <= m < data@.len() ==> data@[m] < 16,
        decreases h - y,
    {
        let row = &rows[y];
        let mut x: usize = 0;
        while x < w
            invariant
                y < h == rows@.len() == spec_rows.len(),
                w == spec_rows[0].len(),
                w > 0,
                *row == rows@[y as int],
                forall|m: int| 0 <= m < h ==> (#[trigger] rows@[m])@ == spec_rows[m],
                forall|m: int| 0 <= m < h ==> (#[trigger] spec_rows[m]).len() == w,
                x <= w,
                data@.len() == y * w + x,
                first_bad_digit(spec_rows, w as int, 0) == first_bad_digit(spec_rows, w as int, y * w + x),
                first_bad_width(spec_rows, w as int, 0) is None,
                spec_rows == simplified_rows(strs),
                strs == string_views(raw@),
                forall|m: int| 0 <= m < data@.len() ==> #[trigger] data@[m] == hex_digit(spec_rows[m / (w as int)][m % (w as int)])->0,
                forall|m: int| 0 <= m < data@.len() ==> data@[m] < 16,
            decreases w - x,
        {
            let ghost kk = y * w + x;
            proof {
                lemma_flat_index(x as int, y as int, w as int, h as int);
                assert(spec_rows.len() * (w as int) == (h as int) * (w as int));
                assert((w as int) * (h as int) == (h as int) * (w as int)) by (nonlinear_arith);
            }
            let c = row[x];
            match hex_value(c) {
                None => {
                    assert(first_bad_digit(spec_rows, w as int, kk) == Some(kk));
                    assert(kk / (w as int) == y && kk % (w as int) == x);
                    assert(parse_rows(strs) == Err::<(int, int, Seq<Color>), ImageDataError>(
                        ImageDataError::NotHexDigit { row: y, column: x, digit: c }));
                    return Err(ImageDataError::NotHexDigit { row: y, column: x, digit: c });
                },
                Some(v) => {
                    assert(first_bad_digit(spec_rows, w as int, kk) == first_bad_digit(spec_rows, w as int, kk + 1));
                    data.push(v);
                },
            }
            x = x + 1;
        }
        proof {
            assert((y + 1) * (w as int) == y * (w as int) + w) by (nonlinear_arith);
        }
        y = y + 1;
    }
    proof {
        assert(spec_rows.len() * (w as int) == (h as int) * (w as int));
        assert(first_bad_digit(spec_rows, w as int, (h as int) * (w as int)) is None);
        assert(data@ =~= Seq::new((spec_rows.len() * w) as nat, |m: int| hex_digit(spec_rows[m / (w as int)][m % (w as int)])->0));
        assert((h as int) * (w as int) == (w as int) * (h as int)) by (nonlinear_arith);
    }
    Ok((w, h, data))
}

/// `data` with row `y` of a `w`-wide image starting with the digits of `line`.
pub open spec fn write_row(data: Seq<Color>, w: int, y: int, line: Seq<char>) -> Seq<Color> {
    Seq::new(data.len(), |k: int| if k / w == y && k % w < line.len() {
        hex_digit(line[k % w])->0
    } else {
        data[k]
    })
}

/// The pixels of a `w` by `h` image after reading lines `y..` of old image data, one
/// row of hexadecimal digits per line.
pub open spec fn image_lines(lines: Seq<Seq<char>>, y: int, w: int, h: int, data: Seq<Color>) -> Result<Seq<Color>, ResourceError>
    decreases lines.len() - y,
{
    if y < 0 || y >= lines.len() {
        Ok(data)
    } else if y >= h {
        Err(ResourceError::TooManyImageRows { got: lines.len() as usize, maximum: h as u32 })
    } else if lines[y].len() > w {
        Err(ResourceError::TooManyImageColumns { line: (y + 1) as usize, got: lines[y].len() as usize, maximum: w as u32 })
    } else {
        match first_non_hex(lines[y], 0) {
            Some(k) => Err(ResourceError::InvalidHexDigit { digit: lines[y][k], line: (y + 1) as usize, column: (k + 1) as usize }),
            None => image_lines(lines, y + 1, w, h, write_row(data, w, y, lines[y])),
        }
    }
}

impl Image {
    /// Reads old image data over the top-left corner of the pixels; on an error the image
    /// is left as it was.
    pub fn deserialize_old(&mut self, input: &str) -> (r: Result<(), ResourceError>)
        requires
            old(self).wf(),
        ensures
            final(self).wf(),
            match image_lines(lines_of(input@), 0, old(self)@.width as int, old(self)@.height as int, old(self)@.data) {
                Ok(d) => r is Ok && final(self)@ == (ImageView { data: d, ..old(self)@ }),
                Err(e) => r == Err::<(), ResourceError>(e) && final(self)@ == old(self)@,
            },
    {
        let lines = split_lines(input);
        let ghost ls = lines_of(input@);
        let w = self.width as usize;
        let h = self.height as usize;
        let mut data = self.data.clone();
        assert(data@ == self.data@);
        let mut y: usize = 0;
        while y < lines.len()
            invariant
                self.wf(),
                w == self.width,
                h == self.height,
                y <= lines@.len() == ls.len(),
                lines@.map_values(|l: Vec<char>| l@) == ls,
                ls == lines_of(input@),
                data@.len() == self.data@.len(),
                image_lines(ls, 0, w as int, h as int, self@.data) == image_lines(ls, y as int, w as int, h as int, data@),
                self@ == old(self)@,
            decreases lines@.len() - y,
        {
            let line = &lines[y];
            assert(line@ == ls[y as int]);
            if y >= h {
                return Err(ResourceError::TooManyImageRows { got: lines.len(), maximum: self.height });
            }
            if line.len() > w {
                return Err(ResourceError::TooManyImageColumns { line: y + 1, got: line.len(), maximum: self.width });
            }
            let ghost before = data@;
            let mut x: usize = 0;
            while x < line.len()
                invariant
                    self.wf(),
                    w == self.width,
                    h == self.height,
                    y < h,
                    line@.len() <= w,
                    x <= line@.len(),
                    data@.len() == before.len() == w * h,
                    first_non_hex(line@, 0) == first_non_hex(line@, x as int),
                    self@ == old(self)@,
                    y < ls.len(),
                    line@ == ls[y as int],
                    ls == lines_of(input@),
                    image_lines(ls, 0, w as int, h as int, self@.data) == image_lines(ls, y as int, w as int, h as int, before),
                    forall|k: int| 0 <= k < data@.len() ==> #[trigger] data@[k] == if k / (w as int) == y && k % (w as int) < x {
                        hex_digit(line@[k % (w as int)])->0
                    } else {
                        before[k]
                    },
                decreases line@.len() - x,
            {
                let digit = line[x];
                let v = match hex_value(digit) {
                    None => {
                        assert(first_non_hex(line@, x as int) == Some(x as int));
                        return Err(ResourceError::InvalidHexDigit { digit, line: y + 1, column: x + 1 });
                    },
                    Some(v) => v,
                };
                proof {
                    lemma_flat_index(x as int, y as int, w as int, h as int);
                    assert(first_non_hex(line@, x as int) == first_non_hex(line@, x + 1));
                }
                let k = y * w + x;
                data.set(k, v);
                x = x + 1;
                proof {
                    assert forall|k2: int| 0 <= k2 < data@.len() implies #[trigger] data@[k2] == if k2 / (w as int) == y && k2 % (w as int) < x {
                        hex_digit(line@[k2 % (w as int)])->0
                    } else {
                        before[k2]
                    } by {
                        lemma_flat_split(k2, w as int, h as int);
                    }
                }
            }
            assert(first_non_hex(line@, line@.len() as int) is None);
            assert(data@ =~= write_row(before, w as int, y as int, line@));
            y = y + 1;
        }
        self.data = data;
        Ok(())
    }
}

/// Drawing image data changes no pixel outside the clip rectangle.
pub proof fn lemma_blit_keeps_outside_clip(v: ImageView, x: int, y: int, sw: int, sh: int, src: Seq<Color>, k: int)
    requires
        v.width > 0,
        0 <= k < v.data.len(),
        !in_rect(v.clip, k % (v.width as int), k / (v.width as int)),
    ensures
        blit_data(v, x, y, sw, sh, src)[k] == v.data[k],
{
}

/// Squared distance between a pixel and a palette color, channel by channel.
pub open spec fn color_dist(p: (u8, u8, u8), c: Rgb24) -> int {
    (p.0 - red(c)) * (p.0 - red(c)) + (p.1 - green(c)) * (p.1 - green(c)) + (p.2 - blue(c)) * (p.2 - blue(c))
}

/// The index of the first closest color among `colors[i..]`, given the best so far.
pub open spec fn nearest_from(colors: Seq<Rgb24>, p: (u8, u8, u8), i: int, best: int, best_dist: int) -> int
    decreases colors.len() - i,
{
    if i < 0 || i >= colors.len() {
        best
    } else if color_dist(p, colors[i]) < best_dist {
        nearest_from(colors, p, i + 1, i, color_dist(p, colors[i]))
    } else {
        nearest_from(colors, p, i + 1, best, best_dist)
    }
}

/// The index of the first palette color closest to `p` (0 for an empty palette).
pub open spec fn nearest_color(colors: Seq<Rgb24>, p: (u8, u8, u8)) -> int {
    nearest_from(colors, p, 0, 0, 0x1_0000_0000)
}

/// `i` is the first index of `c` in `colors`.
pub open spec fn first_index_of(colors: Seq<Rgb24>, i: int, c: Rgb24) -> bool {
    0 <= i < colors.len() && colors[i] == c && forall|j: int| 0 <= j < i ==> colors[j] != c
}

/// A pixel as `0xRRGGBB`.
pub open spec fn pixel_rgb(p: (u8, u8, u8)) -> Rgb24 {
    (p.0 as int * 65536 + p.1 as int * 256 + p.2 as int) as Rgb24
}

/// The colors of the first `k` pixels, each once, in the order they first appear.
pub open spec fn first_seen(pixels: Seq<(u8, u8, u8)>, k: int) -> Seq<Rgb24>
    decreases k,
{
    if k <= 0 || k > pixels.len() {
        Seq::empty()
    } else {
        let seen = first_seen(pixels, k - 1);
        if seen.contains(pixel_rgb(pixels[k - 1])) {
            seen
        } else {
            seen.push(pixel_rgb(pixels[k - 1]))
        }
    }
}

proof fn lemma_rgb_channels(p: (u8, u8, u8))
    ensures
        red(pixel_rgb(p)) == p.0,
        green(pixel_rgb(p)) == p.1,
        blue(pixel_rgb(p)) == p.2,
        pixel_rgb(p) as int == p.0 as int * 65536 + p.1 as int * 256 + p.2 as int,
{
    let v = p.0 as int * 65536 + p.1 as int * 256 + p.2 as int;
    assert(v < 0x1_0000_0000);
    vstd::arithmetic::div_mod::lemma_fundamental_div_mod_converse(v, 65536, p.0 as int, p.1 as int * 256 + p.2 as int);
    vstd::arithmetic::div_mod::lemma_fundamental_div_mod_converse(v, 256, p.0 as int * 256 + p.1 as int, p.2 as int);
    vstd::arithmetic::div_mod::lemma_fundamental_div_mod_converse(p.0 as int * 256 + p.1 as int, 256, p.0 as int, p.1 as int);
}

fn pack_rgb(p: (u8, u8, u8)) -> (r: Rgb24)
    ensures
        r == pixel_rgb(p),
{
    proof {
        lemma_rgb_channels(p);
    }
    p.0 as u32 * 65536 + p.1 as u32 * 256 + p.2 as u32
}

fn distance(p: (u8, u8, u8), c: Rgb24) -> (r: u32)
    ensures
        r == color_dist(p, c),
{
    let (cr, cg, cb) = rgb24_to_rgb8(c);
    let dr: i32 = p.0 as i32 - cr as i32;
    let dg: i32 = p.1 as i32 - cg as i32;
    let db: i32 = p.2 as i32 - cb as i32;
    assert(dr * dr <= 65025 && dg * dg <= 65025 && db * db <= 65025) by (nonlinear_arith)
        requires -255 <= dr <= 255, -255 <= dg <= 255, -255 <= db <= 255;
    assert(dr * dr >= 0 && dg * dg >= 0 && db * db >= 0) by (nonlinear_arith);
    (dr * dr + dg * dg + db * db) as u32
}

/// The index of the first palette color closest to `p` (see `nearest_color`).
fn nearest_index(colors: &Vec<Rgb24>, p: (u8, u8, u8)) -> (r: usize)
    ensures
        r == nearest_color(colors@, p),
        colors@.len() > 0 ==> r < colors@.len(),
        colors@.len() == 0 ==> r == 0,
{
    let mut best: usize = 0;
    let mut best_dist: u64 = 0x1_0000_0000;
    let mut i: usize = 0;
    while i < colors.len()
        invariant
            i <= colors@.len(),
            nearest_color(colors@, p) == nearest_from(colors@, p, i as int, best as int, best_dist as int),
            i > 0 ==> best < i,
            i == 0 ==> best == 0,
            best_dist <= 0x1_0000_0000,
        decreases colors@.len() - i,
    {
        let d = distance(p, colors[i]) as u64;
        if d < best_dist {
            best = i;
            best_dist = d;
        }
        i = i + 1;
    }
    best
}

/// Where `c` stands in `colors`, or `None`.
fn find_color(colors: &Vec<Rgb24>, c: Rgb24) -> (r: Option<usize>)
    ensures
        match r {
            Some(i) => i < colors@.len() && colors@[i as int] == c && forall|j: int| 0 <= j < i ==> colors@[j] != c,
            None => !colors@.contains(c),
        },
{
    let mut i: usize = 0;
    while i < colors.len()
        invariant
            i <= colors@.len(),
            forall|j: int| 0 <= j < i ==> colors@[j] != c,
        decreases colors@.len() - i,
    {
        if colors[i] == c {
            return Some(i);
        }
        i = i + 1;
    }
    None
}

impl Image {
    /// An image from decoded RGB pixels, row by row. Each pixel takes the index, kept to
    /// its low byte, of the first palette color closest to it; with `include_colors`, the
    /// palette is instead replaced by the image's own colors in the order they first
    /// appear (it is emptied first, also where the dimensions are refused).
    pub fn from_image(width: u32, height: u32, pixels: &Vec<(u8, u8, u8)>, colors: &mut Vec<Rgb24>, include_colors: bool)
        -> (r: Result<Image, DimensionsTooLarge>)
        requires
            pixels@.len() == width * height,
            include_colors ==> first_seen(pixels@, pixels@.len() as int).len() <= MAX_COLORS,
        ensures
            r is Ok <==> (width <= i32::MAX && height <= i32::MAX && width * height <= usize::MAX),
            r is Err ==> final(colors)@ == (if include_colors { Seq::<Rgb24>::empty() } else { old(colors)@ }),
            r matches Ok(img) ==> {
                &&& img.wf()
                &&& img@.width == width
                &&& img@.height == height
                &&& img@.palette == identity_palette()
                &&& img@.clip == (0int, 0int, width as int, height as int)
                &&& img@.camera == (0int, 0int)
                &&& if include_colors {
                    &&& final(colors)@ == first_seen(pixels@, pixels@.len() as int)
                    &&& forall|k: int| 0 <= k < pixels@.len() ==> first_index_of(final(colors)@, #[trigger] img@.data[k] as int, pixel_rgb(pixels@[k]))
                } else {
                    &&& final(colors)@ == old(colors)@
                    &&& forall|k: int| 0 <= k < pixels@.len() ==> #[trigger] img@.data[k] == nearest_color(old(colors)@, pixels@[k]) as u8
                }
            },
    {
        if include_colors {
            colors.clear();
        }
        let mut img = match Self::try_new(width, height) {
            Ok(img) => img,
            Err(e) => {
                return Err(e);
            },
        };
        let ghost c0 = old(colors)@;
        let n = pixels.len();
        let mut k: usize = 0;
        while k < n
            invariant
                img.wf(),
                img@.width == width,
                img@.height == height,
                img@.palette == identity_palette(),
                img@.clip == (0int, 0int, width as int, height as int),
                img@.camera == (0int, 0int),
                n == pixels@.len() == img@.data.len(),
                k <= n,
                include_colors ==> colors@ == first_seen(pixels@, k as int),
                include_colors ==> first_seen(pixels@, pixels@.len() as int).len() <= MAX_COLORS,
                !include_colors ==> colors@ == c0,
                include_colors ==> forall|m: int| 0 <= m < k ==> first_index_of(colors@, #[trigger] img@.data[m] as int, pixel_rgb(pixels@[m])),
                !include_colors ==> forall|m: int| 0 <= m < k ==> #[trigger] img@.data[m] == nearest_color(c0, pixels@[m]) as u8,
            decreases n - k,
        {
            let p = pixels[k];
            let value: Color = if include_colors {
                let rgb = pack_rgb(p);
                match find_color(colors, rgb) {
                    Some(i) => {
                        assert(i < MAX_COLORS) by {
                            lemma_first_seen_grows(pixels@, k as int, pixels@.len() as int);
                        }
                        i as Color
                    },
                    None => {
                        proof {
                            assert(first_seen(pixels@, k + 1) == colors@.push(rgb));
                            lemma_first_seen_grows(pixels@, k + 1, pixels@.len() as int);
                        }
                        let i = colors.len();
                        colors.push(rgb);
                        i as Color
                    },
                }
            } else {
                let i = nearest_index(colors, p);
                #[verifier::truncate]
                (i as Color)
            };
            let ghost before = img@.data;
            img.data.set(k, value);
            proof {
                if include_colors {
                    assert(first_seen(pixels@, k + 1) == colors@);
                    assert forall|m: int| 0 <= m < k + 1 implies first_index_of(colors@, #[trigger] img@.data[m] as int, pixel_rgb(pixels@[m])) by {
                        if m < k {
                            assert(img@.data[m] == before[m]);
                            lemma_first_seen_prefix(pixels@, k as int, k + 1, before[m] as int);
                        }
                    }
                }
            }
            k = k + 1;
        }
        Ok(img)
    }
}

proof fn lemma_first_seen_grows(pixels: Seq<(u8, u8, u8)>, a: int, b: int)
    requires
        0 <= a <= b <= pixels.len(),
    ensures
        first_seen(pixels, a).len() <= first_seen(pixels, b).len(),
    decreases b - a,
{
    if a < b {
        lemma_first_seen_grows(pixels, a, b - 1);
    }
}

proof fn lemma_first_seen_prefix(pixels: Seq<(u8, u8, u8)>, a: int, b: int, i: int)
    requires
        0 <= a <= b <= pixels.len(),
        0 <= i < first_seen(pixels, a).len(),
    ensures
        first_seen(pixels, b)[i] == first_seen(pixels, a)[i],
        first_seen(pixels, a).len() <= first_seen(pixels, b).len(),
    decreases b - a,
{
    lemma_first_seen_grows(pixels, a, b);
    if a < b {
        lemma_first_seen_prefix(pixels, a, b - 1, i);
        lemma_first_seen_grows(pixels, a, b - 1);
    }
}

/// An image's own colors are listed once each.
pub proof fn lemma_first_seen_distinct(pixels: Seq<(u8, u8, u8)>, k: int)
    requires
        0 <= k <= pixels.len(),
    ensures
        forall|i: int, j: int| 0 <= i < j < first_seen(pixels, k).len() ==> first_seen(pixels, k)[i] != first_seen(pixels, k)[j],
    decreases k,
{
    if k > 0 {
        lemma_first_seen_distinct(pixels, k - 1);
        let seen = first_seen(pixels, k - 1);
        let c = pixel_rgb(pixels[k - 1]);
        if !seen.contains(c) {
            assert forall|i: int, j: int| 0 <= i < j < seen.push(c).len() implies seen.push(c)[i] != seen.push(c)[j] by {
                if j == seen.len() {
                    assert(seen.push(c)[i] == seen[i]);
                    if seen[i] == c {
                        assert(seen.contains(c));
                    }
                }
            }
        }
    }
}

/// Scanning the palette from `k` keeps the first color at the least distance.
proof fn lemma_nearest_scan(colors: Seq<Rgb24>, p: (u8, u8, u8), k: int, best: int, best_dist: int)
    requires
        0 <= k <= colors.len(),
        0 <= best < colors.len() || (k == 0 && best == 0),
        k == 0 ==> best_dist == 0x1_0000_0000,
        k > 0 ==> best_dist == (p.0 - red(colors[best])) * (p.0 - red(colors[best]))
            + (p.1 - green(colors[best])) * (p.1 - green(colors[best]))
            + (p.2 - blue(colors[best])) * (p.2 - blue(colors[best])),
        k > 0 ==> best < k,
        forall|j: int| 0 <= j < k ==> best_dist <= #[trigger] color_dist(p, colors[j]),
        forall|j: int| 0 <= j < best ==> best_dist < #[trigger] color_dist(p, colors[j]),
    ensures
        ({
            let n = nearest_from(colors, p, k, best, best_dist);
            &&& colors.len() > 0 ==> 0 <= n < colors.len()
            &&& forall|j: int| 0 <= j < colors.len() ==> #[trigger] color_dist(p, colors[n]) <= color_dist(p, colors[j])
            &&& forall|j: int| 0 <= j < n ==> #[trigger] color_dist(p, colors[n]) < color_dist(p, colors[j])
        }),
    decreases colors.len() - k,
{
    if k < colors.len() {
        let d = color_dist(p, colors[k]);
        lemma_color_dist_bound(p, colors[k]);
        if d < best_dist {
            lemma_nearest_scan(colors, p, k + 1, k, d);
        } else {
            lemma_nearest_scan(colors, p, k + 1, best, best_dist);
        }
    } else if k > 0 {
        assert(color_dist(p, colors[best]) == best_dist);
    }
}

/// The distance is a sum of three squares: zero exactly for the same red, green and blue.
proof fn lemma_color_dist_bound(p: (u8, u8, u8), c: Rgb24)
    ensures
        0 <= color_dist(p, c) < 0x1_0000_0000,
        color_dist(p, c) == 0 <==> (red(c) == p.0 && green(c) == p.1 && blue(c) == p.2),
{
    let dr = p.0 - red(c);
    let dg = p.1 - green(c);
    let db = p.2 - blue(c);
    assert(0 <= red(c) < 256 && 0 <= green(c) < 256 && 0 <= blue(c) < 256);
    assert(0 <= dr * dr <= 65025 && 0 <= dg * dg <= 65025 && 0 <= db * db <= 65025) by (nonlinear_arith)
        requires -255 <= dr <= 255, -255 <= dg <= 255, -255 <= db <= 255;
    assert(dr * dr + dg * dg + db * db == 0 ==> dr == 0 && dg == 0 && db == 0) by (nonlinear_arith)
        requires 0 <= dr * dr, 0 <= dg * dg, 0 <= db * db;
    if dr == 0 && dg == 0 && db == 0 {
        assert(dr * dr + dg * dg + db * db == 0) by (nonlinear_arith) requires dr == 0, dg == 0, db == 0;
    }
}

/// Each pixel of a picture takes the first palette color at the least squared distance
/// over red, green and blue: no palette color is nearer, and every earlier one is farther.
pub proof fn lemma_nearest_color_is_closest(colors: Seq<Rgb24>, p: (u8, u8, u8))
    requires
        colors.len() > 0,
    ensures
        0 <= nearest_color(colors, p) < colors.len(),
        forall|j: int| 0 <= j < colors.len() ==> {
            let n = colors[nearest_color(colors, p)];
            let c = #[trigger] colors[j];
            (p.0 - red(n)) * (p.0 - red(n)) + (p.1 - green(n)) * (p.1 - green(n)) + (p.2 - blue(n)) * (p.2 - blue(n))
                <= (p.0 - red(c)) * (p.0 - red(c)) + (p.1 - green(c)) * (p.1 - green(c)) + (p.2 - blue(c)) * (p.2 - blue(c))
        },
        forall|j: int| 0 <= j < nearest_color(colors, p) ==> {
            let n = colors[nearest_color(colors, p)];
            let c = #[trigger] colors[j];
            (p.0 - red(n)) * (p.0 - red(n)) + (p.1 - green(n)) * (p.1 - green(n)) + (p.2 - blue(n)) * (p.2 - blue(n))
                < (p.0 - red(c)) * (p.0 - red(c)) + (p.1 - green(c)) * (p.1 - green(c)) + (p.2 - blue(c)) * (p.2 - blue(c))
        },
{
    lemma_nearest_scan(colors, p, 0, 0, 0x1_0000_0000);
    let n = nearest_color(colors, p);
    assert forall|j: int| 0 <= j < colors.len() implies {
        let nn = colors[n];
        let c = #[trigger] colors[j];
        (p.0 - red(nn)) * (p.0 - red(nn)) + (p.1 - green(nn)) * (p.1 - green(nn)) + (p.2 - blue(nn)) * (p.2 - blue(nn))
            <= (p.0 - red(c)) * (p.0 - red(c)) + (p.1 - green(c)) * (p.1 - green(c)) + (p.2 - blue(c)) * (p.2 - blue(c))
    } by {
        assert(color_dist(p, colors[n]) <= color_dist(p, colors[j]));
    }
    assert forall|j: int| 0 <= j < n implies {
        let nn = colors[n];
        let c = #[trigger] colors[j];
        (p.0 - red(nn)) * (p.0 - red(nn)) + (p.1 - green(nn)) * (p.1 - green(nn)) + (p.2 - blue(nn)) * (p.2 - blue(nn))
            < (p.0 - red(c)) * (p.0 - red(c)) + (p.1 - green(c)) * (p.1 - green(c)) + (p.2 - blue(c)) * (p.2 - blue(c))
    } by {
        assert(color_dist(p, colors[n]) < color_dist(p, colors[j]));
    }
}

/// A pixel whose red, green and blue equal a palette color takes the first index of
/// that color.
pub proof fn lemma_exact_color_is_kept(colors: Seq<Rgb24>, p: (u8, u8, u8), i: int)
    requires
        0 <= i < colors.len(),
        red(colors[i]) == p.0 && green(colors[i]) == p.1 && blue(colors[i]) == p.2,
        forall|j: int| 0 <= j < i ==> !(red(#[trigger] colors[j]) == p.0 && green(colors[j]) == p.1 && blue(colors[j]) == p.2),
    ensures
        nearest_color(colors, p) == i,
{
    lemma_nearest_scan(colors, p, 0, 0, 0x1_0000_0000);
    let n = nearest_color(colors, p);
    lemma_color_dist_bound(p, colors[i]);
    lemma_color_dist_bound(p, colors[n]);
    assert(color_dist(p, colors[n]) <= color_dist(p, colors[i]));
    if n < i {
        assert(!(red(colors[n]) == p.0 && green(colors[n]) == p.1 && blue(colors[n]) == p.2));
    }
    if n > i {
        assert(color_dist(p, colors[n]) < color_dist(p, colors[i]));
    }
}

/// The grid is read row by row: pixel `(dx, dy)` of cell `(cx, cy)` of the picture is
/// pixel `(dx, dy)` of the source cell that tile `cy * width + cx` names.
pub proof fn lemma_tile_grid_is_row_major(tiles: Seq<Tile>, tw: int, th: int, source: ImageView, cx: int, cy: int, dx: int, dy: int)
    requires
        0 <= cx < tw,
        0 <= cy < th,
        0 <= dx < 8,
        0 <= dy < 8,
    ensures
        ({
            let t = tiles[cy * tw + cx];
            let ix = t.0 * 8 + dx;
            let iy = t.1 * 8 + dy;
            tilemap_pixel(tiles, tw, th, source, 8 * cx + dx, 8 * cy + dy) == if ix < source.width && iy < source.height {
                Some(source.data[iy * (source.width as int) + ix])
            } else {
                None::<Color>
            }
        }),
{
    let sx = 8 * cx + dx;
    let sy = 8 * cy + dy;
    vstd::arithmetic::div_mod::lemma_fundamental_div_mod_converse(sx, 8, cx, dx);
    vstd::arithmetic::div_mod::lemma_fundamental_div_mod_converse(sy, 8, cy, dy);
    assert(0 <= sx < tw * 8 && 0 <= sy < th * 8) by (nonlinear_arith)
        requires 0 <= cx < tw, 0 <= cy < th, 0 <= dx < 8, 0 <= dy < 8, sx == 8 * cx + dx, sy == 8 * cy + dy;
}

/// The tile that old tilemap data writes from group `x` of line `y` is the tile drawn in
/// cell `(x, y)` of the picture.
pub proof fn lemma_drawn_tile_is_written_tile(
    tiles: Seq<Tile>, tw: int, th: int, y: int, version: u32, values: Seq<u32>,
    source: ImageView, x: int, dx: int, dy: int,
)
    requires
        tiles.len() == tw * th,
        0 <= y < th,
        0 <= x < values.len() <= tw,
        0 <= dx < 8,
        0 <= dy < 8,
    ensures
        ({
            let t = tile_of(version, values[x] as int);
            let ix = t.0 * 8 + dx;
            let iy = t.1 * 8 + dy;
            tilemap_pixel(write_tiles(tiles, tw, y, version, values), tw, th, source, 8 * x + dx, 8 * y + dy)
                == if ix < source.width && iy < source.height {
                    Some(source.data[iy * (source.width as int) + ix])
                } else {
                    None::<Color>
                }
        }),
{
    let written = write_tiles(tiles, tw, y, version, values);
    lemma_tile_grid_is_row_major(written, tw, th, source, x, y, dx, dy);
    lemma_flat_index(x, y, tw, th);
    assert(written[y * tw + x] == tile_of(version, values[x] as int));
}

} // verus!
