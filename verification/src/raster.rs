use vstd::prelude::*;

verus! {

/// An inclusive rectangle of pixels.
#[derive(Clone, Copy, PartialEq, Eq, Structural, Debug)]
pub struct ClipRect {
    pub left: i32,
    pub top: i32,
    pub right: i32,
    pub bottom: i32,
}

impl ClipRect {
    pub open spec fn spec_contains(&self, x: int, y: int) -> bool {
        self.left <= x <= self.right && self.top <= y <= self.bottom
    }

    pub fn contains(&self, x: i32, y: i32) -> (r: bool)
        ensures
            r == self.spec_contains(x as int, y as int),
    {
        x >= self.left && x <= self.right && y >= self.top && y <= self.bottom
    }
}

/// The palette index a shading cell gives at pixel `(x, y)`: one color, or a 2x2 checker
/// of two colors with `primary` where `x + y` is even.
pub open spec fn spec_dither_pick(primary: i32, secondary: i32, x: int, y: int) -> u8 {
    if primary == secondary || (x + y) % 2 == 0 {
        primary as u8
    } else {
        secondary as u8
    }
}

pub fn dither_pick(primary: i32, secondary: i32, x: i32, y: i32) -> (r: u8)
    requires
        primary != secondary ==> i32::MIN <= x + y <= i32::MAX,
    ensures
        r == spec_dither_pick(primary, secondary, x as int, y as int),
{
    if primary == secondary {
        return primary as u8;
    }
    let s = x + y;
    let m = s % 2;
    if m == 0 {
        primary as u8
    } else {
        secondary as u8
    }
}

pub open spec fn abs(v: int) -> int {
    if v < 0 {
        -v
    } else {
        v
    }
}

/// Offsets from `center` to the span `min..=max`: the nearest (0 when the span holds the
/// center) and the farthest.
pub open spec fn spec_circle_axis_range(center: int, min: int, max: int) -> (int, int) {
    let lo = min - center;
    let hi = max - center;
    let nearest = if lo <= 0 && hi >= 0 {
        0
    } else if abs(lo) <= abs(hi) {
        abs(lo)
    } else {
        abs(hi)
    };
    (nearest, if abs(lo) >= abs(hi) { abs(lo) } else { abs(hi) })
}

pub fn circle_axis_range(center: i32, min: i32, max: i32) -> (r: (i64, i64))
    ensures
        (r.0 as int, r.1 as int) == spec_circle_axis_range(center as int, min as int, max as int),
{
    let lo = min as i64 - center as i64;
    let hi = max as i64 - center as i64;
    let alo = if lo < 0 { -lo } else { lo };
    let ahi = if hi < 0 { -hi } else { hi };
    let nearest = if lo <= 0 && hi >= 0 {
        0
    } else if alo <= ahi {
        alo
    } else {
        ahi
    };
    (nearest, if alo >= ahi { alo } else { ahi })
}

/// An empty range of offsets.
pub open spec fn empty_range() -> (int, int) {
    (1, 0)
}

pub open spec fn in_range(r: (int, int), k: int) -> bool {
    r.0 <= k <= r.1
}

/// The two ranges of offsets `k` (`0 <= k <= radius`) at which the symmetric pixels of a
/// circle at `(x, y)` can land inside `clip`: the ranges of the two axes cut at the radius,
/// ordered, and merged when they touch.
pub open spec fn spec_circle_scan_ranges(x: int, y: int, radius: int, clip: ClipRect) -> ((int, int), (int, int)) {
    if clip.left > clip.right || clip.top > clip.bottom {
        (empty_range(), empty_range())
    } else {
        let ax = spec_circle_axis_range(x, clip.left as int, clip.right as int);
        let ay = spec_circle_axis_range(y, clip.top as int, clip.bottom as int);
        let a = (ax.0, if ax.1 <= radius { ax.1 } else { radius });
        let b = (ay.0, if ay.1 <= radius { ay.1 } else { radius });
        let (r0, r1) = if a.0 > b.0 { (b, a) } else { (a, b) };
        if r1.0 <= r0.1 + 1 {
            ((r0.0, if r0.1 >= r1.1 { r0.1 } else { r1.1 }), empty_range())
        } else {
            (r0, r1)
        }
    }
}

pub fn circle_scan_ranges(x: i32, y: i32, radius: u32, clip: ClipRect) -> (r: [(i64, i64); 2])
    ensures
        ((r@[0].0 as int, r@[0].1 as int), (r@[1].0 as int, r@[1].1 as int)) == spec_circle_scan_ranges(
            x as int,
            y as int,
            radius as int,
            clip,
        ),
{
    if clip.left > clip.right || clip.top > clip.bottom {
        return [(1, 0), (1, 0)];
    }
    let mut a = circle_axis_range(x, clip.left, clip.right);
    let mut b = circle_axis_range(y, clip.top, clip.bottom);
    if a.1 > radius as i64 {
        a.1 = radius as i64;
    }
    if b.1 > radius as i64 {
        b.1 = radius as i64;
    }
    let (mut r0, mut r1) = if a.0 > b.0 { (b, a) } else { (a, b) };
    if r1.0 <= r0.1 + 1 {
        if r1.1 > r0.1 {
            r0.1 = r1.1;
        }
        r1 = (1, 0);
    }
    [r0, r1]
}

/// The scan covers exactly the offsets up to the radius that one of the two axes reaches,
/// in at most two disjoint, ordered ranges.
pub proof fn lemma_circle_scan_ranges_cover(x: int, y: int, radius: int, clip: ClipRect, k: int)
    requires
        clip.left <= clip.right,
        clip.top <= clip.bottom,
    ensures
        ({
            let (r0, r1) = spec_circle_scan_ranges(x, y, radius, clip);
            let ax = spec_circle_axis_range(x, clip.left as int, clip.right as int);
            let ay = spec_circle_axis_range(y, clip.top as int, clip.bottom as int);
            &&& (in_range(r0, k) || in_range(r1, k)) <==> (k <= radius && (in_range(ax, k) || in_range(ay, k)))
            &&& !(in_range(r0, k) && in_range(r1, k))
            &&& (r1.0 <= r1.1 ==> r0.1 + 1 < r1.0)
        }),
{
}

} // verus!
