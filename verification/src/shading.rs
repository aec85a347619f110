use vstd::prelude::*;

use crate::color::Rgb24;

verus! {

/// Number of shade levels of a color, darkest first.
pub const LEVEL_COUNT: usize = 8;

/// The level that shows the color itself.
pub const BASE_LEVEL: usize = 5;

/// A shade: two palette indices drawn as a 50:50 checker (equal for a flat color).
pub type Entry = (i32, i32);

/// Whether `s` is the first index of the palette that holds its color.
pub open spec fn is_first(palette: Seq<Rgb24>, s: int) -> bool {
    forall|j: int| 0 <= j < s ==> palette[j] != palette[s]
}

/// The first index at or after `j` whose color is `c` (the length when there is none).
pub open spec fn first_from(palette: Seq<Rgb24>, c: Rgb24, j: int) -> int
    decreases palette.len() - j,
{
    if j < 0 || j >= palette.len() {
        palette.len() as int
    } else if palette[j] == c {
        j
    } else {
        first_from(palette, c, j + 1)
    }
}

/// The first index of the palette with the color of index `s`.
pub open spec fn canonical(palette: Seq<Rgb24>, s: int) -> int {
    first_from(palette, palette[s], 0)
}

/// An index of a shade, kept, or replaced by `s` when it shows the same color as `s`.
pub open spec fn keep_source(palette: Seq<Rgb24>, s: int, i: i32) -> i32 {
    if palette[i as int] == palette[s] {
        s as i32
    } else {
        i
    }
}

/// The row of `s`: the planned row of its first index, each index of the same color
/// as `s` replaced by `s`.
pub open spec fn shared_row(palette: Seq<Rgb24>, planned: Seq<[Entry; LEVEL_COUNT]>, s: int) -> Seq<Entry> {
    let row = planned[canonical(palette, s)]@;
    Seq::new(LEVEL_COUNT as nat, |l: int| (keep_source(palette, s, row[l].0), keep_source(palette, s, row[l].1)))
}

/// The plan shows each first index of a color as itself on the base level.
pub open spec fn base_kept(palette: Seq<Rgb24>, planned: Seq<[Entry; LEVEL_COUNT]>) -> bool {
    forall|s: int| 0 <= s < palette.len() && is_first(palette, s)
        ==> #[trigger] planned[s]@[BASE_LEVEL as int] == (s as i32, s as i32)
}

/// Every index of every planned shade is an index of the palette.
pub open spec fn rows_in_palette(rows: Seq<[Entry; LEVEL_COUNT]>, n: int) -> bool {
    forall|s: int, l: int| 0 <= s < rows.len() && 0 <= l < LEVEL_COUNT ==> {
        &&& 0 <= (#[trigger] rows[s]@[l]).0 < n
        &&& 0 <= rows[s]@[l].1 < n
    }
}

proof fn lemma_first_from(palette: Seq<Rgb24>, c: Rgb24, j: int, k: int)
    requires
        0 <= j <= k < palette.len(),
        palette[k] == c,
        forall|m: int| j <= m < k ==> palette[m] != c,
    ensures
        first_from(palette, c, j) == k,
    decreases k - j,
{
    if j < k {
        lemma_first_from(palette, c, j + 1, k);
    }
}

/// The first index of the palette with the color of index `s`.
fn canonical_index(palette: &Vec<Rgb24>, s: usize) -> (r: usize)
    requires
        s < palette@.len(),
    ensures
        r == canonical(palette@, s as int),
        r <= s,
        palette@[r as int] == palette@[s as int],
        is_first(palette@, r as int),
{
    let mut j: usize = 0;
    while palette[j] != palette[s]
        invariant
            j <= s < palette@.len(),
            forall|m: int| 0 <= m < j ==> palette@[m] != palette@[s as int],
        decreases s - j,
    {
        j = j + 1;
    }
    proof {
        lemma_first_from(palette@, palette@[s as int], 0, j as int);
    }
    j
}

/// Palette indices ordered by color, one for each color: the first index holding it.
pub fn unique_sources(palette: &Vec<Rgb24>) -> (r: Vec<usize>)
    ensures
        forall|a: int, b: int| 0 <= a < b < r@.len() ==> palette@[r@[a] as int] < palette@[r@[b] as int],
        forall|a: int| 0 <= a < r@.len() ==> (#[trigger] r@[a]) < palette@.len() && is_first(palette@, r@[a] as int),
        forall|s: int| 0 <= s < palette@.len() && is_first(palette@, s) ==> r@.contains(s as usize),
{
    let mut r: Vec<usize> = Vec::new();
    let mut i: usize = 0;
    while i < palette.len()
        invariant
            i <= palette@.len(),
            forall|a: int, b: int| 0 <= a < b < r@.len() ==> palette@[r@[a] as int] < palette@[r@[b] as int],
            forall|a: int| 0 <= a < r@.len() ==> (#[trigger] r@[a]) < i && is_first(palette@, r@[a] as int),
            forall|s: int| 0 <= s < i && is_first(palette@, s) ==> r@.contains(s as usize),
        decreases palette@.len() - i,
    {
        let c = canonical_index(palette, i);
        if c == i {
            let color = palette[i];
            let mut p: usize = 0;
            while p < r.len() && palette[r[p]] < color
                invariant
                    p <= r@.len(),
                    forall|a: int| 0 <= a < r@.len() ==> (#[trigger] r@[a]) < i,
                    forall|a: int| 0 <= a < p ==> palette@[r@[a] as int] < color,
                    i < palette@.len(),
                    color == palette@[i as int],
                decreases r@.len() - p,
            {
                p = p + 1;
            }
            let ghost old_r = r@;
            assert forall|a: int| 0 <= a < old_r.len() implies palette@[old_r[a] as int] != color by {
                assert(old_r[a] < i);
            }
            r.insert(p, i);
            assert(r@ == old_r.insert(p as int, i));
            assert forall|a: int, b: int| 0 <= a < b < r@.len() implies palette@[r@[a] as int] < palette@[r@[b] as int] by {
                if b < p {
                } else if b == p {
                } else if a < p {
                    assert(r@[b] == old_r[b - 1]);
                    if p < old_r.len() {
                        assert(palette@[old_r[p as int] as int] >= color);
                        if b - 1 > p {
                            assert(palette@[old_r[p as int] as int] < palette@[old_r[b - 1] as int]);
                        }
                    }
                } else if a == p {
                    assert(r@[b] == old_r[b - 1]);
                    assert(palette@[old_r[p as int] as int] >= color);
                    if b - 1 > p {
                        assert(palette@[old_r[p as int] as int] < palette@[old_r[b - 1] as int]);
                    }
                } else {
                    assert(r@[a] == old_r[a - 1]);
                    assert(r@[b] == old_r[b - 1]);
                }
            }
            assert forall|a: int| 0 <= a < r@.len() implies (#[trigger] r@[a]) < i + 1 && is_first(palette@, r@[a] as int) by {
                if a < p {
                    assert(r@[a] == old_r[a]);
                } else if a > p {
                    assert(r@[a] == old_r[a - 1]);
                }
            }
            assert forall|s: int| 0 <= s < i + 1 && is_first(palette@, s) implies r@.contains(s as usize) by {
                if s == i {
                    assert(r@[p as int] == i);
                } else {
                    assert(old_r.contains(s as usize));
                    let a = choose|a: int| 0 <= a < old_r.len() && old_r[a] == s as usize;
                    if a < p {
                        assert(r@[a] == old_r[a]);
                    } else {
                        assert(r@[a + 1] == old_r[a]);
                    }
                }
            }
        } else {
            assert(!is_first(palette@, i as int));
        }
        i = i + 1;
    }
    r
}

/// The table of every palette index from the planned rows of the first indices: an
/// index takes the row of the first index with its color, each index of its own color
/// replaced by itself.
pub fn share_rows(palette: &Vec<Rgb24>, planned: &Vec<[Entry; LEVEL_COUNT]>) -> (r: Vec<[Entry; LEVEL_COUNT]>)
    requires
        palette@.len() <= i32::MAX,
        planned@.len() == palette@.len(),
        rows_in_palette(planned@, palette@.len() as int),
    ensures
        r@.len() == palette@.len(),
        forall|s: int| 0 <= s < r@.len() ==> (#[trigger] r@[s])@ == shared_row(palette@, planned@, s),
        rows_in_palette(r@, palette@.len() as int),
{
    let mut r: Vec<[Entry; LEVEL_COUNT]> = Vec::new();
    let mut s: usize = 0;
    while s < palette.len()
        invariant
            s <= palette@.len() <= i32::MAX,
            planned@.len() == palette@.len(),
            rows_in_palette(planned@, palette@.len() as int),
            r@.len() == s,
            forall|t: int| 0 <= t < s ==> (#[trigger] r@[t])@ == shared_row(palette@, planned@, t),
            rows_in_palette(r@, palette@.len() as int),
        decreases palette@.len() - s,
    {
        let c = canonical_index(palette, s);
        let source = planned[c];
        let mut row: [Entry; LEVEL_COUNT] = [(0, 0); LEVEL_COUNT];
        let mut l: usize = 0;
        while l < LEVEL_COUNT
            invariant
                l <= LEVEL_COUNT,
                s < palette@.len() <= i32::MAX,
                c < palette@.len(),
                c == canonical(palette@, s as int),
                source == planned@[c as int],
                rows_in_palette(planned@, palette@.len() as int),
                planned@.len() == palette@.len(),
                forall|m: int| 0 <= m < l ==> (#[trigger] row@[m]) == (keep_source(palette@, s as int, source@[m].0),
                    keep_source(palette@, s as int, source@[m].1)),
                forall|m: int| 0 <= m < LEVEL_COUNT ==> 0 <= (#[trigger] row@[m]).0 < palette@.len() && 0 <= row@[m].1 < palette@.len(),
            decreases LEVEL_COUNT - l,
        {
            let (p, q) = source[l];
            assert(source@[l as int] == planned@[c as int]@[l as int]);
            let kp = if palette[p as usize] == palette[s] { s as i32 } else { p };
            let kq = if palette[q as usize] == palette[s] { s as i32 } else { q };
            row[l] = (kp, kq);
            l = l + 1;
        }
        r.push(row);
        assert((r@[s as int])@ =~= shared_row(palette@, planned@, s as int));
        s = s + 1;
    }
    r
}

/// Shade table of a palette: for each color and level, the flat color or checker pair
/// that draws it.
pub struct Shading {
    data: Vec<[Entry; LEVEL_COUNT]>,
}

impl View for Shading {
    type V = Seq<[Entry; LEVEL_COUNT]>;

    closed spec fn view(&self) -> Seq<[Entry; LEVEL_COUNT]> {
        self.data@
    }
}

impl Shading {
    /// The table of `palette` from the rows planned for its first indices (see `share_rows`).
    pub fn new(palette: &Vec<Rgb24>, planned: &Vec<[Entry; LEVEL_COUNT]>) -> (r: Shading)
        requires
            palette@.len() <= i32::MAX,
            planned@.len() == palette@.len(),
            rows_in_palette(planned@, palette@.len() as int),
            base_kept(palette@, planned@),
        ensures
            r@.len() == palette@.len(),
            forall|s: int| 0 <= s < r@.len() ==> (#[trigger] r@[s])@ == shared_row(palette@, planned@, s),
            forall|s: int| 0 <= s < r@.len() ==> (#[trigger] r@[s])@[BASE_LEVEL as int] == (s as i32, s as i32),
    {
        let data = share_rows(palette, planned);
        proof {
            assert forall|s: int| 0 <= s < data@.len() implies (#[trigger] data@[s])@[BASE_LEVEL as int] == (s as i32, s as i32) by {
                lemma_kept_base(palette@, planned@, s);
            }
        }
        Shading { data }
    }

    /// Replaces the whole table, manual edits included, with that of `palette`.
    pub fn build(&mut self, palette: &Vec<Rgb24>, planned: &Vec<[Entry; LEVEL_COUNT]>)
        requires
            palette@.len() <= i32::MAX,
            planned@.len() == palette@.len(),
            rows_in_palette(planned@, palette@.len() as int),
            base_kept(palette@, planned@),
        ensures
            final(self)@.len() == palette@.len(),
            forall|s: int| 0 <= s < final(self)@.len() ==> (#[trigger] final(self)@[s])@ == shared_row(palette@, planned@, s),
            forall|s: int| 0 <= s < final(self)@.len() ==> (#[trigger] final(self)@[s])@[BASE_LEVEL as int] == (s as i32, s as i32),
    {
        let data = share_rows(palette, planned);
        proof {
            assert forall|s: int| 0 <= s < data@.len() implies (#[trigger] data@[s])@[BASE_LEVEL as int] == (s as i32, s as i32) by {
                lemma_kept_base(palette@, planned@, s);
            }
        }
        self.data = data;
    }

    /// The shade of color `col` at `level`.
    pub fn get(&self, col: usize, level: usize) -> (r: Entry)
        requires
            col < self@.len(),
            level < LEVEL_COUNT,
        ensures
            r == self@[col as int]@[level as int],
    {
        self.data[col][level]
    }

    /// Sets the shade of color `col` at `level`.
    pub fn set(&mut self, col: usize, level: usize, value: Entry)
        requires
            col < old(self)@.len(),
            level < LEVEL_COUNT,
        ensures
            final(self)@.len() == old(self)@.len(),
            forall|c: int| 0 <= c < final(self)@.len() && c != col ==> final(self)@[c] == old(self)@[c],
            final(self)@[col as int]@ == old(self)@[col as int]@.update(level as int, value),
    {
        let mut row = self.data[col];
        row[level] = value;
        self.data.set(col, row);
    }

    /// Number of palette colors in the table.
    pub fn palette_size(&self) -> (r: usize)
        ensures
            r == self@.len(),
    {
        self.data.len()
    }
}

proof fn lemma_first_from_found(palette: Seq<Rgb24>, j: int, s: int)
    requires
        0 <= j <= s < palette.len(),
    ensures
        j <= first_from(palette, palette[s], j) <= s,
        palette[first_from(palette, palette[s], j)] == palette[s],
    decreases s - j,
{
    if palette[j] != palette[s] {
        lemma_first_from_found(palette, j + 1, s);
    }
}

/// The first index of a color is at or before every index holding it, and holds it.
pub proof fn lemma_canonical(palette: Seq<Rgb24>, s: int)
    requires
        0 <= s < palette.len(),
    ensures
        0 <= canonical(palette, s) <= s,
        palette[canonical(palette, s)] == palette[s],
{
    lemma_first_from_found(palette, 0, s);
}

/// Where the plan keeps a first index at its own color on the base level, every index
/// of the palette, duplicates included, shows itself on the base level.
pub proof fn lemma_base_level_keeps_own_index(palette: Seq<Rgb24>, planned: Seq<[Entry; LEVEL_COUNT]>, s: int)
    requires
        0 <= s < palette.len() <= i32::MAX,
        planned.len() == palette.len(),
        rows_in_palette(planned, palette.len() as int),
        planned[canonical(palette, s)]@[BASE_LEVEL as int] == (canonical(palette, s) as i32, canonical(palette, s) as i32),
    ensures
        shared_row(palette, planned, s)[BASE_LEVEL as int] == (s as i32, s as i32),
{
    lemma_canonical(palette, s);
}

/// No index before the first one found from `j` holds the color.
proof fn lemma_first_from_skips(palette: Seq<Rgb24>, c: Rgb24, j: int, m: int)
    requires
        0 <= j <= m < first_from(palette, c, j),
        m < palette.len(),
    ensures
        palette[m] != c,
    decreases palette.len() - j,
{
    if palette[j] != c && m > j {
        lemma_first_from_skips(palette, c, j + 1, m);
    }
}

/// The first index of a color is the first index that holds it.
proof fn lemma_first_is_first(palette: Seq<Rgb24>, s: int)
    requires
        0 <= s < palette.len(),
    ensures
        is_first(palette, canonical(palette, s)),
{
    lemma_canonical(palette, s);
    let c = canonical(palette, s);
    assert forall|j: int| 0 <= j < c implies palette[j] != palette[c] by {
        lemma_first_from_skips(palette, palette[s], 0, j);
    }
}

/// Where the plan keeps each first index on the base level, every index keeps itself there.
proof fn lemma_kept_base(palette: Seq<Rgb24>, planned: Seq<[Entry; LEVEL_COUNT]>, s: int)
    requires
        0 <= s < palette.len() <= i32::MAX,
        planned.len() == palette.len(),
        rows_in_palette(planned, palette.len() as int),
        base_kept(palette, planned),
    ensures
        shared_row(palette, planned, s)[BASE_LEVEL as int] == (s as i32, s as i32),
{
    lemma_canonical(palette, s);
    let c = canonical(palette, s);
    assert(is_first(palette, c)) by {
        lemma_first_is_first(palette, s);
    }
    lemma_base_level_keeps_own_index(palette, planned, s);
}

/// Two indices of the same color get rows that draw the same colors.
pub proof fn lemma_duplicates_share_colors(palette: Seq<Rgb24>, planned: Seq<[Entry; LEVEL_COUNT]>, s: int, t: int, l: int)
    requires
        0 <= s < palette.len() <= i32::MAX,
        0 <= t < palette.len(),
        palette[s] == palette[t],
        0 <= l < LEVEL_COUNT,
        planned.len() == palette.len(),
        rows_in_palette(planned, palette.len() as int),
    ensures
        palette[shared_row(palette, planned, s)[l].0 as int] == palette[shared_row(palette, planned, t)[l].0 as int],
        palette[shared_row(palette, planned, s)[l].1 as int] == palette[shared_row(palette, planned, t)[l].1 as int],
{
    lemma_canonical(palette, s);
    lemma_canonical(palette, t);
    let c = canonical(palette, s);
    assert(canonical(palette, t) == c);
    assert(0 <= planned[c]@[l].0 < palette.len());
}

} // verus!
