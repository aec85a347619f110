use vstd::prelude::*;

verus! {

/// Brightness levels per palette color; the last one is the color itself.
pub const LEVEL_COUNT: usize = 16;

/// Color table: `data[col][level]` is the palette index that shows `col` at `level`.
pub struct Ramp {
    pub data: Vec<Vec<i32>>,
}

impl Ramp {
    pub open spec fn table(&self) -> Seq<Seq<i32>> {
        self.data@.map_values(|r: Vec<i32>| r@)
    }

    /// A table whose rows are the palette colors' rows of `LEVEL_COUNT` indices, as
    /// planned for the palette by nearest color.
    pub fn new(data: Vec<Vec<i32>>) -> (r: Self)
        requires
            forall|c: int| 0 <= c < data@.len() ==> (#[trigger] data@[c])@.len() == LEVEL_COUNT,
        ensures
            r.table() == data@.map_values(|row: Vec<i32>| row@),
    {
        Ramp { data }
    }

    /// Replaces the whole table, manual edits included.
    pub fn build(&mut self, data: Vec<Vec<i32>>)
        requires
            forall|c: int| 0 <= c < data@.len() ==> (#[trigger] data@[c])@.len() == LEVEL_COUNT,
        ensures
            final(self).table() == data@.map_values(|row: Vec<i32>| row@),
    {
        self.data = data;
    }

    pub fn get(&self, col: usize, level: usize) -> (r: i32)
        requires
            col < self.table().len(),
            level < self.table()[col as int].len(),
        ensures
            r == self.table()[col as int][level as int],
    {
        self.data[col][level]
    }

    pub fn set(&mut self, col: usize, level: usize, value: i32)
        requires
            col < old(self).table().len(),
            level < old(self).table()[col as int].len(),
        ensures
            final(self).table() == old(self).table().update(col as int, old(self).table()[col as int].update(level as int, value)),
    {
        let mut row = self.data[col].clone();
        row.set(level, value);
        self.data.set(col, row);
        assert(self.table() =~= old(self).table().update(col as int, old(self).table()[col as int].update(level as int, value)));
    }

    pub fn palette_size(&self) -> (r: usize)
        ensures
            r == self.table().len(),
    {
        self.data.len()
    }
}

} // verus!
