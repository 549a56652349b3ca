//! A raster layer: a grid of cells, each filled or empty.

use vstd::prelude::*;

verus! {

/// One binary raster slice of the solid.  `cells[x][y]` tells whether the
/// cell in column `x` and row `y` is filled.
#[derive(Clone, Debug, PartialEq, Eq)]
pub struct Layer {
    pub width: usize,
    pub height: usize,
    pub cells: Vec<Vec<bool>>,
}

impl Layer {
    /// The grid has `width` columns of `height` cells each.
    pub open spec fn wf(&self) -> bool {
        &&& self.cells@.len() == self.width
        &&& forall|x: int| 0 <= x < self.width ==> (#[trigger] self.cells@[x])@.len() == self.height
    }

    /// Whether the cell in column `x` and row `y` is filled.
    pub open spec fn filled(&self, x: int, y: int) -> bool {
        self.cells@[x]@[y]
    }

    /// A layer of the given size with every cell empty.
    pub fn new(width: usize, height: usize) -> (layer: Layer)
        ensures
            layer.wf(),
            layer.width == width,
            layer.height == height,
            forall|x: int, y: int| 0 <= x < width && 0 <= y < height ==> !layer.filled(x, y),
    {
        let mut cells: Vec<Vec<bool>> = Vec::new();
        let mut x: usize = 0;
        while x < width
            invariant
                x <= width,
                cells@.len() == x,
                forall|c: int| 0 <= c < x ==> (#[trigger] cells@[c])@.len() == height,
                forall|c: int, r: int|
                    0 <= c < x && 0 <= r < height ==> !(#[trigger] cells@[c]@[r]),
            decreases width - x,
        {
            let mut column: Vec<bool> = Vec::new();
            let mut y: usize = 0;
            while y < height
                invariant
                    y <= height,
                    column@.len() == y,
                    forall|r: int| 0 <= r < y ==> !(#[trigger] column@[r]),
                decreases height - y,
            {
                column.push(false);
                y += 1;
            }
            cells.push(column);
            x += 1;
        }
        Layer { width, height, cells }
    }

    /// Reads one cell.
    pub fn get(&self, x: usize, y: usize) -> (b: bool)
        requires
            self.wf(),
            x < self.width,
            y < self.height,
        ensures
            b == self.filled(x as int, y as int),
    {
        self.cells[x][y]
    }

    /// Fills the cells of column `x` in the rows from `from` up to, but not
    /// including, `to`.
    pub fn fill_rows(&mut self, x: usize, from: usize, to: usize)
        requires
            old(self).wf(),
            x < old(self).width,
            from <= to <= old(self).height,
        ensures
            final(self).wf(),
            final(self).width == old(self).width,
            final(self).height == old(self).height,
            forall|c: int, r: int|
                0 <= c < final(self).width && 0 <= r < final(self).height ==> final(self).filled(
                    c,
                    r,
                ) == (old(self).filled(c, r) || (c == x && from <= r < to)),
    {
        let mut y: usize = from;
        while y < to
            invariant
                from <= y <= to <= self.height,
                x < self.width,
                self.wf(),
                self.width == old(self).width,
                self.height == old(self).height,
                forall|c: int, r: int|
                    0 <= c < self.width && 0 <= r < self.height ==> self.filled(c, r) == (old(
                        self,
                    ).filled(c, r) || (c == x && from <= r < y)),
            decreases to - y,
        {
            self.cells[x][y] = true;
            y += 1;
        }
    }
}

} // verus!
