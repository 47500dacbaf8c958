use vstd::prelude::*;

verus! {

/// One dense row of grid cells.
pub type GridRow<T> = Vec<T>;

/// A dense 2-D container: rows of cells, all rows of equal width.
#[derive(Debug)]
pub struct Grid<T> {
    pub cells: Vec<GridRow<T>>,
    pub width: i64,
    pub height: i64,
}

impl<T> Grid<T> {
    /// The cached dimensions agree with the stored rows, and every row
    /// has the same width.
    pub open spec fn wf(self) -> bool {
        &&& self.height == self.cells.len()
        &&& 0 <= self.width
        &&& self.cells.len() == 0 ==> self.width == 0
        &&& forall|r: int| 0 <= r < self.cells.len() ==> #[trigger] self.cells[r].len() == self.width
    }

    pub fn new() -> (r: Grid<T>)
        ensures
            r.wf(),
            r.width == 0,
            r.height == 0,
            r.cells.len() == 0,
    {
        Grid { cells: Vec::new(), width: 0, height: 0 }
    }

    /// Wraps already-collected rows; every row must have the width of
    /// the first.
    pub fn from_cells(cells: Vec<GridRow<T>>) -> (r: Grid<T>)
        requires
            cells.len() <= i64::MAX,
            forall|i: int| 0 <= i < cells.len() ==> #[trigger] cells[i].len() == cells[0].len(),
            cells.len() > 0 ==> cells[0].len() <= i64::MAX,
        ensures
            r.wf(),
            r.cells == cells,
            r.height == cells.len(),
            r.width == (if cells.len() > 0 { cells[0].len() as int } else { 0 }),
    {
        let height = cells.len();
        let width: usize = if height > 0 { cells[0].len() } else { 0 };
        Grid { cells, width: width as i64, height: height as i64 }
    }

    /// Appends one row; after the first row, each new row must match
    /// the established width.
    pub fn push(&mut self, row: GridRow<T>)
        requires
            old(self).wf(),
            old(self).height < i64::MAX,
            row.len() <= i64::MAX,
            old(self).height != 0 ==> row.len() == old(self).width,
        ensures
            final(self).wf(),
            final(self).cells@ == old(self).cells@.push(row),
            final(self).height == old(self).height + 1,
            final(self).width == (if old(self).height == 0 { row.len() as int } else {
                old(self).width as int
            }),
    {
        if self.height == 0 {
            self.width = row.len() as i64;
        }
        self.cells.push(row);
        self.height = self.height + 1;
    }

    pub fn row_count(&self) -> (r: usize)
        requires
            self.wf(),
        ensures
            r == self.height,
    {
        self.cells.len()
    }

    pub fn col_count(&self) -> (r: usize)
        requires
            self.wf(),
        ensures
            r == self.width,
    {
        if self.cells.len() > 0 {
            proof {
                assert(self.cells[0].len() == self.width);
            }
            let first = &self.cells[0];
            first.len()
        } else {
            0
        }
    }

    pub fn width(&self) -> (r: i64)
        ensures
            r == self.width,
    {
        self.width
    }

    pub fn height(&self) -> (r: i64)
        ensures
            r == self.height,
    {
        self.height
    }

    /// The cell in the given row and column.
    pub fn at_rc(&self, row: usize, col: usize) -> (r: &T)
        requires
            self.wf(),
            row < self.height,
            col < self.width,
        ensures
            *r == self.cells[row as int][col as int],
    {
        proof {
            assert(self.cells[row as int].len() == self.width);
        }
        &self.cells[row][col]
    }

    /// Replaces the cell in the given row and column.
    pub fn set_rc(&mut self, row: usize, col: usize, value: T)
        requires
            old(self).wf(),
            row < old(self).height,
            col < old(self).width,
        ensures
            final(self).wf(),
            final(self).width == old(self).width,
            final(self).height == old(self).height,
            final(self).cells@ == old(self).cells@.update(row as int, final(self).cells[row as int]),
            final(self).cells[row as int]@ == old(self).cells[row as int]@.update(col as int, value),
    {
        proof {
            assert(self.cells[row as int].len() == self.width);
        }
        let slot = &mut self.cells[row];
        slot.set(col, value);
        proof {
            assert(forall|i: int|
                0 <= i < self.cells.len() ==> #[trigger] self.cells[i].len() == self.width);
        }
    }
}

} // verus!
