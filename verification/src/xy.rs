use vstd::prelude::*;

verus! {

/// A 2-D integer coordinate: `x` grows eastward (columns), `y` grows
/// southward (rows).
#[derive(Debug, Clone, Copy, Hash, PartialEq, Eq, Structural)]
pub struct XY {
    pub x: i64,
    pub y: i64,
}

impl XY {
    pub fn new(x: i64, y: i64) -> (r: XY)
        ensures
            r.x == x,
            r.y == y,
    {
        XY { x, y }
    }

    /// The coordinate of the cell in the given row and column.
    pub fn from_rc(row: usize, col: usize) -> (r: XY)
        requires
            row <= i64::MAX,
            col <= i64::MAX,
        ensures
            r.x == col,
            r.y == row,
    {
        XY::new(col as i64, row as i64)
    }

    pub fn x(&self) -> (r: i64)
        ensures
            r == self.x,
    {
        self.x
    }

    pub fn y(&self) -> (r: i64)
        ensures
            r == self.y,
    {
        self.y
    }

    pub fn row(&self) -> (r: usize)
        requires
            0 <= self.y <= usize::MAX,
        ensures
            r == self.y,
    {
        self.y as usize
    }

    pub fn col(&self) -> (r: usize)
        requires
            0 <= self.x <= usize::MAX,
        ensures
            r == self.x,
    {
        self.x as usize
    }

    /// Moves this coordinate onto `target`.
    pub fn mut_move_to(&mut self, target: XY)
        ensures
            *final(self) == target,
    {
        self.x = target.x;
        self.y = target.y;
    }

    /// This coordinate shifted by the given deltas.
    pub fn offset(&self, x: i64, y: i64) -> (r: XY)
        requires
            i64::MIN <= self.x + x <= i64::MAX,
            i64::MIN <= self.y + y <= i64::MAX,
        ensures
            r.x == self.x + x,
            r.y == self.y + y,
    {
        XY { x: self.x + x, y: self.y + y }
    }

    /// Shifts this coordinate by the given deltas.
    pub fn mut_offset(&mut self, x: i64, y: i64)
        requires
            i64::MIN <= old(self).x + x <= i64::MAX,
            i64::MIN <= old(self).y + y <= i64::MAX,
        ensures
            final(self).x == old(self).x + x,
            final(self).y == old(self).y + y,
    {
        self.x = self.x + x;
        self.y = self.y + y;
    }

    /// This coordinate shifted by another coordinate taken as an offset.
    pub fn offset_with(&self, offset: XY) -> (r: XY)
        requires
            i64::MIN <= self.x + offset.x <= i64::MAX,
            i64::MIN <= self.y + offset.y <= i64::MAX,
        ensures
            r.x == self.x + offset.x,
            r.y == self.y + offset.y,
    {
        XY { x: self.x + offset.x, y: self.y + offset.y }
    }

    /// Shifts this coordinate by another coordinate taken as an offset.
    pub fn mut_offset_with(&mut self, offset: XY)
        requires
            i64::MIN <= old(self).x + offset.x <= i64::MAX,
            i64::MIN <= old(self).y + offset.y <= i64::MAX,
        ensures
            final(self).x == old(self).x + offset.x,
            final(self).y == old(self).y + offset.y,
    {
        self.x = self.x + offset.x;
        self.y = self.y + offset.y;
    }
}

} // verus!
