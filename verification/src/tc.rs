//! Grid coordinates.
//!
//! A [`TextCoordinate`] names one cell of a character grid: `x` is the column
//! and `y` is the row, both counted from zero at the top-left corner.  The
//! neighbour helpers saturate at the grid's upper-left edge instead of
//! wrapping, so walking off the top or the left of the grid is harmless.

use vstd::prelude::*;

verus! {

/// One cell of the character grid: column `x`, row `y`.
#[derive(Copy, Clone, Debug, PartialEq, Eq, Hash, Default, Structural)]
pub struct TextCoordinate {
    pub x: u32,
    pub y: u32,
}

/// `v + d` clamped into the `u32` range, where `d` may be negative.
pub open spec fn spec_saturate_shift(v: u32, d: int) -> u32 {
    if v + d < 0 {
        0u32
    } else if v + d > u32::MAX {
        u32::MAX
    } else {
        (v + d) as u32
    }
}

impl TextCoordinate {
    /// The cell immediately to the right.
    pub fn right(&self) -> (r: Self)
        requires
            self.x < u32::MAX,
        ensures
            r.x == self.x + 1,
            r.y == self.y,
    {
        Self { x: self.x + 1, y: self.y }
    }

    /// The cell immediately to the left, staying at column 0 when already there.
    pub fn left(&self) -> (r: Self)
        ensures
            r.x == if self.x == 0 { 0u32 } else { (self.x - 1) as u32 },
            r.y == self.y,
    {
        Self { x: if self.x == 0 { 0 } else { self.x - 1 }, y: self.y }
    }

    /// The cell immediately above, staying at row 0 when already there.
    pub fn up(&self) -> (r: Self)
        ensures
            r.x == self.x,
            r.y == if self.y == 0 { 0u32 } else { (self.y - 1) as u32 },
    {
        Self { x: self.x, y: if self.y == 0 { 0 } else { self.y - 1 } }
    }

    /// The cell immediately below.
    pub fn down(&self) -> (r: Self)
        requires
            self.y < u32::MAX,
        ensures
            r.x == self.x,
            r.y == self.y + 1,
    {
        Self { x: self.x, y: self.y + 1 }
    }

    /// This cell translated by the vector from `origin` to `move_pos`,
    /// saturating each component at the ends of the `u32` range.
    pub fn shifted(self, origin: TextCoordinate, move_pos: TextCoordinate) -> (r: TextCoordinate)
        ensures
            r.x == spec_saturate_shift(self.x, move_pos.x - origin.x),
            r.y == spec_saturate_shift(self.y, move_pos.y - origin.y),
    {
        let nx: i64 = self.x as i64 + (move_pos.x as i64 - origin.x as i64);
        let ny: i64 = self.y as i64 + (move_pos.y as i64 - origin.y as i64);
        let rx: u32 = if nx < 0 {
            0
        } else if nx > u32::MAX as i64 {
            u32::MAX
        } else {
            nx as u32
        };
        let ry: u32 = if ny < 0 {
            0
        } else if ny > u32::MAX as i64 {
            u32::MAX
        } else {
            ny as u32
        };
        TextCoordinate { x: rx, y: ry }
    }
}

} // verus!
