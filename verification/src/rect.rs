//! Axis-aligned rectangles on the grid.
//!
//! A [`Rectangle`] is described by two opposite corners in any order; most
//! consumers first bring it to the normal form where `corner_1` is the
//! top-left and `corner_2` the bottom-right corner.

use vstd::prelude::*;

use crate::tc::TextCoordinate;
use crate::tc::spec_saturate_shift;

verus! {

/// The smaller of two column or row numbers.
pub open spec fn umin(a: u32, b: u32) -> u32 {
    if a <= b {
        a
    } else {
        b
    }
}

/// The larger of two column or row numbers.
pub open spec fn umax(a: u32, b: u32) -> u32 {
    if a >= b {
        a
    } else {
        b
    }
}

/// An axis-aligned rectangle spanned by two opposite corners.
#[derive(Copy, Clone, Debug, Eq, PartialEq, Hash, Structural)]
pub struct Rectangle {
    pub corner_1: TextCoordinate,
    pub corner_2: TextCoordinate,
}

impl Rectangle {
    /// The rectangle spanned by the two given corners.
    pub fn new(corner_1: TextCoordinate, corner_2: TextCoordinate) -> (r: Rectangle)
        ensures
            r == (Rectangle { corner_1, corner_2 }),
    {
        Rectangle { corner_1, corner_2 }
    }

    /// The leftmost column covered by the rectangle.
    pub open spec fn spec_left(self) -> u32 {
        umin(self.corner_1.x, self.corner_2.x)
    }

    /// The rightmost column covered by the rectangle.
    pub open spec fn spec_right(self) -> u32 {
        umax(self.corner_1.x, self.corner_2.x)
    }

    /// The topmost row covered by the rectangle.
    pub open spec fn spec_top(self) -> u32 {
        umin(self.corner_1.y, self.corner_2.y)
    }

    /// The bottommost row covered by the rectangle.
    pub open spec fn spec_bottom(self) -> u32 {
        umax(self.corner_1.y, self.corner_2.y)
    }

    /// Whether `coord` lies inside the rectangle, borders included.
    pub fn contains(&self, coord: &TextCoordinate) -> (r: bool)
        ensures
            r == (self.spec_left() <= coord.x <= self.spec_right()
                && self.spec_top() <= coord.y <= self.spec_bottom()),
    {
        let min_x = if self.corner_1.x <= self.corner_2.x { self.corner_1.x } else { self.corner_2.x };
        let max_x = if self.corner_1.x >= self.corner_2.x { self.corner_1.x } else { self.corner_2.x };
        let min_y = if self.corner_1.y <= self.corner_2.y { self.corner_1.y } else { self.corner_2.y };
        let max_y = if self.corner_1.y >= self.corner_2.y { self.corner_1.y } else { self.corner_2.y };
        min_x <= coord.x && coord.x <= max_x && min_y <= coord.y && coord.y <= max_y
    }

    /// Both corners translated by the vector from `origin` to `move_pos`,
    /// each component saturating at the ends of the `u32` range.
    pub fn shifted(self, origin: TextCoordinate, move_pos: TextCoordinate) -> (r: Self)
        ensures
            r.corner_1.x == spec_saturate_shift(self.corner_1.x, move_pos.x - origin.x),
            r.corner_1.y == spec_saturate_shift(self.corner_1.y, move_pos.y - origin.y),
            r.corner_2.x == spec_saturate_shift(self.corner_2.x, move_pos.x - origin.x),
            r.corner_2.y == spec_saturate_shift(self.corner_2.y, move_pos.y - origin.y),
    {
        Self {
            corner_1: self.corner_1.shifted(origin, move_pos),
            corner_2: self.corner_2.shifted(origin, move_pos),
        }
    }

    /// Number of rows covered, borders included.
    pub fn height(&self) -> (r: u32)
        requires
            self.spec_bottom() - self.spec_top() < u32::MAX,
        ensures
            r == self.spec_bottom() - self.spec_top() + 1,
    {
        let y_min = if self.corner_1.y <= self.corner_2.y { self.corner_1.y } else { self.corner_2.y };
        let y_max = if self.corner_1.y >= self.corner_2.y { self.corner_1.y } else { self.corner_2.y };
        y_max - y_min + 1
    }

    /// Number of columns covered, borders included.
    pub fn width(&self) -> (r: u32)
        requires
            self.spec_right() - self.spec_left() < u32::MAX,
        ensures
            r == self.spec_right() - self.spec_left() + 1,
    {
        let x_min = if self.corner_1.x <= self.corner_2.x { self.corner_1.x } else { self.corner_2.x };
        let x_max = if self.corner_1.x >= self.corner_2.x { self.corner_1.x } else { self.corner_2.x };
        x_max - x_min + 1
    }

    /// The leftmost column covered by the rectangle.
    pub fn left(&self) -> (r: u32)
        ensures
            r == self.spec_left(),
    {
        if self.corner_1.x <= self.corner_2.x {
            self.corner_1.x
        } else {
            self.corner_2.x
        }
    }

    /// The topmost row covered by the rectangle.
    pub fn top(&self) -> (r: u32)
        ensures
            r == self.spec_top(),
    {
        if self.corner_1.y <= self.corner_2.y {
            self.corner_1.y
        } else {
            self.corner_2.y
        }
    }

    /// The same rectangle with `corner_1` at the top-left and `corner_2` at
    /// the bottom-right.
    pub open spec fn spec_normalize(self) -> Rectangle {
        Rectangle {
            corner_1: TextCoordinate { x: self.spec_left(), y: self.spec_top() },
            corner_2: TextCoordinate { x: self.spec_right(), y: self.spec_bottom() },
        }
    }

    /// Reorder the corners so that `corner_1` is the top-left and `corner_2`
    /// the bottom-right corner.
    pub fn normalize(self) -> (r: Self)
        ensures
            r == self.spec_normalize(),
    {
        let min_x = if self.corner_1.x <= self.corner_2.x { self.corner_1.x } else { self.corner_2.x };
        let max_x = if self.corner_1.x >= self.corner_2.x { self.corner_1.x } else { self.corner_2.x };
        let min_y = if self.corner_1.y <= self.corner_2.y { self.corner_1.y } else { self.corner_2.y };
        let max_y = if self.corner_1.y >= self.corner_2.y { self.corner_1.y } else { self.corner_2.y };
        Self {
            corner_1: TextCoordinate { x: min_x, y: min_y },
            corner_2: TextCoordinate { x: max_x, y: max_y },
        }
    }

    /// The top-left corner of the normalized rectangle.
    pub fn left_top(&self) -> (r: TextCoordinate)
        ensures
            r == (TextCoordinate { x: self.spec_left(), y: self.spec_top() }),
    {
        TextCoordinate { x: self.left(), y: self.top() }
    }

    /// The top-right corner of the normalized rectangle.
    pub fn right_top(&self) -> (r: TextCoordinate)
        ensures
            r == (TextCoordinate { x: self.spec_right(), y: self.spec_top() }),
    {
        let x = if self.corner_1.x >= self.corner_2.x { self.corner_1.x } else { self.corner_2.x };
        TextCoordinate { x, y: self.top() }
    }

    /// The bottom-left corner of the normalized rectangle.
    pub fn left_bottom(&self) -> (r: TextCoordinate)
        ensures
            r == (TextCoordinate { x: self.spec_left(), y: self.spec_bottom() }),
    {
        let y = if self.corner_1.y >= self.corner_2.y { self.corner_1.y } else { self.corner_2.y };
        TextCoordinate { x: self.left(), y }
    }

    /// The bottom-right corner of the normalized rectangle.
    pub fn right_bottom(&self) -> (r: TextCoordinate)
        ensures
            r == (TextCoordinate { x: self.spec_right(), y: self.spec_bottom() }),
    {
        let x = if self.corner_1.x >= self.corner_2.x { self.corner_1.x } else { self.corner_2.x };
        let y = if self.corner_1.y >= self.corner_2.y { self.corner_1.y } else { self.corner_2.y };
        TextCoordinate { x, y }
    }

    /// Every cell covered by the rectangle, row by row from the top, each row
    /// left to right.
    pub fn iter_interior(&self) -> (r: Vec<TextCoordinate>)
        requires
            (self.spec_right() - self.spec_left() + 1) * (self.spec_bottom() - self.spec_top() + 1)
                <= usize::MAX,
        ensures
            r@.len() == (self.spec_right() - self.spec_left() + 1) * (self.spec_bottom()
                - self.spec_top() + 1),
            forall|k: int|
                0 <= k < r@.len() ==> r@[k] == (TextCoordinate {
                    x: (self.spec_left() + (k % (self.spec_right() - self.spec_left() + 1))) as u32,
                    y: (self.spec_top() + (k / (self.spec_right() - self.spec_left() + 1))) as u32,
                }),
    {
        let min_x = if self.corner_1.x <= self.corner_2.x { self.corner_1.x } else { self.corner_2.x };
        let max_x = if self.corner_1.x >= self.corner_2.x { self.corner_1.x } else { self.corner_2.x };
        let min_y = if self.corner_1.y <= self.corner_2.y { self.corner_1.y } else { self.corner_2.y };
        let max_y = if self.corner_1.y >= self.corner_2.y { self.corner_1.y } else { self.corner_2.y };
        let w: u64 = (max_x - min_x) as u64 + 1;
        let h: u64 = (max_y - min_y) as u64 + 1;
        let n: usize = (w * h) as usize;
        let mut r: Vec<TextCoordinate> = Vec::new();
        let mut k: usize = 0;
        while k < n
            invariant
                min_x == self.spec_left(),
                max_x == self.spec_right(),
                min_y == self.spec_top(),
                max_y == self.spec_bottom(),
                w == max_x - min_x + 1,
                h == max_y - min_y + 1,
                n == w * h,
                n <= usize::MAX,
                k <= n,
                r@.len() == k,
                forall|j: int|
                    0 <= j < r@.len() ==> r@[j] == (TextCoordinate {
                        x: (min_x + (j % (w as int))) as u32,
                        y: (min_y + (j / (w as int))) as u32,
                    }),
            decreases n - k,
        {
            let dx = (k as u64) % w;
            let dy = (k as u64) / w;
            proof {
                vstd::arithmetic::div_mod::lemma_mod_division_less_than_divisor(k as int, w as int);
                vstd::arithmetic::div_mod::lemma_fundamental_div_mod(k as int, w as int);
                assert(dy < h) by (nonlinear_arith)
                    requires
                        w >= 1,
                        h >= 1,
                        k as int == w * (dy as int) + dx,
                        0 <= dx < w,
                        (k as int) < w * h,
                ;
            }
            r.push(TextCoordinate { x: min_x + dx as u32, y: min_y + dy as u32 });
            k = k + 1;
        }
        r
    }
}

/// Normalizing a rectangle gives the same result whichever pair of opposite
/// corners describes it: starting from the top-left/bottom-right pair, from
/// the top-right/bottom-left pair, or from either pair in reverse order, the
/// normal form is identical.
pub proof fn lemma_rectangle_corner_symmetry(x0: u32, y0: u32, x1: u32, y1: u32)
    requires
        x0 <= x1,
        y0 <= y1,
    ensures
        (Rectangle {
            corner_1: TextCoordinate { x: x0, y: y0 },
            corner_2: TextCoordinate { x: x1, y: y1 },
        }).spec_normalize() == (Rectangle {
            corner_1: TextCoordinate { x: x1, y: y0 },
            corner_2: TextCoordinate { x: x0, y: y1 },
        }).spec_normalize(),
        (Rectangle {
            corner_1: TextCoordinate { x: x0, y: y0 },
            corner_2: TextCoordinate { x: x1, y: y1 },
        }).spec_normalize() == (Rectangle {
            corner_1: TextCoordinate { x: x0, y: y1 },
            corner_2: TextCoordinate { x: x1, y: y0 },
        }).spec_normalize(),
        (Rectangle {
            corner_1: TextCoordinate { x: x0, y: y0 },
            corner_2: TextCoordinate { x: x1, y: y1 },
        }).spec_normalize() == (Rectangle {
            corner_1: TextCoordinate { x: x1, y: y1 },
            corner_2: TextCoordinate { x: x0, y: y0 },
        }).spec_normalize(),
{
}

} // verus!
