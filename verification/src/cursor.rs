//! A cursor that moves within bounds on the screen.

use vstd::prelude::*;

verus! {

/// A position on the screen and the bounds that it stays in.
#[derive(Debug, Clone, Copy, PartialEq, Eq, Structural)]
pub struct Cursor {
    pub x: u16,
    pub y: u16,
    pub bound_t: u16,
    pub bound_b: u16,
    pub bound_l: u16,
    pub bound_r: u16,
}

impl Cursor {
    /// Moves one row up, unless the cursor is on the top bound.
    pub fn up(&mut self)
        ensures
            *final(self) == (Cursor {
                y: if old(self).y > old(self).bound_t {
                    (old(self).y - 1) as u16
                } else {
                    old(self).y
                },
                ..*old(self)
            }),
    {
        if self.y > self.bound_t {
            self.y -= 1;
        }
    }

    /// Moves one row down, unless the cursor is on the last row above the
    /// bottom bound. The bottom bound is not the first row of the screen.
    pub fn down(&mut self)
        requires
            old(self).bound_b >= 1,
        ensures
            *final(self) == (Cursor {
                y: if old(self).y < old(self).bound_b - 1 {
                    (old(self).y + 1) as u16
                } else {
                    old(self).y
                },
                ..*old(self)
            }),
    {
        if self.y < self.bound_b - 1 {
            self.y += 1;
        }
    }

    /// Moves one column right, unless the cursor is on the right bound.
    pub fn right(&mut self)
        ensures
            *final(self) == (Cursor {
                x: if old(self).x < old(self).bound_r {
                    (old(self).x + 1) as u16
                } else {
                    old(self).x
                },
                ..*old(self)
            }),
    {
        if self.x < self.bound_r {
            self.x += 1;
        }
    }

    /// Moves one column left, unless the cursor is on the left bound.
    pub fn left(&mut self)
        ensures
            *final(self) == (Cursor {
                x: if old(self).x > old(self).bound_l {
                    (old(self).x - 1) as u16
                } else {
                    old(self).x
                },
                ..*old(self)
            }),
    {
        if self.x > self.bound_l {
            self.x -= 1;
        }
    }
}

/// The cursor for a terminal of `size_x` columns and `size_y` rows in which
/// the text cursor stands on row `row`: it starts in the first column of the
/// row above and may move from there to the last column and the last row.
pub fn new_cursor_bound_to_term(row: u16, size_x: u16, size_y: u16) -> (c: Cursor)
    requires
        row >= 1,
        size_x >= 1,
        size_y >= row - 1,
    ensures
        c == (Cursor {
            x: 1,
            y: (row - 1) as u16,
            bound_t: (row - 1) as u16,
            bound_b: size_y,
            bound_l: 1,
            bound_r: size_x,
        }),
{
    let (ogn_x, ogn_y): (u16, u16) = (1, row - 1);
    let (far_x, far_y): (u16, u16) = (size_x - ogn_x, size_y - ogn_y);
    Cursor {
        x: ogn_x,
        y: ogn_y,
        bound_t: ogn_y,
        bound_b: ogn_y + far_y,
        bound_l: ogn_x,
        bound_r: ogn_x + far_x,
    }
}

} // verus!
