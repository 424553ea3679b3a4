//! The bounds accumulator: the smallest axis-aligned box around the points
//! seen so far, and the pen position. Each operation returns a new value.

use crate::coord::Coord;
use vstd::prelude::*;

verus! {

/// The mathematical value of a [`Bounds`].
pub ghost struct BoxModel {
    pub x1: int,
    pub y1: int,
    pub x2: int,
    pub y2: int,
    pub last: (int, int),
}

impl BoxModel {
    /// The degenerate box at the origin.
    pub open spec fn zero() -> BoxModel {
        BoxModel { x1: 0, y1: 0, x2: 0, y2: 0, last: (0, 0) }
    }

    /// The box that holds the single point `(x, y)`, with the pen there.
    pub open spec fn at(x: int, y: int) -> BoxModel {
        BoxModel { x1: x, y1: y, x2: x, y2: y, last: (x, y) }
    }

    /// A move of the pen: the first one starts the box at the point; a later
    /// one grows the box to hold the point.
    pub open spec fn moved(self, x: int, y: int, first: bool) -> BoxModel {
        if first {
            BoxModel::at(x, y)
        } else {
            self.extended(x, y)
        }
    }

    /// The pen goes back to the box's first corner; the box is unchanged.
    pub open spec fn closed(self) -> BoxModel {
        BoxModel { last: (self.x1, self.y1), ..self }
    }

    /// The box grown to hold `(x, y)`, with the pen there.
    pub open spec fn extended(self, x: int, y: int) -> BoxModel {
        BoxModel {
            x1: if x < self.x1 { x } else { self.x1 },
            y1: if y < self.y1 { y } else { self.y1 },
            x2: if x > self.x2 { x } else { self.x2 },
            y2: if y > self.y2 { y } else { self.y2 },
            last: (x, y),
        }
    }

    /// The corners are ordered.
    pub open spec fn is_ordered(self) -> bool {
        self.x1 <= self.x2 && self.y1 <= self.y2
    }

    /// Every coordinate lies within `[-m, m]`.
    pub open spec fn within(self, m: int) -> bool {
        -m <= self.x1 <= m && -m <= self.y1 <= m && -m <= self.x2 <= m && -m <= self.y2 <= m
            && -m <= self.last.0 <= m && -m <= self.last.1 <= m
    }
}

/// A bounding box `(x1, y1)`–`(x2, y2)` and the pen's last point.
#[derive(Debug, Clone, Copy, PartialEq, Eq)]
pub struct Bounds {
    pub x1: Coord,
    pub y1: Coord,
    pub x2: Coord,
    pub y2: Coord,
    pub last_point: (Coord, Coord),
}

impl View for Bounds {
    type V = BoxModel;

    open spec fn view(&self) -> BoxModel {
        BoxModel {
            x1: self.x1 as int,
            y1: self.y1 as int,
            x2: self.x2 as int,
            y2: self.y2 as int,
            last: (self.last_point.0 as int, self.last_point.1 as int),
        }
    }
}

impl Bounds {
    /// The degenerate box at the origin.
    pub fn new() -> (r: Bounds)
        ensures
            r@ == BoxModel::zero(),
    {
        Bounds { x1: 0, y1: 0, x2: 0, y2: 0, last_point: (0, 0) }
    }

    /// Moves the pen to `(x, y)`; see [`BoxModel::moved`].
    pub fn move_last_point(&self, x: Coord, y: Coord, is_first_point: bool) -> (r: Bounds)
        ensures
            r@ == self@.moved(x as int, y as int, is_first_point),
    {
        if is_first_point {
            return Bounds { x1: x, y1: y, x2: x, y2: y, last_point: (x, y) };
        }
        self.extends(x, y)
    }

    /// Returns the pen to the first corner, keeping the box.
    pub fn close(&self) -> (r: Bounds)
        ensures
            r@ == self@.closed(),
    {
        Bounds {
            x1: self.x1,
            y1: self.y1,
            x2: self.x2,
            y2: self.y2,
            last_point: (self.x1, self.y1),
        }
    }

    /// Grows the box to hold `(x, y)` and moves the pen there.
    pub fn extends(&self, x: Coord, y: Coord) -> (r: Bounds)
        ensures
            r@ == self@.extended(x as int, y as int),
    {
        Bounds {
            x1: if x < self.x1 { x } else { self.x1 },
            y1: if y < self.y1 { y } else { self.y1 },
            x2: if x > self.x2 { x } else { self.x2 },
            y2: if y > self.y2 { y } else { self.y2 },
            last_point: (x, y),
        }
    }

    pub fn x1(&self) -> (r: Coord)
        ensures
            r == self.x1,
    {
        self.x1
    }

    pub fn y1(&self) -> (r: Coord)
        ensures
            r == self.y1,
    {
        self.y1
    }

    pub fn x2(&self) -> (r: Coord)
        ensures
            r == self.x2,
    {
        self.x2
    }

    pub fn y2(&self) -> (r: Coord)
        ensures
            r == self.y2,
    {
        self.y2
    }

    pub fn last_point(&self) -> (r: (Coord, Coord))
        ensures
            r == self.last_point,
    {
        self.last_point
    }
}

} // verus!
