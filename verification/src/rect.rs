//! Inclusive axis-aligned rectangles that grow to enclose points.

use vstd::prelude::*;
use crate::surface::Point;

verus! {

/// An axis-aligned box with inclusive bounds.
#[derive(Debug, Copy, Clone, PartialEq, Eq, Structural)]
pub struct Rect {
    pub top: i32,
    pub left: i32,
    pub bottom: i32,
    pub right: i32,
}

impl Rect {
    /// The box is not inside out: it encloses at least one point.
    pub open spec fn wf(&self) -> bool {
        self.left <= self.right && self.top <= self.bottom
    }

    /// The point `p` lies within the box, edges included.
    pub open spec fn encloses(&self, p: Point) -> bool {
        self.left <= p.0 <= self.right && self.top <= p.1 <= self.bottom
    }

    /// The box grown by the least amount that makes it enclose `(x, y)`.
    pub open spec fn grown(&self, x: i32, y: i32) -> Rect {
        Rect {
            top: if y < self.top { y } else { self.top },
            left: if x < self.left { x } else { self.left },
            bottom: if y > self.bottom { y } else { self.bottom },
            right: if x > self.right { x } else { self.right },
        }
    }

    /// The box that encloses the single point `(x, y)`.
    pub fn point(x: i32, y: i32) -> (r: Self)
        ensures
            r == (Rect { top: y, left: x, bottom: y, right: x }),
            r.wf(),
    {
        Self { left: x, right: x, top: y, bottom: y }
    }

    /// Grows the box by the least amount that makes it enclose `(x, y)`.
    pub fn insert(&mut self, x: i32, y: i32)
        ensures
            *final(self) == old(self).grown(x, y),
            old(self).wf() ==> final(self).wf(),
    {
        self.left = self.left.min(x);
        self.right = self.right.max(x);

        self.top = self.top.min(y);
        self.bottom = self.bottom.max(y);
    }
}

} // verus!
