//! The mathematical model of a pixel surface.

use vstd::prelude::*;

verus! {

/// A pixel coordinate: column first, row second.
pub type Point = (int, int);

/// A rectangular grid of pixels, as contracts see it.
pub ghost struct Surface<P> {
    pub width: nat,
    pub height: nat,
    pub pixel: spec_fn(int, int) -> P,
}

impl<P> Surface<P> {
    /// `p` names a pixel of the surface: it lies within the dimensions and
    /// both coordinates fit the `i32` that the accessors take.
    pub open spec fn contains(&self, p: Point) -> bool {
        0 <= p.0 < self.width && 0 <= p.1 < self.height && p.0 <= i32::MAX && p.1 <= i32::MAX
    }

    /// The pixel at `p`, or `None` where the surface has none.
    pub open spec fn at(&self, p: Point) -> Option<P> {
        if self.contains(p) {
            Some((self.pixel)(p.0, p.1))
        } else {
            None
        }
    }

    /// The two surfaces have the same dimensions.
    pub open spec fn same_size(&self, other: Self) -> bool {
        self.width == other.width && self.height == other.height
    }
}

} // verus!
