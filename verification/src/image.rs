//! The capability that the algorithms ask of a pixel store.

use vstd::prelude::*;
use vstd::laws_eq::obeys_concrete_eq;
use crate::surface::{Point, Surface};

verus! {

/// A two-dimensional store of pixels with fixed dimensions.
///
/// The contracts of the methods are over the store's view, a [`Surface`]:
/// an implementation says what grid it holds and proves that its methods read
/// and write that grid. Coordinates are signed so that callers can step off
/// the surface: a read there finds nothing and a write there does nothing.
pub trait Image {
    /// The value of one pixel.
    type Pixel: Copy + PartialEq + std::fmt::Debug;

    /// The grid that this store currently holds.
    spec fn view(&self) -> Surface<Self::Pixel>;

    /// Comparing two pixels with `==` tells whether they are the same value.
    proof fn pixel_eq_is_equality()
        ensures
            obeys_concrete_eq::<Self::Pixel>(),
    ;

    /// Reads the pixel at `(x, y)`; `None` outside the surface.
    fn get_pixel(&self, x: i32, y: i32) -> (r: Option<Self::Pixel>)
        ensures
            r == self@.at((x as int, y as int)),
    ;

    /// Writes the pixel at `(x, y)`; does nothing outside the surface.
    fn set_pixel(&mut self, x: i32, y: i32, pixel: Self::Pixel)
        ensures
            final(self)@.same_size(old(self)@),
            forall|p: Point| #[trigger]
                final(self)@.at(p) == if p == (x as int, y as int) && old(self)@.contains(p) {
                    Some(pixel)
                } else {
                    old(self)@.at(p)
                },
    ;

    /// The number of columns.
    fn width(&self) -> (w: usize)
        ensures
            w == self@.width,
    ;

    /// The number of rows.
    fn height(&self) -> (h: usize)
        ensures
            h == self@.height,
    ;
}

} // verus!
