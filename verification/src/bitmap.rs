//! A surface of bytes held row after row in one buffer.

use vstd::prelude::*;
use vstd::laws_eq::obeys_concrete_eq;
use crate::image::Image;
use crate::surface::{Point, Surface};

verus! {

/// A dense surface: `width * height` bytes, the rows one after another.
pub struct Bitmap {
    width: usize,
    height: usize,
    data: Vec<u8>,
}

/// The position in the buffer of the pixel at column `x` of row `y`.
pub open spec fn offset(width: int, x: int, y: int) -> int {
    y * width + x
}

/// A pixel within the dimensions has its place within the buffer.
proof fn lemma_offset_fits(width: int, height: int, x: int, y: int)
    requires
        0 <= x < width,
        0 <= y < height,
    ensures
        0 <= offset(width, x, y) < width * height,
        y * width >= 0,
{
    assert(y * width >= 0) by (nonlinear_arith)
        requires
            y >= 0,
            width >= 0,
    ;
    assert((y + 1) * width <= height * width) by (nonlinear_arith)
        requires
            y + 1 <= height,
            width >= 0,
    ;
    assert((y + 1) * width == y * width + width) by (nonlinear_arith);
}

/// Two pixels within the width share a place in the buffer only if they are
/// the same pixel.
proof fn lemma_offset_apart(width: int, x: int, y: int, i: int, j: int)
    requires
        0 <= x < width,
        0 <= i < width,
        offset(width, x, y) == offset(width, i, j),
    ensures
        x == i && y == j,
{
    assert((y - j) * width == y * width - j * width) by (nonlinear_arith);
    if y > j {
        assert((y - j) * width >= width) by (nonlinear_arith)
            requires
                y - j >= 1,
                width >= 0,
        ;
    } else if y < j {
        assert((y - j) * width <= -width) by (nonlinear_arith)
            requires
                y - j <= -1,
                width >= 0,
        ;
    }
}

impl Bitmap {
    /// The buffer holds one byte for each pixel.
    #[verifier::type_invariant]
    spec fn fits(&self) -> bool {
        self.data@.len() == self.width * self.height
    }

    /// A surface of the given dimensions over the buffer `data`, which holds
    /// the rows one after another; `None` unless the buffer has one byte for
    /// each pixel.
    pub fn new(width: usize, height: usize, data: Vec<u8>) -> (r: Option<Bitmap>)
        ensures
            r is Some <==> data@.len() == width * height,
            r matches Some(b) ==> {
                &&& b@.width == width
                &&& b@.height == height
                &&& forall|x: int, y: int|
                    0 <= x < width && 0 <= y < height ==> #[trigger] (b@.pixel)(x, y)
                        == data@[offset(width as int, x, y)]
            },
    {
        let len = data.len();
        match width.checked_mul(height) {
            Some(n) => {
                if n == len {
                    Some(Bitmap { width, height, data })
                } else {
                    None
                }
            },
            None => None,
        }
    }
}

impl Bitmap {
    /// The place in the buffer of the pixel at `(x, y)`; `None` outside the
    /// surface.
    fn place(&self, x: i32, y: i32) -> (r: Option<usize>)
        ensures
            r is Some <==> self@.contains((x as int, y as int)),
            r matches Some(at) ==> at == offset(self.width as int, x as int, y as int) && at
                < self.data@.len(),
    {
        if x < 0 || y < 0 {
            return None;
        }
        let col = x as usize;
        let row = y as usize;
        if col >= self.width || row >= self.height {
            return None;
        }
        proof {
            use_type_invariant(self);
            lemma_offset_fits(self.width as int, self.height as int, col as int, row as int);
            assert(self.data@.len() == self.data.len());
        }
        Some(row * self.width + col)
    }
}

impl Image for Bitmap {
    type Pixel = u8;

    closed spec fn view(&self) -> Surface<u8> {
        Surface {
            width: self.width as nat,
            height: self.height as nat,
            pixel: |x: int, y: int| self.data@[offset(self.width as int, x, y)],
        }
    }

    proof fn pixel_eq_is_equality() {
        reveal(obeys_concrete_eq);
    }

    fn get_pixel(&self, x: i32, y: i32) -> (r: Option<u8>) {
        match self.place(x, y) {
            Some(at) => Some(self.data[at]),
            None => None,
        }
    }

    fn set_pixel(&mut self, x: i32, y: i32, pixel: u8) {
        match self.place(x, y) {
            Some(at) => {
                proof {
                    use_type_invariant(&*self);
                }
                self.data[at] = pixel;
                proof {
                    let width = self.width as int;
                    assert forall|p: Point| #[trigger]
                        self@.at(p) == if p == (x as int, y as int) && old(self)@.contains(p) {
                            Some(pixel)
                        } else {
                            old(self)@.at(p)
                        } by {
                        if self@.contains(p) {
                            lemma_offset_fits(width, self.height as int, p.0, p.1);
                            if offset(width, p.0, p.1) == at {
                                lemma_offset_apart(width, p.0, p.1, x as int, y as int);
                            }
                        }
                    }
                }
            },
            None => {},
        }
    }

    fn width(&self) -> (w: usize) {
        self.width
    }

    fn height(&self) -> (h: usize) {
        self.height
    }
}

} // verus!
