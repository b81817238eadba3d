//! Reading and painting runs of pixels along one row.

use vstd::prelude::*;
use vstd::laws_eq::obeys_concrete_eq;
use crate::image::Image;
use crate::rect::Rect;
use crate::surface::{Point, Surface};

verus! {

/// `now` is `cur` with the pixels of row `y` from column `lo` up to, not
/// including, column `hi` painted from `c` to `nv`.
#[verifier::opaque]
pub open spec fn repainted<P>(
    now: Surface<P>,
    cur: Surface<P>,
    y: int,
    lo: int,
    hi: int,
    c: P,
    nv: P,
) -> bool {
    &&& now.same_size(cur)
    &&& forall|p: Point| #[trigger]
        now.at(p) == if p.1 == y && lo <= p.0 < hi {
            Some(nv)
        } else {
            cur.at(p)
        }
    &&& forall|k: int| lo <= k < hi ==> #[trigger] cur.at((k, y)) == Some(c)
}

/// No pixel of row `y` from column `lo` up to, not including, column `hi` has
/// the colour `c`.
#[verifier::opaque]
pub open spec fn clear<P>(s: Surface<P>, y: int, lo: int, hi: int, c: P) -> bool {
    forall|k: int| lo <= k < hi ==> #[trigger] s.at((k, y)) != Some(c)
}

/// Tells whether the surface has a pixel at `(x, y)` and that pixel is `c`.
pub(crate) fn probe<I: Image>(img: &I, x: i64, y: i64, c: I::Pixel) -> (r: bool)
    ensures
        r == (img@.at((x as int, y as int)) == Some(c)),
{
    proof {
        I::pixel_eq_is_equality();
        reveal(obeys_concrete_eq);
    }
    if x < 0 || x > 0x7fff_ffff || y < 0 || y > 0x7fff_ffff {
        return false;
    }
    match img.get_pixel(x as i32, y as i32) {
        Some(p) => p == c,
        None => false,
    }
}

/// Paints the pixel at `(x, y)` and grows `rect` to enclose it.
pub(crate) fn paint<I: Image>(img: &mut I, rect: &mut Rect, x: i64, y: i64, nv: I::Pixel)
    requires
        old(img)@.contains((x as int, y as int)),
    ensures
        final(img)@.same_size(old(img)@),
        forall|p: Point| #[trigger]
            final(img)@.at(p) == if p == (x as int, y as int) {
                Some(nv)
            } else {
                old(img)@.at(p)
            },
        *final(rect) == old(rect).grown(x as i32, y as i32),
{
    img.set_pixel(x as i32, y as i32, nv);
    rect.insert(x as i32, y as i32);
}

/// The box `before`, grown to enclose the pixels of row `y` from column `lo`
/// up to, not including, column `hi`.
pub open spec fn grown_by_run(before: Rect, lo: int, hi: int, y: int) -> Rect {
    if lo < hi {
        before.grown(lo as i32, y as i32).grown((hi - 1) as i32, y as i32)
    } else {
        before
    }
}

/// Paints leftwards from the pixel left of `(x, y)` for as long as the pixels
/// are `c`, and returns the column of the leftmost pixel painted (`x` if none
/// was).
pub(crate) fn paint_left<I: Image>(
    img: &mut I,
    rect: &mut Rect,
    x: i64,
    y: i64,
    c: I::Pixel,
    nv: I::Pixel,
) -> (lo: i64)
    requires
        c != nv,
        old(img)@.contains((x as int, y as int)),
    ensures
        0 <= lo <= x,
        repainted(final(img)@, old(img)@, y as int, lo as int, x as int, c, nv),
        old(img)@.at((lo - 1, y as int)) != Some(c),
        *final(rect) == grown_by_run(*old(rect), lo as int, x as int, y as int),
{
    reveal(repainted);
    let mut lo: i64 = x;
    while probe(img, lo - 1, y, c)
        invariant
            c != nv,
            0 <= lo <= x,
            old(img)@.contains((x as int, y as int)),
            img@.same_size(old(img)@),
            forall|p: Point| #[trigger]
                img@.at(p) == if p.1 == y && lo <= p.0 < x {
                    Some(nv)
                } else {
                    old(img)@.at(p)
                },
            forall|k: int| lo <= k < x ==> old(img)@.at((k, y as int)) == Some(c),
            *rect == grown_by_run(*old(rect), lo as int, x as int, y as int),
        decreases lo,
    {
        paint(img, rect, lo - 1, y, nv);
        lo = lo - 1;
    }
    lo
}

/// Paints rightwards from `(x, y)` for as long as the pixels are `c`, and
/// returns the column of the first pixel that it left alone.
pub(crate) fn paint_right<I: Image>(
    img: &mut I,
    rect: &mut Rect,
    x: i64,
    y: i64,
    c: I::Pixel,
    nv: I::Pixel,
) -> (hi: i64)
    requires
        c != nv,
        0 <= x <= 0x8000_0000,
    ensures
        x <= hi <= 0x8000_0000,
        repainted(final(img)@, old(img)@, y as int, x as int, hi as int, c, nv),
        final(img)@.at((hi as int, y as int)) != Some(c),
        *final(rect) == grown_by_run(*old(rect), x as int, hi as int, y as int),
{
    reveal(repainted);
    let mut hi: i64 = x;
    while probe(img, hi, y, c)
        invariant
            c != nv,
            0 <= x <= hi <= 0x8000_0000,
            img@.same_size(old(img)@),
            forall|p: Point| #[trigger]
                img@.at(p) == if p.1 == y && x <= p.0 < hi {
                    Some(nv)
                } else {
                    old(img)@.at(p)
                },
            forall|k: int| x <= k < hi ==> old(img)@.at((k, y as int)) == Some(c),
            *rect == grown_by_run(*old(rect), x as int, hi as int, y as int),
        decreases 0x8000_0000 - hi,
    {
        paint(img, rect, hi, y, nv);
        hi = hi + 1;
    }
    hi
}

/// Steps rightwards from `(x, y)` over pixels that are not `c`, without
/// going past column `limit`, and returns the column where it stopped.
pub(crate) fn skip_right<I: Image>(img: &I, x: i64, limit: i64, y: i64, c: I::Pixel) -> (r: i64)
    ensures
        x <= r,
        r <= limit || r == x,
        clear(img@, y as int, x as int, r as int, c),
        r >= limit || img@.at((r as int, y as int)) == Some(c),
{
    reveal(clear);
    let mut r: i64 = x;
    while r < limit && !probe(img, r, y, c)
        invariant
            x <= r,
            r <= limit || r == x,
            forall|k: int| x <= k < r ==> img@.at((k, y as int)) != Some(c),
        decreases limit - r,
    {
        r = r + 1;
    }
    r
}

} // verus!
