//! The box around the pixels that a flood has painted so far.

use vstd::prelude::*;
use crate::frontier::Flood;
use crate::paint::{grown_by_run, repainted};
use crate::rect::Rect;
use crate::region::{lemma_joined_same_color, lemma_joined_self};
use crate::steps::newly_painted;
use crate::surface::{Point, Surface};
use crate::tally::{lemma_tally_drops, lemma_tally_same};

verus! {

/// One pixel of the seed's region on each edge of the box.
pub ghost struct Marks {
    pub left: Point,
    pub right: Point,
    pub top: Point,
    pub bottom: Point,
}

impl Marks {
    /// The marks of the box that has grown to enclose the pixels of row `y`
    /// from column `lo` up to, not including, column `hi`.
    pub open spec fn moved(&self, before: Rect, y: int, lo: int, hi: int) -> Marks {
        if lo < hi {
            Marks {
                left: if lo < before.left {
                    (lo, y)
                } else {
                    self.left
                },
                right: if hi - 1 > before.right {
                    (hi - 1, y)
                } else {
                    self.right
                },
                top: if y < before.top {
                    (lo, y)
                } else {
                    self.top
                },
                bottom: if y > before.bottom {
                    (lo, y)
                } else {
                    self.bottom
                },
            }
        } else {
            *self
        }
    }
}

impl<P> Flood<P> {
    /// `rect` encloses the seed and all that is painted, and each mark is a
    /// pixel of the seed's region on the edge that it is named after.
    #[verifier::opaque]
    pub open spec fn boxed(&self, cur: Surface<P>, rect: Rect, marks: Marks) -> bool {
        &&& rect.encloses(self.seed)
        &&& forall|p: Point| #[trigger] self.painted(cur, p) ==> rect.encloses(p)
        &&& self.base.joined(self.seed, marks.left) && marks.left.0 == rect.left
        &&& self.base.joined(self.seed, marks.right) && marks.right.0 == rect.right
        &&& self.base.joined(self.seed, marks.top) && marks.top.1 == rect.top
        &&& self.base.joined(self.seed, marks.bottom) && marks.bottom.1 == rect.bottom
    }
}

/// The box of a single point is the box around a flood that has painted
/// nothing yet.
pub proof fn lemma_box_starts<P>(fl: Flood<P>, rect: Rect)
    requires
        fl.base.at(fl.seed) == Some(fl.inside),
        rect == (Rect {
            top: fl.seed.1 as i32,
            left: fl.seed.0 as i32,
            bottom: fl.seed.1 as i32,
            right: fl.seed.0 as i32,
        }),
    ensures
        fl.boxed(
            fl.base,
            rect,
            Marks { left: fl.seed, right: fl.seed, top: fl.seed, bottom: fl.seed },
        ),
{
    reveal(Flood::boxed);
    lemma_joined_self(fl.base, fl.seed);
}

/// A box that grows with each run that is painted stays the box around what
/// is painted.
pub proof fn lemma_box_grows<P>(
    fl: Flood<P>,
    cur: Surface<P>,
    now: Surface<P>,
    rect: Rect,
    marks: Marks,
    y: int,
    lo: int,
    hi: int,
)
    requires
        fl.boxed(cur, rect, marks),
        newly_painted(fl, cur, now, y, lo, hi),
    ensures
        fl.boxed(now, grown_by_run(rect, lo, hi, y), marks.moved(rect, y, lo, hi)),
{
    reveal(Flood::boxed);
    reveal(Flood::sound);
    if lo < hi {
        assert(fl.painted(now, (lo, y)));
        assert(fl.painted(now, (hi - 1, y)));
    }
}

/// Once the flood has painted the seed's region, the box around what is
/// painted is the smallest box around the region.
pub proof fn lemma_box_ends<P>(fl: Flood<P>, cur: Surface<P>, rect: Rect, marks: Marks)
    requires
        fl.base.at(fl.seed) == Some(fl.inside),
        fl.inside != fl.fill,
        fl.boxed(cur, rect, marks),
        forall|p: Point| #[trigger]
            cur.at(p) == if fl.base.joined(fl.seed, p) {
                Some(fl.fill)
            } else {
                fl.base.at(p)
            },
    ensures
        fl.base.bounded_by(fl.seed, rect),
{
    reveal(Flood::boxed);
    assert forall|b: Point| #[trigger] fl.base.joined(fl.seed, b) implies rect.encloses(b) by {
        lemma_joined_same_color(fl.base, fl.seed, b);
        assert(fl.painted(cur, b));
    }
}

/// Painting a run lowers the number of pixels of the flooded colour, unless
/// the run is empty, and then that number stays.
pub proof fn lemma_repaint_tally<P>(
    now: Surface<P>,
    cur: Surface<P>,
    y: int,
    lo: int,
    hi: int,
    c: P,
    nv: P,
)
    requires
        c != nv,
        repainted(now, cur, y, lo, hi, c, nv),
    ensures
        lo < hi ==> now.tally(c, now.height) < cur.tally(c, cur.height),
        lo >= hi ==> now.tally(c, now.height) == cur.tally(c, cur.height),
{
    reveal(repainted);
    if lo < hi {
        lemma_tally_drops(now, cur, c, (lo, y));
    } else {
        lemma_tally_same(now, cur, c);
    }
}

} // verus!
