//! The bookkeeping of a flood in progress: the spans still to be explored,
//! and what they owe to the pixels painted so far.

use vstd::prelude::*;
use crate::region::{adjacent, lemma_closed_set_holds_region, lemma_joined_self, lemma_joined_step};
use crate::surface::{Point, Surface};

verus! {

/// A run of columns on one row that is still to be explored, and the
/// direction (`1` for down, `-1` for up) in which the flood was moving when it
/// found the run.
#[derive(Clone, Copy)]
pub struct Span {
    pub left: i64,
    pub right: i64,
    pub row: i64,
    pub step: i64,
}

impl Span {
    /// The span lies over the point `q`.
    pub open spec fn covers(&self, q: Point) -> bool {
        q.1 == self.row && self.left <= q.0 <= self.right
    }

    /// `q` lies on the row that the span was found from, in one of the
    /// span's columns.
    pub open spec fn behind(&self, q: Point) -> bool {
        q.1 == self.row - self.step && self.left <= q.0 <= self.right
    }

    /// The span's numbers are in the range that the flood keeps them in.
    pub open spec fn valid(&self) -> bool {
        &&& self.step == 1 || self.step == -1
        &&& 0 <= self.left <= self.right <= i32::MAX
        &&& -1 <= self.row <= 0x8000_0000
    }
}

/// Some span of the stack lies over `q`.
pub open spec fn covered(stack: Seq<Span>, q: Point) -> bool {
    exists|i: int| 0 <= i < stack.len() && #[trigger] stack[i].covers(q)
}

/// The span being explored: the run that started at column `from` has been
/// painted up to, not including, column `at`, and the span's columns from
/// `at` on are still to be looked at.
pub ghost struct Scan {
    pub span: Span,
    pub from: int,
    pub at: int,
}

impl Scan {
    /// The state between two spans: nothing is being explored.
    pub open spec fn idle() -> Scan {
        Scan { span: Span { left: 0, right: -1i64, row: 0, step: 1 }, from: 0, at: 0 }
    }

    /// `q` lies in the part of the span that is still to be looked at.
    pub open spec fn active(&self, q: Point) -> bool {
        q.1 == self.span.row && self.at <= q.0 <= self.span.right
    }

    /// `p` belongs to the run in progress and `q` is its neighbour on the
    /// row ahead: the span for that row is added when the run ends.
    pub open spec fn exempt(&self, p: Point, q: Point) -> bool {
        p.1 == self.span.row && self.from <= p.0 < self.at && q == (p.0, self.span.row + self.span.step)
    }

    /// The scan's columns are in the range that the flood keeps them in, and
    /// a span that has columns is valid.
    pub open spec fn shaped(&self) -> bool {
        &&& self.span.left <= self.at
        &&& 0 <= self.from <= self.at <= 0x8000_0001
        &&& self.span.left <= self.span.right ==> self.span.valid()
    }
}

/// A flood: the surface as it was, the seed, and the colour being replaced.
pub ghost struct Flood<P> {
    pub base: Surface<P>,
    pub seed: Point,
    pub inside: P,
    pub fill: P,
}

impl<P> Flood<P> {
    /// The pixel at `p` had the flooded colour and has lost it.
    pub open spec fn painted(&self, cur: Surface<P>, p: Point) -> bool {
        self.base.at(p) == Some(self.inside) && cur.at(p) != Some(self.inside)
    }

    /// Nothing but pixels of the flooded colour has changed, and those only
    /// to the fill value.
    #[verifier::opaque]
    pub open spec fn frame(&self, cur: Surface<P>) -> bool {
        &&& self.inside != self.fill
        &&& self.base.at(self.seed) == Some(self.inside)
        &&& cur.same_size(self.base)
        &&& forall|p: Point| #[trigger]
            cur.at(p) == self.base.at(p) || (self.base.at(p) == Some(self.inside) && cur.at(p)
                == Some(self.fill))
    }

    /// Every painted pixel belongs to the seed's region.
    #[verifier::opaque]
    pub open spec fn sound(&self, cur: Surface<P>) -> bool {
        forall|p: Point| #[trigger] self.painted(cur, p) ==> self.base.joined(self.seed, p)
    }

    /// `q` is still to be looked at: a span of the stack, or the rest of the
    /// span being explored, lies over it.
    pub open spec fn pending(&self, stack: Seq<Span>, scan: Scan, q: Point) -> bool {
        covered(stack, q) || scan.active(q)
    }

    /// The seed is painted or still to be looked at.
    #[verifier::opaque]
    pub open spec fn seed_kept(&self, cur: Surface<P>, stack: Seq<Span>, scan: Scan) -> bool {
        cur.at(self.seed) == Some(self.inside) ==> self.pending(stack, scan, self.seed)
    }

    /// Every unpainted neighbour of a painted pixel is still to be looked at.
    #[verifier::opaque]
    pub open spec fn edge_kept(&self, cur: Surface<P>, stack: Seq<Span>, scan: Scan) -> bool {
        forall|p: Point, q: Point|
            self.painted(cur, p) && #[trigger] adjacent(p, q) && cur.at(q) == Some(self.inside)
                ==> self.pending(stack, scan, q) || scan.exempt(p, q)
    }

    /// What lies behind a span of the stack is painted or still to be looked
    /// at.
    #[verifier::opaque]
    pub open spec fn backs_kept(&self, cur: Surface<P>, stack: Seq<Span>, scan: Scan) -> bool {
        forall|i: int, q: Point|
            0 <= i < stack.len() && #[trigger] stack[i].behind(q) && cur.at(q) == Some(self.inside)
                ==> self.pending(stack, scan, q)
    }

    /// The spans of the stack are valid and lie over no pixel of the flooded
    /// colour outside the seed's region.
    #[verifier::opaque]
    pub open spec fn spans_sound(&self, cur: Surface<P>, stack: Seq<Span>) -> bool {
        &&& forall|i: int| 0 <= i < stack.len() ==> #[trigger] stack[i].valid()
        &&& forall|i: int, q: Point|
            0 <= i < stack.len() && #[trigger] stack[i].covers(q) && cur.at(q) == Some(self.inside)
                ==> self.base.joined(self.seed, q)
    }

    /// What the span being explored has left to keep.
    #[verifier::opaque]
    pub open spec fn scan_kept(&self, cur: Surface<P>, stack: Seq<Span>, scan: Scan) -> bool {
        &&& scan.shaped()
        &&& forall|q: Point| #[trigger]
            scan.span.behind(q) && cur.at(q) == Some(self.inside) ==> covered(stack, q)
        &&& forall|q: Point| #[trigger]
            scan.active(q) && cur.at(q) == Some(self.inside) ==> self.base.joined(self.seed, q)
        &&& forall|k: int|
            scan.from <= k < scan.at ==> #[trigger] self.painted(cur, (k, scan.span.row as int))
    }

    /// All that holds of a flood in progress.
    pub open spec fn inv(&self, cur: Surface<P>, stack: Seq<Span>, scan: Scan) -> bool {
        &&& self.frame(cur)
        &&& self.sound(cur)
        &&& self.seed_kept(cur, stack, scan)
        &&& self.edge_kept(cur, stack, scan)
        &&& self.backs_kept(cur, stack, scan)
        &&& self.spans_sound(cur, stack)
        &&& self.scan_kept(cur, stack, scan)
    }
}

/// A stack with one more span lies over what it lay over before and over
/// what the new span lies over.
pub proof fn lemma_covered_push(stack: Seq<Span>, s: Span)
    ensures
        forall|q: Point| #[trigger] covered(stack.push(s), q) <==> covered(stack, q) || s.covers(q),
{
    let more = stack.push(s);
    assert forall|q: Point| #[trigger] covered(more, q) <==> covered(stack, q) || s.covers(q) by {
        if covered(stack, q) {
            let i = choose|i: int| 0 <= i < stack.len() && #[trigger] stack[i].covers(q);
            assert(more[i].covers(q));
        }
        if s.covers(q) {
            assert(more[stack.len() as int].covers(q));
        }
    }
}

/// The two spans that a flood starts with keep all that a flood owes.
pub proof fn lemma_flood_starts<P>(fl: Flood<P>, stack: Seq<Span>)
    requires
        fl.base.at(fl.seed) == Some(fl.inside),
        fl.inside != fl.fill,
        stack.len() == 2,
        stack[0] == (Span {
            left: fl.seed.0 as i64,
            right: fl.seed.0 as i64,
            row: fl.seed.1 as i64,
            step: 1,
        }),
        stack[1] == (Span {
            left: fl.seed.0 as i64,
            right: fl.seed.0 as i64,
            row: (fl.seed.1 - 1) as i64,
            step: -1i64,
        }),
    ensures
        fl.inv(fl.base, stack, Scan::idle()),
{
    reveal(Flood::frame);
    reveal(Flood::sound);
    reveal(Flood::seed_kept);
    reveal(Flood::edge_kept);
    reveal(Flood::backs_kept);
    reveal(Flood::spans_sound);
    reveal(Flood::scan_kept);
    let scan = Scan::idle();
    let cur = fl.base;
    assert(stack[0].covers(fl.seed));
    assert forall|i: int, q: Point|
        0 <= i < stack.len() && #[trigger] stack[i].behind(q) && cur.at(q) == Some(
            fl.inside,
        ) implies fl.pending(stack, scan, q) by {
        if i == 0 {
            assert(stack[1].covers(q));
        }
    }
    assert forall|i: int, q: Point|
        0 <= i < stack.len() && #[trigger] stack[i].covers(q) && cur.at(q) == Some(
            fl.inside,
        ) implies fl.base.joined(fl.seed, q) by {
        lemma_joined_self(fl.base, fl.seed);
        if i == 1 {
            lemma_joined_step(fl.base, fl.seed, fl.seed, q);
        }
    }
}

/// Taking the top span off the stack to explore it keeps all that the flood
/// owes.
pub proof fn lemma_span_taken<P>(fl: Flood<P>, cur: Surface<P>, stack: Seq<Span>)
    requires
        fl.inv(cur, stack, Scan::idle()),
        stack.len() > 0,
    ensures
        stack.last().valid(),
        fl.inv(
            cur,
            stack.drop_last(),
            Scan { span: stack.last(), from: stack.last().left as int, at: stack.last().left as int },
        ),
{
    reveal(Flood::seed_kept);
    reveal(Flood::edge_kept);
    reveal(Flood::backs_kept);
    reveal(Flood::spans_sound);
    reveal(Flood::scan_kept);
    let rest = stack.drop_last();
    let top = stack.last();
    let scan = Scan { span: top, from: top.left as int, at: top.left as int };
    assert(rest.push(top) =~= stack);
    assert(top.valid());
    assert forall|q: Point| #[trigger] scan.active(q) && cur.at(q) == Some(
        fl.inside,
    ) implies fl.base.joined(fl.seed, q) by {
        assert(stack[stack.len() - 1].covers(q));
    }
}

/// Once a span has been looked at from end to end, it has nothing left to
/// keep.
pub proof fn lemma_span_done<P>(fl: Flood<P>, cur: Surface<P>, stack: Seq<Span>, scan: Scan)
    requires
        fl.inv(cur, stack, scan),
        scan.at > scan.span.right,
        scan.from == scan.at,
    ensures
        fl.inv(cur, stack, Scan::idle()),
{
    reveal(Flood::seed_kept);
    reveal(Flood::edge_kept);
    reveal(Flood::backs_kept);
    reveal(Flood::scan_kept);
}

/// When no span is left, the painted pixels are the seed's region.
pub proof fn lemma_flood_ends<P>(fl: Flood<P>, cur: Surface<P>)
    requires
        fl.inv(cur, Seq::<Span>::empty(), Scan::idle()),
    ensures
        cur.same_size(fl.base),
        forall|p: Point| #[trigger]
            cur.at(p) == if fl.base.joined(fl.seed, p) {
                Some(fl.fill)
            } else {
                fl.base.at(p)
            },
{
    reveal(Flood::frame);
    reveal(Flood::sound);
    reveal(Flood::seed_kept);
    reveal(Flood::edge_kept);
    let done = Set::new(|p: Point| fl.painted(cur, p));
    lemma_closed_set_holds_region(fl.base, fl.seed, done);
    assert forall|p: Point| #[trigger]
        cur.at(p) == if fl.base.joined(fl.seed, p) {
            Some(fl.fill)
        } else {
            fl.base.at(p)
        } by {
        if !(fl.base.joined(fl.seed, p)) {
            assert(!fl.painted(cur, p));
        }
    }
}

} // verus!
