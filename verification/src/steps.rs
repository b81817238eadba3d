//! The steps of a flood: what painting a run of pixels and adding spans to
//! the stack does to what the flood owes.

use vstd::prelude::*;
use crate::frontier::{covered, lemma_covered_push, Flood, Scan, Span};
use crate::paint::{clear, repainted};
use crate::region::{adjacent, lemma_joined_run, lemma_joined_step};
use crate::surface::{Point, Surface};

verus! {

/// `after` is `stack` with spans added on top.
pub open spec fn grown_from(after: Seq<Span>, stack: Seq<Span>) -> bool {
    &&& stack.len() <= after.len()
    &&& forall|i: int| 0 <= i < stack.len() ==> #[trigger] after[i] == stack[i]
}

/// What a span on top of an older stack was found from is painted.
pub open spec fn found_from_paint<P>(
    fl: Flood<P>,
    now: Surface<P>,
    after: Seq<Span>,
    stack: Seq<Span>,
) -> bool {
    forall|i: int, q: Point|
        stack.len() <= i < after.len() && #[trigger] after[i].behind(q) ==> fl.painted(now, q)
}

/// Whatever was still to be looked at, and has the flooded colour, is still
/// to be looked at.
pub open spec fn carried<P>(
    fl: Flood<P>,
    now: Surface<P>,
    stack: Seq<Span>,
    scan: Scan,
    after: Seq<Span>,
    next: Scan,
) -> bool {
    forall|q: Point|
        now.at(q) == Some(fl.inside) && #[trigger] fl.pending(stack, scan, q) ==> fl.pending(
            after,
            next,
            q,
        )
}

/// What lay under the older stack lies under the grown one.
proof fn lemma_covered_grown(after: Seq<Span>, stack: Seq<Span>)
    requires
        grown_from(after, stack),
    ensures
        forall|q: Point| #[trigger] covered(stack, q) ==> covered(after, q),
{
    assert forall|q: Point| #[trigger] covered(stack, q) implies covered(after, q) by {
        let i = choose|i: int| 0 <= i < stack.len() && #[trigger] stack[i].covers(q);
        assert(after[i] == stack[i]);
    }
}

/// Painting a run of the seed's region keeps the frame and the soundness of
/// what is painted.
proof fn lemma_repaint_sound<P>(
    fl: Flood<P>,
    cur: Surface<P>,
    now: Surface<P>,
    y: int,
    lo: int,
    hi: int,
)
    requires
        fl.frame(cur),
        fl.sound(cur),
        repainted(now, cur, y, lo, hi, fl.inside, fl.fill),
        forall|j: int| lo <= j < hi ==> fl.base.joined(fl.seed, (j, y)),
    ensures
        fl.frame(now),
        fl.sound(now),
        forall|j: int| lo <= j < hi ==> #[trigger] fl.painted(now, (j, y)),
        forall|p: Point| #[trigger] now.at(p) == Some(fl.inside) ==> cur.at(p) == Some(fl.inside),
        forall|p: Point| #[trigger] fl.painted(cur, p) ==> fl.painted(now, p),
        forall|p: Point| #[trigger]
            fl.painted(now, p) ==> fl.painted(cur, p) || (p.1 == y && lo <= p.0 < hi),
{
    reveal(repainted);
    reveal(Flood::frame);
    reveal(Flood::sound);
    assert forall|p: Point| #[trigger] fl.painted(now, p) implies fl.base.joined(fl.seed, p) by {
        if !(p.1 == y && lo <= p.0 < hi) {
            assert(fl.painted(cur, p));
        }
    }
    assert forall|p: Point| #[trigger] now.at(p) == Some(fl.inside) implies cur.at(p) == Some(
        fl.inside,
    ) by {}
}

/// The pixels of row `y` from column `lo` up to, not including, column `hi`
/// are what `now` has painted and `cur` had not.
pub open spec fn newly_painted<P>(
    fl: Flood<P>,
    cur: Surface<P>,
    now: Surface<P>,
    y: int,
    lo: int,
    hi: int,
) -> bool {
    &&& fl.sound(now)
    &&& forall|j: int| lo <= j < hi ==> #[trigger] fl.painted(now, (j, y))
    &&& forall|p: Point| #[trigger]
        fl.painted(now, p) ==> fl.painted(cur, p) || (p.1 == y && lo <= p.0 < hi)
}

/// What the seed and the spans of the stack were owed before a run was
/// painted, they are owed after.
proof fn lemma_stack_kept<P>(
    fl: Flood<P>,
    cur: Surface<P>,
    now: Surface<P>,
    stack: Seq<Span>,
    scan: Scan,
    after: Seq<Span>,
    next: Scan,
)
    requires
        fl.seed_kept(cur, stack, scan),
        fl.backs_kept(cur, stack, scan),
        fl.spans_sound(cur, stack),
        fl.frame(now),
        fl.sound(now),
        forall|p: Point| #[trigger] now.at(p) == Some(fl.inside) ==> cur.at(p) == Some(fl.inside),
        grown_from(after, stack),
        carried(fl, now, stack, scan, after, next),
        found_from_paint(fl, now, after, stack),
        forall|i: int| stack.len() <= i < after.len() ==> #[trigger] after[i].valid(),
    ensures
        fl.seed_kept(now, after, next),
        fl.backs_kept(now, after, next),
        fl.spans_sound(now, after),
{
    reveal(Flood::frame);
    reveal(Flood::sound);
    reveal(Flood::seed_kept);
    reveal(Flood::backs_kept);
    reveal(Flood::spans_sound);
    assert forall|i: int, q: Point|
        0 <= i < after.len() && #[trigger] after[i].covers(q) && now.at(q) == Some(
            fl.inside,
        ) implies fl.base.joined(fl.seed, q) by {
        if !(i < stack.len()) {
            let from = (q.0, q.1 - after[i].step);
            assert(after[i].valid());
            assert(after[i].behind(from));
            assert(now.at(q) == fl.base.at(q) || (fl.base.at(q) == Some(fl.inside) && now.at(q)
                == Some(fl.fill)));
            lemma_joined_step(fl.base, fl.seed, from, q);
        }
    }
}

/// What the span being explored was owed before a run was painted, it is
/// owed after.
proof fn lemma_scan_kept<P>(
    fl: Flood<P>,
    cur: Surface<P>,
    now: Surface<P>,
    stack: Seq<Span>,
    scan: Scan,
    after: Seq<Span>,
    next: Scan,
)
    requires
        fl.scan_kept(cur, stack, scan),
        forall|p: Point| #[trigger] now.at(p) == Some(fl.inside) ==> cur.at(p) == Some(fl.inside),
        grown_from(after, stack),
        next.span == scan.span,
        scan.at <= next.at,
        0 <= next.from <= next.at <= 0x8000_0001,
        forall|k: int| next.from <= k < next.at ==> #[trigger] fl.painted(now, (k, scan.span.row as int)),
    ensures
        fl.scan_kept(now, after, next),
{
    reveal(Flood::scan_kept);
    lemma_covered_grown(after, stack);
    assert forall|q: Point| #[trigger] next.active(q) && now.at(q) == Some(
        fl.inside,
    ) implies fl.base.joined(fl.seed, q) by {
        assert(scan.active(q));
    }
}

/// The span that opens the row behind the span `t`, for the columns from
/// `lo` to `hi`.
pub open spec fn span_behind(t: Span, lo: int, hi: int) -> Span {
    Span { left: lo as i64, right: hi as i64, row: (t.row - t.step) as i64, step: (-t.step) as i64 }
}

/// The span that opens the row ahead of the span `t`, for the columns from
/// `lo` to `hi`.
pub open spec fn span_ahead(t: Span, lo: int, hi: int) -> Span {
    Span { left: lo as i64, right: hi as i64, row: (t.row + t.step) as i64, step: t.step }
}

/// The stack after the pixels left of the span have been painted from
/// column `lo` on.
pub open spec fn stack_after_left(stack: Seq<Span>, t: Span, lo: int) -> Seq<Span> {
    if lo < t.left {
        stack.push(span_behind(t, lo, t.left - 1))
    } else {
        stack
    }
}

/// The stack after a run of the span has been painted, from column `from` up
/// to, not including, column `hi`.
pub open spec fn stack_after_run(stack: Seq<Span>, t: Span, from: int, hi: int) -> Seq<Span> {
    let ahead = if hi > from {
        stack.push(span_ahead(t, from, hi - 1))
    } else {
        stack
    };
    if hi - 1 > t.right {
        ahead.push(span_behind(t, t.right + 1, hi - 1))
    } else {
        ahead
    }
}

/// The neighbours of what was painted left of the span are painted, or
/// still to be looked at.
proof fn lemma_left_edge<P>(
    fl: Flood<P>,
    cur: Surface<P>,
    now: Surface<P>,
    stack: Seq<Span>,
    scan: Scan,
    lo: int,
)
    requires
        fl.edge_kept(cur, stack, scan),
        scan.span.valid(),
        scan.from == scan.at == scan.span.left,
        0 <= lo <= scan.span.left,
        repainted(now, cur, scan.span.row as int, lo, scan.span.left as int, fl.inside, fl.fill),
        cur.at((lo - 1, scan.span.row as int)) != Some(fl.inside),
        forall|p: Point| #[trigger]
            fl.painted(now, p) ==> fl.painted(cur, p) || (p.1 == scan.span.row && lo <= p.0
                < scan.span.left),
    ensures
        fl.edge_kept(
            now,
            stack_after_left(stack, scan.span, lo),
            Scan { span: scan.span, from: lo, at: scan.at },
        ),
{
    reveal(repainted);
    reveal(Flood::edge_kept);
    let t = scan.span;
    let left = t.left as int;
    let back = span_behind(t, lo, left - 1);
    lemma_covered_push(stack, back);
}

/// Painting leftwards from the start of the span being explored, and adding
/// the span for what that opens on the row behind, keeps all that the flood
/// owes.
pub proof fn lemma_left_painted<P>(
    fl: Flood<P>,
    cur: Surface<P>,
    now: Surface<P>,
    stack: Seq<Span>,
    scan: Scan,
    lo: int,
)
    requires
        fl.inv(cur, stack, scan),
        scan.span.valid(),
        scan.from == scan.at == scan.span.left,
        cur.at((scan.span.left as int, scan.span.row as int)) == Some(fl.inside),
        0 <= lo <= scan.span.left,
        repainted(now, cur, scan.span.row as int, lo, scan.span.left as int, fl.inside, fl.fill),
        cur.at((lo - 1, scan.span.row as int)) != Some(fl.inside),
    ensures
        fl.inv(
            now,
            stack_after_left(stack, scan.span, lo),
            Scan { span: scan.span, from: lo, at: scan.at },
        ),
        run_opens(fl, now, Scan { span: scan.span, from: lo, at: scan.at }),
        newly_painted(fl, cur, now, scan.span.row as int, lo, scan.span.left as int),
{
    reveal(repainted);
    let t = scan.span;
    let row = t.row as int;
    let left = t.left as int;
    let after = stack_after_left(stack, t, lo);
    let next = Scan { span: t, from: lo, at: scan.at };
    let back = span_behind(t, lo, left - 1);
    assert(fl.base.joined(fl.seed, (left, row))) by {
        reveal(Flood::scan_kept);
        assert(scan.active((left, row)));
    }
    assert forall|j: int| lo <= j < left + 1 implies fl.base.at((j, row)) == fl.base.at(
        fl.seed,
    ) by {
        reveal(Flood::frame);
        assert(cur.at((j, row)) == Some(fl.inside));
    }
    lemma_joined_run(fl.base, fl.seed, row, lo, left + 1, left);
    lemma_repaint_sound(fl, cur, now, row, lo, left);
    lemma_covered_push(stack, back);
    lemma_stack_kept(fl, cur, now, stack, scan, after, next);
    lemma_scan_kept(fl, cur, now, stack, scan, after, next);
    lemma_left_edge(fl, cur, now, stack, scan, lo);
}

/// What stands to the left of the run that is about to be painted: painted
/// pixels up to a pixel of the flooded colour, or a pixel of another colour.
pub open spec fn run_opens<P>(fl: Flood<P>, cur: Surface<P>, scan: Scan) -> bool {
    let row = scan.span.row as int;
    if scan.from < scan.at {
        cur.at((scan.at, row)) == Some(fl.inside)
    } else {
        cur.at((scan.at - 1, row)) != Some(fl.inside) || cur.at((scan.at, row)) != Some(fl.inside)
    }
}

/// The scan has stopped painting at column `hi` and moved on to column
/// `to` over pixels that do not have the flooded colour.
pub open spec fn run_closed<P>(fl: Flood<P>, now: Surface<P>, row: int, hi: int, to: int) -> bool {
    &&& hi < to <= 0x8000_0001
    &&& now.at((hi, row)) != Some(fl.inside)
    &&& clear(now, row, hi + 1, to, fl.inside)
}

/// The neighbours of a run painted within the span are painted, or still to
/// be looked at.
proof fn lemma_run_edge<P>(
    fl: Flood<P>,
    cur: Surface<P>,
    now: Surface<P>,
    stack: Seq<Span>,
    scan: Scan,
    hi: int,
    to: int,
)
    requires
        fl.edge_kept(cur, stack, scan),
        fl.scan_kept(cur, stack, scan),
        scan.span.valid(),
        scan.at <= scan.span.right,
        run_opens(fl, cur, scan),
        scan.at <= hi,
        repainted(now, cur, scan.span.row as int, scan.at, hi, fl.inside, fl.fill),
        run_closed(fl, now, scan.span.row as int, hi, to),
        forall|p: Point| #[trigger]
            fl.painted(now, p) ==> fl.painted(cur, p) || (p.1 == scan.span.row && scan.at <= p.0
                < hi),
        carried(
            fl,
            now,
            stack,
            scan,
            stack_after_run(stack, scan.span, scan.from, hi),
            Scan { span: scan.span, from: to, at: to },
        ),
    ensures
        fl.edge_kept(
            now,
            stack_after_run(stack, scan.span, scan.from, hi),
            Scan { span: scan.span, from: to, at: to },
        ),
{
    reveal(repainted);
    reveal(Flood::edge_kept);
    reveal(Flood::scan_kept);
    let t = scan.span;
    let row = t.row as int;
    let after = stack_after_run(stack, t, scan.from, hi);
    let next = Scan { span: t, from: to, at: to };
    let ahead = span_ahead(t, scan.from, hi - 1);
    let back = span_behind(t, t.right + 1, hi - 1);
    let mid = if hi > scan.from {
        stack.push(ahead)
    } else {
        stack
    };
    lemma_covered_push(stack, ahead);
    lemma_covered_push(mid, back);
    assert forall|p: Point, q: Point|
        fl.painted(now, p) && #[trigger] adjacent(p, q) && now.at(q) == Some(
            fl.inside,
        ) implies fl.pending(after, next, q) || next.exempt(p, q) by {
        if p.1 == row && scan.at <= p.0 < hi {
            if q == (scan.at - 1, row) && scan.from < scan.at {
                assert(fl.painted(cur, q));
            }
            if q == (p.0, row - t.step) && p.0 <= t.right {
                assert(t.behind(q));
            }
        }
    }
}

/// Painting a run within the span being explored, adding the spans for
/// what that opens on the rows ahead and behind, and moving on to the next
/// pixel of the flooded colour keeps all that the flood owes.
pub proof fn lemma_run_painted<P>(
    fl: Flood<P>,
    cur: Surface<P>,
    now: Surface<P>,
    stack: Seq<Span>,
    scan: Scan,
    hi: int,
    to: int,
)
    requires
        fl.inv(cur, stack, scan),
        scan.span.valid(),
        scan.at <= scan.span.right,
        run_opens(fl, cur, scan),
        scan.at <= hi,
        repainted(now, cur, scan.span.row as int, scan.at, hi, fl.inside, fl.fill),
        run_closed(fl, now, scan.span.row as int, hi, to),
    ensures
        fl.inv(
            now,
            stack_after_run(stack, scan.span, scan.from, hi),
            Scan { span: scan.span, from: to, at: to },
        ),
        run_opens(fl, now, Scan { span: scan.span, from: to, at: to }),
        newly_painted(fl, cur, now, scan.span.row as int, scan.at, hi),
        0 <= scan.from <= scan.at,
        scan.from < scan.at ==> scan.at < hi,
{
    reveal(repainted);
    reveal(clear);
    let t = scan.span;
    let row = t.row as int;
    let after = stack_after_run(stack, t, scan.from, hi);
    let next = Scan { span: t, from: to, at: to };
    let ahead = span_ahead(t, scan.from, hi - 1);
    let back = span_behind(t, t.right + 1, hi - 1);
    let mid = if hi > scan.from {
        stack.push(ahead)
    } else {
        stack
    };
    assert(0 <= scan.from <= scan.at) by {
        reveal(Flood::scan_kept);
    }
    if scan.at < hi {
        assert(fl.base.joined(fl.seed, (scan.at, row))) by {
            reveal(Flood::scan_kept);
            assert(scan.active((scan.at, row)));
        }
        assert forall|j: int| scan.at <= j < hi implies fl.base.at((j, row)) == fl.base.at(
            fl.seed,
        ) by {
            reveal(Flood::frame);
            assert(cur.at((j, row)) == Some(fl.inside));
        }
        lemma_joined_run(fl.base, fl.seed, row, scan.at, hi, scan.at);
    }
    lemma_repaint_sound(fl, cur, now, row, scan.at, hi);
    assert forall|k: int| scan.from <= k < hi implies #[trigger] fl.painted(now, (k, row)) by {
        reveal(Flood::scan_kept);
        if k < scan.at {
            assert(fl.painted(cur, (k, row)));
        }
    }
    if hi > scan.from {
        assert(fl.painted(now, (hi - 1, row)));
    }
    lemma_covered_push(stack, ahead);
    lemma_covered_push(mid, back);
    lemma_stack_kept(fl, cur, now, stack, scan, after, next);
    lemma_scan_kept(fl, cur, now, stack, scan, after, next);
    lemma_run_edge(fl, cur, now, stack, scan, hi, to);
}

} // verus!
