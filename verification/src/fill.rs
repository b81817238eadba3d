//! Span filling: flooding the region around a seed one run of pixels at a
//! time.

use vstd::prelude::*;
use vstd::laws_eq::obeys_concrete_eq;
use crate::bounds::{lemma_box_ends, lemma_box_grows, lemma_box_starts, lemma_repaint_tally, Marks};
use crate::frontier::{
    lemma_flood_ends,
    lemma_flood_starts,
    lemma_span_done,
    lemma_span_taken,
    Flood,
    Scan,
    Span,
};
use crate::image::Image;
use crate::laws::lemma_box_within_surface;
use crate::paint::{paint_left, paint_right, probe, skip_right};
use crate::rect::Rect;
use crate::steps::{
    lemma_left_painted,
    lemma_run_painted,
    run_opens,
    stack_after_left,
    stack_after_run,
};
use crate::surface::Point;

verus! {

/// Explores the span `t`: paints every run of the colour `c` that touches
/// it, and leaves on the stack a span for each stretch of a neighbouring row
/// that such a run has opened.
fn explore<I: Image>(
    img: &mut I,
    rect: &mut Rect,
    stack: &mut Vec<Span>,
    t: Span,
    c: I::Pixel,
    nv: I::Pixel,
    Ghost(fl): Ghost<Flood<I::Pixel>>,
    Ghost(marks): Ghost<Marks>,
) -> (m: Ghost<Marks>)
    requires
        c == fl.inside,
        nv == fl.fill,
        c != nv,
        t.valid(),
        fl.inv(old(img)@, old(stack)@, Scan { span: t, from: t.left as int, at: t.left as int }),
        fl.boxed(old(img)@, *old(rect), marks),
    ensures
        fl.inv(final(img)@, final(stack)@, Scan::idle()),
        fl.boxed(final(img)@, *final(rect), m@),
        final(img)@.tally(c, final(img)@.height) <= old(img)@.tally(c, old(img)@.height),
        final(img)@.tally(c, final(img)@.height) == old(img)@.tally(c, old(img)@.height)
            ==> final(stack)@ == old(stack)@,
{
    let mut from: i64 = t.left;
    let mut at: i64 = t.left;
    let ghost mut marks = marks;
    if probe(img, from, t.row, c) {
        let ghost cur = img@;
        let ghost before = *rect;
        let ghost scan = Scan { span: t, from: t.left as int, at: t.left as int };
        from = paint_left(img, rect, from, t.row, c, nv);
        if from < at {
            stack.push(Span { left: from, right: at - 1, row: t.row - t.step, step: -t.step });
        }
        proof {
            lemma_left_painted(fl, cur, img@, old(stack)@, scan, from as int);
            lemma_box_grows(fl, cur, img@, before, marks, t.row as int, from as int, at as int);
            marks = marks.moved(before, t.row as int, from as int, at as int);
            lemma_repaint_tally(img@, cur, t.row as int, from as int, at as int, c, nv);
        }
    }
    while at <= t.right
        invariant
            c == fl.inside,
            nv == fl.fill,
            c != nv,
            t.valid(),
            0 <= from <= at <= 0x8000_0001,
            from == at || at == t.left,
            fl.inv(img@, stack@, Scan { span: t, from: from as int, at: at as int }),
            run_opens(fl, img@, Scan { span: t, from: from as int, at: at as int }),
            fl.boxed(img@, *rect, marks),
            img@.tally(c, img@.height) <= old(img)@.tally(c, old(img)@.height),
            img@.tally(c, img@.height) == old(img)@.tally(c, old(img)@.height) ==> stack@ == old(
                stack,
            )@,
        decreases 0x8000_0001 - at,
    {
        let ghost cur = img@;
        let ghost before = *rect;
        let ghost below = stack@;
        let ghost scan = Scan { span: t, from: from as int, at: at as int };
        let hi = paint_right(img, rect, at, t.row, c, nv);
        if hi > from {
            stack.push(Span { left: from, right: hi - 1, row: t.row + t.step, step: t.step });
        }
        if hi - 1 > t.right {
            stack.push(Span { left: t.right + 1, right: hi - 1, row: t.row - t.step, step: -t.step });
        }
        let to = skip_right(img, hi + 1, t.right, t.row, c);
        proof {
            lemma_run_painted(fl, cur, img@, below, scan, hi as int, to as int);
            lemma_box_grows(fl, cur, img@, before, marks, t.row as int, at as int, hi as int);
            marks = marks.moved(before, t.row as int, at as int, hi as int);
            lemma_repaint_tally(img@, cur, t.row as int, at as int, hi as int, c, nv);
        }
        at = to;
        from = to;
    }
    proof {
        lemma_span_done(fl, img@, stack@, Scan { span: t, from: from as int, at: at as int });
    }
    Ghost(marks)
}

/// Floods the region of the pixel at `(x, y)` with the value `nv`.
///
/// Where the surface has no pixel at `(x, y)`, or that pixel already has the
/// value `nv`, nothing changes and the result is `None`. Otherwise every
/// pixel that a walk over pixels of the seed's colour reaches from the seed,
/// by steps up, down, left and right, takes the value `nv`, no other pixel
/// changes, and the result is the smallest box around those pixels, which
/// lies within the surface.
pub fn fill<I: Image>(x: i32, y: i32, nv: I::Pixel, img: &mut I) -> (r: Option<Rect>)
    ensures
        final(img)@.same_size(old(img)@),
        forall|p: Point| #[trigger]
            final(img)@.at(p) == old(img)@.flooded((x as int, y as int), nv, p),
        r is Some <==> old(img)@.floods((x as int, y as int), nv),
        r matches Some(rect) ==> {
            &&& old(img)@.bounded_by((x as int, y as int), rect)
            &&& 0 <= rect.left <= x <= rect.right < old(img)@.width
            &&& 0 <= rect.top <= y <= rect.bottom < old(img)@.height
        },
{
    proof {
        I::pixel_eq_is_equality();
        reveal(obeys_concrete_eq);
    }
    let inside = match img.get_pixel(x, y) {
        None => {
            return None;
        },
        Some(px) => {
            if px == nv {
                return None;
            }
            px
        },
    };
    let ghost fl = Flood { base: img@, seed: (x as int, y as int), inside: inside, fill: nv };
    let ghost mut marks = Marks { left: fl.seed, right: fl.seed, top: fl.seed, bottom: fl.seed };
    let mut rect = Rect::point(x, y);
    let mut stack: Vec<Span> = Vec::new();
    stack.push(Span { left: x as i64, right: x as i64, row: y as i64, step: 1 });
    stack.push(Span { left: x as i64, right: x as i64, row: y as i64 - 1, step: -1 });
    proof {
        lemma_flood_starts(fl, stack@);
        lemma_box_starts(fl, rect);
    }
    loop
        invariant
            inside == fl.inside,
            nv == fl.fill,
            inside != nv,
            fl.base == old(img)@,
            fl.seed == (x as int, y as int),
            fl.inv(img@, stack@, Scan::idle()),
            fl.boxed(img@, rect, marks),
        ensures
            stack@.len() == 0,
        decreases img@.tally(inside, img@.height), stack@.len(),
    {
        let ghost full = stack@;
        let t = match stack.pop() {
            Some(t) => t,
            None => {
                break ;
            },
        };
        proof {
            lemma_span_taken(fl, img@, full);
        }
        let m = explore(img, &mut rect, &mut stack, t, inside, nv, Ghost(fl), Ghost(marks));
        proof {
            marks = m@;
        }
    }
    proof {
        assert(stack@ =~= Seq::<Span>::empty());
        lemma_flood_ends(fl, img@);
        lemma_box_ends(fl, img@, rect, marks);
        lemma_box_within_surface(fl.base, fl.seed, rect);
    }
    Some(rect)
}

} // verus!
