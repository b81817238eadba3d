//! Sweeping a surface for its regions.

use vstd::prelude::*;
use crate::fill::fill;
use crate::image::Image;
use crate::laws::lemma_cleared_surface_lists_nothing;
use crate::rect::Rect;
use crate::region::{
    lemma_joined_carries,
    lemma_joined_same_color,
    lemma_joined_self,
    lemma_joined_symmetric,
    lemma_joined_transitive,
    precedes,
};
use crate::surface::{Point, Surface};

verus! {

/// `records` lists the regions of the surface `s` that do not have the value
/// `nv`, and `seeds` names the leading pixel of each: one record for each such
/// region, with the region's colour and the smallest box around it, in the
/// order in which a row-by-row reading meets the leading pixels.
pub open spec fn is_region_list<P>(
    s: Surface<P>,
    nv: P,
    seeds: Seq<Point>,
    records: Seq<(Rect, P)>,
) -> bool {
    &&& seeds.len() == records.len()
    &&& forall|i: int| 0 <= i < seeds.len() ==> is_record(s, nv, seeds[i], #[trigger] records[i])
    &&& forall|i: int, j: int|
        0 <= i < j < seeds.len() ==> precedes(#[trigger] seeds[i], #[trigger] seeds[j])
    &&& forall|p: Point| #[trigger] s.floods(p, nv) ==> in_regions(s, seeds, p)
}

/// `record` holds the colour of the region that `a` leads and the smallest
/// box around it, and that colour is not `nv`.
pub open spec fn is_record<P>(s: Surface<P>, nv: P, a: Point, record: (Rect, P)) -> bool {
    &&& s.floods(a, nv)
    &&& s.leads(a)
    &&& s.at(a) == Some(record.1)
    &&& s.bounded_by(a, record.0)
}

/// `p` belongs to the region of one of the seeds.
pub open spec fn in_regions<P>(s: Surface<P>, seeds: Seq<Point>, p: Point) -> bool {
    exists|i: int| 0 <= i < seeds.len() && s.joined(#[trigger] seeds[i], p)
}

/// `cur` is `base` with the regions of the seeds painted with `nv`.
spec fn swept<P>(base: Surface<P>, cur: Surface<P>, nv: P, seeds: Seq<Point>) -> bool {
    &&& cur.same_size(base)
    &&& forall|p: Point| #[trigger]
        cur.at(p) == if in_regions(base, seeds, p) {
            Some(nv)
        } else {
            base.at(p)
        }
}

/// Every pixel that comes before `pos` has the value `nv`.
spec fn passed<P>(cur: Surface<P>, nv: P, pos: Point) -> bool {
    forall|p: Point| precedes(p, pos) && cur.at(p) is Some ==> #[trigger] cur.at(p) == Some(nv)
}

/// What holds of the regions found before the sweep reaches `pos`.
spec fn listed<P>(
    s: Surface<P>,
    nv: P,
    seeds: Seq<Point>,
    records: Seq<(Rect, P)>,
    pos: Point,
) -> bool {
    &&& seeds.len() == records.len()
    &&& forall|i: int|
        0 <= i < seeds.len() ==> is_record(s, nv, seeds[i], #[trigger] records[i]) && precedes(
            seeds[i],
            pos,
        )
    &&& forall|i: int, j: int|
        0 <= i < j < seeds.len() ==> precedes(#[trigger] seeds[i], #[trigger] seeds[j])
}

/// A pixel that the sweep has not painted yet has its region untouched, and
/// that region is the same on the surface as it was and as it is.
proof fn lemma_region_untouched<P>(
    base: Surface<P>,
    cur: Surface<P>,
    nv: P,
    seeds: Seq<Point>,
    a: Point,
)
    requires
        swept(base, cur, nv, seeds),
        cur.floods(a, nv),
    ensures
        base.at(a) == cur.at(a),
        forall|b: Point| base.joined(a, b) <==> cur.joined(a, b),
{
    assert(cur.at(a) == if in_regions(base, seeds, a) {
        Some(nv)
    } else {
        base.at(a)
    });
    assert forall|p: Point| #[trigger] base.joined(a, p) implies cur.at(p) == base.at(p) by {
        if in_regions(base, seeds, p) {
            let i = choose|i: int| 0 <= i < seeds.len() && base.joined(#[trigger] seeds[i], p);
            lemma_joined_symmetric(base, a, p);
            lemma_joined_transitive(base, seeds[i], p, a);
        }
    }
    assert forall|p: Point| #[trigger] cur.joined(a, p) implies base.at(p) == cur.at(p) by {
        lemma_joined_same_color(cur, a, p);
    }
    lemma_joined_carries(base, cur, a);
    lemma_joined_carries(cur, base, a);
}

/// Flooding the region of the pixel that the sweep has reached adds that
/// region to the list.
proof fn lemma_region_found<P>(
    base: Surface<P>,
    cur: Surface<P>,
    now: Surface<P>,
    nv: P,
    seeds: Seq<Point>,
    records: Seq<(Rect, P)>,
    a: Point,
    rect: Rect,
    color: P,
)
    requires
        swept(base, cur, nv, seeds),
        passed(cur, nv, a),
        listed(base, nv, seeds, records, a),
        cur.floods(a, nv),
        cur.at(a) == Some(color),
        now.same_size(cur),
        forall|p: Point| #[trigger] now.at(p) == cur.flooded(a, nv, p),
        cur.bounded_by(a, rect),
    ensures
        swept(base, now, nv, seeds.push(a)),
        passed(now, nv, (a.0 + 1, a.1)),
        listed(base, nv, seeds.push(a), records.push((rect, color)), (a.0 + 1, a.1)),
{
    let more = seeds.push(a);
    lemma_region_untouched(base, cur, nv, seeds, a);
    assert forall|p: Point| in_regions(base, more, p) <==> in_regions(base, seeds, p)
        || base.joined(a, p) by {
        if in_regions(base, seeds, p) {
            let i = choose|i: int| 0 <= i < seeds.len() && base.joined(#[trigger] seeds[i], p);
            assert(more[i] == seeds[i]);
        }
        if base.joined(a, p) {
            assert(more[seeds.len() as int] == a);
        }
    }
    assert forall|p: Point| precedes(p, (a.0 + 1, a.1)) && now.at(p) is Some implies #[trigger] now.at(
        p,
    ) == Some(nv) by {
        lemma_joined_self(cur, a);
    }
    assert(base.leads(a)) by {
        assert forall|b: Point| #[trigger] base.joined(a, b) implies a == b || precedes(a, b) by {
            lemma_joined_same_color(cur, a, b);
        }
    }
    assert forall|i: int, j: int| 0 <= i < j < more.len() implies precedes(
        #[trigger] more[i],
        #[trigger] more[j],
    ) by {
        if !(j < seeds.len()) {
            assert(is_record(base, nv, seeds[i], records[i]));
        }
    }
}

/// Where the pixel that the sweep has reached needs no flood, the sweep
/// moves on with the list as it is.
proof fn lemma_region_absent<P>(
    base: Surface<P>,
    cur: Surface<P>,
    now: Surface<P>,
    nv: P,
    seeds: Seq<Point>,
    records: Seq<(Rect, P)>,
    a: Point,
)
    requires
        swept(base, cur, nv, seeds),
        passed(cur, nv, a),
        listed(base, nv, seeds, records, a),
        !cur.floods(a, nv),
        now.same_size(cur),
        forall|p: Point| #[trigger] now.at(p) == cur.flooded(a, nv, p),
    ensures
        swept(base, now, nv, seeds),
        passed(now, nv, (a.0 + 1, a.1)),
        listed(base, nv, seeds, records, (a.0 + 1, a.1)),
{
}

/// A sweep that has passed the last pixel of a row has passed all that comes
/// before the next row.
proof fn lemma_row_swept<P>(
    base: Surface<P>,
    cur: Surface<P>,
    nv: P,
    seeds: Seq<Point>,
    records: Seq<(Rect, P)>,
    x: int,
    y: int,
)
    requires
        cur.same_size(base),
        passed(cur, nv, (x, y)),
        listed(base, nv, seeds, records, (x, y)),
        x >= cur.width || x > i32::MAX,
    ensures
        passed(cur, nv, (0, y + 1)),
        listed(base, nv, seeds, records, (0, y + 1)),
{
}

/// A sweep that has passed the last row has listed every region.
proof fn lemma_surface_swept<P>(
    base: Surface<P>,
    cur: Surface<P>,
    nv: P,
    seeds: Seq<Point>,
    records: Seq<(Rect, P)>,
    y: int,
)
    requires
        swept(base, cur, nv, seeds),
        passed(cur, nv, (0, y)),
        listed(base, nv, seeds, records, (0, y)),
        y >= cur.height || y > i32::MAX,
    ensures
        is_region_list(base, nv, seeds, records),
        forall|p: Point| #[trigger]
            cur.at(p) == if base.at(p) is Some {
                Some(nv)
            } else {
                None::<P>
            },
{
    assert forall|p: Point| #[trigger] base.floods(p, nv) implies in_regions(base, seeds, p) by {
        assert(cur.at(p) == if in_regions(base, seeds, p) {
            Some(nv)
        } else {
            base.at(p)
        });
    }
}

/// The number of coordinates along a side of the given length: its pixels
/// are those that an `i32` can name.
fn reach(side: usize) -> (n: i64)
    ensures
        n == if side > i32::MAX {
            i32::MAX + 1
        } else {
            side as int
        },
{
    if side > 0x7fff_ffff {
        0x8000_0000
    } else {
        side as i64
    }
}

/// Clears the surface to the value `nv` and lists the regions that it held.
///
/// The surface is read row by row, each row from the left, and each pixel
/// that does not have the value `nv` when it is met has its region flooded
/// with `nv`. The result holds, for each region so found and in the order in
/// which it was found, the smallest box around the region and the colour that
/// the region had.
pub fn bboxes<I: Image>(nv: I::Pixel, img: &mut I) -> (r: Vec<(Rect, I::Pixel)>)
    ensures
        final(img)@.same_size(old(img)@),
        forall|p: Point| #[trigger]
            final(img)@.at(p) == if old(img)@.at(p) is Some {
                Some(nv)
            } else {
                None::<I::Pixel>
            },
        exists|seeds: Seq<Point>| is_region_list(old(img)@, nv, seeds, r@),
        r@.len() == 0 <==> forall|p: Point| #[trigger]
            old(img)@.at(p) is Some ==> old(img)@.at(p) == Some(nv),
{
    let rows = reach(img.height());
    let cols = reach(img.width());
    let mut rects: Vec<(Rect, I::Pixel)> = Vec::new();
    let ghost base = img@;
    let ghost mut seeds: Seq<Point> = Seq::empty();
    let mut y: i64 = 0;
    while y < rows
        invariant
            0 <= y <= rows,
            rows == if base.height > i32::MAX {
                i32::MAX + 1
            } else {
                base.height as int
            },
            cols == if base.width > i32::MAX {
                i32::MAX + 1
            } else {
                base.width as int
            },
            swept(base, img@, nv, seeds),
            passed(img@, nv, (0, y as int)),
            listed(base, nv, seeds, rects@, (0, y as int)),
        decreases rows - y,
    {
        let mut x: i64 = 0;
        while x < cols
            invariant
                0 <= y < rows,
                0 <= x <= cols,
                rows == if base.height > i32::MAX {
                    i32::MAX + 1
                } else {
                    base.height as int
                },
                cols == if base.width > i32::MAX {
                    i32::MAX + 1
                } else {
                    base.width as int
                },
                swept(base, img@, nv, seeds),
                passed(img@, nv, (x as int, y as int)),
                listed(base, nv, seeds, rects@, (x as int, y as int)),
            decreases cols - x,
        {
            let ghost cur = img@;
            let ghost before = rects@;
            let color = img.get_pixel(x as i32, y as i32).unwrap();
            match fill(x as i32, y as i32, nv, img) {
                Some(rect) => {
                    rects.push((rect, color));
                    proof {
                        lemma_region_found(
                            base,
                            cur,
                            img@,
                            nv,
                            seeds,
                            before,
                            (x as int, y as int),
                            rect,
                            color,
                        );
                        seeds = seeds.push((x as int, y as int));
                    }
                },
                None => {
                    proof {
                        lemma_region_absent(base, cur, img@, nv, seeds, before, (x as int, y as int));
                    }
                },
            }
            x = x + 1;
        }
        proof {
            lemma_row_swept(base, img@, nv, seeds, rects@, x as int, y as int);
        }
        y = y + 1;
    }
    proof {
        lemma_surface_swept(base, img@, nv, seeds, rects@, y as int);
        lemma_cleared_surface_lists_nothing(base, nv, seeds, rects@);
    }
    rects
}

} // verus!
