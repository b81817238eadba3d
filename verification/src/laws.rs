//! What follows from the contracts of [`fill`](crate::fill::fill) and
//! [`bboxes`](crate::scan::bboxes): facts about region lists and boxes that
//! callers may rely on.

use vstd::prelude::*;
use crate::rect::Rect;
use crate::region::{
    lemma_joined_same_color,
    lemma_joined_self,
    lemma_joined_symmetric,
    lemma_joined_transitive,
    precedes,
};
use crate::scan::{in_regions, is_record, is_region_list};
use crate::surface::{Point, Surface};

verus! {

/// A surface lists no region exactly when each of its pixels already has the
/// fill value.
pub proof fn lemma_cleared_surface_lists_nothing<P>(
    s: Surface<P>,
    nv: P,
    seeds: Seq<Point>,
    records: Seq<(Rect, P)>,
)
    requires
        is_region_list(s, nv, seeds, records),
    ensures
        records.len() == 0 <==> forall|p: Point| #[trigger] s.at(p) is Some ==> s.at(p) == Some(nv),
{
    if records.len() == 0 {
        assert forall|p: Point| #[trigger] s.at(p) is Some implies s.at(p) == Some(nv) by {
            assert(s.floods(p, nv) ==> in_regions(s, seeds, p));
        }
    } else {
        assert(is_record(s, nv, seeds[0], records[0]));
    }
}

/// Two seeds of a region list whose regions share a pixel are the same seed.
pub proof fn lemma_regions_apart<P>(
    s: Surface<P>,
    nv: P,
    seeds: Seq<Point>,
    records: Seq<(Rect, P)>,
    i: int,
    j: int,
    p: Point,
)
    requires
        is_region_list(s, nv, seeds, records),
        0 <= i < seeds.len(),
        0 <= j < seeds.len(),
        s.joined(seeds[i], p),
        s.joined(seeds[j], p),
    ensures
        i == j,
{
    lemma_joined_symmetric(s, seeds[i], p);
    lemma_joined_symmetric(s, seeds[j], p);
    lemma_joined_transitive(s, seeds[i], p, seeds[j]);
    lemma_joined_transitive(s, seeds[j], p, seeds[i]);
    assert(is_record(s, nv, seeds[i], records[i]));
    assert(is_record(s, nv, seeds[j], records[j]));
}

/// Every pixel that does not have the fill value belongs to exactly one
/// region of the list; that region's record has the pixel's colour and a box
/// that encloses the pixel.
pub proof fn lemma_one_region_each<P>(
    s: Surface<P>,
    nv: P,
    seeds: Seq<Point>,
    records: Seq<(Rect, P)>,
    p: Point,
) -> (i: int)
    requires
        is_region_list(s, nv, seeds, records),
        s.floods(p, nv),
    ensures
        0 <= i < records.len(),
        s.joined(seeds[i], p),
        s.at(p) == Some(records[i].1),
        records[i].0.encloses(p),
        forall|j: int| 0 <= j < seeds.len() && s.joined(#[trigger] seeds[j], p) ==> j == i,
{
    let i = choose|i: int| 0 <= i < seeds.len() && s.joined(#[trigger] seeds[i], p);
    lemma_joined_same_color(s, seeds[i], p);
    assert forall|j: int| 0 <= j < seeds.len() && s.joined(#[trigger] seeds[j], p) implies j
        == i by {
        lemma_regions_apart(s, nv, seeds, records, i, j, p);
    }
    i
}

/// Each seed of one region list is a seed of any other region list of the
/// same surface.
proof fn lemma_seed_shared<P>(
    s: Surface<P>,
    nv: P,
    seeds: Seq<Point>,
    records: Seq<(Rect, P)>,
    others: Seq<Point>,
    other_records: Seq<(Rect, P)>,
    i: int,
) -> (j: int)
    requires
        is_region_list(s, nv, seeds, records),
        is_region_list(s, nv, others, other_records),
        0 <= i < seeds.len(),
    ensures
        0 <= j < others.len(),
        others[j] == seeds[i],
{
    let a = seeds[i];
    assert(is_record(s, nv, a, records[i]));
    let j = choose|j: int| 0 <= j < others.len() && s.joined(#[trigger] others[j], a);
    let b = others[j];
    assert(is_record(s, nv, b, other_records[j]));
    let k = choose|k: int| 0 <= k < seeds.len() && s.joined(#[trigger] seeds[k], b);
    lemma_joined_transitive(s, seeds[k], b, a);
    lemma_joined_self(s, a);
    lemma_regions_apart(s, nv, seeds, records, i, k, a);
    j
}

/// Two region lists of one surface name the same seed at each place.
proof fn lemma_seed_same<P>(
    s: Surface<P>,
    nv: P,
    seeds: Seq<Point>,
    records: Seq<(Rect, P)>,
    others: Seq<Point>,
    other_records: Seq<(Rect, P)>,
    i: int,
)
    requires
        is_region_list(s, nv, seeds, records),
        is_region_list(s, nv, others, other_records),
        0 <= i < seeds.len(),
    ensures
        i < others.len(),
        others[i] == seeds[i],
    decreases i,
{
    let j = lemma_seed_shared(s, nv, seeds, records, others, other_records, i);
    if j < i {
        lemma_seed_same(s, nv, seeds, records, others, other_records, j);
    } else if j > i {
        let m = lemma_seed_shared(s, nv, others, other_records, seeds, records, i);
        if m < i {
            lemma_seed_same(s, nv, seeds, records, others, other_records, m);
        }
    }
}

/// A surface has one region list: the seeds and the records are the same in
/// any two.
pub proof fn lemma_region_list_unique<P>(
    s: Surface<P>,
    nv: P,
    seeds: Seq<Point>,
    records: Seq<(Rect, P)>,
    others: Seq<Point>,
    other_records: Seq<(Rect, P)>,
)
    requires
        is_region_list(s, nv, seeds, records),
        is_region_list(s, nv, others, other_records),
    ensures
        seeds == others,
        records == other_records,
{
    if seeds.len() > 0 {
        lemma_seed_same(s, nv, seeds, records, others, other_records, seeds.len() - 1);
    }
    if others.len() > 0 {
        lemma_seed_same(s, nv, others, other_records, seeds, records, others.len() - 1);
    }
    assert forall|i: int| 0 <= i < seeds.len() implies seeds[i] == others[i] by {
        lemma_seed_same(s, nv, seeds, records, others, other_records, i);
    }
}

/// A region has one smallest box.
pub proof fn lemma_box_unique<P>(s: Surface<P>, a: Point, first: Rect, second: Rect)
    requires
        s.bounded_by(a, first),
        s.bounded_by(a, second),
    ensures
        first == second,
{
}

/// The smallest box around a region lies within the surface and encloses
/// the pixel that the region is named by.
pub proof fn lemma_box_within_surface<P>(s: Surface<P>, a: Point, rect: Rect)
    requires
        s.contains(a),
        s.bounded_by(a, rect),
    ensures
        0 <= rect.left <= a.0 <= rect.right < s.width,
        0 <= rect.top <= a.1 <= rect.bottom < s.height,
{
    lemma_joined_self(s, a);
    let l = choose|b: Point| #[trigger] s.joined(a, b) && b.0 == rect.left;
    let r = choose|b: Point| #[trigger] s.joined(a, b) && b.0 == rect.right;
    let t = choose|b: Point| #[trigger] s.joined(a, b) && b.1 == rect.top;
    let m = choose|b: Point| #[trigger] s.joined(a, b) && b.1 == rect.bottom;
    lemma_joined_same_color(s, a, l);
    lemma_joined_same_color(s, a, r);
    lemma_joined_same_color(s, a, t);
    lemma_joined_same_color(s, a, m);
}

/// A surface of a single pixel lists that pixel as its one region, unless
/// the pixel already has the fill value, and then it lists nothing.
pub proof fn lemma_single_pixel_surface<P>(
    s: Surface<P>,
    nv: P,
    seeds: Seq<Point>,
    records: Seq<(Rect, P)>,
)
    requires
        s.width == 1,
        s.height == 1,
        is_region_list(s, nv, seeds, records),
    ensures
        s.at((0, 0)) == Some(nv) ==> records.len() == 0,
        s.at((0, 0)) != Some(nv) ==> records.len() == 1 && records[0] == (
            Rect { top: 0, left: 0, bottom: 0, right: 0 },
            (s.pixel)(0, 0),
        ),
{
    assert forall|i: int| 0 <= i < seeds.len() implies #[trigger] seeds[i] == (0int, 0int) by {
        assert(is_record(s, nv, seeds[i], records[i]));
    }
    if seeds.len() > 1 {
        assert(precedes(seeds[0], seeds[1]));
    }
    if s.at((0, 0)) != Some(nv) {
        assert(s.floods((0, 0), nv));
        let a = seeds[0];
        let rect = records[0].0;
        let l = choose|b: Point| #[trigger] s.joined(a, b) && b.0 == rect.left;
        let r = choose|b: Point| #[trigger] s.joined(a, b) && b.0 == rect.right;
        let t = choose|b: Point| #[trigger] s.joined(a, b) && b.1 == rect.top;
        let m = choose|b: Point| #[trigger] s.joined(a, b) && b.1 == rect.bottom;
        lemma_joined_same_color(s, a, l);
        lemma_joined_same_color(s, a, r);
        lemma_joined_same_color(s, a, t);
        lemma_joined_same_color(s, a, m);
    } else if seeds.len() > 0 {
        assert(is_record(s, nv, seeds[0], records[0]));
    }
}

} // verus!
