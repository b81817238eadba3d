//! Four-connected regions of a surface: what it means for two pixels to be
//! joined, and the facts about joined pixels that the algorithms rest on.

use vstd::prelude::*;
use crate::rect::Rect;
use crate::surface::{Point, Surface};

verus! {

/// The two points are neighbours: one step apart, up, down, left or right.
pub open spec fn adjacent(a: Point, b: Point) -> bool {
    ||| a.0 == b.0 && (a.1 - b.1 == 1 || b.1 - a.1 == 1)
    ||| a.1 == b.1 && (a.0 - b.0 == 1 || b.0 - a.0 == 1)
}

/// `a` comes strictly before `b` when the surface is read row by row, each
/// row from the left.
pub open spec fn precedes(a: Point, b: Point) -> bool {
    a.1 < b.1 || (a.1 == b.1 && a.0 < b.0)
}

impl<P> Surface<P> {
    /// `path` steps from neighbour to neighbour and stays on pixels of the
    /// colour `c`.
    pub open spec fn is_walk(&self, c: P, path: Seq<Point>) -> bool {
        &&& path.len() > 0
        &&& forall|i: int| 0 <= i < path.len() ==> self.at(#[trigger] path[i]) == Some(c)
        &&& forall|i: int| 1 <= i < path.len() ==> adjacent(path[i - 1], #[trigger] path[i])
    }

    /// `path` is a walk from `a` to `b` over pixels of the colour of `a`.
    pub open spec fn links(&self, path: Seq<Point>, a: Point, b: Point) -> bool {
        &&& self.contains(a)
        &&& self.is_walk((self.pixel)(a.0, a.1), path)
        &&& path[0] == a
        &&& path[path.len() - 1] == b
    }

    /// `b` belongs to the region of `a`: some walk over pixels of one colour
    /// leads from `a` to `b`.
    #[verifier::opaque]
    pub open spec fn joined(&self, a: Point, b: Point) -> bool {
        exists|path: Seq<Point>| self.links(path, a, b)
    }

    /// A flood from `a` with the value `nv` has something to paint: `a` is a
    /// pixel of the surface and does not have that value yet.
    pub open spec fn floods(&self, a: Point, nv: P) -> bool {
        self.at(a) is Some && self.at(a) != Some(nv)
    }

    /// The pixel at `p` after a flood from `a` with the value `nv`: the
    /// region of `a` has taken that value and nothing else has changed.
    pub open spec fn flooded(&self, a: Point, nv: P, p: Point) -> Option<P> {
        if self.floods(a, nv) && self.joined(a, p) {
            Some(nv)
        } else {
            self.at(p)
        }
    }

    /// `rect` is the smallest box around the region of `a`: it encloses every
    /// pixel of the region, and the region has a pixel on each of its edges.
    pub open spec fn bounded_by(&self, a: Point, rect: Rect) -> bool {
        &&& forall|b: Point| #[trigger] self.joined(a, b) ==> rect.encloses(b)
        &&& exists|b: Point| #[trigger] self.joined(a, b) && b.0 == rect.left
        &&& exists|b: Point| #[trigger] self.joined(a, b) && b.0 == rect.right
        &&& exists|b: Point| #[trigger] self.joined(a, b) && b.1 == rect.top
        &&& exists|b: Point| #[trigger] self.joined(a, b) && b.1 == rect.bottom
    }

    /// `a` is the pixel of its region that a row-by-row reading meets first.
    pub open spec fn leads(&self, a: Point) -> bool {
        forall|b: Point| #[trigger] self.joined(a, b) ==> a == b || precedes(a, b)
    }
}

/// Every pixel of the surface is joined to itself.
pub proof fn lemma_joined_self<P>(s: Surface<P>, a: Point)
    requires
        s.contains(a),
    ensures
        s.joined(a, a),
{
    reveal(Surface::joined);
    let path = seq![a];
    assert(s.links(path, a, a));
}

/// Joined pixels have the same colour, and both lie on the surface.
pub proof fn lemma_joined_same_color<P>(s: Surface<P>, a: Point, b: Point)
    requires
        s.joined(a, b),
    ensures
        s.at(a) is Some,
        s.at(b) == s.at(a),
{
    reveal(Surface::joined);
}

/// A region grows by any neighbour of the same colour.
pub proof fn lemma_joined_step<P>(s: Surface<P>, a: Point, b: Point, q: Point)
    requires
        s.joined(a, b),
        adjacent(b, q),
        s.at(q) == s.at(a),
    ensures
        s.joined(a, q),
{
    reveal(Surface::joined);
    let path = choose|path: Seq<Point>| s.links(path, a, b);
    let longer = path.push(q);
    assert(s.links(longer, a, q));
}

/// A row of pixels of one colour, one of which belongs to a region, belongs
/// to that region from end to end.
pub proof fn lemma_joined_run<P>(s: Surface<P>, a: Point, y: int, lo: int, hi: int, k: int)
    requires
        lo <= k < hi,
        s.joined(a, (k, y)),
        forall|j: int| lo <= j < hi ==> s.at((j, y)) == s.at(a),
    ensures
        forall|j: int| lo <= j < hi ==> s.joined(a, (j, y)),
{
    assert forall|j: int| lo <= j < hi implies s.joined(a, (j, y)) by {
        lemma_joined_along_row(s, a, y, lo, hi, k, j);
    }
}

/// The pixel at column `j` of such a row belongs to the region.
proof fn lemma_joined_along_row<P>(
    s: Surface<P>,
    a: Point,
    y: int,
    lo: int,
    hi: int,
    k: int,
    j: int,
)
    requires
        lo <= k < hi,
        lo <= j < hi,
        s.joined(a, (k, y)),
        forall|j: int| lo <= j < hi ==> s.at((j, y)) == s.at(a),
    ensures
        s.joined(a, (j, y)),
    decreases (if j < k { k - j } else { j - k }),
{
    if j < k {
        lemma_joined_along_row(s, a, y, lo, hi, k, j + 1);
        lemma_joined_step(s, a, (j + 1, y), (j, y));
    } else if j > k {
        lemma_joined_along_row(s, a, y, lo, hi, k, j - 1);
        lemma_joined_step(s, a, (j - 1, y), (j, y));
    }
}

/// Being joined is symmetric.
pub proof fn lemma_joined_symmetric<P>(s: Surface<P>, a: Point, b: Point)
    requires
        s.joined(a, b),
    ensures
        s.joined(b, a),
{
    reveal(Surface::joined);
    let path = choose|path: Seq<Point>| s.links(path, a, b);
    let n = path.len() as int;
    let back = Seq::new(path.len(), |i: int| path[n - 1 - i]);
    assert(s.links(back, b, a));
}

/// Being joined is transitive.
pub proof fn lemma_joined_transitive<P>(s: Surface<P>, a: Point, b: Point, d: Point)
    requires
        s.joined(a, b),
        s.joined(b, d),
    ensures
        s.joined(a, d),
{
    reveal(Surface::joined);
    let first = choose|path: Seq<Point>| s.links(path, a, b);
    let second = choose|path: Seq<Point>| s.links(path, b, d);
    let whole = first + second.subrange(1, second.len() as int);
    assert(s.links(whole, a, d));
}

/// A set of points that holds `a` and, with each of its points, every
/// neighbour of the colour of `a`, holds the whole region of `a`.
pub proof fn lemma_closed_set_holds_region<P>(s: Surface<P>, a: Point, set: Set<Point>)
    requires
        set.contains(a),
        forall|p: Point, q: Point|
            set.contains(p) && #[trigger] adjacent(p, q) && s.at(q) == s.at(a) ==> set.contains(q),
    ensures
        forall|b: Point| #[trigger] s.joined(a, b) ==> set.contains(b),
{
    reveal(Surface::joined);
    assert forall|b: Point| #[trigger] s.joined(a, b) implies set.contains(b) by {
        let path = choose|path: Seq<Point>| s.links(path, a, b);
        lemma_walk_stays_in_closed_set(s, a, set, path, path.len() - 1);
    }
}

/// A walk from `a` has its pixel at place `i` in such a set.
proof fn lemma_walk_stays_in_closed_set<P>(
    s: Surface<P>,
    a: Point,
    set: Set<Point>,
    path: Seq<Point>,
    i: int,
)
    requires
        set.contains(a),
        forall|p: Point, q: Point|
            set.contains(p) && #[trigger] adjacent(p, q) && s.at(q) == s.at(a) ==> set.contains(q),
        s.contains(a),
        s.is_walk((s.pixel)(a.0, a.1), path),
        path[0] == a,
        0 <= i < path.len(),
    ensures
        set.contains(path[i]),
    decreases i,
{
    if i > 0 {
        lemma_walk_stays_in_closed_set(s, a, set, path, i - 1);
    }
}

/// Every pixel on a walk from `a` belongs to the region of `a`.
pub proof fn lemma_joined_midway<P>(s: Surface<P>, path: Seq<Point>, a: Point, b: Point, i: int)
    requires
        s.links(path, a, b),
        0 <= i < path.len(),
    ensures
        s.joined(a, path[i]),
{
    reveal(Surface::joined);
    let part = path.subrange(0, i + 1);
    assert(s.links(part, a, path[i]));
}

/// A region is the same region on any surface that has the same pixels
/// wherever the region lies.
pub proof fn lemma_joined_carries<P>(s: Surface<P>, other: Surface<P>, a: Point)
    requires
        other.same_size(s),
        forall|p: Point| #[trigger] s.joined(a, p) ==> other.at(p) == s.at(p),
    ensures
        forall|b: Point| #[trigger] s.joined(a, b) ==> other.joined(a, b),
{
    reveal(Surface::joined);
    assert forall|b: Point| #[trigger] s.joined(a, b) implies other.joined(a, b) by {
        let path = choose|path: Seq<Point>| s.links(path, a, b);
        let c = (s.pixel)(a.0, a.1);
        assert forall|i: int| 0 <= i < path.len() implies other.at(#[trigger] path[i]) == Some(
            c,
        ) by {
            lemma_joined_midway(s, path, a, b, i);
        }
        assert(other.links(path, a, b));
    }
}

} // verus!
