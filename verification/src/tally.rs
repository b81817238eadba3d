//! Counting the pixels of one colour: the measure by which a flood is known
//! to end.

use vstd::prelude::*;
use crate::surface::{Point, Surface};

verus! {

impl<P> Surface<P> {
    /// How many of the first `n` pixels of row `y` have the colour `c`.
    pub open spec fn tally_row(&self, c: P, y: int, n: nat) -> nat
        decreases n,
    {
        if n == 0 {
            0
        } else {
            self.tally_row(c, y, (n - 1) as nat) + if self.at((n - 1, y)) == Some(c) {
                1nat
            } else {
                0nat
            }
        }
    }

    /// How many pixels of the first `m` rows have the colour `c`.
    pub open spec fn tally(&self, c: P, m: nat) -> nat
        decreases m,
    {
        if m == 0 {
            0
        } else {
            self.tally(c, (m - 1) as nat) + self.tally_row(c, m - 1, self.width)
        }
    }

    /// Every pixel of colour `c` here has that colour in `before` too.
    pub open spec fn no_new(&self, before: Self, c: P) -> bool {
        &&& self.same_size(before)
        &&& forall|p: Point| #[trigger] self.at(p) == Some(c) ==> before.at(p) == Some(c)
    }
}

/// A row that gains no pixel of a colour does not grow in tally; it shrinks
/// where the pixel at column `k` lost the colour, if `k` is given.
proof fn lemma_tally_row_shrinks<P>(
    now: Surface<P>,
    before: Surface<P>,
    c: P,
    y: int,
    n: nat,
    k: Option<int>,
)
    requires
        now.no_new(before, c),
        k matches Some(k) ==> 0 <= k < n && before.at((k, y)) == Some(c) && now.at((k, y)) != Some(
            c,
        ),
    ensures
        now.tally_row(c, y, n) <= before.tally_row(c, y, n),
        k is Some ==> now.tally_row(c, y, n) < before.tally_row(c, y, n),
    decreases n,
{
    if n > 0 {
        let rest = if k == Some(n - 1) {
            None
        } else {
            k
        };
        lemma_tally_row_shrinks(now, before, c, y, (n - 1) as nat, rest);
    }
}

/// A surface that gains no pixel of a colour does not grow in tally; it
/// shrinks where the pixel at `k` lost the colour, if `k` is given.
proof fn lemma_tally_rows_shrink<P>(
    now: Surface<P>,
    before: Surface<P>,
    c: P,
    m: nat,
    k: Option<Point>,
)
    requires
        now.no_new(before, c),
        k matches Some(k) ==> 0 <= k.1 < m && before.at(k) == Some(c) && now.at(k) != Some(c),
    ensures
        now.tally(c, m) <= before.tally(c, m),
        k is Some ==> now.tally(c, m) < before.tally(c, m),
    decreases m,
{
    if m > 0 {
        match k {
            Some(k) if k.1 == m - 1 => {
                lemma_tally_rows_shrink(now, before, c, (m - 1) as nat, None);
                lemma_tally_row_shrinks(now, before, c, m - 1, now.width, Some(k.0));
            },
            _ => {
                lemma_tally_rows_shrink(now, before, c, (m - 1) as nat, k);
                lemma_tally_row_shrinks(now, before, c, m - 1, now.width, None);
            },
        }
    }
}

/// Painting over a pixel of colour `c`, and giving that colour to none,
/// lowers the number of pixels of colour `c`.
pub proof fn lemma_tally_drops<P>(now: Surface<P>, before: Surface<P>, c: P, k: Point)
    requires
        now.no_new(before, c),
        before.at(k) == Some(c),
        now.at(k) != Some(c),
    ensures
        now.tally(c, now.height) < before.tally(c, before.height),
{
    lemma_tally_rows_shrink(now, before, c, now.height, Some(k));
}

/// Two surfaces with the same pixels of colour `c` have as many of them.
pub proof fn lemma_tally_same<P>(now: Surface<P>, before: Surface<P>, c: P)
    requires
        now.no_new(before, c),
        before.no_new(now, c),
    ensures
        now.tally(c, now.height) == before.tally(c, before.height),
{
    lemma_tally_rows_shrink(now, before, c, now.height, None);
    lemma_tally_rows_shrink(before, now, c, now.height, None);
}

} // verus!
