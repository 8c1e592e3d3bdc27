//! Walks over traversable cells, and what can be reached along them.

use crate::grid::Grid;
use crate::pos::{adjacent, Pos};
use vstd::prelude::*;

verus! {

/// `w` is a walk in `g`: it starts inside the rectangle, every later cell is
/// traversable, and consecutive cells share an edge.
pub open spec fn is_walk(g: Grid, w: Seq<Pos>) -> bool {
    &&& w.len() > 0
    &&& g.contains(w[0])
    &&& forall|i: int| 1 <= i < w.len() ==> g.open(#[trigger] w[i])
    &&& forall|i: int| 0 <= i < w.len() - 1 ==> adjacent(#[trigger] w[i], w[i + 1])
}

/// `w` is a walk from `a` to `b`.
pub open spec fn connects(g: Grid, w: Seq<Pos>, a: Pos, b: Pos) -> bool {
    is_walk(g, w) && w[0] == a && w.last() == b
}

/// Some walk leads from `a` to `b`.
#[verifier::opaque]
pub open spec fn connected(g: Grid, a: Pos, b: Pos) -> bool {
    exists|w: Seq<Pos>| connects(g, w, a, b)
}

/// Every cell inside the rectangle reaches itself.
pub proof fn lemma_connected_self(g: Grid, a: Pos)
    requires
        g.contains(a),
    ensures
        connected(g, a, a),
{
    reveal(connected);
    assert(connects(g, seq![a], a, a));
}

/// A walk can be extended by one traversable neighbour of its end.
pub proof fn lemma_walk_extend(g: Grid, w: Seq<Pos>, c: Pos)
    requires
        is_walk(g, w),
        adjacent(w.last(), c),
        g.open(c),
    ensures
        is_walk(g, w.push(c)),
        w.push(c)[0] == w[0],
        w.push(c).last() == c,
{
    let w2 = w.push(c);
    assert forall|i: int| 0 <= i < w2.len() - 1 implies adjacent(#[trigger] w2[i], w2[i + 1]) by {
        if i < w.len() - 1 {
            assert(w2[i] == w[i] && w2[i + 1] == w[i + 1]);
        }
    }
}

/// What reaches `b` also reaches every traversable neighbour of `b`.
pub proof fn lemma_connected_step(g: Grid, a: Pos, b: Pos, c: Pos)
    requires
        connected(g, a, b),
        adjacent(b, c),
        g.open(c),
    ensures
        connected(g, a, c),
{
    reveal(connected);
    let w = choose|w: Seq<Pos>| connects(g, w, a, b);
    lemma_walk_extend(g, w, c);
    assert(connects(g, w.push(c), a, c));
}

/// `g2` has the rectangle of `g` and keeps every traversable cell of `g`
/// traversable.
pub open spec fn opens_more(g: Grid, g2: Grid) -> bool {
    &&& g.width == g2.width
    &&& g.height == g2.height
    &&& forall|p: Pos| g.open(p) ==> #[trigger] g2.open(p)
}

/// Opening cells never breaks a walk.
pub proof fn lemma_walk_survives(g: Grid, g2: Grid, w: Seq<Pos>)
    requires
        opens_more(g, g2),
        is_walk(g, w),
    ensures
        is_walk(g2, w),
{
    assert forall|i: int| 1 <= i < w.len() implies g2.open(#[trigger] w[i]) by {
        assert(g.open(w[i]));
    }
}

/// Opening cells never disconnects two cells.
pub proof fn lemma_connected_survives(g: Grid, g2: Grid, a: Pos, b: Pos)
    requires
        opens_more(g, g2),
        connected(g, a, b),
    ensures
        connected(g2, a, b),
{
    reveal(connected);
    let w = choose|w: Seq<Pos>| connects(g, w, a, b);
    lemma_walk_survives(g, g2, w);
    assert(connects(g2, w, a, b));
}

} // verus!
