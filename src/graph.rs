//! Paths through open (cleared) walls, and the spanning-tree properties of a
//! set of open walls.
use crate::grid::{side_a, side_b};
use vstd::prelude::*;

verus! {

/// Wall `w` borders cell `x`.
pub open spec fn borders(columns: int, w: int, x: int) -> bool {
    x == side_a(columns, w) || x == side_b(columns, w)
}

/// The cell on the other side of wall `w`, seen from cell `x`.
pub open spec fn across(columns: int, w: int, x: int) -> int {
    if x == side_a(columns, w) {
        side_b(columns, w)
    } else {
        side_a(columns, w)
    }
}

/// `ws` is a walk that starts at cell `x` and crosses only walls of `open`.
pub open spec fn is_walk(columns: int, open: Set<int>, x: int, ws: Seq<int>) -> bool
    decreases ws.len(),
{
    ws.len() == 0 || {
        &&& open.contains(ws[0])
        &&& borders(columns, ws[0], x)
        &&& is_walk(columns, open, across(columns, ws[0], x), ws.drop_first())
    }
}

/// The cell where the walk `ws` from `x` ends.
pub open spec fn walk_end(columns: int, x: int, ws: Seq<int>) -> int
    decreases ws.len(),
{
    if ws.len() == 0 {
        x
    } else {
        walk_end(columns, across(columns, ws[0], x), ws.drop_first())
    }
}

/// Cell `y` can be reached from cell `x` through walls of `open`.
pub open spec fn connected(columns: int, open: Set<int>, x: int, y: int) -> bool {
    exists|ws: Seq<int>| #[trigger] is_walk(columns, open, x, ws) && walk_end(columns, x, ws) == y
}

/// Every pair of cells among the first `cells` is connected.
pub open spec fn spans(columns: int, cells: int, open: Set<int>) -> bool {
    forall|x: int, y: int|
        0 <= x < cells && 0 <= y < cells ==> #[trigger] connected(columns, open, x, y)
}

/// No open wall lies on a cycle: closing any one of them separates its two
/// cells.
pub open spec fn acyclic(columns: int, open: Set<int>) -> bool {
    forall|w: int|
        #[trigger] open.contains(w) ==> !connected(
            columns,
            open.remove(w),
            side_a(columns, w),
            side_b(columns, w),
        )
}

/// No wall of `open` leads out of the cell set `s`.
pub open spec fn closed(columns: int, open: Set<int>, s: Set<int>) -> bool {
    forall|w: int|
        #[trigger] open.contains(w) ==> (s.contains(side_a(columns, w)) <==> s.contains(
            side_b(columns, w),
        ))
}

/// Every cell reaches itself by the empty walk.
pub proof fn lemma_connected_refl(columns: int, open: Set<int>, x: int)
    ensures
        connected(columns, open, x, x),
{
    let ws = Seq::<int>::empty();
    assert(is_walk(columns, open, x, ws) && walk_end(columns, x, ws) == x);
}

/// Two walks, the second starting where the first ends, make one walk.
pub proof fn lemma_walk_concat(columns: int, open: Set<int>, x: int, ws1: Seq<int>, ws2: Seq<int>)
    requires
        is_walk(columns, open, x, ws1),
        is_walk(columns, open, walk_end(columns, x, ws1), ws2),
    ensures
        is_walk(columns, open, x, ws1 + ws2),
        walk_end(columns, x, ws1 + ws2) == walk_end(columns, walk_end(columns, x, ws1), ws2),
    decreases ws1.len(),
{
    if ws1.len() == 0 {
        assert(ws1 + ws2 =~= ws2);
    } else {
        let y = across(columns, ws1[0], x);
        lemma_walk_concat(columns, open, y, ws1.drop_first(), ws2);
        assert((ws1 + ws2).drop_first() =~= ws1.drop_first() + ws2);
    }
}

/// Connectivity is transitive.
pub proof fn lemma_connected_trans(columns: int, open: Set<int>, x: int, y: int, z: int)
    requires
        connected(columns, open, x, y),
        connected(columns, open, y, z),
    ensures
        connected(columns, open, x, z),
{
    let ws1 = choose|ws: Seq<int>| #[trigger]
        is_walk(columns, open, x, ws) && walk_end(columns, x, ws) == y;
    let ws2 = choose|ws: Seq<int>| #[trigger]
        is_walk(columns, open, y, ws) && walk_end(columns, y, ws) == z;
    lemma_walk_concat(columns, open, x, ws1, ws2);
    assert(is_walk(columns, open, x, ws1 + ws2));
}

/// A walk stays a walk when more walls are open.
pub proof fn lemma_walk_mono(columns: int, small: Set<int>, big: Set<int>, x: int, ws: Seq<int>)
    requires
        is_walk(columns, small, x, ws),
        small.subset_of(big),
    ensures
        is_walk(columns, big, x, ws),
    decreases ws.len(),
{
    if ws.len() > 0 {
        lemma_walk_mono(columns, small, big, across(columns, ws[0], x), ws.drop_first());
    }
}

/// Opening more walls keeps connected cells connected.
pub proof fn lemma_connected_mono(columns: int, small: Set<int>, big: Set<int>, x: int, y: int)
    requires
        connected(columns, small, x, y),
        small.subset_of(big),
    ensures
        connected(columns, big, x, y),
{
    let ws = choose|ws: Seq<int>| #[trigger]
        is_walk(columns, small, x, ws) && walk_end(columns, x, ws) == y;
    lemma_walk_mono(columns, small, big, x, ws);
    assert(is_walk(columns, big, x, ws));
}

/// An open wall connects its two cells, both ways.
pub proof fn lemma_wall_connects(columns: int, open: Set<int>, w: int)
    requires
        open.contains(w),
        side_a(columns, w) != side_b(columns, w),
    ensures
        connected(columns, open, side_a(columns, w), side_b(columns, w)),
        connected(columns, open, side_b(columns, w), side_a(columns, w)),
{
    let ws = seq![w];
    let rest = Seq::<int>::empty();
    assert(ws.drop_first() =~= rest);
    assert(is_walk(columns, open, side_b(columns, w), rest));
    assert(is_walk(columns, open, side_a(columns, w), rest));
    assert(walk_end(columns, side_b(columns, w), rest) == side_b(columns, w));
    assert(walk_end(columns, side_a(columns, w), rest) == side_a(columns, w));
    assert(is_walk(columns, open, side_a(columns, w), ws));
    assert(walk_end(columns, side_a(columns, w), ws) == side_b(columns, w));
    assert(is_walk(columns, open, side_b(columns, w), ws));
    assert(walk_end(columns, side_b(columns, w), ws) == side_a(columns, w));
}

/// A walk that starts inside a closed cell set stays inside it.
pub proof fn lemma_closed_walk(columns: int, open: Set<int>, s: Set<int>, x: int, ws: Seq<int>)
    requires
        closed(columns, open, s),
        is_walk(columns, open, x, ws),
        s.contains(x),
    ensures
        s.contains(walk_end(columns, x, ws)),
    decreases ws.len(),
{
    if ws.len() > 0 {
        assert(open.contains(ws[0]));
        lemma_closed_walk(columns, open, s, across(columns, ws[0], x), ws.drop_first());
    }
}

/// A cell set that no open wall leaves separates its members from the rest.
pub proof fn lemma_cut_separates(columns: int, open: Set<int>, s: Set<int>, x: int, y: int)
    requires
        closed(columns, open, s),
        s.contains(x),
        !s.contains(y),
    ensures
        !connected(columns, open, x, y),
{
    if connected(columns, open, x, y) {
        let ws = choose|ws: Seq<int>| #[trigger]
            is_walk(columns, open, x, ws) && walk_end(columns, x, ws) == y;
        lemma_closed_walk(columns, open, s, x, ws);
    }
}

} // verus!
