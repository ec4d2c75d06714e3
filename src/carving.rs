//! The carving rule and the invariant that makes its result a spanning tree.
//!
//! Walls are visited in a given order; a wall is opened exactly when the two
//! cells it separates are not yet connected. The proof tracks a component
//! label per cell (as kept by [`crate::partition::Partition`]) and, for each
//! open wall, a set of cells that witnesses that the wall closes no cycle.
use crate::graph::{
    acyclic, closed, connected, lemma_connected_mono, lemma_connected_refl, lemma_connected_trans,
    lemma_cut_separates, lemma_wall_connects, spans,
};
use crate::grid::{
    lemma_left_wall, lemma_upper_wall, lemma_wall_sides_in_grid, row_stride, side_a, side_b,
    wall_total,
};
use vstd::prelude::*;
use vstd::set_lib::{lemma_int_range, set_int_range};

verus! {

/// The open walls after visiting the walls of `order` in sequence: a wall is
/// opened when its two cells are not yet connected.
pub open spec fn carved(columns: int, order: Seq<usize>) -> Set<int>
    decreases order.len(),
{
    if order.len() == 0 {
        Set::empty()
    } else {
        let before = carved(columns, order.drop_last());
        let w = order.last() as int;
        if connected(columns, before, side_a(columns, w), side_b(columns, w)) {
            before
        } else {
            before.insert(w)
        }
    }
}

/// Labels after moving every cell labelled `from` to label `to`.
pub open spec fn relabel(labels: Seq<usize>, from: usize, to: usize) -> Seq<usize> {
    labels.map_values(|l: usize| if l == from { to } else { l })
}

/// Cells that are their own label.
pub open spec fn roots(labels: Seq<usize>) -> Set<int> {
    set_int_range(0, labels.len() as int).filter(|i: int| labels[i] == i)
}

/// Cells that carry label `l`.
pub open spec fn class(labels: Seq<usize>, l: int) -> Set<int> {
    set_int_range(0, labels.len() as int).filter(|i: int| labels[i] == l)
}

/// `s` shows that open wall `w` closes no cycle: no other open wall leaves
/// `s`, which holds one cell of `w` and not the other.
pub open spec fn is_cut(columns: int, open: Set<int>, labels: Seq<usize>, w: int, s: Set<int>) -> bool {
    &&& closed(columns, open.remove(w), s)
    &&& s.contains(side_a(columns, w))
    &&& !s.contains(side_b(columns, w))
    &&& forall|i: int| #[trigger]
        s.contains(i) ==> 0 <= i < labels.len() && labels[i] == labels[side_a(columns, w)]
}

/// Some cell set witnesses that open wall `w` closes no cycle.
pub open spec fn has_cut(columns: int, open: Set<int>, labels: Seq<usize>, w: int) -> bool {
    exists|s: Set<int>| #[trigger] is_cut(columns, open, labels, w, s)
}

/// Labels name a representative cell of the same label.
pub open spec fn labels_wf(labels: Seq<usize>) -> bool {
    forall|i: int|
        0 <= i < labels.len() ==> #[trigger] labels[i] < labels.len() && labels[labels[i] as int]
            == labels[i]
}

/// Invariant of carving on a `columns` x `rows` grid: labels are exactly the
/// connected components of the open walls, and the open walls form a forest.
pub open spec fn carve_inv(columns: int, rows: int, open: Set<int>, labels: Seq<usize>) -> bool {
    &&& labels.len() == columns * rows
    &&& labels_wf(labels)
    &&& open.finite()
    &&& forall|w: int| #[trigger]
        open.contains(w) ==> 0 <= w < wall_total(columns, rows) && labels[side_a(columns, w)]
            == labels[side_b(columns, w)]
    &&& forall|i: int|
        0 <= i < labels.len() ==> #[trigger] connected(columns, open, i, labels[i] as int)
            && connected(columns, open, labels[i] as int, i)
    &&& forall|w: int| #[trigger] open.contains(w) ==> has_cut(columns, open, labels, w)
    &&& open.len() + roots(labels).len() == labels.len()
}

/// Each label class is closed under the open walls.
proof fn lemma_class_closed(columns: int, rows: int, open: Set<int>, labels: Seq<usize>, l: int)
    requires
        carve_inv(columns, rows, open, labels),
        columns >= 1,
        rows >= 1,
    ensures
        closed(columns, open, class(labels, l)),
{
    assert forall|w: int| #[trigger] open.contains(w) implies (class(labels, l).contains(
        side_a(columns, w),
    ) <==> class(labels, l).contains(side_b(columns, w))) by {
        lemma_wall_sides_in_grid(columns, rows, w);
    }
}

/// Before any wall is opened, every cell is its own component.
pub proof fn lemma_carve_start(columns: int, rows: int, labels: Seq<usize>)
    requires
        columns >= 1,
        rows >= 1,
        labels.len() == columns * rows,
        forall|i: int| 0 <= i < labels.len() ==> #[trigger] labels[i] == i,
    ensures
        carve_inv(columns, rows, Set::empty(), labels),
{
    let open = Set::<int>::empty();
    assert forall|i: int| 0 <= i < labels.len() implies #[trigger] connected(
        columns,
        open,
        i,
        labels[i] as int,
    ) && connected(columns, open, labels[i] as int, i) by {
        lemma_connected_refl(columns, open, i);
    }
    lemma_int_range(0, labels.len() as int);
    assert(roots(labels) =~= set_int_range(0, labels.len() as int));
}

/// Connectivity through the open walls agrees with the labels.
pub proof fn lemma_labels_decide(columns: int, rows: int, open: Set<int>, labels: Seq<usize>, w: int)
    requires
        carve_inv(columns, rows, open, labels),
        columns >= 1,
        rows >= 1,
        0 <= w < wall_total(columns, rows),
    ensures
        labels[side_a(columns, w)] == labels[side_b(columns, w)] <==> connected(
            columns,
            open,
            side_a(columns, w),
            side_b(columns, w),
        ),
{
    lemma_wall_sides_in_grid(columns, rows, w);
    let a = side_a(columns, w);
    let b = side_b(columns, w);
    if labels[a] == labels[b] {
        assert(connected(columns, open, a, labels[a] as int));
        assert(connected(columns, open, b, labels[b] as int));
        assert(connected(columns, open, labels[b] as int, b));
        lemma_connected_trans(columns, open, a, labels[a] as int, b);
    } else {
        let s = class(labels, labels[a] as int);
        lemma_class_closed(columns, rows, open, labels, labels[a] as int);
        lemma_cut_separates(columns, open, s, a, b);
    }
}

/// Opening a wall between two components and merging their labels keeps
/// the invariant.
pub proof fn lemma_carve_step(
    columns: int,
    rows: int,
    open: Set<int>,
    labels: Seq<usize>,
    w: int,
    from: usize,
    to: usize,
)
    requires
        carve_inv(columns, rows, open, labels),
        columns >= 1,
        rows >= 1,
        0 <= w < wall_total(columns, rows),
        labels[side_a(columns, w)] != labels[side_b(columns, w)],
        (from == labels[side_a(columns, w)] && to == labels[side_b(columns, w)]) || (from
            == labels[side_b(columns, w)] && to == labels[side_a(columns, w)]),
    ensures
        !open.contains(w),
        carve_inv(columns, rows, open.insert(w), relabel(labels, from, to)),
{
    lemma_wall_sides_in_grid(columns, rows, w);
    let a = side_a(columns, w);
    let b = side_b(columns, w);
    let n = labels.len() as int;
    let open2 = open.insert(w);
    let labels2 = relabel(labels, from, to);
    assert(!open.contains(w));
    // labels stay well formed
    assert forall|i: int| 0 <= i < n implies #[trigger] labels2[i] < n && labels2[labels2[i] as int]
        == labels2[i] by {
        assert(labels[i] < n && labels[labels[i] as int] == labels[i]);
        assert(labels[a] < n && labels[labels[a] as int] == labels[a]);
        assert(labels[b] < n && labels[labels[b] as int] == labels[b]);
    }
    // open walls join cells of one label
    assert forall|v: int| #[trigger] open2.contains(v) implies 0 <= v < wall_total(columns, rows)
        && labels2[side_a(columns, v)] == labels2[side_b(columns, v)] by {
        lemma_wall_sides_in_grid(columns, rows, v);
    }
    // every cell is connected with its label, both ways
    assert(0 <= a < n && 0 <= b < n);
    assert(connected(columns, open, a, labels[a] as int));
    assert(connected(columns, open, labels[a] as int, a));
    assert(connected(columns, open, b, labels[b] as int));
    assert(connected(columns, open, labels[b] as int, b));
    let (f_end, t_end) = if from == labels[a] {
        (a, b)
    } else {
        (b, a)
    };
    lemma_wall_connects(columns, open2, w);
    assert(connected(columns, open2, f_end, t_end) && connected(columns, open2, t_end, f_end));
    assert(open.subset_of(open2));
    lemma_connected_mono(columns, open, open2, f_end, from as int);
    lemma_connected_mono(columns, open, open2, from as int, f_end);
    lemma_connected_mono(columns, open, open2, t_end, to as int);
    lemma_connected_mono(columns, open, open2, to as int, t_end);
    assert forall|i: int| 0 <= i < n implies #[trigger] connected(
        columns,
        open2,
        i,
        labels2[i] as int,
    ) && connected(columns, open2, labels2[i] as int, i) by {
        lemma_connected_mono(columns, open, open2, i, labels[i] as int);
        lemma_connected_mono(columns, open, open2, labels[i] as int, i);
        if labels[i] == from {
            lemma_connected_trans(columns, open2, i, from as int, f_end);
            lemma_connected_trans(columns, open2, i, f_end, t_end);
            lemma_connected_trans(columns, open2, i, t_end, to as int);
            lemma_connected_trans(columns, open2, to as int, t_end, f_end);
            lemma_connected_trans(columns, open2, to as int, f_end, from as int);
            lemma_connected_trans(columns, open2, to as int, from as int, i);
        }
    }
    lemma_step_cuts(columns, rows, open, labels, w, from, to);
    lemma_step_roots(labels, from, to);
    assert(open2.len() == open.len() + 1);
}

proof fn lemma_step_roots(labels: Seq<usize>, from: usize, to: usize)
    requires
        labels_wf(labels),
        from < labels.len(),
        labels[from as int] == from,
        to < labels.len(),
        labels[to as int] == to,
        from != to,
    ensures
        roots(relabel(labels, from, to)) == roots(labels).remove(from as int),
        roots(labels).contains(from as int),
        roots(labels).finite(),
        roots(relabel(labels, from, to)).len() + 1 == roots(labels).len(),
{
    let labels2 = relabel(labels, from, to);
    assert forall|i: int| 0 <= i < labels.len() implies (#[trigger] labels2[i] == i) <==> (labels[i]
        == i && i != from) by {
        assert(labels[i] < labels.len() && labels[labels[i] as int] == labels[i]);
    }
    assert(roots(labels2) =~= roots(labels).remove(from as int));
    lemma_int_range(0, labels.len() as int);
    set_int_range(0, labels.len() as int).lemma_len_filter(|i: int| labels[i] == i);
}

proof fn lemma_step_cuts(
    columns: int,
    rows: int,
    open: Set<int>,
    labels: Seq<usize>,
    w: int,
    from: usize,
    to: usize,
)
    requires
        carve_inv(columns, rows, open, labels),
        columns >= 1,
        rows >= 1,
        0 <= w < wall_total(columns, rows),
        !open.contains(w),
        labels[side_a(columns, w)] != labels[side_b(columns, w)],
        (from == labels[side_a(columns, w)] && to == labels[side_b(columns, w)]) || (from
            == labels[side_b(columns, w)] && to == labels[side_a(columns, w)]),
    ensures
        forall|v: int| #[trigger]
            open.insert(w).contains(v) ==> has_cut(
                columns,
                open.insert(w),
                relabel(labels, from, to),
                v,
            ),
{
    lemma_wall_sides_in_grid(columns, rows, w);
    let a = side_a(columns, w);
    let b = side_b(columns, w);
    let open2 = open.insert(w);
    let labels2 = relabel(labels, from, to);
    assert forall|v: int| #[trigger] open2.contains(v) implies has_cut(columns, open2, labels2, v) by {
        lemma_wall_sides_in_grid(columns, rows, v);
        let av = side_a(columns, v);
        let bv = side_b(columns, v);
        if v == w {
            let s = class(labels, labels[a] as int);
            lemma_class_closed(columns, rows, open, labels, labels[a] as int);
            assert(open2.remove(w) =~= open);
            assert(is_cut(columns, open2, labels2, v, s));
        } else {
            let s = choose|s: Set<int>| #[trigger] is_cut(columns, open, labels, v, s);
            assert(open2.remove(v) =~= open.remove(v).insert(w));
            if s.contains(a) == s.contains(b) {
                assert(is_cut(columns, open2, labels2, v, s));
            } else {
                let other = if s.contains(a) {
                    b
                } else {
                    a
                };
                let c = class(labels, labels[other] as int);
                let s2 = s.union(c);
                lemma_class_closed(columns, rows, open, labels, labels[other] as int);
                assert(closed(columns, open.remove(v), s2)) by {
                    assert forall|u: int| #[trigger] open.remove(v).contains(u) implies (s2.contains(
                        side_a(columns, u),
                    ) <==> s2.contains(side_b(columns, u))) by {
                        assert(open.contains(u));
                    }
                }
                assert(closed(columns, open2.remove(v), s2));
                assert(labels[av] == labels[bv]);
                assert(!c.contains(bv));
                assert(is_cut(columns, open2, labels2, v, s2));
            }
        }
    }
}

/// Component labels after carving along `order`: initially every cell is its
/// own label; opening a wall moves the label class of its second cell into
/// that of its first.
pub open spec fn labels_after(columns: int, cells: nat, order: Seq<usize>) -> Seq<usize>
    decreases order.len(),
{
    if order.len() == 0 {
        Seq::new(cells, |i: int| i as usize)
    } else {
        let before = labels_after(columns, cells, order.drop_last());
        let w = order.last() as int;
        let la = before[side_a(columns, w)];
        let lb = before[side_b(columns, w)];
        if la == lb {
            before
        } else {
            relabel(before, lb, la)
        }
    }
}

/// Carving along any order of walls keeps the invariant, and leaves the two
/// cells of every visited wall with one label.
pub proof fn lemma_carving_keeps_invariant(columns: int, rows: int, order: Seq<usize>)
    requires
        columns >= 1,
        rows >= 1,
        columns * rows <= usize::MAX,
        forall|k: int| 0 <= k < order.len() ==> #[trigger] order[k] < wall_total(columns, rows),
    ensures
        carve_inv(columns, rows, carved(columns, order), labels_after(columns, (columns * rows) as nat, order)),
        forall|k: int|
            0 <= k < order.len() ==> #[trigger] labels_after(columns, (columns * rows) as nat, order)[side_a(
                columns,
                order[k] as int,
            )] == labels_after(columns, (columns * rows) as nat, order)[side_b(columns, order[k] as int)],
    decreases order.len(),
{
    let n = (columns * rows) as nat;
    let labels = labels_after(columns, n, order);
    if order.len() == 0 {
        assert(0 <= columns * rows) by (nonlinear_arith)
            requires
                columns >= 1,
                rows >= 1,
        ;
        lemma_carve_start(columns, rows, labels);
    } else {
        let rest = order.drop_last();
        let w = order.last() as int;
        lemma_carving_keeps_invariant(columns, rows, rest);
        let before = labels_after(columns, n, rest);
        let open = carved(columns, rest);
        lemma_wall_sides_in_grid(columns, rows, w);
        lemma_labels_decide(columns, rows, open, before, w);
        let la = before[side_a(columns, w)];
        let lb = before[side_b(columns, w)];
        if la != lb {
            lemma_carve_step(columns, rows, open, before, w, lb, la);
        }
        assert forall|k: int| 0 <= k < order.len() implies #[trigger] labels[side_a(
            columns,
            order[k] as int,
        )] == labels[side_b(columns, order[k] as int)] by {
            lemma_wall_sides_in_grid(columns, rows, order[k] as int);
            if k < rest.len() {
                assert(rest[k] == order[k]);
            }
        }
    }
}

/// Once every wall joins cells of one label, the open walls form a spanning
/// tree of the grid.
pub proof fn lemma_carve_done(columns: int, rows: int, open: Set<int>, labels: Seq<usize>)
    requires
        carve_inv(columns, rows, open, labels),
        columns >= 1,
        rows >= 1,
        forall|w: int|
            0 <= w < wall_total(columns, rows) ==> #[trigger] labels[side_a(columns, w)]
                == labels[side_b(columns, w)],
    ensures
        open.len() == columns * rows - 1,
        spans(columns, columns * rows, open),
        acyclic(columns, open),
{
    let n = columns * rows;
    assert(n >= 1) by (nonlinear_arith)
        requires
            n == columns * rows,
            columns >= 1,
            rows >= 1,
    ;
    assert forall|i: int| 0 <= i < n implies #[trigger] labels[i] == labels[0] by {
        lemma_one_label(columns, rows, labels, i);
    }
    let l = labels[0] as int;
    assert(roots(labels) =~= set![l]) by {
        assert(labels[l] == labels[0]);
    }
    assert(set![l].len() == 1);
    assert forall|x: int, y: int| 0 <= x < n && 0 <= y < n implies #[trigger] connected(
        columns,
        open,
        x,
        y,
    ) by {
        assert(labels[x] == l && labels[y] == l);
        assert(connected(columns, open, x, labels[x] as int));
        assert(connected(columns, open, y, labels[y] as int));
        lemma_connected_trans(columns, open, x, l, y);
    }
    assert forall|w: int| #[trigger] open.contains(w) implies !connected(
        columns,
        open.remove(w),
        side_a(columns, w),
        side_b(columns, w),
    ) by {
        let s = choose|s: Set<int>| #[trigger] is_cut(columns, open, labels, w, s);
        lemma_cut_separates(columns, open.remove(w), s, side_a(columns, w), side_b(columns, w));
    }
}

proof fn lemma_one_label(columns: int, rows: int, labels: Seq<usize>, i: int)
    requires
        columns >= 1,
        rows >= 1,
        labels.len() == columns * rows,
        0 <= i < columns * rows,
        forall|w: int|
            0 <= w < wall_total(columns, rows) ==> #[trigger] labels[side_a(columns, w)]
                == labels[side_b(columns, w)],
    ensures
        labels[i] == labels[0],
    decreases i,
{
    if i > 0 {
        let row = i / columns;
        let column = i % columns;
        assert(i == row * columns + column && 0 <= column < columns) by {
            vstd::arithmetic::div_mod::lemma_fundamental_div_mod(i, columns);
        }
        assert(0 <= row < rows) by (nonlinear_arith)
            requires
                i == row * columns + column,
                0 <= column < columns,
                0 < i < columns * rows,
        ;
        if column >= 1 {
            lemma_left_wall(columns, rows, row, column);
            let w = row * row_stride(columns) + column - 1;
            assert(labels[side_a(columns, w)] == labels[side_b(columns, w)]);
            lemma_one_label(columns, rows, labels, i - 1);
        } else {
            assert(row >= 1) by (nonlinear_arith)
                requires
                    i == row * columns + column,
                    column == 0,
                    i > 0,
                    row >= 0,
            ;
            lemma_upper_wall(columns, rows, row, 0);
            let w = (row - 1) * row_stride(columns) + columns - 1 + 0;
            assert(labels[side_a(columns, w)] == labels[side_b(columns, w)]);
            assert((row - 1) * columns == i - columns) by (nonlinear_arith)
                requires
                    i == row * columns,
            ;
            lemma_one_label(columns, rows, labels, i - columns);
        }
    }
}

} // verus!
