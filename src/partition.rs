//! A partition of cells into connected components, kept as one component
//! label per cell together with the member list of each component.
use crate::carving::{labels_wf, relabel};
use vstd::prelude::*;

verus! {

broadcast use vstd::seq_lib::lemma_seq_contains_after_push;

/// Disjoint sets of cell indices `0..n`. Each cell carries the label of its
/// set, which is a cell of that set labelled with itself. A merge relabels
/// the smaller of the two sets, so that a cell changes label at most
/// `log2(n)` times.
pub struct Partition {
    labels: Vec<usize>,
    members: Vec<Vec<usize>>,
}

impl View for Partition {
    type V = Seq<usize>;

    /// The label of each cell.
    closed spec fn view(&self) -> Seq<usize> {
        self.labels@
    }
}

/// Relabelling one set into another keeps the labels well formed.
pub proof fn lemma_relabel_wf(labels: Seq<usize>, from: usize, to: usize)
    requires
        labels_wf(labels),
        to < labels.len(),
        labels[to as int] == to,
        from != to,
    ensures
        labels_wf(relabel(labels, from, to)),
{
    let next = relabel(labels, from, to);
    assert forall|i: int| 0 <= i < next.len() implies #[trigger] next[i] < next.len()
        && next[next[i] as int] == next[i] by {
        assert(labels[i] < labels.len() && labels[labels[i] as int] == labels[i]);
    }
}

impl Partition {
    /// Labels are well formed, and `members[l]` lists exactly the cells
    /// labelled `l`.
    pub closed spec fn wf(&self) -> bool {
        let n = self.labels@.len();
        &&& labels_wf(self.labels@)
        &&& self.members@.len() == n
        &&& forall|l: int, k: int|
            0 <= l < n && 0 <= k < self.members@[l]@.len() ==> {
                let m = #[trigger] self.members@[l]@[k];
                m < n && self.labels@[m as int] == l
            }
        &&& forall|i: int|
            0 <= i < n ==> #[trigger] self.members@[self.labels@[i] as int]@.contains(i as usize)
    }

    /// `cells` singleton sets.
    pub fn new(cells: usize) -> (p: Self)
        ensures
            p.wf(),
            p@.len() == cells,
            forall|i: int| 0 <= i < cells ==> #[trigger] p@[i] == i,
    {
        let mut labels: Vec<usize> = Vec::with_capacity(cells);
        let mut members: Vec<Vec<usize>> = Vec::with_capacity(cells);
        let mut i: usize = 0;
        while i < cells
            invariant
                i <= cells,
                labels@.len() == i,
                members@.len() == i,
                forall|k: int| 0 <= k < i ==> #[trigger] labels@[k] == k,
                forall|k: int| 0 <= k < i ==> #[trigger] members@[k]@ == seq![k as usize],
            decreases cells - i,
        {
            labels.push(i);
            members.push(vec![i]);
            i += 1;
        }
        let p = Partition { labels, members };
        proof {
            assert forall|i: int| 0 <= i < cells implies #[trigger] p.members@[p.labels@[i] as int]@.contains(
                i as usize,
            ) by {
                assert(p.members@[i]@[0] == i as usize);
            }
        }
        p
    }

    /// Label of the set that holds `cell`.
    pub fn find(&self, cell: usize) -> (l: usize)
        requires
            cell < self@.len(),
        ensures
            l == self@[cell as int],
    {
        self.labels[cell]
    }

    /// Merges the sets of `a` and `b`; the cells of the smaller set take the
    /// label of the larger one. Returns `false`, and changes nothing, when
    /// they already share a set.
    pub fn union(&mut self, a: usize, b: usize) -> (merged: bool)
        requires
            old(self).wf(),
            a < old(self)@.len(),
            b < old(self)@.len(),
        ensures
            final(self).wf(),
            labels_wf(final(self)@),
            merged == (old(self)@[a as int] != old(self)@[b as int]),
            merged ==> final(self)@ == relabel(
                old(self)@,
                old(self)@[b as int],
                old(self)@[a as int],
            ) || final(self)@ == relabel(old(self)@, old(self)@[a as int], old(self)@[b as int]),
            !merged ==> final(self)@ == old(self)@,
    {
        let label_a = self.labels[a];
        let label_b = self.labels[b];
        if label_a == label_b {
            return false;
        }
        let ghost start = self.labels@;
        let ghost lists = self.members@;
        let n = self.labels.len();
        proof {
            assert(start[a as int] < n && start[b as int] < n);
        }
        let (from, to) = if self.members[label_a].len() < self.members[label_b].len() {
            (label_a, label_b)
        } else {
            (label_b, label_a)
        };
        let mut moved: Vec<usize> = Vec::new();
        std::mem::swap(&mut moved, &mut self.members[from]);
        assert(moved@ == lists[from as int]@);
        let mut k: usize = 0;
        while k < moved.len()
            invariant
                n == self.labels@.len(),
                n == start.len(),
                self.members@.len() == n,
                from < n,
                to < n,
                from != to,
                start[from as int] == from,
                start[to as int] == to,
                labels_wf(start),
                lists.len() == n,
                moved@ == lists[from as int]@,
                k <= moved@.len(),
                forall|l: int, j: int|
                    0 <= l < n && 0 <= j < lists[l]@.len() ==> {
                        let m = #[trigger] lists[l]@[j];
                        m < n && start[m as int] == l
                    },
                forall|i: int|
                    0 <= i < n ==> #[trigger] lists[start[i] as int]@.contains(i as usize),
                // cells moved so far carry `to`, the others keep their label
                forall|i: int|
                    0 <= i < n ==> #[trigger] self.labels@[i] == if moved@.take(k as int).contains(
                        i as usize,
                    ) {
                        to
                    } else {
                        start[i]
                    },
                self.members@[from as int]@ == Seq::<usize>::empty(),
                self.members@[to as int]@ == lists[to as int]@ + moved@.take(k as int),
                forall|l: int|
                    0 <= l < n && l != from && l != to ==> #[trigger] self.members@[l] == lists[l],
            decreases moved@.len() - k,
        {
            let m = moved[k];
            assert(lists[from as int]@[k as int] == m);
            self.labels.set(m, to);
            self.members[to].push(m);
            proof {
                assert(moved@.take(k + 1) =~= moved@.take(k as int).push(m));
                assert(self.members@[to as int]@ =~= lists[to as int]@ + moved@.take(k + 1));
            }
            k += 1;
        }
        proof {
            assert(moved@.take(k as int) =~= moved@);
            let next = relabel(start, from, to);
            assert forall|i: int| 0 <= i < n implies self.labels@[i] == next[i] by {
                if moved@.contains(i as usize) {
                    let j = choose|j: int| 0 <= j < moved@.len() && moved@[j] == i as usize;
                    assert(lists[from as int]@[j] == i as usize);
                } else {
                    assert(lists[start[i] as int]@.contains(i as usize));
                }
            }
            assert(self.labels@ =~= next);
            lemma_relabel_wf(start, from, to);
            assert forall|l: int, j: int|
                0 <= l < n && 0 <= j < self.members@[l]@.len() implies {
                let m = #[trigger] self.members@[l]@[j];
                m < n && self.labels@[m as int] == l
            } by {
                if l == to {
                    if j < lists[to as int]@.len() {
                        assert(self.members@[l]@[j] == lists[to as int]@[j]);
                    } else {
                        assert(self.members@[l]@[j] == moved@[j - lists[to as int]@.len()]);
                        assert(lists[from as int]@[j - lists[to as int]@.len()] == self.members@[l]@[j]);
                    }
                } else {
                    assert(self.members@[l] == lists[l]);
                    assert(lists[l]@[j] < n && start[lists[l]@[j] as int] == l);
                }
            }
            assert forall|i: int| 0 <= i < n implies #[trigger] self.members@[self.labels@[i] as int]@.contains(
                i as usize,
            ) by {
                assert(lists[start[i] as int]@.contains(i as usize));
                let j = choose|j: int| 0 <= j < lists[start[i] as int]@.len() && lists[start[i] as int]@[j] == i as usize;
                if start[i] == from {
                    assert(self.members@[to as int]@[lists[to as int]@.len() + j] == i as usize);
                } else if start[i] == to {
                    assert(self.members@[to as int]@[j] == i as usize);
                } else {
                    assert(self.members@[start[i] as int] == lists[start[i] as int]);
                }
            }
        }
        true
    }
}

} // verus!
