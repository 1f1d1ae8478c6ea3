//! Adjacency-list storage: one vector of targets per vertex label.

use crate::seqs::{differs_from, lemma_filter_member, lemma_filter_step};
use crate::storage::{
    lemma_slots_without, live_labels, row_edges, slot_of, slots_with, slots_without, stored_edges,
    stores_edge, EntryRule, Slots, Storage,
};
use vstd::prelude::*;

verus! {

/// The slot of one vertex label: its targets, or `None` once removed.
#[derive(Clone)]
pub struct AdjacencyNode {
    pub neighbors: Option<Vec<usize>>,
}

impl AdjacencyNode {
    /// The targets of a live node, as a sequence.
    pub open spec fn targets(&self) -> Option<Seq<usize>> {
        match self.neighbors {
            Some(ns) => Some(ns@),
            None => None,
        }
    }
}

/// Adjacency-list storage. Label `i` owns `list[i]`.
pub struct AdjacencyList {
    pub list: Vec<AdjacencyNode>,
}

/// A copy of `labels`.
pub fn copy_labels(labels: &Vec<usize>) -> (out: Vec<usize>)
    ensures
        out@ == labels@,
{
    let mut out: Vec<usize> = Vec::with_capacity(labels.len());
    let mut i: usize = 0;
    while i < labels.len()
        invariant
            i <= labels.len(),
            out@ == labels@.take(i as int),
        decreases labels.len() - i,
    {
        out.push(labels[i]);
        proof {
            assert(labels@.take(i + 1) == labels@.take(i as int).push(labels@[i as int]));
        }
        i += 1;
    }
    proof {
        assert(labels@.take(labels.len() as int) == labels@);
    }
    out
}

/// Whether `needle` occurs in `labels`.
pub fn holds_label(labels: &Vec<usize>, needle: usize) -> (found: bool)
    ensures
        found == labels@.contains(needle),
{
    let mut i: usize = 0;
    while i < labels.len()
        invariant
            i <= labels.len(),
            forall|k: int| 0 <= k < i ==> labels@[k] != needle,
        decreases labels.len() - i,
    {
        if labels[i] == needle {
            return true;
        }
        i += 1;
    }
    false
}

/// `labels` without every occurrence of `unwanted`, order kept.
pub fn without_label(labels: &Vec<usize>, unwanted: usize) -> (out: Vec<usize>)
    ensures
        out@ == labels@.filter(differs_from(unwanted)),
{
    let mut out: Vec<usize> = Vec::new();
    let mut i: usize = 0;
    while i < labels.len()
        invariant
            i <= labels.len(),
            out@ == labels@.take(i as int).filter(differs_from(unwanted)),
        decreases labels.len() - i,
    {
        let x = labels[i];
        proof {
            lemma_filter_step(labels@, i as int, differs_from(unwanted));
        }
        if x != unwanted {
            out.push(x);
        }
        i += 1;
    }
    proof {
        assert(labels@.take(labels.len() as int) == labels@);
    }
    out
}

impl AdjacencyList {
    /// Every stored target is an allocated label.
    pub open spec fn targets_in_range(&self) -> bool {
        forall|i: int, j: int|
            0 <= i < self.list@.len() && self.list@[i].neighbors is Some && 0 <= j
                < self.list@[i].neighbors->0@.len() ==> (#[trigger] self.list@[i].neighbors->0@[j])
                < self.list@.len()
    }

    /// The number of targets stored for a live `vertex`.
    pub fn out_degree(&self, vertex: usize) -> (degree: usize)
        requires
            self.wf(),
            slot_of(self.slots(), vertex) is Some,
        ensures
            degree == slot_of(self.slots(), vertex)->0.len(),
    {
        match &self.list[vertex].neighbors {
            Some(ns) => ns.len(),
            None => 0,
        }
    }

    /// Removes a vertex. Its label stays allocated and is never reused; the
    /// slots of all other labels are untouched, entries that point at the
    /// removed label included.
    pub fn rem_vertex(&mut self, label: usize)
        requires
            old(self).wf(),
            label < old(self).slots().len(),
        ensures
            final(self).wf(),
            final(self).slots() == old(self).slots().update(label as int, None),
    {
        self.list[label] = AdjacencyNode { neighbors: None };
        proof {
            assert(self.slots() =~= old(self).slots().update(label as int, None));
            assert forall|i: int, j: int|
                0 <= i < self.list@.len() && self.list@[i].neighbors is Some && 0 <= j
                    < self.list@[i].neighbors->0@.len() implies (
            #[trigger] self.list@[i].neighbors->0@[j]) < self.list@.len() by {
                assert(self.list@[i] == old(self).list@[i]);
            }
        }
    }

    /// The entries of slot `from` before and after one was replaced by
    /// `after`, while every other slot stayed as it was.
    proof fn lemma_one_slot_changed(before: &Self, after: &Self, from: usize)
        requires
            before.wf(),
            from < before.list@.len(),
            after.list@.len() == before.list@.len(),
            forall|i: int| 0 <= i < before.list@.len() && i != from ==> after.list@[i] == before.list@[i],
            after.list@[from as int].neighbors matches Some(ns) ==> forall|j: int|
                0 <= j < ns@.len() ==> ns@[j] < before.list@.len(),
        ensures
            after.wf(),
            forall|other: usize|
                other != from ==> slot_of(after.slots(), other) == slot_of(before.slots(), other),
    {
        assert forall|i: int, j: int|
            0 <= i < after.list@.len() && after.list@[i].neighbors is Some && 0 <= j
                < after.list@[i].neighbors->0@.len() implies (#[trigger] after.list@[i].neighbors->0@[j])
            < after.list@.len() by {
            if i != from {
                assert(before.list@[i].neighbors->0@[j] < before.list@.len());
            }
        }
    }
}

impl Storage for AdjacencyList {
    open spec fn wf(&self) -> bool {
        self.targets_in_range()
    }

    open spec fn slots(&self) -> Slots {
        self.list@.map_values(|node: AdjacencyNode| node.targets())
    }

    open spec fn capacity() -> nat {
        usize::MAX as nat
    }

    open spec fn entry_rule() -> EntryRule {
        |targets: Seq<usize>, to: usize| targets.push(to)
    }

    proof fn lemma_entry_rule() {
        assert forall|targets: Seq<usize>, to: usize, x: usize|
            #[trigger] Self::entry_rule()(targets, to).contains(x) <==> (targets.contains(x) || x
                == to) by {
            crate::seqs::lemma_push_member(targets, to, x);
        }
    }

    fn max_labels() -> (n: usize) {
        usize::MAX
    }

    proof fn lemma_slot_bounds(&self) {
        assert(self.list@.len() == self.list.len());
        assert forall|from: usize, to: usize| #[trigger]
            stores_edge(self.slots(), from, to) implies to < self.slots().len() by {
            let targets = slot_of(self.slots(), from)->0;
            let j = choose|j: int| 0 <= j < targets.len() && targets[j] == to;
            assert(self.list@[from as int].neighbors->0@[j] == to);
        }
    }

    fn empty(nv: usize) -> (s: Self) {
        let mut list: Vec<AdjacencyNode> = Vec::with_capacity(nv);
        let mut i: usize = 0;
        while i < nv
            invariant
                i <= nv,
                list@.len() == i,
                forall|k: int|
                    0 <= k < i ==> (#[trigger] list@[k]).targets() == Some(Seq::<usize>::empty()),
            decreases nv - i,
        {
            list.push(AdjacencyNode { neighbors: Some(Vec::new()) });
            i += 1;
        }
        let s = Self { list };
        proof {
            assert(s.slots() =~= Seq::new(nv as nat, |i: int| Some(Seq::<usize>::empty())));
            assert forall|i: int, j: int|
                0 <= i < s.list@.len() && s.list@[i].neighbors is Some && 0 <= j
                    < s.list@[i].neighbors->0@.len() implies (#[trigger] s.list@[i].neighbors->0@[j])
                < s.list@.len() by {
                assert(s.list@[i].targets() == Some(Seq::<usize>::empty()));
            }
        }
        s
    }

    fn num_v_labels(&self) -> (n: usize) {
        self.list.len()
    }

    fn add_vertex(&mut self) -> (label: usize) {
        self.list.push(AdjacencyNode { neighbors: Some(Vec::new()) });
        proof {
            assert(self.slots() =~= old(self).slots().push(Some(Seq::<usize>::empty())));
            assert forall|i: int, j: int|
                0 <= i < self.list@.len() && self.list@[i].neighbors is Some && 0 <= j
                    < self.list@[i].neighbors->0@.len() implies (
            #[trigger] self.list@[i].neighbors->0@[j]) < self.list@.len() by {
                if i < old(self).list@.len() {
                    assert(old(self).list@[i].neighbors->0@[j] < old(self).list@.len());
                }
            }
        }
        self.list.len() - 1
    }

    fn add_vertices(&mut self, count: usize) {
        let mut added: usize = 0;
        while added < count
            invariant
                added <= count,
                self.wf(),
                old(self).slots().len() + count <= Self::capacity(),
                self.slots() == old(self).slots() + Seq::new(
                    added as nat,
                    |i: int| Some(Seq::<usize>::empty()),
                ),
            decreases count - added,
        {
            let ghost before = self.slots();
            self.add_vertex();
            proof {
                assert(self.slots() =~= old(self).slots() + Seq::new(
                    (added + 1) as nat,
                    |i: int| Some(Seq::<usize>::empty()),
                ));
            }
            added += 1;
        }
    }

    fn add_edge(&mut self, from: usize, to: usize) {
        match &mut self.list[from].neighbors {
            Some(ns) => {
                ns.push(to);
            },
            None => {},
        }
        proof {
            Self::lemma_one_slot_changed(old(self), self, from);
            assert(self.slots() =~= slots_with(old(self).slots(), from, to, Self::entry_rule()));
        }
    }

    fn rem_edge(&mut self, from: usize, to: usize) {
        let kept = match &self.list[from].neighbors {
            Some(ns) => Some(without_label(ns, to)),
            None => None,
        };
        self.list[from] = AdjacencyNode { neighbors: kept };
        proof {
            if slot_of(old(self).slots(), from) is Some {
                let a = slot_of(old(self).slots(), from)->0;
                let b = slot_of(self.slots(), from)->0;
                assert(b == a.filter(differs_from(to)));
                assert forall|j: int| 0 <= j < b.len() implies b[j] < old(self).list@.len() by {
                    assert(b.contains(b[j]));
                    lemma_filter_member(a, differs_from(to), b[j]);
                    let k = choose|k: int| 0 <= k < a.len() && a[k] == b[j];
                    assert(old(self).list@[from as int].neighbors->0@[k] == b[j]);
                }
            }
            Self::lemma_one_slot_changed(old(self), self, from);
            assert(self.slots() =~= slots_without(old(self).slots(), from, to));
        }
    }

    fn rem_undirected_edge(&mut self, u: usize, v: usize) {
        self.rem_edge(u, v);
        proof {
            lemma_slots_without(old(self).slots(), u, v);
        }
        self.rem_edge(v, u);
    }

    fn has_vertex(&self, label: usize) -> (present: bool) {
        label < self.list.len() && self.list[label].neighbors.is_some()
    }

    fn has_edge(&self, from: usize, to: usize) -> (present: bool) {
        match &self.list[from].neighbors {
            Some(ns) => holds_label(ns, to),
            None => false,
        }
    }

    fn vertex_iterator(&self) -> (out: Vec<usize>) {
        let mut out: Vec<usize> = Vec::new();
        let mut i: usize = 0;
        while i < self.list.len()
            invariant
                i <= self.list.len(),
                out@ == live_labels(self.slots().take(i as int)),
            decreases self.list.len() - i,
        {
            proof {
                assert(self.slots().take(i + 1).drop_last() == self.slots().take(i as int));
            }
            if self.list[i].neighbors.is_some() {
                out.push(i);
            }
            i += 1;
        }
        proof {
            assert(self.slots().take(self.list.len() as int) == self.slots());
        }
        out
    }

    fn edge_iterator(&self) -> (out: Vec<(usize, usize)>) {
        let mut out: Vec<(usize, usize)> = Vec::new();
        let mut u: usize = 0;
        while u < self.list.len()
            invariant
                u <= self.list.len(),
                out@ == stored_edges(self.slots().take(u as int)),
            decreases self.list.len() - u,
        {
            proof {
                assert(self.slots().take(u + 1).drop_last() == self.slots().take(u as int));
            }
            match &self.list[u].neighbors {
                Some(ns) => {
                    let ghost base = out@;
                    let mut j: usize = 0;
                    while j < ns.len()
                        invariant
                            j <= ns.len(),
                            out@ == base + row_edges(u, ns@.take(j as int)),
                        decreases ns.len() - j,
                    {
                        out.push((u, ns[j]));
                        proof {
                            assert(ns@.take(j + 1) == ns@.take(j as int).push(ns@[j as int]));
                            assert(base + row_edges(u, ns@.take(j + 1)) =~= (base + row_edges(
                                u,
                                ns@.take(j as int),
                            )).push((u, ns@[j as int])));
                        }
                        j += 1;
                    }
                    proof {
                        assert(ns@.take(ns.len() as int) == ns@);
                    }
                },
                None => {},
            }
            u += 1;
        }
        proof {
            assert(self.slots().take(self.list.len() as int) == self.slots());
        }
        out
    }

    fn neighbor_iterator(&self, vertex: usize) -> (out: Option<Vec<usize>>) {
        match &self.list[vertex].neighbors {
            Some(ns) => Some(copy_labels(ns)),
            None => None,
        }
    }
}

} // verus!
