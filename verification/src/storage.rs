//! Storage backends: the mutable adjacency structure underneath a graph.
//!
//! A backend holds one slot per vertex label. A slot is either live, with the
//! sequence of labels its vertex points at, or removed. Labels are dense
//! indices that are never reused or shifted.

use vstd::prelude::*;

pub mod adjacency_list;
pub mod adjacency_matrix;

pub use adjacency_list::{AdjacencyList, AdjacencyNode};
pub use adjacency_matrix::AdjacencyMatrix;

verus! {

/// The model of a backend: one entry per label, `Some(targets)` for a live
/// label and `None` for a removed one.
pub type Slots = Seq<Option<Seq<usize>>>;

/// The targets of a live label; `None` if the label is removed or unallocated.
pub open spec fn slot_of(slots: Slots, label: usize) -> Option<Seq<usize>> {
    if label < slots.len() {
        slots[label as int]
    } else {
        None
    }
}

/// Whether the directed entry `from -> to` is stored.
pub open spec fn stores_edge(slots: Slots, from: usize, to: usize) -> bool {
    slot_of(slots, from) matches Some(targets) && targets.contains(to)
}

/// Every stored target is an allocated label.
pub open spec fn targets_allocated(slots: Slots) -> bool {
    forall|from: usize, to: usize| #[trigger] stores_edge(slots, from, to) ==> to < slots.len()
}

/// How a backend stores an entry: the targets of a slot after one more
/// target has been stored in it.
pub type EntryRule = spec_fn(Seq<usize>, usize) -> Seq<usize>;

/// Under `rule`, storing a target adds that target and no other.
pub open spec fn adds_target(rule: EntryRule) -> bool {
    forall|targets: Seq<usize>, to: usize, x: usize|
        #[trigger] rule(targets, to).contains(x) <==> (targets.contains(x) || x == to)
}

/// Under `rule`, storing a target that is not among the targets yet makes
/// them one more.
pub open spec fn adds_one(rule: EntryRule) -> bool {
    forall|targets: Seq<usize>, to: usize|
        !targets.contains(to) ==> (#[trigger] rule(targets, to)).len() == targets.len() + 1
}

/// The slots after the entry `from -> to` has been stored under `rule`.
/// A removed source takes no entries.
pub open spec fn slots_with(slots: Slots, from: usize, to: usize, rule: EntryRule) -> Slots {
    match slot_of(slots, from) {
        Some(targets) => slots.update(from as int, Some(rule(targets, to))),
        None => slots,
    }
}

/// The slots after every entry `from -> to` has been removed.
pub open spec fn slots_without(slots: Slots, from: usize, to: usize) -> Slots {
    match slot_of(slots, from) {
        Some(targets) => slots.update(
            from as int,
            Some(targets.filter(crate::seqs::differs_from(to))),
        ),
        None => slots,
    }
}

/// What storing an entry does to the stored entries.
pub proof fn lemma_slots_with(slots: Slots, from: usize, to: usize, rule: EntryRule)
    requires
        adds_target(rule),
    ensures
        slots_with(slots, from, to, rule).len() == slots.len(),
        forall|x: usize|
            slot_of(slots_with(slots, from, to, rule), x) is Some <==> slot_of(slots, x) is Some,
        forall|x: usize|
            x != from ==> slot_of(slots_with(slots, from, to, rule), x) == slot_of(slots, x),
        forall|x: usize, y: usize|
            stores_edge(slots_with(slots, from, to, rule), x, y) <==> (stores_edge(slots, x, y) || (x
                == from && y == to && slot_of(slots, from) is Some)),
{
    let after = slots_with(slots, from, to, rule);
    assert forall|x: usize, y: usize|
        stores_edge(after, x, y) <==> (stores_edge(slots, x, y) || (x == from && y == to && slot_of(
            slots,
            from,
        ) is Some)) by {
        if slot_of(slots, from) is Some && x == from {
            let targets = slot_of(slots, from)->0;
            assert(rule(targets, to).contains(y) <==> (targets.contains(y) || y == to));
        }
    }
}

/// What removing an entry does to the stored entries.
pub proof fn lemma_slots_without(slots: Slots, from: usize, to: usize)
    ensures
        slots_without(slots, from, to).len() == slots.len(),
        forall|x: usize|
            slot_of(slots_without(slots, from, to), x) is Some <==> slot_of(slots, x) is Some,
        forall|x: usize|
            x != from ==> slot_of(slots_without(slots, from, to), x) == slot_of(slots, x),
        forall|x: usize, y: usize|
            stores_edge(slots_without(slots, from, to), x, y) <==> (stores_edge(slots, x, y) && !(x
                == from && y == to)),
{
    let after = slots_without(slots, from, to);
    assert forall|x: usize, y: usize|
        stores_edge(after, x, y) <==> (stores_edge(slots, x, y) && !(x == from && y == to)) by {
        if slot_of(slots, from) is Some && x == from {
            let targets = slot_of(slots, from)->0;
            crate::seqs::lemma_filter_member(targets, crate::seqs::differs_from(to), y);
        }
    }
}

/// The directed edges leaving `from`, in the order of `targets`.
pub open spec fn row_edges(from: usize, targets: Seq<usize>) -> Seq<(usize, usize)> {
    targets.map_values(|to: usize| (from, to))
}

/// The live labels, ascending.
pub open spec fn live_labels(slots: Slots) -> Seq<usize>
    decreases slots.len(),
{
    if slots.len() == 0 {
        Seq::empty()
    } else {
        let rest = live_labels(slots.drop_last());
        if slots.last() is Some {
            rest.push((slots.len() - 1) as usize)
        } else {
            rest
        }
    }
}

/// The directed edges of all live labels: by source label, then in the order
/// of the source's slot.
pub open spec fn stored_edges(slots: Slots) -> Seq<(usize, usize)>
    decreases slots.len(),
{
    if slots.len() == 0 {
        Seq::empty()
    } else {
        let rest = stored_edges(slots.drop_last());
        match slots.last() {
            Some(targets) => rest + row_edges((slots.len() - 1) as usize, targets),
            None => rest,
        }
    }
}

/// A label is among the live labels exactly if its slot is live.
pub proof fn lemma_live_labels_contains(slots: Slots, label: usize)
    requires
        slots.len() <= usize::MAX,
    ensures
        live_labels(slots).contains(label) <==> slot_of(slots, label) is Some,
    decreases slots.len(),
{
    if slots.len() > 0 {
        let last = (slots.len() - 1) as usize;
        let rest = live_labels(slots.drop_last());
        lemma_live_labels_contains(slots.drop_last(), label);
        if slots.last() is Some {
            assert forall|x: usize| rest.push(last).contains(x) <==> (rest.contains(x) || x
                == last) by {
                if rest.contains(x) {
                    let i = choose|i: int| 0 <= i < rest.len() && rest[i] == x;
                    assert(rest.push(last)[i] == x);
                }
                if x == last {
                    assert(rest.push(last)[rest.len() as int] == x);
                }
            }
        }
    }
}

/// A pair is among the stored edges exactly if its source's slot holds the target.
pub proof fn lemma_stored_edges_contains(slots: Slots, from: usize, to: usize)
    requires
        slots.len() <= usize::MAX,
    ensures
        stored_edges(slots).contains((from, to)) <==> stores_edge(slots, from, to),
    decreases slots.len(),
{
    if slots.len() > 0 {
        let last = (slots.len() - 1) as usize;
        let rest = stored_edges(slots.drop_last());
        lemma_stored_edges_contains(slots.drop_last(), from, to);
        match slots.last() {
            Some(targets) => {
                let row = row_edges(last, targets);
                let all = rest + row;
                if rest.contains((from, to)) {
                    let i = choose|i: int| 0 <= i < rest.len() && rest[i] == (from, to);
                    assert(all[i] == (from, to));
                }
                if row.contains((from, to)) {
                    let i = choose|i: int| 0 <= i < row.len() && row[i] == (from, to);
                    assert(all[rest.len() + i] == (from, to));
                    assert(targets[i] == to);
                }
                if all.contains((from, to)) {
                    let i = choose|i: int| 0 <= i < all.len() && all[i] == (from, to);
                    if i < rest.len() {
                        assert(rest[i] == (from, to));
                    } else {
                        assert(row[i - rest.len()] == (from, to));
                    }
                }
                if from == last && targets.contains(to) {
                    let i = choose|i: int| 0 <= i < targets.len() && targets[i] == to;
                    assert(row[i] == (from, to));
                }
            },
            None => {},
        }
    }
}

/// The neighbors of a vertex, either copied out of a backend or borrowed
/// from it.
pub enum Neighbors<'a> {
    Owned(Vec<usize>),
    Referenced(&'a [usize]),
}

impl<'a> Neighbors<'a> {
    /// The neighbors, in order.
    pub open spec fn view(&self) -> Seq<usize> {
        match self {
            Neighbors::Owned(labels) => labels@,
            Neighbors::Referenced(labels) => labels@,
        }
    }

    /// The neighbors as a slice.
    pub fn as_slice(&self) -> (out: &[usize])
        ensures
            out@ == self@,
    {
        match self {
            Neighbors::Owned(labels) => labels.as_slice(),
            Neighbors::Referenced(labels) => labels,
        }
    }
}

/// A mutable directed adjacency structure over dense vertex labels.
pub trait Storage: Sized {
    /// The backend's internal invariant.
    spec fn wf(&self) -> bool;

    /// The model: one slot per label handed out so far.
    spec fn slots(&self) -> Slots;

    /// The largest number of labels that the backend can hold.
    spec fn capacity() -> nat;

    /// How the backend stores an entry.
    spec fn entry_rule() -> EntryRule;

    /// Storing a target adds that target and no other, and one entry if
    /// the target was not there.
    proof fn lemma_entry_rule()
        ensures
            adds_target(Self::entry_rule()),
            adds_one(Self::entry_rule()),
    ;

    /// Labels stay within the capacity, which fits the machine, and every
    /// stored target is an allocated label.
    proof fn lemma_slot_bounds(&self)
        requires
            self.wf(),
        ensures
            self.slots().len() <= Self::capacity() <= usize::MAX,
            targets_allocated(self.slots()),
    ;

    /// The largest number of labels that the backend can hold.
    fn max_labels() -> (n: usize)
        ensures
            n == Self::capacity(),
    ;

    /// Storage with `nv` live labels and no edges.
    fn empty(nv: usize) -> (s: Self)
        requires
            nv <= Self::capacity(),
        ensures
            s.wf(),
            s.slots() == Seq::new(nv as nat, |i: int| Some(Seq::<usize>::empty())),
    ;

    /// The number of labels, removed ones included.
    fn num_v_labels(&self) -> (n: usize)
        requires
            self.wf(),
        ensures
            n == self.slots().len(),
    ;

    /// Allocates the next label, live and without edges, and returns it.
    fn add_vertex(&mut self) -> (label: usize)
        requires
            old(self).wf(),
            old(self).slots().len() < Self::capacity(),
        ensures
            final(self).wf(),
            label == old(self).slots().len(),
            final(self).slots() == old(self).slots().push(Some(Seq::<usize>::empty())),
    ;

    /// Allocates the next `count` labels, live and without edges.
    fn add_vertices(&mut self, count: usize)
        requires
            old(self).wf(),
            old(self).slots().len() + count <= Self::capacity(),
        ensures
            final(self).wf(),
            final(self).slots() == old(self).slots() + Seq::new(
                count as nat,
                |i: int| Some(Seq::<usize>::empty()),
            ),
    ;

    /// Stores the directed entry `from -> to` without looking for an
    /// existing one. A removed source takes no entries.
    fn add_edge(&mut self, from: usize, to: usize)
        requires
            old(self).wf(),
            from < old(self).slots().len(),
            to < old(self).slots().len(),
        ensures
            final(self).wf(),
            final(self).slots() == slots_with(old(self).slots(), from, to, Self::entry_rule()),
    ;

    /// Removes every directed entry `from -> to`.
    fn rem_edge(&mut self, from: usize, to: usize)
        requires
            old(self).wf(),
            from < old(self).slots().len(),
            to < old(self).slots().len(),
        ensures
            final(self).wf(),
            final(self).slots() == slots_without(old(self).slots(), from, to),
    ;

    /// Removes every entry `u -> v` and every entry `v -> u`.
    fn rem_undirected_edge(&mut self, u: usize, v: usize)
        requires
            old(self).wf(),
            u < old(self).slots().len(),
            v < old(self).slots().len(),
        ensures
            final(self).wf(),
            final(self).slots() == slots_without(slots_without(old(self).slots(), u, v), v, u),
    ;

    /// Whether `label` is allocated and not removed.
    fn has_vertex(&self, label: usize) -> (present: bool)
        requires
            self.wf(),
        ensures
            present == (slot_of(self.slots(), label) is Some),
    ;

    /// Whether the directed entry `from -> to` is stored.
    fn has_edge(&self, from: usize, to: usize) -> (present: bool)
        requires
            self.wf(),
            from < self.slots().len(),
            to < self.slots().len(),
        ensures
            present == stores_edge(self.slots(), from, to),
    ;

    /// The live labels, ascending.
    fn vertex_iterator(&self) -> (out: Vec<usize>)
        requires
            self.wf(),
        ensures
            out@ == live_labels(self.slots()),
    ;

    /// The directed entries of all live labels, by source label.
    fn edge_iterator(&self) -> (out: Vec<(usize, usize)>)
        requires
            self.wf(),
        ensures
            out@ == stored_edges(self.slots()),
    ;

    /// The targets of `vertex` in stored order, or `None` if it is removed.
    fn neighbor_iterator(&self, vertex: usize) -> (out: Option<Vec<usize>>)
        requires
            self.wf(),
            vertex < self.slots().len(),
        ensures
            match out {
                Some(targets) => slot_of(self.slots(), vertex) == Some(targets@),
                None => slot_of(self.slots(), vertex) is None,
            },
    ;
}

} // verus!
