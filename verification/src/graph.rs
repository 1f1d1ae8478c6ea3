//! Labeled graphs over a storage backend.

use crate::storage::{
    adds_one, adds_target, lemma_slots_with, lemma_slots_without, live_labels, slot_of, slots_with,
    slots_without, stored_edges, stores_edge, targets_allocated, EntryRule, Slots,
};
use vstd::prelude::*;

pub mod undirected;

pub use undirected::{SimpleGraph, UnGraph};

verus! {

/// Every allocated label is live.
pub open spec fn all_live(slots: Slots) -> bool {
    forall|label: int| 0 <= label < slots.len() ==> (#[trigger] slots[label]) is Some
}

/// Every stored entry has its mirror image.
pub open spec fn mirrored(slots: Slots) -> bool {
    forall|u: usize, v: usize| #[trigger] stores_edge(slots, u, v) ==> stores_edge(slots, v, u)
}

/// The unordered pair `{u, v}`, written smaller label first.
pub open spec fn pair_of(u: usize, v: usize) -> (usize, usize) {
    if u <= v {
        (u, v)
    } else {
        (v, u)
    }
}

/// The logical edges of mirrored storage: one pair, smaller label first,
/// for every stored entry.
pub open spec fn edge_pairs(slots: Slots) -> Set<(usize, usize)> {
    Set::new(|p: (usize, usize)| p.0 <= p.1 && stores_edge(slots, p.0, p.1))
}

/// Slots that differ from `before` only by the entries `u -> v` and `v -> u`.
pub open spec fn with_edge(before: Slots, after: Slots, u: usize, v: usize) -> bool {
    &&& after.len() == before.len()
    &&& forall|x: usize| slot_of(after, x) is Some <==> slot_of(before, x) is Some
    &&& forall|x: usize, y: usize|
        stores_edge(after, x, y) <==> (stores_edge(before, x, y) || (x == u && y == v) || (x == v
            && y == u))
}

/// Slots that differ from `before` only by lacking `u -> v` and `v -> u`.
pub open spec fn without_edge(before: Slots, after: Slots, u: usize, v: usize) -> bool {
    &&& after.len() == before.len()
    &&& forall|x: usize| slot_of(after, x) is Some <==> slot_of(before, x) is Some
    &&& forall|x: usize, y: usize|
        stores_edge(after, x, y) <==> (stores_edge(before, x, y) && !(x == u && y == v) && !(x == v
            && y == u))
}

/// The slots after the edge `{u, v}` has been stored under `rule`: the
/// entry `u -> v`, then the entry `v -> u`.
pub open spec fn slots_joined(slots: Slots, u: usize, v: usize, rule: EntryRule) -> Slots {
    slots_with(slots_with(slots, u, v, rule), v, u, rule)
}

/// The slots after the edge `{u, v}` has been removed: every entry
/// `u -> v` and every entry `v -> u`.
pub open spec fn slots_parted(slots: Slots, u: usize, v: usize) -> Slots {
    slots_without(slots_without(slots, u, v), v, u)
}

/// The slots after the edges `edges` have been stored one after the other.
pub open spec fn grown(slots: Slots, edges: Seq<(usize, usize)>, rule: EntryRule) -> Slots
    decreases edges.len(),
{
    if edges.len() == 0 {
        slots
    } else {
        slots_joined(grown(slots, edges.drop_last(), rule), edges.last().0, edges.last().1, rule)
    }
}

/// Storing an edge between two live labels adds its two entries and
/// nothing else.
pub proof fn lemma_slots_joined(slots: Slots, u: usize, v: usize, rule: EntryRule)
    requires
        adds_target(rule),
        slot_of(slots, u) is Some,
        slot_of(slots, v) is Some,
    ensures
        with_edge(slots, slots_joined(slots, u, v, rule), u, v),
{
    let middle = slots_with(slots, u, v, rule);
    lemma_slots_with(slots, u, v, rule);
    lemma_slots_with(middle, v, u, rule);
}

/// The number of entries of `label`; 0 for a label that is not live.
pub open spec fn degree_in(slots: Slots, label: usize) -> nat {
    match slot_of(slots, label) {
        Some(targets) => targets.len(),
        None => 0,
    }
}

/// A new edge between two different live labels gives each of the two one
/// entry more and leaves the others as they were.
pub proof fn lemma_joined_degrees(slots: Slots, u: usize, v: usize, rule: EntryRule)
    requires
        adds_one(rule),
        slot_of(slots, u) is Some,
        slot_of(slots, v) is Some,
        u != v,
        !stores_edge(slots, u, v),
        !stores_edge(slots, v, u),
    ensures
        forall|x: usize|
            #[trigger] degree_in(slots_joined(slots, u, v, rule), x) == if x == u || x == v {
                degree_in(slots, x) + 1
            } else {
                degree_in(slots, x)
            },
{
    let middle = slots_with(slots, u, v, rule);
    assert(slot_of(middle, v) == slot_of(slots, v));
}

/// Removing an edge removes its two entries and nothing else.
pub proof fn lemma_slots_parted(slots: Slots, u: usize, v: usize)
    ensures
        without_edge(slots, slots_parted(slots, u, v), u, v),
{
    let middle = slots_without(slots, u, v);
    lemma_slots_without(slots, u, v);
    lemma_slots_without(middle, v, u);
}

/// A labeled graph. Removing a vertex or an edge never changes the label
/// of another.
///
/// The model is the slots of the graph's storage together with two
/// counters, `order_spec` and `size_spec`.
pub trait AbstractGraph: Sized {
    /// The graph's internal invariant.
    spec fn wf(&self) -> bool;

    /// One slot per vertex label: the neighbors of a live label, `None` for a removed one.
    spec fn slots(&self) -> Slots;

    /// The vertex counter.
    spec fn order_spec(&self) -> nat;

    /// The edge counter.
    spec fn size_spec(&self) -> nat;

    /// The largest number of vertex labels that a graph can hold.
    spec fn label_capacity() -> nat;

    /// How the graph stores a neighbor.
    spec fn edge_rule() -> EntryRule;

    /// Storing a neighbor adds that neighbor and no other, and one entry
    /// if the neighbor was not there.
    proof fn lemma_edge_rule()
        ensures
            adds_target(Self::edge_rule()),
            adds_one(Self::edge_rule()),
    ;

    /// Labels stay within the capacity, which fits the machine, and every
    /// neighbor is an allocated label.
    proof fn lemma_slot_bounds(&self)
        requires
            self.wf(),
        ensures
            self.slots().len() <= Self::label_capacity() <= usize::MAX,
            targets_allocated(self.slots()),
    ;

    /// The largest number of vertex labels that a graph can hold.
    fn max_labels() -> (n: usize)
        ensures
            n == Self::label_capacity(),
    ;

    /// A graph on `nv` vertices with no edges.
    fn empty(nv: usize) -> (g: Self)
        requires
            nv <= Self::label_capacity(),
        ensures
            g.wf(),
            g.slots() == Seq::new(nv as nat, |i: int| Some(Seq::<usize>::empty())),
            g.order_spec() == nv,
            g.size_spec() == 0,
    ;

    /// The number of vertices.
    fn order(&self) -> (n: usize)
        requires
            self.wf(),
        ensures
            n == self.order_spec(),
    ;

    /// The number of edges.
    fn size(&self) -> (n: usize)
        requires
            self.wf(),
        ensures
            n == self.size_spec(),
    ;

    /// The number of vertex labels.
    fn num_v_labels(&self) -> (n: usize)
        requires
            self.wf(),
        ensures
            n == self.slots().len(),
    ;

    /// Adds a vertex without edges and returns its label.
    fn add_vertex(&mut self) -> (label: usize)
        requires
            old(self).wf(),
            old(self).slots().len() < Self::label_capacity(),
            old(self).order_spec() < usize::MAX,
        ensures
            final(self).wf(),
            label == old(self).slots().len(),
            final(self).slots() == old(self).slots().push(Some(Seq::<usize>::empty())),
            final(self).order_spec() == old(self).order_spec() + 1,
            final(self).size_spec() == old(self).size_spec(),
    ;

    /// Adds `count` vertices without edges.
    fn add_vertices(&mut self, count: usize)
        requires
            old(self).wf(),
            old(self).slots().len() + count <= Self::label_capacity(),
            old(self).order_spec() + count <= usize::MAX,
        ensures
            final(self).wf(),
            final(self).slots() == old(self).slots() + Seq::new(
                count as nat,
                |i: int| Some(Seq::<usize>::empty()),
            ),
            final(self).order_spec() == old(self).order_spec() + count,
            final(self).size_spec() == old(self).size_spec(),
    ;

    /// Adds the edge `{u, v}` unless it is there already. Returns whether
    /// it was added; an existing edge leaves the graph as it was.
    fn add_edge(&mut self, u: usize, v: usize) -> (added: bool)
        requires
            old(self).wf(),
            u < old(self).slots().len(),
            v < old(self).slots().len(),
            old(self).size_spec() < usize::MAX,
        ensures
            final(self).wf(),
            added == !stores_edge(old(self).slots(), u, v),
            final(self).order_spec() == old(self).order_spec(),
            added ==> final(self).slots() == slots_joined(
                old(self).slots(),
                u,
                v,
                Self::edge_rule(),
            ) && final(self).size_spec() == old(self).size_spec() + 1,
            !added ==> final(self).slots() == old(self).slots() && final(self).size_spec()
                == old(self).size_spec(),
    ;

    /// Removes the edge `{u, v}` if it is there. Returns whether it was.
    fn rem_edge(&mut self, u: usize, v: usize) -> (removed: bool)
        requires
            old(self).wf(),
            u < old(self).slots().len(),
            v < old(self).slots().len(),
        ensures
            final(self).wf(),
            removed == stores_edge(old(self).slots(), u, v),
            final(self).order_spec() == old(self).order_spec(),
            removed ==> final(self).slots() == slots_parted(old(self).slots(), u, v)
                && final(self).size_spec() == old(self).size_spec() - 1,
            !removed ==> final(self).slots() == old(self).slots() && final(self).size_spec()
                == old(self).size_spec(),
    ;

    /// Whether `label` is a vertex of the graph.
    fn has_vertex(&self, label: usize) -> (present: bool)
        requires
            self.wf(),
        ensures
            present == (slot_of(self.slots(), label) is Some),
    ;

    /// Whether `v` is a neighbor of `u`.
    fn has_edge(&self, u: usize, v: usize) -> (present: bool)
        requires
            self.wf(),
            u < self.slots().len(),
            v < self.slots().len(),
        ensures
            present == stores_edge(self.slots(), u, v),
    ;

    /// The vertices, ascending by label.
    fn vertex_iterator(&self) -> (out: Vec<usize>)
        requires
            self.wf(),
        ensures
            out@ == live_labels(self.slots()),
    ;

    /// The edges as directed pairs, by source label. An undirected edge
    /// shows up once in each direction.
    fn edge_iterator(&self) -> (out: Vec<(usize, usize)>)
        requires
            self.wf(),
        ensures
            out@ == stored_edges(self.slots()),
    ;

    /// The neighbors of `vertex`, or `None` if it is not a vertex of the graph.
    fn neighbor_iterator(&self, vertex: usize) -> (out: Option<Vec<usize>>)
        requires
            self.wf(),
            vertex < self.slots().len(),
        ensures
            match out {
                Some(targets) => slot_of(self.slots(), vertex) == Some(targets@),
                None => slot_of(self.slots(), vertex) is None,
            },
    ;
}

/// Graphs that can take an edge without first looking for it.
pub trait FastGraph: AbstractGraph {
    /// Adds the edge `{u, v}` without looking for an existing one. Whether
    /// a second copy is stored is up to the storage; the edge counter goes
    /// up either way.
    fn add_edge_unchecked(&mut self, u: usize, v: usize)
        requires
            old(self).wf(),
            u < old(self).slots().len(),
            v < old(self).slots().len(),
            old(self).size_spec() < usize::MAX,
        ensures
            final(self).wf(),
            final(self).slots() == slots_joined(old(self).slots(), u, v, Self::edge_rule()),
            final(self).order_spec() == old(self).order_spec(),
            final(self).size_spec() == old(self).size_spec() + 1,
    ;
}

} // verus!
