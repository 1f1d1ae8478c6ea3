//! Undirected graphs: every logical edge is two mirrored directed entries.

use crate::graph::{
    all_live, degree_in, edge_pairs, grown, lemma_joined_degrees, lemma_slots_joined,
    lemma_slots_parted, mirrored, pair_of, slots_joined, with_edge, without_edge, AbstractGraph,
    FastGraph,
};
use crate::storage::{slot_of, stores_edge, AdjacencyList, EntryRule, Slots, Storage};
use vstd::prelude::*;

verus! {

/// An undirected graph over the storage backend `S`.
pub struct UnGraph<S: Storage> {
    order: usize,
    size: usize,
    storage: S,
}

/// An undirected graph over adjacency lists.
pub type SimpleGraph = UnGraph<AdjacencyList>;

/// Adding `{u, v}` to mirrored slots adds one pair at most.
pub proof fn lemma_pairs_with_edge(before: Slots, after: Slots, u: usize, v: usize)
    requires
        with_edge(before, after, u, v),
        mirrored(before),
        edge_pairs(before).finite(),
    ensures
        mirrored(after),
        edge_pairs(after) == edge_pairs(before).insert(pair_of(u, v)),
        edge_pairs(after).finite(),
        edge_pairs(after).len() == edge_pairs(before).len() + if stores_edge(before, u, v) {
            0int
        } else {
            1int
        },
{
    assert forall|x: usize, y: usize| #[trigger] stores_edge(after, x, y) implies stores_edge(
        after,
        y,
        x,
    ) by {
        if stores_edge(before, x, y) {
            assert(stores_edge(before, y, x));
        }
    }
    assert(stores_edge(before, u, v) ==> stores_edge(before, v, u));
    assert(stores_edge(before, v, u) ==> stores_edge(before, u, v));
    assert(edge_pairs(after) =~= edge_pairs(before).insert(pair_of(u, v)));
    assert(edge_pairs(before).contains(pair_of(u, v)) <==> stores_edge(before, u, v));
}

/// Removing `{u, v}` from mirrored slots removes its pair.
pub proof fn lemma_pairs_without_edge(before: Slots, after: Slots, u: usize, v: usize)
    requires
        without_edge(before, after, u, v),
        mirrored(before),
        edge_pairs(before).finite(),
    ensures
        mirrored(after),
        edge_pairs(after) == edge_pairs(before).remove(pair_of(u, v)),
        edge_pairs(after).finite(),
        edge_pairs(after).len() == edge_pairs(before).len() - if stores_edge(before, u, v) {
            1int
        } else {
            0int
        },
{
    assert forall|x: usize, y: usize| #[trigger] stores_edge(after, x, y) implies stores_edge(
        after,
        y,
        x,
    ) by {
        assert(stores_edge(before, x, y));
        assert(stores_edge(before, y, x));
    }
    assert(stores_edge(before, u, v) ==> stores_edge(before, v, u));
    assert(stores_edge(before, v, u) ==> stores_edge(before, u, v));
    assert(edge_pairs(after) =~= edge_pairs(before).remove(pair_of(u, v)));
    assert(edge_pairs(before).contains(pair_of(u, v)) <==> stores_edge(before, u, v));
}

/// The number of unordered pairs of different labels below `n`.
pub open spec fn pairs_below(n: nat) -> nat
    decreases n,
{
    if n == 0 {
        0
    } else {
        pairs_below((n - 1) as nat) + (n - 1) as nat
    }
}

/// The pairs of different labels below `n`, larger label first: by the
/// larger label, then by the smaller.
pub open spec fn pairs_in_order(n: nat) -> Seq<(usize, usize)>
    decreases n,
{
    if n == 0 {
        Seq::empty()
    } else {
        pairs_in_order((n - 1) as nat) + Seq::new((n - 1) as nat, |v: int| ((n - 1) as usize, v as usize))
    }
}

/// More labels make no fewer pairs.
pub proof fn lemma_pairs_below_grows(a: nat, b: nat)
    requires
        a <= b,
    ensures
        pairs_below(a) <= pairs_below(b),
    decreases b,
{
    if a < b {
        lemma_pairs_below_grows(a, (b - 1) as nat);
    }
}

impl<S: Storage> UnGraph<S> {
    /// The logical edges: one pair, smaller label first, per undirected edge.
    pub open spec fn edge_set(&self) -> Set<(usize, usize)> {
        edge_pairs(self.slots())
    }

    /// Whether the edge counter is the number of logical edges, as it is
    /// as long as no edge is added a second time.
    pub open spec fn simple(&self) -> bool {
        self.size_spec() == self.edge_set().len()
    }

    /// The edge counter is never below the number of logical edges, every
    /// label is live, and every entry is mirrored.
    pub proof fn lemma_undirected(&self)
        requires
            self.wf(),
        ensures
            all_live(self.slots()),
            mirrored(self.slots()),
            self.edge_set().finite(),
            self.edge_set().len() <= self.size_spec(),
            self.order_spec() == self.slots().len(),
    {
    }

    /// A graph on `vertex_count` vertices with no edges.
    pub fn with_vertices(vertex_count: usize) -> (g: Self)
        requires
            vertex_count <= S::capacity(),
        ensures
            g.wf(),
            g.slots() == Seq::new(vertex_count as nat, |i: int| Some(Seq::<usize>::empty())),
            g.order_spec() == vertex_count,
            g.size_spec() == 0,
            g.simple(),
    {
        let storage = S::empty(vertex_count);
        let g = Self { order: vertex_count, size: 0, storage };
        proof {
            assert(edge_pairs(g.slots()) =~= Set::empty());
        }
        g
    }

    /// The graph on `vertex_count` vertices in which every two different
    /// vertices are adjacent.
    pub fn complete_graph(vertex_count: usize) -> (g: Self)
        requires
            vertex_count <= S::capacity(),
            pairs_below(vertex_count as nat) <= usize::MAX,
        ensures
            g.wf(),
            g.slots().len() == vertex_count,
            g.order_spec() == vertex_count,
            g.size_spec() == pairs_below(vertex_count as nat),
            g.slots() == grown(
                Seq::new(vertex_count as nat, |i: int| Some(Seq::<usize>::empty())),
                pairs_in_order(vertex_count as nat),
                S::entry_rule(),
            ),
            forall|x: usize, y: usize|
                stores_edge(g.slots(), x, y) <==> (x != y && x < vertex_count && y < vertex_count),
            forall|x: usize|
                x < vertex_count ==> #[trigger] degree_in(g.slots(), x) == vertex_count - 1,
            g.simple(),
    {
        let mut g = Self::with_vertices(vertex_count);
        let mut u: usize = 0;
        let ghost blank = g.slots();
        proof {
            assert forall|x: usize, y: usize| !stores_edge(g.slots(), x, y) by {
                if x < vertex_count {
                    assert(g.slots()[x as int] == Some(Seq::<usize>::empty()));
                }
            }
            assert forall|x: usize| x < vertex_count implies #[trigger] degree_in(g.slots(), x)
                == 0 by {
                assert(g.slots()[x as int] == Some(Seq::<usize>::empty()));
            }
        }
        while u < vertex_count
            invariant
                u <= vertex_count,
                pairs_below(vertex_count as nat) <= usize::MAX,
                g.wf(),
                g.slots().len() == vertex_count,
                g.order_spec() == vertex_count,
                g.size_spec() == pairs_below(u as nat),
                g.simple(),
                blank == Seq::new(vertex_count as nat, |i: int| Some(Seq::<usize>::empty())),
                g.slots() == grown(blank, pairs_in_order(u as nat), S::entry_rule()),
                forall|x: usize, y: usize|
                    stores_edge(g.slots(), x, y) <==> (x != y && x < u && y < u),
                forall|x: usize|
                    x < vertex_count ==> #[trigger] degree_in(g.slots(), x) == if x < u {
                        u - 1
                    } else {
                        0
                    },
            decreases vertex_count - u,
        {
            let mut v: usize = 0;
            proof {
                assert(pairs_in_order(u as nat) + Seq::new(0, |k: int| (u, k as usize))
                    =~= pairs_in_order(u as nat));
            }
            while v < u
                invariant
                    v <= u < vertex_count,
                    pairs_below(vertex_count as nat) <= usize::MAX,
                    g.wf(),
                    g.slots().len() == vertex_count,
                    g.order_spec() == vertex_count,
                    g.size_spec() == pairs_below(u as nat) + v,
                    g.simple(),
                    g.slots() == grown(
                        blank,
                        pairs_in_order(u as nat) + Seq::new(v as nat, |k: int| (u, k as usize)),
                        S::entry_rule(),
                    ),
                    forall|x: usize, y: usize|
                        stores_edge(g.slots(), x, y) <==> ((x != y && x < u && y < u) || (x == u && y
                            < v) || (y == u && x < v)),
                    forall|x: usize|
                        x < vertex_count ==> #[trigger] degree_in(g.slots(), x) == if x < v {
                            u as int
                        } else if x < u {
                            u - 1
                        } else if x == u {
                            v as int
                        } else {
                            0
                        },
                decreases u - v,
            {
                proof {
                    lemma_pairs_below_grows((u + 1) as nat, vertex_count as nat);
                    g.lemma_undirected();
                    S::lemma_entry_rule();
                    assert(g.slots()[u as int] is Some && g.slots()[v as int] is Some);
                    lemma_slots_joined(g.slots(), u, v, S::entry_rule());
                    lemma_joined_degrees(g.slots(), u, v, S::entry_rule());
                }
                g.add_edge_unchecked(u, v);
                proof {
                    let shorter = pairs_in_order(u as nat) + Seq::new(
                        v as nat,
                        |k: int| (u, k as usize),
                    );
                    let longer = pairs_in_order(u as nat) + Seq::new(
                        (v + 1) as nat,
                        |k: int| (u, k as usize),
                    );
                    assert(longer.drop_last() =~= shorter);
                    assert(longer.last() == (u, v));
                }
                v += 1;
            }
            u += 1;
        }
        g
    }

    /// An edge between two different vertices that are not adjacent yet
    /// raises the degree of both by one and no other degree.
    pub proof fn lemma_new_edge_degrees(&self, u: usize, v: usize)
        requires
            self.wf(),
            u < self.slots().len(),
            v < self.slots().len(),
            u != v,
            !stores_edge(self.slots(), u, v),
        ensures
            forall|x: usize|
                #[trigger] degree_in(slots_joined(self.slots(), u, v, S::entry_rule()), x) == if x
                    == u || x == v {
                    degree_in(self.slots(), x) + 1
                } else {
                    degree_in(self.slots(), x)
                },
    {
        self.lemma_undirected();
        S::lemma_entry_rule();
        assert(self.slots()[u as int] is Some && self.slots()[v as int] is Some);
        lemma_joined_degrees(self.slots(), u, v, S::entry_rule());
    }

    /// The number of neighbors of `vertex`, parallel entries counted.
    pub fn degree(&self, vertex: usize) -> (degree: usize)
        requires
            self.wf(),
            vertex < self.slots().len(),
        ensures
            degree == degree_in(self.slots(), vertex),
    {
        match self.storage.neighbor_iterator(vertex) {
            Some(ns) => ns.len(),
            None => 0,
        }
    }
}

impl<S: Storage> AbstractGraph for UnGraph<S> {
    closed spec fn wf(&self) -> bool {
        &&& self.storage.wf()
        &&& self.order == self.storage.slots().len()
        &&& all_live(self.storage.slots())
        &&& mirrored(self.storage.slots())
        &&& edge_pairs(self.storage.slots()).finite()
        &&& edge_pairs(self.storage.slots()).len() <= self.size
    }

    closed spec fn slots(&self) -> Slots {
        self.storage.slots()
    }

    closed spec fn order_spec(&self) -> nat {
        self.order as nat
    }

    closed spec fn size_spec(&self) -> nat {
        self.size as nat
    }

    open spec fn label_capacity() -> nat {
        S::capacity()
    }

    open spec fn edge_rule() -> EntryRule {
        S::entry_rule()
    }

    proof fn lemma_edge_rule() {
        S::lemma_entry_rule();
    }

    proof fn lemma_slot_bounds(&self) {
        self.storage.lemma_slot_bounds();
    }

    fn max_labels() -> (n: usize) {
        S::max_labels()
    }

    fn empty(nv: usize) -> (g: Self)
        ensures
            g.simple(),
    {
        Self::with_vertices(nv)
    }

    fn order(&self) -> (n: usize) {
        self.order
    }

    fn size(&self) -> (n: usize) {
        self.size
    }

    fn num_v_labels(&self) -> (n: usize) {
        self.storage.num_v_labels()
    }

    fn add_vertex(&mut self) -> (label: usize)
        ensures
            old(self).simple() ==> final(self).simple(),
    {
        self.order += 1;
        let label = self.storage.add_vertex();
        proof {
            let before = old(self).storage.slots();
            let after = self.storage.slots();
            assert forall|x: usize, y: usize| stores_edge(after, x, y) <==> stores_edge(
                before,
                x,
                y,
            ) by {
                if x < before.len() {
                    assert(after[x as int] == before[x as int]);
                } else if x == before.len() {
                    assert(after[x as int] == Some(Seq::<usize>::empty()));
                }
            }
            assert(edge_pairs(after) =~= edge_pairs(before));
            assert forall|l: int| 0 <= l < after.len() implies (#[trigger] after[l]) is Some by {
                if l < before.len() {
                    assert(after[l] == before[l]);
                }
            }
        }
        label
    }

    fn add_vertices(&mut self, count: usize)
        ensures
            old(self).simple() ==> final(self).simple(),
    {
        let mut added: usize = 0;
        while added < count
            invariant
                added <= count,
                self.wf(),
                old(self).simple() ==> self.simple(),
                old(self).slots().len() + count <= Self::label_capacity(),
                old(self).order_spec() + count <= usize::MAX,
                self.slots() == old(self).slots() + Seq::new(
                    added as nat,
                    |i: int| Some(Seq::<usize>::empty()),
                ),
                self.order_spec() == old(self).order_spec() + added,
                self.size_spec() == old(self).size_spec(),
            decreases count - added,
        {
            self.add_vertex();
            proof {
                assert(self.slots() =~= old(self).slots() + Seq::new(
                    (added + 1) as nat,
                    |i: int| Some(Seq::<usize>::empty()),
                ));
            }
            added += 1;
        }
    }

    fn add_edge(&mut self, u: usize, v: usize) -> (added: bool)
        ensures
            old(self).simple() ==> final(self).simple(),
    {
        if self.storage.has_edge(u, v) {
            false
        } else {
            self.add_edge_unchecked(u, v);
            true
        }
    }

    fn rem_edge(&mut self, u: usize, v: usize) -> (removed: bool)
        ensures
            old(self).simple() ==> final(self).simple(),
    {
        if self.storage.has_edge(u, v) {
            self.storage.rem_undirected_edge(u, v);
            proof {
                let before = old(self).storage.slots();
                let after = self.storage.slots();
                lemma_slots_parted(before, u, v);
                assert(without_edge(before, after, u, v));
                lemma_pairs_without_edge(before, after, u, v);
                assert forall|l: int| 0 <= l < after.len() implies (#[trigger] after[l]) is Some by {
                    assert(slot_of(before, l as usize) is Some);
                    assert(slot_of(after, l as usize) is Some);
                }
            }
            self.size -= 1;
            true
        } else {
            false
        }
    }

    fn has_vertex(&self, label: usize) -> (present: bool) {
        self.storage.has_vertex(label)
    }

    fn has_edge(&self, u: usize, v: usize) -> (present: bool) {
        self.storage.has_edge(u, v)
    }

    fn vertex_iterator(&self) -> (out: Vec<usize>) {
        self.storage.vertex_iterator()
    }

    fn edge_iterator(&self) -> (out: Vec<(usize, usize)>) {
        self.storage.edge_iterator()
    }

    fn neighbor_iterator(&self, vertex: usize) -> (out: Option<Vec<usize>>) {
        self.storage.neighbor_iterator(vertex)
    }
}

impl<S: Storage> FastGraph for UnGraph<S> {
    fn add_edge_unchecked(&mut self, u: usize, v: usize)
        ensures
            old(self).simple() && !stores_edge(old(self).slots(), u, v) ==> final(self).simple(),
    {
        self.storage.add_edge(u, v);
        proof {
            S::lemma_entry_rule();
            crate::storage::lemma_slots_with(old(self).storage.slots(), u, v, S::entry_rule());
        }
        self.storage.add_edge(v, u);
        proof {
            let before = old(self).storage.slots();
            let after = self.storage.slots();
            assert(slot_of(before, u) is Some) by {
                assert(before[u as int] is Some);
            }
            assert(slot_of(before, v) is Some) by {
                assert(before[v as int] is Some);
            }
            assert(after == slots_joined(before, u, v, S::entry_rule()));
            lemma_slots_joined(before, u, v, S::entry_rule());
            assert(with_edge(before, after, u, v));
            lemma_pairs_with_edge(before, after, u, v);
            assert forall|l: int| 0 <= l < after.len() implies (#[trigger] after[l]) is Some by {
                assert(slot_of(before, l as usize) is Some);
                assert(slot_of(after, l as usize) is Some);
            }
        }
        self.size += 1;
    }
}

} // verus!
