//! The view at the bottom of every chain: a graph seen as it is.

use crate::combinators::{closed, traversable, symmetric, adjacent, ExactCombinator, ViewCombinator};
use crate::graph::{all_live, mirrored, AbstractGraph};
use crate::storage::{
    lemma_live_labels_contains, lemma_stored_edges_contains, live_labels, slot_of, stored_edges,
    stores_edge,
};
use vstd::prelude::*;

verus! {

/// A view of a borrowed graph that changes nothing.
pub struct GraphView<'g, G: AbstractGraph> {
    graph: &'g G,
}

impl<'g, G: AbstractGraph> GraphView<'g, G> {
    /// The graph underneath.
    pub closed spec fn graph(&self) -> &'g G {
        self.graph
    }

    /// The view of `graph`.
    pub fn build(graph: &'g G) -> (out: Self)
        requires
            graph.wf(),
        ensures
            out.wf(),
            out.graph() == graph,
    {
        Self { graph }
    }

    /// The view of a graph without removed vertices can be traversed.
    pub proof fn lemma_traversable(&self)
        requires
            self.wf(),
            all_live(self.graph().slots()),
        ensures
            traversable(self),
    {
        let slots = self.graph.slots();
        self.graph.lemma_slot_bounds();
        assert forall|v: usize| #[trigger] self.vertices().contains(v) implies self.neighbors(
            v,
        ) is Some && v < self.label_count() by {
            lemma_live_labels_contains(slots, v);
        }
        assert forall|u: usize, v: usize|
            self.vertices().contains(u) && #[trigger] adjacent(self, u, v) implies self.vertices().contains(
            v,
        ) by {
            assert(stores_edge(slots, u, v));
            assert(slots[v as int] is Some);
            lemma_live_labels_contains(slots, v);
        }
        assert forall|i: int| 0 <= i < self.edges().len() implies self.vertices().contains(
            (#[trigger] self.edges()[i]).0,
        ) && self.vertices().contains(self.edges()[i].1) by {
            let e = self.edges()[i];
            assert(self.edges().contains(e));
            lemma_stored_edges_contains(slots, e.0, e.1);
            assert(stores_edge(slots, e.0, e.1));
            assert(slots[e.1 as int] is Some);
            lemma_live_labels_contains(slots, e.0);
            lemma_live_labels_contains(slots, e.1);
        }
    }

    /// The view of a graph with mirrored entries is symmetric.
    pub proof fn lemma_symmetric(&self)
        requires
            self.wf(),
            mirrored(self.graph().slots()),
        ensures
            symmetric(self),
    {
        let slots = self.graph.slots();
        assert forall|u: usize, v: usize| #[trigger] adjacent(self, u, v) implies adjacent(
            self,
            v,
            u,
        ) by {
            assert(stores_edge(slots, u, v));
            assert(stores_edge(slots, v, u));
        }
    }
}

impl<'g, G: AbstractGraph> ViewCombinator for GraphView<'g, G> {
    open spec fn wf(&self) -> bool {
        self.graph().wf()
    }

    open spec fn vertices(&self) -> Seq<usize> {
        live_labels(self.graph().slots())
    }

    open spec fn edges(&self) -> Seq<(usize, usize)> {
        stored_edges(self.graph().slots())
    }

    open spec fn neighbors(&self, vertex: usize) -> Option<Seq<usize>> {
        slot_of(self.graph().slots(), vertex)
    }

    open spec fn queryable(&self, vertex: usize) -> bool {
        vertex < self.graph().slots().len()
    }

    proof fn lemma_vertices_queryable(&self) {
        self.graph.lemma_slot_bounds();
        assert forall|v: usize| self.vertices().contains(v) implies self.queryable(v) by {
            lemma_live_labels_contains(self.graph.slots(), v);
        }
    }

    fn vertex_iterator(&self) -> (out: Vec<usize>) {
        self.graph.vertex_iterator()
    }

    fn edge_iterator(&self) -> (out: Vec<(usize, usize)>) {
        self.graph.edge_iterator()
    }

    fn neighbor_iterator(&self, vertex: usize) -> (out: Option<Vec<usize>>) {
        self.graph.neighbor_iterator(vertex)
    }
}

impl<'g, G: AbstractGraph> ExactCombinator for GraphView<'g, G> {
    open spec fn label_count(&self) -> nat {
        self.graph().slots().len()
    }

    fn num_v_labels(&self) -> (n: usize) {
        self.graph.num_v_labels()
    }
}

/// Graphs can be seen as views.
pub trait AsView: AbstractGraph {
    /// The view of this graph.
    fn view(&self) -> (out: GraphView<'_, Self>)
        requires
            self.wf(),
        ensures
            out.wf(),
            out.graph() == self,
    {
        GraphView::build(self)
    }
}

impl<G: AbstractGraph> AsView for G {

}

} // verus!
