//! The view that keeps the vertices a predicate accepts.

use crate::combinators::{
    accepts, adjacent, closed, pure_predicate, symmetric, traversable, ExactCombinator,
    ViewCombinator,
};
use crate::seqs::{lemma_filter_member, lemma_filter_step, lemma_take_all};
use vstd::prelude::*;

verus! {

/// A view of `G` restricted to the vertices that `F` accepts. An edge
/// stays only if both of its endpoints do.
pub struct VertexFilter<G: ViewCombinator, F: Fn(&usize) -> bool> {
    preimage: G,
    f: F,
}

impl<G: ViewCombinator, F: Fn(&usize) -> bool> VertexFilter<G, F> {
    /// The view underneath.
    pub closed spec fn preimage(&self) -> &G {
        &self.preimage
    }

    /// The predicate.
    pub closed spec fn predicate(&self) -> &F {
        &self.f
    }

    /// Whether the view keeps the vertex `v`.
    pub open spec fn keeps(&self, v: usize) -> bool {
        accepts(*self.predicate(), v)
    }

    /// `keeps`, as a predicate on labels.
    pub open spec fn keeps_vertex(&self) -> spec_fn(usize) -> bool {
        |v: usize| self.keeps(v)
    }

    /// `keeps` of both endpoints, as a predicate on edges.
    pub open spec fn keeps_edge(&self) -> spec_fn((usize, usize)) -> bool {
        |e: (usize, usize)| self.keeps(e.0) && self.keeps(e.1)
    }

    /// The view of `preimage` filtered by `filter`.
    pub fn build(preimage: G, filter: F) -> (out: Self)
        requires
            preimage.wf(),
            pure_predicate(filter),
        ensures
            out.wf(),
            *out.preimage() == preimage,
            *out.predicate() == filter,
    {
        Self { preimage, f: filter }
    }

    /// Runs the predicate on one label.
    fn test(&self, v: usize) -> (kept: bool)
        requires
            self.wf(),
        ensures
            kept == self.keeps(v),
    {
        (self.f)(&v)
    }

    /// The labels of `all` that the view keeps.
    fn kept_of(&self, all: &Vec<usize>) -> (out: Vec<usize>)
        requires
            self.wf(),
        ensures
            out@ == all@.filter(self.keeps_vertex()),
    {
        let mut out: Vec<usize> = Vec::new();
        let mut i: usize = 0;
        while i < all.len()
            invariant
                self.wf(),
                i <= all.len(),
                out@ == all@.take(i as int).filter(self.keeps_vertex()),
            decreases all.len() - i,
        {
            let v = all[i];
            proof {
                lemma_filter_step(all@, i as int, self.keeps_vertex());
            }
            if self.test(v) {
                out.push(v);
            }
            i += 1;
        }
        proof {
            lemma_take_all(all@);
        }
        out
    }

    /// The view yields exactly the vertices of the preimage that the
    /// predicate accepts, only edges with both endpoints accepted, and
    /// neighbors for exactly the accepted vertices that the preimage has
    /// neighbors for.
    pub proof fn lemma_filtered(&self)
        requires
            self.wf(),
        ensures
            forall|v: usize|
                self.vertices().contains(v) <==> (self.preimage().vertices().contains(v)
                    && self.keeps(v)),
            forall|e: (usize, usize)|
                self.edges().contains(e) <==> (self.preimage().edges().contains(e) && self.keeps(e.0)
                    && self.keeps(e.1)),
            forall|v: usize|
                self.preimage().neighbors(v) is Some ==> (self.neighbors(v) is None <==> !self.keeps(
                    v,
                )),
            forall|u: usize, v: usize|
                adjacent(self, u, v) <==> (adjacent(self.preimage(), u, v) && self.keeps(u)
                    && self.keeps(v)),
    {
        assert forall|v: usize|
            self.vertices().contains(v) <==> (self.preimage().vertices().contains(v) && self.keeps(
                v,
            )) by {
            lemma_filter_member(self.preimage().vertices(), self.keeps_vertex(), v);
        }
        assert forall|e: (usize, usize)|
            self.edges().contains(e) <==> (self.preimage().edges().contains(e) && self.keeps(e.0)
                && self.keeps(e.1)) by {
            lemma_filter_member(self.preimage().edges(), self.keeps_edge(), e);
        }
        assert forall|u: usize, v: usize|
            adjacent(self, u, v) <==> (adjacent(self.preimage(), u, v) && self.keeps(u)
                && self.keeps(v)) by {
            if self.preimage().neighbors(u) is Some {
                lemma_filter_member(self.preimage().neighbors(u)->0, self.keeps_vertex(), v);
            }
        }
    }

    /// Filtering the vertices of a symmetric view leaves a symmetric view.
    pub proof fn lemma_symmetric(&self)
        requires
            self.wf(),
            symmetric(self.preimage()),
        ensures
            symmetric(self),
    {
        self.lemma_filtered();
        assert forall|u: usize, v: usize| #[trigger] adjacent(self, u, v) implies adjacent(
            self,
            v,
            u,
        ) by {
            assert(adjacent(self.preimage(), u, v));
            assert(adjacent(self.preimage(), v, u));
        }
    }

    /// Filtering the vertices of a closed view leaves a closed view.
    pub proof fn lemma_closed(&self)
        requires
            self.wf(),
            closed(self.preimage()),
        ensures
            closed(self),
    {
        self.lemma_filtered();
        assert forall|v: usize| #[trigger] self.vertices().contains(v) implies self.neighbors(
            v,
        ) is Some by {
            assert(self.preimage().vertices().contains(v));
        }
        assert forall|u: usize, v: usize|
            self.vertices().contains(u) && #[trigger] adjacent(self, u, v) implies self.vertices().contains(
            v,
        ) by {
            assert(adjacent(self.preimage(), u, v));
        }
        assert forall|i: int| 0 <= i < self.edges().len() implies self.vertices().contains(
            (#[trigger] self.edges()[i]).0,
        ) && self.vertices().contains(self.edges()[i].1) by {
            let e = self.edges()[i];
            assert(self.edges().contains(e));
            assert(self.preimage().edges().contains(e));
            let j = choose|j: int|
                0 <= j < self.preimage().edges().len() && self.preimage().edges()[j] == e;
            assert(self.preimage().vertices().contains(self.preimage().edges()[j].0));
        }
    }
}

impl<G: ViewCombinator, F: Fn(&usize) -> bool> ViewCombinator for VertexFilter<G, F> {
    open spec fn wf(&self) -> bool {
        self.preimage().wf() && pure_predicate(*self.predicate())
    }

    open spec fn vertices(&self) -> Seq<usize> {
        self.preimage().vertices().filter(self.keeps_vertex())
    }

    open spec fn edges(&self) -> Seq<(usize, usize)> {
        self.preimage().edges().filter(self.keeps_edge())
    }

    open spec fn neighbors(&self, vertex: usize) -> Option<Seq<usize>> {
        if self.keeps(vertex) {
            match self.preimage().neighbors(vertex) {
                Some(targets) => Some(targets.filter(self.keeps_vertex())),
                None => None,
            }
        } else {
            None
        }
    }

    open spec fn queryable(&self, vertex: usize) -> bool {
        self.preimage().queryable(vertex)
    }

    proof fn lemma_vertices_queryable(&self) {
        self.preimage.lemma_vertices_queryable();
        assert forall|v: usize| self.vertices().contains(v) implies self.queryable(v) by {
            lemma_filter_member(self.preimage().vertices(), self.keeps_vertex(), v);
        }
    }

    fn vertex_iterator(&self) -> (out: Vec<usize>) {
        let all = self.preimage.vertex_iterator();
        self.kept_of(&all)
    }

    fn edge_iterator(&self) -> (out: Vec<(usize, usize)>) {
        let all = self.preimage.edge_iterator();
        let mut out: Vec<(usize, usize)> = Vec::new();
        let mut i: usize = 0;
        while i < all.len()
            invariant
                self.wf(),
                i <= all.len(),
                out@ == all@.take(i as int).filter(self.keeps_edge()),
            decreases all.len() - i,
        {
            let e = all[i];
            proof {
                lemma_filter_step(all@, i as int, self.keeps_edge());
            }
            if self.test(e.0) && self.test(e.1) {
                out.push(e);
            }
            i += 1;
        }
        proof {
            lemma_take_all(all@);
        }
        out
    }

    fn neighbor_iterator(&self, vertex: usize) -> (out: Option<Vec<usize>>) {
        if self.test(vertex) {
            match self.preimage.neighbor_iterator(vertex) {
                Some(targets) => Some(self.kept_of(&targets)),
                None => None,
            }
        } else {
            None
        }
    }
}

impl<G: ExactCombinator, F: Fn(&usize) -> bool> ExactCombinator for VertexFilter<G, F> {
    open spec fn label_count(&self) -> nat {
        self.preimage().label_count()
    }

    fn num_v_labels(&self) -> (n: usize) {
        self.preimage.num_v_labels()
    }
}

impl<G: ExactCombinator, F: Fn(&usize) -> bool> VertexFilter<G, F> {
    /// Filtering the vertices of a traversable view leaves a traversable view.
    pub proof fn lemma_traversable(&self)
        requires
            self.wf(),
            traversable(self.preimage()),
        ensures
            traversable(self),
    {
        self.lemma_closed();
        self.lemma_filtered();
    }
}

} // verus!
