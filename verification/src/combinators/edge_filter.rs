//! The view that keeps the edges a predicate accepts.

use crate::combinators::{
    accepts, adjacent, closed, pure_predicate, symmetric, traversable, ExactCombinator,
    ViewCombinator,
};
use crate::seqs::{lemma_filter_member, lemma_filter_step, lemma_take_all};
use vstd::prelude::*;

verus! {

/// A view of `G` restricted to the edges that `F` accepts. The vertices
/// are those of the preimage.
pub struct EdgeFilter<G: ViewCombinator, F: Fn(&(usize, usize)) -> bool> {
    preimage: G,
    f: F,
}

impl<G: ViewCombinator, F: Fn(&(usize, usize)) -> bool> EdgeFilter<G, F> {
    /// The view underneath.
    pub closed spec fn preimage(&self) -> &G {
        &self.preimage
    }

    /// The predicate.
    pub closed spec fn predicate(&self) -> &F {
        &self.f
    }

    /// Whether the view keeps the directed edge `e`.
    pub open spec fn keeps(&self, e: (usize, usize)) -> bool {
        accepts(*self.predicate(), e)
    }

    /// `keeps`, as a predicate on edges.
    pub open spec fn keeps_edge(&self) -> spec_fn((usize, usize)) -> bool {
        |e: (usize, usize)| self.keeps(e)
    }

    /// `keeps` of the edges that leave `from`, as a predicate on targets.
    pub open spec fn keeps_target(&self, from: usize) -> spec_fn(usize) -> bool {
        |to: usize| self.keeps((from, to))
    }

    /// The view of `preimage` filtered by `filter`.
    pub fn build(preimage: G, filter: F) -> (out: Self)
        requires
            preimage.wf(),
            pure_predicate(filter),
        ensures
            out.wf(),
            *out.preimage() == preimage,
            *out.predicate() == filter,
    {
        Self { preimage, f: filter }
    }

    /// Runs the predicate on one edge.
    fn test(&self, e: (usize, usize)) -> (kept: bool)
        requires
            self.wf(),
        ensures
            kept == self.keeps(e),
    {
        (self.f)(&e)
    }

    /// The view yields the vertices of the preimage, and exactly the edges
    /// and adjacencies of the preimage that the predicate accepts.
    pub proof fn lemma_filtered(&self)
        requires
            self.wf(),
        ensures
            self.vertices() == self.preimage().vertices(),
            forall|e: (usize, usize)|
                self.edges().contains(e) <==> (self.preimage().edges().contains(e) && self.keeps(e)),
            forall|v: usize| self.neighbors(v) is Some <==> self.preimage().neighbors(v) is Some,
            forall|u: usize, v: usize|
                adjacent(self, u, v) <==> (adjacent(self.preimage(), u, v) && self.keeps((u, v))),
    {
        assert forall|e: (usize, usize)|
            self.edges().contains(e) <==> (self.preimage().edges().contains(e) && self.keeps(
                e,
            )) by {
            lemma_filter_member(self.preimage().edges(), self.keeps_edge(), e);
        }
        assert forall|u: usize, v: usize|
            adjacent(self, u, v) <==> (adjacent(self.preimage(), u, v) && self.keeps((u, v))) by {
            if self.preimage().neighbors(u) is Some {
                lemma_filter_member(self.preimage().neighbors(u)->0, self.keeps_target(u), v);
            }
        }
    }
}

impl<G: ViewCombinator, F: Fn(&(usize, usize)) -> bool> ViewCombinator for EdgeFilter<G, F> {
    open spec fn wf(&self) -> bool {
        self.preimage().wf() && pure_predicate(*self.predicate())
    }

    open spec fn vertices(&self) -> Seq<usize> {
        self.preimage().vertices()
    }

    open spec fn edges(&self) -> Seq<(usize, usize)> {
        self.preimage().edges().filter(self.keeps_edge())
    }

    open spec fn neighbors(&self, vertex: usize) -> Option<Seq<usize>> {
        match self.preimage().neighbors(vertex) {
            Some(targets) => Some(targets.filter(self.keeps_target(vertex))),
            None => None,
        }
    }

    open spec fn queryable(&self, vertex: usize) -> bool {
        self.preimage().queryable(vertex)
    }

    proof fn lemma_vertices_queryable(&self) {
        self.preimage.lemma_vertices_queryable();
    }

    fn vertex_iterator(&self) -> (out: Vec<usize>) {
        self.preimage.vertex_iterator()
    }

    fn edge_iterator(&self) -> (out: Vec<(usize, usize)>) {
        let all = self.preimage.edge_iterator();
        let mut out: Vec<(usize, usize)> = Vec::new();
        let mut i: usize = 0;
        while i < all.len()
            invariant
                self.wf(),
                i <= all.len(),
                out@ == all@.take(i as int).filter(self.keeps_edge()),
            decreases all.len() - i,
        {
            let e = all[i];
            proof {
                lemma_filter_step(all@, i as int, self.keeps_edge());
            }
            if self.test(e) {
                out.push(e);
            }
            i += 1;
        }
        proof {
            lemma_take_all(all@);
        }
        out
    }

    fn neighbor_iterator(&self, vertex: usize) -> (out: Option<Vec<usize>>) {
        match self.preimage.neighbor_iterator(vertex) {
            Some(targets) => {
                let mut out: Vec<usize> = Vec::new();
                let mut i: usize = 0;
                while i < targets.len()
                    invariant
                        self.wf(),
                        i <= targets.len(),
                        out@ == targets@.take(i as int).filter(self.keeps_target(vertex)),
                    decreases targets.len() - i,
                {
                    let to = targets[i];
                    proof {
                        lemma_filter_step(targets@, i as int, self.keeps_target(vertex));
                    }
                    if self.test((vertex, to)) {
                        out.push(to);
                    }
                    i += 1;
                }
                proof {
                    lemma_take_all(targets@);
                }
                Some(out)
            },
            None => None,
        }
    }
}

impl<G: ExactCombinator, F: Fn(&(usize, usize)) -> bool> ExactCombinator for EdgeFilter<G, F> {
    open spec fn label_count(&self) -> nat {
        self.preimage().label_count()
    }

    fn num_v_labels(&self) -> (n: usize) {
        self.preimage.num_v_labels()
    }
}

impl<G: ViewCombinator, F: Fn(&(usize, usize)) -> bool> EdgeFilter<G, F> {
    /// Filtering the edges of a symmetric view by a predicate that treats
    /// both directions of an edge alike leaves a symmetric view.
    pub proof fn lemma_symmetric(&self)
        requires
            self.wf(),
            symmetric(self.preimage()),
            forall|u: usize, v: usize| #[trigger] self.keeps((u, v)) == self.keeps((v, u)),
        ensures
            symmetric(self),
    {
        self.lemma_filtered();
        assert forall|u: usize, v: usize| #[trigger] adjacent(self, u, v) implies adjacent(
            self,
            v,
            u,
        ) by {
            assert(adjacent(self.preimage(), u, v));
            assert(adjacent(self.preimage(), v, u));
            assert(self.keeps((u, v)) == self.keeps((v, u)));
        }
    }

    /// Filtering the edges of a closed view leaves a closed view.
    pub proof fn lemma_closed(&self)
        requires
            self.wf(),
            closed(self.preimage()),
        ensures
            closed(self),
    {
        self.lemma_filtered();
        assert forall|u: usize, v: usize|
            self.vertices().contains(u) && #[trigger] adjacent(self, u, v) implies self.vertices().contains(
            v,
        ) by {
            assert(adjacent(self.preimage(), u, v));
        }
        assert forall|i: int| 0 <= i < self.edges().len() implies self.vertices().contains(
            (#[trigger] self.edges()[i]).0,
        ) && self.vertices().contains(self.edges()[i].1) by {
            let e = self.edges()[i];
            assert(self.edges().contains(e));
            assert(self.preimage().edges().contains(e));
            let j = choose|j: int|
                0 <= j < self.preimage().edges().len() && self.preimage().edges()[j] == e;
            assert(self.preimage().vertices().contains(self.preimage().edges()[j].0));
        }
    }
}

impl<G: ExactCombinator, F: Fn(&(usize, usize)) -> bool> EdgeFilter<G, F> {
    /// Filtering the edges of a traversable view leaves a traversable view.
    pub proof fn lemma_traversable(&self)
        requires
            self.wf(),
            traversable(self.preimage()),
        ensures
            traversable(self),
    {
        self.lemma_closed();
    }
}

} // verus!
