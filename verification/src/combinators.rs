//! Views: read-only, lazily evaluated wrappers around a graph or another
//! view. A view owns no adjacency data; every query is answered by asking
//! the preimage and applying the view's own transform.

use vstd::prelude::*;

pub mod edge_filter;
pub mod graph_view;
pub mod vertex_compactor;
pub mod vertex_filter;
pub mod vertex_map;

pub use edge_filter::EdgeFilter;
pub use graph_view::{AsView, GraphView};
pub use vertex_compactor::VertexCompactor;
pub use vertex_filter::VertexFilter;
pub use vertex_map::VertexMap;

verus! {

/// A read-only view of a graph.
///
/// The model of a view is what its three enumerators yield: `vertices`,
/// `edges` and, per label, `neighbors`. `vertices` may repeat a vertex and
/// `edges` may repeat an edge. `neighbors(v)` is `None`, not the empty
/// sequence, where the view does not hold `v`.
pub trait ViewCombinator: Sized {
    /// The invariant of the view and of everything below it.
    spec fn wf(&self) -> bool;

    /// What `vertex_iterator` yields, in order.
    spec fn vertices(&self) -> Seq<usize>;

    /// What `edge_iterator` yields, in order.
    spec fn edges(&self) -> Seq<(usize, usize)>;

    /// What `neighbor_iterator` yields for `vertex`.
    spec fn neighbors(&self, vertex: usize) -> Option<Seq<usize>>;

    /// The labels that `neighbor_iterator` may be asked about.
    spec fn queryable(&self, vertex: usize) -> bool;

    /// Every vertex of the view may be asked for its neighbors.
    proof fn lemma_vertices_queryable(&self)
        requires
            self.wf(),
        ensures
            forall|v: usize| self.vertices().contains(v) ==> self.queryable(v),
    ;

    /// The vertices of the view.
    fn vertex_iterator(&self) -> (out: Vec<usize>)
        requires
            self.wf(),
        ensures
            out@ == self.vertices(),
    ;

    /// The edges of the view, as directed pairs.
    fn edge_iterator(&self) -> (out: Vec<(usize, usize)>)
        requires
            self.wf(),
        ensures
            out@ == self.edges(),
    ;

    /// The neighbors of `vertex`, or `None` if the view does not hold it.
    fn neighbor_iterator(&self, vertex: usize) -> (out: Option<Vec<usize>>)
        requires
            self.wf(),
            self.queryable(vertex),
        ensures
            match out {
                Some(targets) => self.neighbors(vertex) == Some(targets@),
                None => self.neighbors(vertex) is None,
            },
    ;
}

/// A view that knows how many vertex labels it spans, which is what sizes
/// the buffers of a traversal.
pub trait ExactCombinator: ViewCombinator {
    /// The number of labels; every label of a traversable view is below it.
    spec fn label_count(&self) -> nat;

    /// The number of labels.
    fn num_v_labels(&self) -> (n: usize)
        requires
            self.wf(),
        ensures
            n == self.label_count(),
    ;
}

/// Whether `v` is a neighbor of `u` in the view.
pub open spec fn adjacent<G: ViewCombinator>(g: &G, u: usize, v: usize) -> bool {
    g.neighbors(u) matches Some(targets) && targets.contains(v)
}

/// A view is closed if it never points outside itself: every vertex has
/// neighbors to enumerate, and every neighbor and every edge endpoint is a
/// vertex of the view.
pub open spec fn closed<G: ViewCombinator>(g: &G) -> bool {
    &&& forall|v: usize| #[trigger] g.vertices().contains(v) ==> g.neighbors(v) is Some
    &&& forall|u: usize, v: usize|
        g.vertices().contains(u) && #[trigger] adjacent(g, u, v) ==> g.vertices().contains(v)
    &&& forall|i: int|
        0 <= i < g.edges().len() ==> g.vertices().contains((#[trigger] g.edges()[i]).0)
            && g.vertices().contains(g.edges()[i].1)
}

/// What a traversal asks of the view it walks: well-formed, closed, and
/// with every vertex label below the label count.
pub open spec fn traversable<G: ExactCombinator>(g: &G) -> bool {
    &&& g.wf()
    &&& closed(g)
    &&& forall|v: usize| #[trigger] g.vertices().contains(v) ==> v < g.label_count()
}

/// Adjacency runs both ways.
pub open spec fn symmetric<G: ViewCombinator>(g: &G) -> bool {
    forall|u: usize, v: usize| #[trigger] adjacent(g, u, v) ==> adjacent(g, v, u)
}

/// A predicate on `A` that may be called on every value and always gives
/// the same answer for the same value.
pub open spec fn pure_predicate<A, F: Fn(&A) -> bool>(f: F) -> bool {
    &&& forall|x: A| call_requires(f, (&x,))
    &&& forall|x: A, a: bool, b: bool|
        call_ensures(f, (&x,), a) && call_ensures(f, (&x,), b) ==> a == b
}

/// Whether the predicate `f` accepts `x`.
pub open spec fn accepts<A, F: Fn(&A) -> bool>(f: F, x: A) -> bool {
    call_ensures(f, (&x,), true)
}

/// A relabeling that may be called on every label and always gives the
/// same image for the same label.
pub open spec fn pure_mapping<F: Fn(&usize) -> usize>(f: F) -> bool {
    &&& forall|x: usize| call_requires(f, (&x,))
    &&& forall|x: usize, a: usize, b: usize|
        call_ensures(f, (&x,), a) && call_ensures(f, (&x,), b) ==> a == b
}

/// The image of `x` under the relabeling `f`.
pub open spec fn image<F: Fn(&usize) -> usize>(f: F, x: usize) -> usize {
    choose|y: usize| call_ensures(f, (&x,), y)
}

/// The constructors of the views, available on every view.
pub trait Compose: ViewCombinator {
    /// The view that keeps the edges accepted by `f`.
    fn filter_edges<F: Fn(&(usize, usize)) -> bool>(self, f: F) -> (out: EdgeFilter<Self, F>)
        requires
            self.wf(),
            pure_predicate(f),
        ensures
            out.wf(),
            *out.preimage() == self,
            *out.predicate() == f,
    {
        EdgeFilter::build(self, f)
    }

    /// The view that keeps the vertices accepted by `f`, and the edges
    /// between them.
    fn filter_vertices<F: Fn(&usize) -> bool>(self, f: F) -> (out: VertexFilter<Self, F>)
        requires
            self.wf(),
            pure_predicate(f),
        ensures
            out.wf(),
            *out.preimage() == self,
            *out.predicate() == f,
    {
        VertexFilter::build(self, f)
    }

    /// The view that renames every vertex `v` to `f(v)`.
    fn map_vertices<F: Fn(&usize) -> usize>(self, f: F) -> (out: VertexMap<Self, F>)
        requires
            self.wf(),
            pure_mapping(f),
        ensures
            out.wf(),
            *out.preimage() == self,
            *out.mapping() == f,
    {
        VertexMap::build(self, f)
    }

    /// The view that renumbers the vertices densely, in the order in which
    /// the preimage first yields them.
    fn compact(self) -> (out: VertexCompactor<Self>)
        requires
            self.wf(),
            closed(&self),
        ensures
            out.wf(),
            *out.preimage() == self,
    {
        VertexCompactor::build(self)
    }
}

impl<G: ViewCombinator> Compose for G {

}

} // verus!
