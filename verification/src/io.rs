//! Reading graphs from text.

use crate::graph::{grown, FastGraph};
use crate::storage::stores_edge;
use vstd::prelude::*;

pub mod dimacs;
pub mod pair_iter;

pub use dimacs::{DimacsFormat, FakeDimacs};
pub use pair_iter::PairIterator;

verus! {

/// Whether some pair of `edges` joins `x` and `y`, in either direction.
pub open spec fn joins(edges: Seq<(usize, usize)>, x: usize, y: usize) -> bool {
    exists|i: int|
        0 <= i < edges.len() && (#[trigger] edges[i] == (x, y) || edges[i] == (y, x))
}

/// Every endpoint of every pair is below `bound`.
pub open spec fn endpoints_below(edges: Seq<(usize, usize)>, bound: nat) -> bool {
    forall|i: int| 0 <= i < edges.len() ==> (#[trigger] edges[i]).0 < bound && edges[i].1 < bound
}

/// A text format for graphs.
///
/// The model of a format is `describes`: the number of vertices and the
/// edges that a text stands for, or `None` for a text that is not of the
/// format.
pub trait GraphFormat<G: FastGraph> {
    /// What `text` stands for.
    spec fn describes(text: Seq<u8>) -> Option<(usize, Seq<(usize, usize)>)>;

    /// The graph that `text` stands for: its vertices, and exactly the
    /// edges of the text, one added per pair. `Err` for a text that is not
    /// of the format, that names a vertex it does not have, or that has
    /// more vertices than the graph type can hold.
    fn parse_graph(text: &[u8]) -> (out: Result<G, ()>)
        ensures
            match out {
                Ok(g) => {
                    &&& Self::describes(text@) matches Some((nv, edges))
                    &&& endpoints_below(edges, nv as nat)
                    &&& nv <= G::label_capacity()
                    &&& g.wf()
                    &&& g.slots() == grown(
                        Seq::new(nv as nat, |i: int| Some(Seq::<usize>::empty())),
                        edges,
                        G::edge_rule(),
                    )
                    &&& g.slots().len() == nv
                    &&& g.order_spec() == nv
                    &&& g.size_spec() == edges.len()
                    &&& forall|x: usize, y: usize|
                        stores_edge(g.slots(), x, y) <==> joins(edges, x, y)
                },
                Err(_) => Self::describes(text@) matches Some((nv, edges)) ==> !endpoints_below(
                    edges,
                    nv as nat,
                ) || nv > G::label_capacity(),
            },
    ;
}

} // verus!
