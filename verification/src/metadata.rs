//! Data that rides along with a graph.

use crate::graph::AbstractGraph;
use vstd::prelude::*;

verus! {

/// Data about a graph that has to hear of every edge the graph gains.
pub trait Attribute {
    /// Takes note of the edge `{u, v}`, which the graph knows as `id`.
    fn add_edge(&mut self, u: usize, v: usize, id: usize);
}

/// An attribute that holds a value per vertex.
pub trait VertexAttribute: Attribute {

}

/// An attribute that holds a value per edge.
pub trait EdgeAttribute: Attribute {

}

/// A graph together with an attribute.
pub struct MetaGraph<A: Attribute, G: AbstractGraph> {
    _graph: G,
    _attribute: A,
}

} // verus!
