//! Graphs, lazy graph views and restartable traversals over them.
//!
//! * [`storage`] holds the backends: adjacency lists and an adjacency
//!   matrix, each modelled as one slot of targets per vertex label.
//! * [`graph`] builds undirected graphs on a backend.
//! * [`combinators`] are read-only views of a graph: filters, relabelings
//!   and a dense renumbering, each defined by what its enumerators yield.
//! * [`traversal`] walks a view breadth-first or depth-first, one emitted
//!   node per step, from one root or through every component; [`reach`]
//!   says what walks and components are.
//! * [`pathing`], [`coloring`], [`utils`] and [`io`] build on these.
//!
//! Every function states what it returns over these models, and the
//! statements are proved.

pub mod coloring;
pub mod combinators;
pub mod graph;
pub mod io;
pub mod metadata;
pub mod pathing;
pub mod reach;
pub mod seqs;
pub mod storage;
pub mod traversal;
pub mod utils;

pub use storage::{AdjacencyList, AdjacencyMatrix, AdjacencyNode, Neighbors, Storage};
pub use graph::{AbstractGraph, FastGraph, SimpleGraph, UnGraph};
pub use combinators::{
    AsView, Compose, EdgeFilter, ExactCombinator, GraphView, VertexCompactor, VertexFilter,
    VertexMap, ViewCombinator,
};
pub use traversal::{
    BFSFullTraversal, BFSResources, BFSTraversal, DFSFullTraversal, DFSResources, DFSTraversal,
    TraversalNode, TraversalView,
};
pub use traversal::{BFSNode, DFSNode};
pub use pathing::{shortest_path, APSPIterator, PathingGraph};
pub use io::{DimacsFormat, FakeDimacs, GraphFormat, PairIterator};
pub use coloring::greedy_coloring;
pub use utils::UnionFind;
pub use metadata::{Attribute, EdgeAttribute, MetaGraph, VertexAttribute};
