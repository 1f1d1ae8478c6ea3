//! Buffers that outlive a traversal and serve the next one.

use crate::combinators::{traversable, ExactCombinator};
use crate::traversal::breadth_first::{BFSState, BFSTraversal};
use crate::traversal::depth_first::{DFSState, DFSTraversal};
use crate::traversal::full_breadth_first::{BFSFullState, BFSFullTraversal};
use crate::traversal::full_depth_first::{DFSFullState, DFSFullTraversal};
use crate::traversal::{refill, root_node, TraversalNode};
use std::collections::VecDeque;
use vstd::prelude::*;

verus! {

/// The buffers of a breadth-first traversal: its parent array and its queue.
pub struct BFSResources {
    pub(crate) parents: Option<Vec<usize>>,
    pub(crate) queue: Option<VecDeque<TraversalNode>>,
}

impl BFSResources {
    /// What the parent array holds, if it is there.
    pub closed spec fn parents(&self) -> Option<Seq<usize>> {
        match self.parents {
            Some(buffer) => Some(buffer@),
            None => None,
        }
    }

    /// What the queue holds, head first, if it is there.
    pub closed spec fn queue(&self) -> Option<Seq<TraversalNode>> {
        match self.queue {
            Some(buffer) => Some(buffer@),
            None => None,
        }
    }

    /// Both buffers are there.
    pub open spec fn wf(&self) -> bool {
        self.parents() is Some && self.queue() is Some
    }

    /// Resources that hold the two buffers.
    pub(crate) fn holding(parents: Vec<usize>, queue: VecDeque<TraversalNode>) -> (out: Self)
        ensures
            out.wf(),
            out.parents() == Some(parents@),
            out.queue() == Some(queue@),
    {
        Self { parents: Some(parents), queue: Some(queue) }
    }

    /// Hands out the buffers, reset for a traversal of `new_size` labels
    /// from `new_root`: an all-undiscovered parent array of that size and a
    /// queue that holds the node of the root.
    fn reset(self, new_size: usize, new_root: usize) -> (out: (Vec<usize>, VecDeque<TraversalNode>))
        requires
            self.wf(),
        ensures
            out.0@ == crate::traversal::blank(new_size as nat),
            out.1@ == seq![root_node(new_root)],
    {
        let mut v = self.parents.unwrap();
        let mut q = self.queue.unwrap();
        refill(&mut v, new_size, usize::MAX);
        q.clear();
        q.push_back(TraversalNode { vertex: new_root, depth: 0, parent: new_root });
        proof {
            assert(q@ =~= seq![root_node(new_root)]);
        }
        (v, q)
    }

    /// A traversal of `graph` from `root` that uses these buffers. It is in
    /// the state of a new traversal.
    pub fn bfs<'a, G: ExactCombinator>(self, graph: &'a G, root: usize) -> (out: BFSTraversal<'a, G>)
        requires
            self.wf(),
            traversable(graph),
            graph.vertices().contains(root),
        ensures
            out.wf(),
            out.graph() == graph,
            out.root() == root,
            out.state() == BFSState::start(graph.label_count(), root),
    {
        let n = graph.num_v_labels();
        let (mut v, q) = self.reset(n, root);
        proof {
            graph.lemma_vertices_queryable();
        }
        v[root] = root;
        BFSTraversal::over(graph, v, q, root)
    }

    /// A traversal of every component of `graph` that uses these buffers
    /// and begins with the component of `root`.
    pub fn full_bfs<'a, G: ExactCombinator>(self, graph: &'a G, root: usize) -> (out:
        BFSFullTraversal<'a, G>)
        requires
            self.wf(),
            traversable(graph),
            graph.vertices().contains(root),
        ensures
            out.wf(),
            out.graph() == graph,
            out.state() == BFSFullState::start_at(graph.label_count(), graph.vertices(), root),
    {
        let n = graph.num_v_labels();
        let (mut v, q) = self.reset(n, root);
        proof {
            graph.lemma_vertices_queryable();
        }
        v[root] = root;
        BFSFullTraversal::over(graph, v, q, Ghost(Some(root)))
    }
}

/// The buffers of a depth-first traversal: its parent array, its stack and
/// its output marks.
pub struct DFSResources {
    pub(crate) parents: Option<Vec<usize>>,
    pub(crate) stack: Option<Vec<TraversalNode>>,
    pub(crate) output: Option<Vec<bool>>,
}

impl DFSResources {
    /// What the parent array holds, if it is there.
    pub closed spec fn parents(&self) -> Option<Seq<usize>> {
        match self.parents {
            Some(buffer) => Some(buffer@),
            None => None,
        }
    }

    /// What the stack holds, top last, if it is there.
    pub closed spec fn stack(&self) -> Option<Seq<TraversalNode>> {
        match self.stack {
            Some(buffer) => Some(buffer@),
            None => None,
        }
    }

    /// What the output marks hold, if they are there.
    pub closed spec fn output(&self) -> Option<Seq<bool>> {
        match self.output {
            Some(buffer) => Some(buffer@),
            None => None,
        }
    }

    /// All three buffers are there.
    pub open spec fn wf(&self) -> bool {
        self.parents() is Some && self.stack() is Some && self.output() is Some
    }

    /// Resources that hold the three buffers.
    pub(crate) fn holding(parents: Vec<usize>, stack: Vec<TraversalNode>, output: Vec<bool>) -> (out:
        Self)
        ensures
            out.wf(),
            out.parents() == Some(parents@),
            out.stack() == Some(stack@),
            out.output() == Some(output@),
    {
        Self { parents: Some(parents), stack: Some(stack), output: Some(output) }
    }

    /// Hands out the buffers, reset for a traversal of `new_size` labels
    /// from `new_root`: an all-undiscovered parent array of that size, a
    /// stack that holds the node of the root, and no output marks.
    fn reset(self, new_size: usize, new_root: usize) -> (out: (
        Vec<usize>,
        Vec<TraversalNode>,
        Vec<bool>,
    ))
        requires
            self.wf(),
        ensures
            out.0@ == crate::traversal::blank(new_size as nat),
            out.1@ == seq![root_node(new_root)],
            out.2@ == Seq::<bool>::empty(),
    {
        let mut v = self.parents.unwrap();
        let mut q = self.stack.unwrap();
        let mut o = self.output.unwrap();
        refill(&mut v, new_size, usize::MAX);
        q.clear();
        q.push(TraversalNode { vertex: new_root, depth: 0, parent: new_root });
        o.clear();
        proof {
            assert(q@ =~= seq![root_node(new_root)]);
            assert(o@ =~= Seq::<bool>::empty());
        }
        (v, q, o)
    }

    /// A pre-order traversal of `graph` from `root` that uses these
    /// buffers. It is in the state of a new traversal.
    pub fn dfs<'a, G: ExactCombinator>(self, graph: &'a G, root: usize) -> (out: DFSTraversal<
        'a,
        G,
        false,
    >)
        requires
            self.wf(),
            traversable(graph),
            graph.vertices().contains(root),
        ensures
            out.wf(),
            out.graph() == graph,
            out.root() == root,
            out.state() == DFSState::start(graph.label_count(), root, false),
    {
        let n = graph.num_v_labels();
        let (v, q, o) = self.reset(n, root);
        DFSTraversal::<G, false>::over(graph, v, q, o, root)
    }

    /// A post-order traversal of `graph` from `root` that uses these
    /// buffers. It is in the state of a new traversal.
    pub fn dfs_post_order<'a, G: ExactCombinator>(self, graph: &'a G, root: usize) -> (out:
        DFSTraversal<'a, G, true>)
        requires
            self.wf(),
            traversable(graph),
            graph.vertices().contains(root),
        ensures
            out.wf(),
            out.graph() == graph,
            out.root() == root,
            out.state() == DFSState::start(graph.label_count(), root, true),
    {
        let n = graph.num_v_labels();
        let (v, q, mut o) = self.reset(n, root);
        crate::traversal::refill_flags(&mut o, n);
        DFSTraversal::<G, true>::over(graph, v, q, o, root)
    }

    /// A pre-order traversal of every component of `graph` that uses
    /// these buffers and begins with the component of `root`.
    pub fn full_dfs<'a, G: ExactCombinator>(self, graph: &'a G, root: usize) -> (out:
        DFSFullTraversal<'a, G, false>)
        requires
            self.wf(),
            traversable(graph),
            graph.vertices().contains(root),
        ensures
            out.wf(),
            out.graph() == graph,
            out.state() == DFSFullState::start_at(
                graph.label_count(),
                graph.vertices(),
                root,
                false,
            ),
    {
        let n = graph.num_v_labels();
        let (v, q, o) = self.reset(n, root);
        DFSFullTraversal::<G, false>::over(graph, v, q, o, Ghost(Some(root)))
    }

    /// A post-order traversal of every component of `graph` that uses
    /// these buffers and begins with the component of `root`.
    pub fn full_dfs_post_order<'a, G: ExactCombinator>(self, graph: &'a G, root: usize) -> (out:
        DFSFullTraversal<'a, G, true>)
        requires
            self.wf(),
            traversable(graph),
            graph.vertices().contains(root),
        ensures
            out.wf(),
            out.graph() == graph,
            out.state() == DFSFullState::start_at(graph.label_count(), graph.vertices(), root, true),
    {
        let n = graph.num_v_labels();
        let (v, q, mut o) = self.reset(n, root);
        crate::traversal::refill_flags(&mut o, n);
        DFSFullTraversal::<G, true>::over(graph, v, q, o, Ghost(Some(root)))
    }
}

} // verus!
