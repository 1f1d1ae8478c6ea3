//! Traversals: breadth-first and depth-first walks over a view, one
//! emitted node per call.
//!
//! A traversal owns a parent array with one slot per vertex label. A slot
//! holds `UNDISCOVERED` until its vertex is discovered and the label of the
//! discovering vertex from then on; a root is its own parent.

use crate::combinators::{adjacent, ExactCombinator, ViewCombinator};
use vstd::prelude::*;

pub mod breadth_first;
pub mod components;
pub mod depth_first;
pub mod full_breadth_first;
pub mod full_depth_first;
pub mod post_order;
pub mod recycle;

pub use breadth_first::{BFSState, BFSTraversal};
pub use depth_first::{DFSState, DFSTraversal};
pub use full_breadth_first::{BFSFullState, BFSFullTraversal};
pub use full_depth_first::{DFSFullState, DFSFullTraversal};
pub use recycle::{BFSResources, DFSResources};

verus! {

/// The parent of a vertex that no traversal step has discovered yet.
pub const UNDISCOVERED: usize = usize::MAX;

/// One emission of a traversal: a vertex, the number of tree edges between
/// it and the root of its tree, and the vertex it was discovered from. A
/// root is its own parent.
#[derive(Clone, Copy, Hash, Debug)]
pub struct TraversalNode {
    pub vertex: usize,
    pub depth: usize,
    pub parent: usize,
}

/// A node of a breadth-first traversal.
pub type BFSNode = TraversalNode;

/// A node of a depth-first traversal.
pub type DFSNode = TraversalNode;

/// The node of a root.
pub open spec fn root_node(root: usize) -> TraversalNode {
    TraversalNode { vertex: root, depth: 0, parent: root }
}

/// The node of `vertex`, discovered from `from`.
pub open spec fn child_node(from: TraversalNode, vertex: usize) -> TraversalNode {
    TraversalNode { vertex, depth: (from.depth + 1) as usize, parent: from.vertex }
}

/// Whether the parent array marks `v` as discovered.
pub open spec fn discovered(parents: Seq<usize>, v: usize) -> bool {
    v < parents.len() && parents[v as int] != usize::MAX
}

/// A parent array of `n` slots, all undiscovered.
pub open spec fn blank(n: nat) -> Seq<usize> {
    Seq::new(n, |i: int| usize::MAX)
}

/// Whether some node of `nodes` is the node of `v`.
pub open spec fn mentions(nodes: Seq<TraversalNode>, v: usize) -> bool {
    exists|i: int| 0 <= i < nodes.len() && (#[trigger] nodes[i]).vertex == v
}

/// No vertex has two nodes.
pub open spec fn distinct_vertices(nodes: Seq<TraversalNode>) -> bool {
    forall|i: int, j: int|
        0 <= i < j < nodes.len() ==> (#[trigger] nodes[i]).vertex != (#[trigger] nodes[j]).vertex
}

/// Every node is the node of a vertex of the view.
pub open spec fn within<G: ViewCombinator>(g: &G, nodes: Seq<TraversalNode>) -> bool {
    forall|i: int| 0 <= i < nodes.len() ==> g.vertices().contains((#[trigger] nodes[i]).vertex)
}

/// The parent array holds the parent of every node.
pub open spec fn recorded(parents: Seq<usize>, nodes: Seq<TraversalNode>) -> bool {
    forall|i: int|
        0 <= i < nodes.len() ==> (#[trigger] nodes[i]).vertex < parents.len()
            && parents[nodes[i].vertex as int] == nodes[i].parent
}

/// Node `i` hangs in the forest: at depth 0 it is a root and its own
/// parent; otherwise it was discovered from an earlier node, one of the
/// first `expanded`, which is adjacent to it and one level up.
pub open spec fn hangs<G: ViewCombinator>(
    g: &G,
    nodes: Seq<TraversalNode>,
    expanded: int,
    i: int,
) -> bool {
    if nodes[i].depth == 0 {
        nodes[i].parent == nodes[i].vertex
    } else {
        exists|j: int|
            0 <= j < i && j < expanded && (#[trigger] nodes[j]).vertex == nodes[i].parent
                && nodes[i].depth == nodes[j].depth + 1 && adjacent(
                g,
                nodes[i].parent,
                nodes[i].vertex,
            )
    }
}

/// `nodes`, in discovery order, form a forest.
pub open spec fn tree_like<G: ViewCombinator>(
    g: &G,
    nodes: Seq<TraversalNode>,
    expanded: int,
) -> bool {
    forall|i: int| 0 <= i < nodes.len() ==> #[trigger] hangs(g, nodes, expanded, i)
}

/// The position of the parent of the non-root node `i`.
pub open spec fn parent_index<G: ViewCombinator>(
    g: &G,
    nodes: Seq<TraversalNode>,
    expanded: int,
    i: int,
) -> int {
    choose|j: int|
        0 <= j < i && j < expanded && (#[trigger] nodes[j]).vertex == nodes[i].parent
            && nodes[i].depth == nodes[j].depth + 1 && adjacent(g, nodes[i].parent, nodes[i].vertex)
}

/// What `parent_index` gives for a node that hangs below depth 0.
pub proof fn lemma_parent_index<G: ViewCombinator>(
    g: &G,
    nodes: Seq<TraversalNode>,
    expanded: int,
    i: int,
)
    requires
        hangs(g, nodes, expanded, i),
        nodes[i].depth != 0,
    ensures
        ({
            let j = parent_index(g, nodes, expanded, i);
            &&& 0 <= j < i
            &&& j < expanded
            &&& nodes[j].vertex == nodes[i].parent
            &&& nodes[i].depth == nodes[j].depth + 1
            &&& adjacent(g, nodes[i].parent, nodes[i].vertex)
        }),
{
}

/// No node is deeper than its position in discovery order.
pub open spec fn shallow(nodes: Seq<TraversalNode>) -> bool {
    forall|i: int| 0 <= i < nodes.len() ==> (#[trigger] nodes[i]).depth <= i
}

/// Every neighbor of every node is discovered.
pub open spec fn absorbed<G: ViewCombinator>(
    g: &G,
    parents: Seq<usize>,
    nodes: Seq<TraversalNode>,
) -> bool {
    forall|i: int, w: usize|
        0 <= i < nodes.len() && adjacent(g, (#[trigger] nodes[i]).vertex, w) ==> #[trigger] discovered(
            parents,
            w,
        )
}

/// Depths never go down along `nodes`.
pub open spec fn ascending(nodes: Seq<TraversalNode>) -> bool {
    forall|i: int, j: int|
        0 <= i <= j < nodes.len() ==> (#[trigger] nodes[i]).depth <= (#[trigger] nodes[j]).depth
}

/// The discovered labels, ascending.
pub open spec fn marked(parents: Seq<usize>) -> Seq<usize>
    decreases parents.len(),
{
    if parents.len() == 0 {
        Seq::empty()
    } else {
        let rest = marked(parents.drop_last());
        if parents.last() != usize::MAX {
            rest.push((parents.len() - 1) as usize)
        } else {
            rest
        }
    }
}

/// Nodes of distinct vertices below `n` are at most `n`.
pub proof fn lemma_distinct_bounded(nodes: Seq<TraversalNode>, n: nat)
    requires
        distinct_vertices(nodes),
        forall|i: int| 0 <= i < nodes.len() ==> (#[trigger] nodes[i]).vertex < n,
    ensures
        nodes.len() <= n,
    decreases n,
{
    if nodes.len() > 0 {
        if n == 0 {
            assert(nodes[0].vertex < n);
        } else if exists|k: int| 0 <= k < nodes.len() && (#[trigger] nodes[k]).vertex == n - 1 {
            let k = choose|k: int| 0 <= k < nodes.len() && (#[trigger] nodes[k]).vertex == n - 1;
            let rest = nodes.remove(k);
            assert forall|i: int| 0 <= i < rest.len() implies (#[trigger] rest[i]).vertex < n
                - 1 by {
                if i < k {
                    assert(rest[i] == nodes[i]);
                    assert(nodes[i].vertex != nodes[k].vertex);
                } else {
                    assert(rest[i] == nodes[i + 1]);
                    assert(nodes[k].vertex != nodes[i + 1].vertex);
                }
            }
            assert forall|i: int, j: int| 0 <= i < j < rest.len() implies (#[trigger] rest[i]).vertex
                != (#[trigger] rest[j]).vertex by {
                let a = if i < k {
                    i
                } else {
                    i + 1
                };
                let b = if j < k {
                    j
                } else {
                    j + 1
                };
                assert(rest[i] == nodes[a]);
                assert(rest[j] == nodes[b]);
                assert(nodes[a].vertex != nodes[b].vertex);
            }
            lemma_distinct_bounded(rest, (n - 1) as nat);
        } else {
            assert forall|i: int| 0 <= i < nodes.len() implies (#[trigger] nodes[i]).vertex < n
                - 1 by {}
            lemma_distinct_bounded(nodes, (n - 1) as nat);
        }
    }
}

/// A label is among the marked ones exactly if it is discovered.
pub proof fn lemma_marked_contains(parents: Seq<usize>, v: usize)
    requires
        parents.len() <= usize::MAX,
    ensures
        marked(parents).contains(v) <==> discovered(parents, v),
    decreases parents.len(),
{
    if parents.len() > 0 {
        let last = (parents.len() - 1) as usize;
        let rest = marked(parents.drop_last());
        lemma_marked_contains(parents.drop_last(), v);
        if parents.last() != usize::MAX {
            crate::seqs::lemma_push_member(rest, last, v);
        }
    }
}

/// In a forest, every node is reached from a root node by a walk along
/// tree edges.
pub proof fn lemma_tree_reach<G: ViewCombinator>(
    g: &G,
    nodes: Seq<TraversalNode>,
    expanded: int,
    i: int,
) -> (r: int)
    requires
        tree_like(g, nodes, expanded),
        0 <= i < nodes.len(),
    ensures
        0 <= r <= i,
        nodes[r].depth == 0,
        crate::reach::reachable(g, nodes[r].vertex, nodes[i].vertex),
    decreases i,
{
    assert(hangs(g, nodes, expanded, i));
    if nodes[i].depth == 0 {
        crate::reach::lemma_reach_self(g, nodes[i].vertex);
        i
    } else {
        lemma_parent_index(g, nodes, expanded, i);
        let j = parent_index(g, nodes, expanded, i);
        let r = lemma_tree_reach(g, nodes, expanded, j);
        crate::reach::lemma_reach_step(g, nodes[r].vertex, nodes[j].vertex, nodes[i].vertex);
        r
    }
}

/// The vertex of every node of a recorded forest is discovered.
pub proof fn lemma_node_discovered<G: ViewCombinator>(
    g: &G,
    parents: Seq<usize>,
    nodes: Seq<TraversalNode>,
    expanded: int,
    i: int,
)
    requires
        parents.len() <= usize::MAX,
        recorded(parents, nodes),
        tree_like(g, nodes, expanded),
        0 <= i < nodes.len(),
    ensures
        discovered(parents, nodes[i].vertex),
{
    assert(hangs(g, nodes, expanded, i));
    if nodes[i].depth != 0 {
        lemma_parent_index(g, nodes, expanded, i);
        let j = parent_index(g, nodes, expanded, i);
        assert(nodes[j].vertex < parents.len());
    }
}

/// Refills `buffer` with `n` copies of `value`, keeping its allocation.
pub fn refill(buffer: &mut Vec<usize>, n: usize, value: usize)
    ensures
        final(buffer)@ == Seq::new(n as nat, |i: int| value),
{
    buffer.clear();
    let mut i: usize = 0;
    while i < n
        invariant
            i <= n,
            buffer@ == Seq::new(i as nat, |k: int| value),
        decreases n - i,
    {
        buffer.push(value);
        proof {
            assert(buffer@ =~= Seq::new((i + 1) as nat, |k: int| value));
        }
        i += 1;
    }
}

/// Refills `buffer` with `n` times `false`, keeping its allocation.
pub fn refill_flags(buffer: &mut Vec<bool>, n: usize)
    ensures
        final(buffer)@ == Seq::new(n as nat, |i: int| false),
{
    buffer.clear();
    let mut i: usize = 0;
    while i < n
        invariant
            i <= n,
            buffer@ == Seq::new(i as nat, |k: int| false),
        decreases n - i,
    {
        buffer.push(false);
        proof {
            assert(buffer@ =~= Seq::new((i + 1) as nat, |k: int| false));
        }
        i += 1;
    }
}

/// The discovered labels, ascending.
pub fn marked_labels(parents: &Vec<usize>) -> (out: Vec<usize>)
    ensures
        out@ == marked(parents@),
{
    let mut out: Vec<usize> = Vec::new();
    let mut i: usize = 0;
    while i < parents.len()
        invariant
            i <= parents.len(),
            out@ == marked(parents@.take(i as int)),
        decreases parents.len() - i,
    {
        proof {
            crate::seqs::lemma_take_push(parents@, i as int);
        }
        if parents[i] != usize::MAX {
            out.push(i);
        }
        i += 1;
    }
    proof {
        crate::seqs::lemma_take_all(parents@);
    }
    out
}

/// `path` leads down the tree recorded in `parents`: it starts at a root,
/// ends at `to`, and each label is the parent of the next.
pub open spec fn tree_path(parents: Seq<usize>, path: Seq<usize>, to: usize) -> bool {
    &&& path.len() > 0
    &&& path.last() == to
    &&& path[0] < parents.len()
    &&& parents[path[0] as int] == path[0]
    &&& forall|k: int|
        0 <= k < path.len() - 1 ==> (#[trigger] path[k + 1]) < parents.len() && parents[path[k
            + 1] as int] == path[k] && path[k + 1] != path[k]
}

/// Only one path leads down the tree to a label.
pub proof fn lemma_tree_path_unique(parents: Seq<usize>, a: Seq<usize>, b: Seq<usize>, to: usize)
    requires
        tree_path(parents, a, to),
        tree_path(parents, b, to),
    ensures
        a == b,
    decreases a.len(),
{
    let la = a.len() as int;
    let lb = b.len() as int;
    if la == 1 || lb == 1 {
        if la > 1 {
            assert(a[la - 2 + 1] == to);
        }
        if lb > 1 {
            assert(b[lb - 2 + 1] == to);
        }
        assert(a =~= b);
    } else {
        assert(a[la - 2 + 1] == to);
        assert(b[lb - 2 + 1] == to);
        let up = a[la - 2];
        assert(b[lb - 2] == up);
        let sa = a.drop_last();
        let sb = b.drop_last();
        assert forall|k: int| 0 <= k < sa.len() - 1 implies (#[trigger] sa[k + 1]) < parents.len()
            && parents[sa[k + 1] as int] == sa[k] && sa[k + 1] != sa[k] by {
            assert(sa[k + 1] == a[k + 1]);
        }
        assert forall|k: int| 0 <= k < sb.len() - 1 implies (#[trigger] sb[k + 1]) < parents.len()
            && parents[sb[k + 1] as int] == sb[k] && sb[k + 1] != sb[k] by {
            assert(sb[k + 1] == b[k + 1]);
        }
        lemma_tree_path_unique(parents, sa, sb, up);
        assert(a =~= sa.push(to));
        assert(b =~= sb.push(to));
    }
}

/// A path down the tree stays one when undiscovered labels get parents.
pub proof fn lemma_tree_path_stays(before: Seq<usize>, after: Seq<usize>, path: Seq<usize>, to: usize)
    requires
        tree_path(before, path, to),
        before.len() == after.len(),
        before.len() <= usize::MAX,
        forall|v: usize| #[trigger] discovered(before, v) ==> after[v as int] == before[v as int],
    ensures
        tree_path(after, path, to),
{
    assert(discovered(before, path[0]));
    assert forall|k: int| 0 <= k < path.len() - 1 implies (#[trigger] path[k + 1]) < after.len()
        && after[path[k + 1] as int] == path[k] && path[k + 1] != path[k] by {
        assert(path[k] < before.len()) by {
            if k > 0 {
                assert(path[k - 1 + 1] < before.len());
            }
        }
        assert(discovered(before, path[k + 1]));
    }
}

/// The depth that `nodes` records for the vertex `v`.
pub open spec fn depth_in(nodes: Seq<TraversalNode>, v: usize) -> nat {
    let i = choose|i: int| 0 <= i < nodes.len() && (#[trigger] nodes[i]).vertex == v;
    nodes[i].depth as nat
}

/// The depth of a node is the depth recorded for its vertex.
pub proof fn lemma_depth_in(nodes: Seq<TraversalNode>, i: int)
    requires
        distinct_vertices(nodes),
        0 <= i < nodes.len(),
    ensures
        depth_in(nodes, nodes[i].vertex) == nodes[i].depth,
{
    let v = nodes[i].vertex;
    let k = choose|k: int| 0 <= k < nodes.len() && (#[trigger] nodes[k]).vertex == v;
    if k < i {
        assert(nodes[k].vertex != nodes[i].vertex);
    } else if i < k {
        assert(nodes[i].vertex != nodes[k].vertex);
    }
}

/// Follows the parent array from a discovered `vertex` up to its root and
/// returns the labels met, root first.
///
/// `nodes` are the discovered nodes in discovery order; they say why the
/// climb ends.
pub(crate) fn climb<G: ViewCombinator>(
    g: &G,
    parents: &Vec<usize>,
    Ghost(nodes): Ghost<Seq<TraversalNode>>,
    Ghost(expanded): Ghost<int>,
    vertex: usize,
) -> (path: Vec<usize>)
    requires
        recorded(parents@, nodes),
        distinct_vertices(nodes),
        tree_like(g, nodes, expanded),
        mentions(nodes, vertex),
    ensures
        tree_path(parents@, path@, vertex),
        crate::reach::is_walk(g, path@),
        path@.len() == depth_in(nodes, vertex) + 1,
        mentions(nodes, path@[0]),
        depth_in(nodes, path@[0]) == 0,
{
    let ghost start = choose|i: int| 0 <= i < nodes.len() && (#[trigger] nodes[i]).vertex == vertex;
    let ghost mut at = start;
    proof {
        lemma_depth_in(nodes, start);
    }
    let mut current = vertex;
    let mut chain: Vec<usize> = Vec::new();
    chain.push(current);
    while parents[current] != current
        invariant
            recorded(parents@, nodes),
            distinct_vertices(nodes),
            tree_like(g, nodes, expanded),
            0 <= at < nodes.len(),
            nodes[at].vertex == current,
            chain@.len() > 0,
            chain@[0] == vertex,
            chain@.last() == current,
            chain@.len() + nodes[at].depth == nodes[start].depth + 1,
            forall|k: int|
                0 <= k < chain@.len() - 1 ==> (#[trigger] chain@[k]) < parents@.len()
                    && parents@[chain@[k] as int] == chain@[k + 1] && chain@[k] != chain@[k + 1]
                    && adjacent(g, chain@[k + 1], chain@[k]),
        decreases nodes[at].depth,
    {
        proof {
            assert(hangs(g, nodes, expanded, at));
            lemma_parent_index(g, nodes, expanded, at);
        }
        let ghost up = parent_index(g, nodes, expanded, at);
        let ghost before = chain@;
        let next = parents[current];
        chain.push(next);
        proof {
            assert forall|k: int| 0 <= k < chain@.len() - 1 implies (#[trigger] chain@[k])
                < parents@.len() && parents@[chain@[k] as int] == chain@[k + 1] && chain@[k]
                != chain@[k + 1] && adjacent(g, chain@[k + 1], chain@[k]) by {
                if k < before.len() - 1 {
                    assert(chain@[k] == before[k]);
                    assert(chain@[k + 1] == before[k + 1]);
                }
            }
            at = up;
        }
        current = next;
    }
    proof {
        assert(hangs(g, nodes, expanded, at));
        if nodes[at].depth != 0 {
            lemma_parent_index(g, nodes, expanded, at);
            let j = parent_index(g, nodes, expanded, at);
            assert(nodes[j].vertex != nodes[at].vertex);
        }
        lemma_depth_in(nodes, at);
    }
    let mut path: Vec<usize> = Vec::with_capacity(chain.len());
    let mut left: usize = chain.len();
    while left > 0
        invariant
            left <= chain@.len(),
            path@.len() == chain@.len() - left,
            forall|k: int| 0 <= k < path@.len() ==> #[trigger] path@[k] == chain@[chain@.len() - 1 - k],
        decreases left,
    {
        left -= 1;
        path.push(chain[left]);
    }
    proof {
        let len = chain@.len() as int;
        assert forall|k: int| 0 <= k < path@.len() - 1 implies (#[trigger] path@[k + 1])
            < parents@.len() && parents@[path@[k + 1] as int] == path@[k] && path@[k + 1]
            != path@[k] by {
            assert(path@[k + 1] == chain@[len - 2 - k]);
            assert(path@[k] == chain@[len - 2 - k + 1]);
        }
        assert forall|k: int| 0 <= k < path@.len() - 1 implies adjacent(
            g,
            #[trigger] path@[k],
            path@[k + 1],
        ) by {
            assert(path@[k + 1] == chain@[len - 2 - k]);
            assert(path@[k] == chain@[len - 2 - k + 1]);
        }
        assert(path@[0] == chain@[len - 1]);
        assert(path@[len - 1] == chain@[0]);
    }
    path
}

/// A breadth-first and a depth-first traversal of one view from one root
/// that are both done have emitted the same vertices: those that the root
/// reaches.
pub proof fn lemma_same_vertices<'a, G: ExactCombinator>(
    bfs: &BFSTraversal<'a, G>,
    dfs: &DFSTraversal<'a, G, false>,
)
    requires
        bfs.wf(),
        dfs.wf(),
        bfs.graph() == dfs.graph(),
        bfs.root() == dfs.root(),
        bfs.state().done(),
        dfs.state().pre_done(),
    ensures
        forall|v: usize|
            mentions(bfs.state().emitted, v) <==> mentions(dfs.state().emitted, v),
        forall|v: usize|
            mentions(bfs.state().emitted, v) <==> crate::reach::reachable(bfs.graph(), bfs.root(), v),
{
    bfs.lemma_done_emitted_all();
    dfs.lemma_done_emitted_all();
}

/// The traversals, available on every view that knows its label count.
pub trait TraversalView: ExactCombinator {
    /// A breadth-first traversal from `root`.
    fn bfs(&self, root: usize) -> (out: BFSTraversal<'_, Self>)
        requires
            crate::combinators::traversable(self),
            self.vertices().contains(root),
        ensures
            out.wf(),
            out.graph() == self,
            out.root() == root,
            out.state() == BFSState::start(self.label_count(), root),
    {
        BFSTraversal::new(self, root)
    }

    /// A depth-first traversal from `root`, in pre-order.
    fn dfs(&self, root: usize) -> (out: DFSTraversal<'_, Self, false>)
        requires
            crate::combinators::traversable(self),
            self.vertices().contains(root),
        ensures
            out.wf(),
            out.graph() == self,
            out.root() == root,
            out.state() == DFSState::start(self.label_count(), root, false),
    {
        DFSTraversal::<Self, false>::new(self, root)
    }

    /// A depth-first traversal from `root`, in post-order.
    fn dfs_post_order(&self, root: usize) -> (out: DFSTraversal<'_, Self, true>)
        requires
            crate::combinators::traversable(self),
            self.vertices().contains(root),
        ensures
            out.wf(),
            out.graph() == self,
            out.root() == root,
            out.state() == DFSState::start(self.label_count(), root, true),
    {
        DFSTraversal::<Self, true>::new(self, root)
    }

    /// A breadth-first traversal of every component, in the order of the
    /// view's vertices.
    fn full_bfs(&self) -> (out: BFSFullTraversal<'_, Self>)
        requires
            crate::combinators::traversable(self),
        ensures
            out.wf(),
            out.graph() == self,
            out.state() == BFSFullState::start(self.label_count(), self.vertices()),
    {
        BFSFullTraversal::new(self)
    }

    /// A depth-first traversal of every component in pre-order, in the
    /// order of the view's vertices.
    fn full_dfs(&self) -> (out: DFSFullTraversal<'_, Self, false>)
        requires
            crate::combinators::traversable(self),
        ensures
            out.wf(),
            out.graph() == self,
            out.state() == DFSFullState::start(self.label_count(), self.vertices(), false),
    {
        DFSFullTraversal::<Self, false>::new(self)
    }

    /// A depth-first traversal of every component in post-order, in the
    /// order of the view's vertices.
    fn full_dfs_post_order(&self) -> (out: DFSFullTraversal<'_, Self, true>)
        requires
            crate::combinators::traversable(self),
        ensures
            out.wf(),
            out.graph() == self,
            out.state() == DFSFullState::start(self.label_count(), self.vertices(), true),
    {
        DFSFullTraversal::<Self, true>::new(self)
    }

    /// The number of trees of a full depth-first traversal, which is the
    /// number of connected components if the view is symmetric.
    fn component_count(&self) -> (count: usize)
        requires
            crate::combinators::traversable(self),
        ensures
            exists|emissions: nat|
                (#[trigger] DFSFullState::start(self.label_count(), self.vertices(), false).pre_run(
                    self,
                    emissions,
                )).pre_done() && count == components::roots(
                    DFSFullState::start(self.label_count(), self.vertices(), false).pre_run(
                        self,
                        emissions,
                    ).walk.emitted,
                ).len(),
            crate::combinators::symmetric(self) ==> count == crate::reach::components(self).len(),
    {
        let mut walk = DFSFullTraversal::<Self, false>::new(self);
        let count = walk.component_count();
        proof {
            assert(walk.state().walk.emitted.skip(0) =~= walk.state().walk.emitted);
        }
        count
    }
}

impl<G: ExactCombinator> TraversalView for G {

}

} // verus!
