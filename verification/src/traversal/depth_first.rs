//! Depth-first traversal from a root, in pre-order or in post-order.
//!
//! Both orders keep a stack of nodes. A vertex counts as discovered from
//! its first visit on, which is when its parent is recorded; until then
//! the stack may hold several nodes of it, one per neighbor that came
//! across it, and the one nearest the top wins. The neighbors of a vertex
//! go on the stack in the order in which the view enumerates them, so the
//! neighbor enumerated last is visited first.
//!
//! In pre-order a vertex is emitted at its visit. The post-order steps are
//! in [`crate::traversal::post_order`].

use crate::combinators::{adjacent, traversable, ExactCombinator, ViewCombinator};
use crate::reach::{is_walk, lemma_reach_stays, reachable};
use crate::seqs::{lemma_take_all, lemma_take_push};
use crate::traversal::breadth_first::targets_of;
use crate::traversal::post_order::{
    anchored, children_first, is_output, lemma_emitted_discovered, post_advance, post_next,
    supported, waits_alone,
};
use crate::traversal::full_depth_first::{DFSFullState, DFSFullTraversal};
use crate::traversal::recycle::DFSResources;
use crate::traversal::{
    blank, child_node, climb, depth_in, discovered, distinct_vertices, hangs,
    lemma_depth_in, lemma_distinct_bounded, lemma_node_discovered, lemma_parent_index,
    lemma_tree_reach, marked, marked_labels, mentions, parent_index, recorded, refill,
    refill_flags, root_node, shallow, tree_like, tree_path, within, TraversalNode,
};
use vstd::prelude::*;

verus! {

/// The state of a depth-first traversal: the parent array, the stack of
/// nodes that wait for their turn, top last, the output marks of a
/// post-order traversal, the nodes emitted so far, and the nodes visited
/// so far in the order of their first visit.
///
/// A pre-order traversal emits a node when it visits it and keeps no
/// marks and no record of visits apart from `emitted`.
pub struct DFSState {
    pub parents: Seq<usize>,
    pub stack: Seq<TraversalNode>,
    pub output: Seq<bool>,
    pub emitted: Seq<TraversalNode>,
    pub visited: Seq<TraversalNode>,
}

/// The nodes that `from` puts on the stack for `targets`.
pub open spec fn children(from: TraversalNode, targets: Seq<usize>) -> Seq<TraversalNode> {
    targets.map_values(|w: usize| child_node(from, w))
}

/// The stack without the discovered nodes at its top.
pub open spec fn drop_stale(parents: Seq<usize>, stack: Seq<TraversalNode>) -> Seq<TraversalNode>
    decreases stack.len(),
{
    if stack.len() == 0 {
        stack
    } else if discovered(parents, stack.last().vertex) {
        drop_stale(parents, stack.drop_last())
    } else {
        stack
    }
}

/// A node on the stack has a reason to be there: at depth 0 it is a root
/// and its own parent; otherwise a visited node is its parent, adjacent to
/// it and one level up.
pub open spec fn awaits<G: ViewCombinator>(
    g: &G,
    visited: Seq<TraversalNode>,
    node: TraversalNode,
) -> bool {
    if node.depth == 0 {
        node.parent == node.vertex
    } else {
        exists|j: int|
            0 <= j < visited.len() && (#[trigger] visited[j]).vertex == node.parent && node.depth
                == visited[j].depth + 1 && adjacent(g, node.parent, node.vertex)
    }
}

/// Every node on the stack is the node of a vertex of the view and has a
/// reason to be there.
pub open spec fn pending<G: ViewCombinator>(
    g: &G,
    visited: Seq<TraversalNode>,
    stack: Seq<TraversalNode>,
) -> bool {
    forall|k: int|
        0 <= k < stack.len() ==> g.vertices().contains((#[trigger] stack[k]).vertex) && awaits(
            g,
            visited,
            stack[k],
        )
}

/// Every neighbor of every node of `nodes` is discovered or on the stack.
pub open spec fn covered<G: ViewCombinator>(
    g: &G,
    parents: Seq<usize>,
    nodes: Seq<TraversalNode>,
    stack: Seq<TraversalNode>,
) -> bool {
    forall|i: int, w: usize|
        0 <= i < nodes.len() && adjacent(g, (#[trigger] nodes[i]).vertex, w) ==> #[trigger] discovered(
            parents,
            w,
        ) || mentions(stack, w)
}

impl DFSState {
    /// The state of a traversal that is about to visit `root`.
    pub open spec fn start(n: nat, root: usize, post_order: bool) -> DFSState {
        DFSState {
            parents: blank(n),
            stack: seq![root_node(root)],
            output: if post_order {
                Seq::new(n, |i: int| false)
            } else {
                Seq::empty()
            },
            emitted: Seq::empty(),
            visited: Seq::empty(),
        }
    }

    /// Whether a pre-order traversal has nothing left to emit.
    pub open spec fn pre_done(self) -> bool {
        drop_stale(self.parents, self.stack).len() == 0
    }

    /// What a pre-order traversal emits next.
    pub open spec fn pre_out(self) -> Option<TraversalNode> {
        let stack = drop_stale(self.parents, self.stack);
        if stack.len() == 0 {
            None
        } else {
            Some(stack.last())
        }
    }

    /// The state of a pre-order traversal after its next emission: the
    /// discovered nodes at the top of the stack are gone, the node below
    /// them has its parent recorded and is emitted, and a node for each of
    /// its neighbors is on the stack. A finished traversal ends with an
    /// empty stack.
    pub open spec fn pre_step<G: ViewCombinator>(self, g: &G) -> DFSState {
        let stack = drop_stale(self.parents, self.stack);
        if stack.len() == 0 {
            DFSState { stack, ..self }
        } else {
            let node = stack.last();
            DFSState {
                parents: self.parents.update(node.vertex as int, node.parent),
                stack: stack.drop_last() + children(node, targets_of(g, node.vertex)),
                emitted: self.emitted.push(node),
                ..self
            }
        }
    }

    /// The state of a pre-order traversal after `count` emissions.
    pub open spec fn pre_run<G: ViewCombinator>(self, g: &G, count: nat) -> DFSState
        decreases count,
    {
        if count == 0 {
            self
        } else {
            self.pre_run(g, (count - 1) as nat).pre_step(g)
        }
    }

    /// The invariant of a pre-order traversal: the emitted nodes form a
    /// forest over vertices of the view, one node per discovered vertex;
    /// the stack holds candidates with a visited parent; every neighbor
    /// of an emitted node is discovered or on the stack.
    pub open spec fn pre_forest<G: ExactCombinator>(self, g: &G) -> bool {
        &&& traversable(g)
        &&& self.parents.len() == g.label_count()
        &&& self.parents.len() <= usize::MAX
        &&& within(g, self.emitted)
        &&& recorded(self.parents, self.emitted)
        &&& distinct_vertices(self.emitted)
        &&& forall|v: usize| #[trigger] discovered(self.parents, v) ==> mentions(self.emitted, v)
        &&& tree_like(g, self.emitted, self.emitted.len() as int)
        &&& shallow(self.emitted)
        &&& pending(g, self.emitted, self.stack)
        &&& covered(g, self.parents, self.emitted, self.stack)
    }

    /// What holds in addition when the traversal has the single root
    /// `root`: only its node has depth 0, and it is discovered or on the stack.
    pub open spec fn pre_rooted(self, root: usize) -> bool {
        &&& forall|i: int|
            0 <= i < self.emitted.len() && (#[trigger] self.emitted[i]).depth == 0
                ==> self.emitted[i].vertex == root
        &&& forall|k: int|
            0 <= k < self.stack.len() && (#[trigger] self.stack[k]).depth == 0 ==> self.stack[k].vertex
                == root
        &&& discovered(self.parents, root) || mentions(self.stack, root)
    }
}

/// Whatever is on the stack of a finished pre-order traversal is discovered.
pub proof fn lemma_stale_discovered(parents: Seq<usize>, stack: Seq<TraversalNode>, v: usize)
    requires
        drop_stale(parents, stack).len() == 0,
        mentions(stack, v),
    ensures
        discovered(parents, v),
    decreases stack.len(),
{
    let k = choose|k: int| 0 <= k < stack.len() && (#[trigger] stack[k]).vertex == v;
    if k < stack.len() - 1 {
        assert(stack.drop_last()[k].vertex == v);
        lemma_stale_discovered(parents, stack.drop_last(), v);
    }
}

/// Taking a discovered node off the top keeps the invariant.
pub proof fn lemma_pre_pop<G: ExactCombinator>(g: &G, s: DFSState)
    requires
        s.pre_forest(g),
        s.stack.len() > 0,
        discovered(s.parents, s.stack.last().vertex),
    ensures
        (DFSState { stack: s.stack.drop_last(), ..s }).pre_forest(g),
        forall|root: usize|
            s.pre_rooted(root) ==> (DFSState { stack: s.stack.drop_last(), ..s }).pre_rooted(root),
{
    let t = DFSState { stack: s.stack.drop_last(), ..s };
    let top = s.stack.len() - 1;
    assert forall|k: int| 0 <= k < t.stack.len() implies g.vertices().contains(
        (#[trigger] t.stack[k]).vertex,
    ) && awaits(g, t.emitted, t.stack[k]) by {
        assert(t.stack[k] == s.stack[k]);
        assert(awaits(g, s.emitted, s.stack[k]));
    }
    assert forall|i: int, w: usize|
        0 <= i < t.emitted.len() && adjacent(g, (#[trigger] t.emitted[i]).vertex, w) implies #[trigger] discovered(
        t.parents,
        w,
    ) || mentions(t.stack, w) by {
        if !discovered(s.parents, w) {
            assert(mentions(s.stack, w));
            let k = choose|k: int| 0 <= k < s.stack.len() && (#[trigger] s.stack[k]).vertex == w;
            assert(k != top);
            assert(t.stack[k].vertex == w);
        }
    }
    assert forall|root: usize| s.pre_rooted(root) implies t.pre_rooted(root) by {
        assert forall|k: int| 0 <= k < t.stack.len() && (#[trigger] t.stack[k]).depth
            == 0 implies t.stack[k].vertex == root by {
            assert(t.stack[k] == s.stack[k]);
        }
        if !discovered(s.parents, root) {
            let k = choose|k: int| 0 <= k < s.stack.len() && (#[trigger] s.stack[k]).vertex == root;
            assert(k != top);
            assert(t.stack[k].vertex == root);
        }
    }
}

/// Emitting the undiscovered node at the top keeps the invariant.
pub proof fn lemma_pre_emit<G: ExactCombinator>(g: &G, s: DFSState)
    requires
        s.pre_forest(g),
        s.stack.len() > 0,
        !discovered(s.parents, s.stack.last().vertex),
    ensures
        g.neighbors(s.stack.last().vertex) is Some,
        s.stack.last().vertex < s.parents.len(),
        s.stack.last().depth < usize::MAX,
        s.pre_step(g).pre_forest(g),
        s.pre_step(g) == (DFSState {
            parents: s.parents.update(s.stack.last().vertex as int, s.stack.last().parent),
            stack: s.stack.drop_last() + children(
                s.stack.last(),
                targets_of(g, s.stack.last().vertex),
            ),
            emitted: s.emitted.push(s.stack.last()),
            ..s
        }),
        s.pre_out() == Some(s.stack.last()),
        forall|root: usize| s.pre_rooted(root) ==> s.pre_step(g).pre_rooted(root),
{
    let node = s.stack.last();
    let v = node.vertex;
    let top = s.stack.len() - 1;
    let e = s.emitted.len() as int;
    let targets = targets_of(g, v);
    let t = s.pre_step(g);
    assert(awaits(g, s.emitted, s.stack[top]));
    assert(g.vertices().contains(v));
    assert(!mentions(s.emitted, v)) by {
        if mentions(s.emitted, v) {
            let i = choose|i: int| 0 <= i < s.emitted.len() && (#[trigger] s.emitted[i]).vertex == v;
            lemma_node_discovered(g, s.parents, s.emitted, e, i);
        }
    }
    assert(node.parent < s.parents.len()) by {
        if node.depth != 0 {
            let j = choose|j: int|
                0 <= j < s.emitted.len() && (#[trigger] s.emitted[j]).vertex == node.parent
                    && node.depth == s.emitted[j].depth + 1 && adjacent(g, node.parent, node.vertex);
            assert(s.emitted[j].vertex < s.parents.len());
        }
    }
    assert(t.emitted =~= s.emitted.push(node));
    assert forall|i: int| 0 <= i < t.emitted.len() implies g.vertices().contains(
        (#[trigger] t.emitted[i]).vertex,
    ) by {
        if i < e {
            assert(t.emitted[i] == s.emitted[i]);
        }
    }
    assert forall|i: int| 0 <= i < t.emitted.len() implies (#[trigger] t.emitted[i]).vertex
        < t.parents.len() && t.parents[t.emitted[i].vertex as int] == t.emitted[i].parent by {
        if i < e {
            assert(t.emitted[i] == s.emitted[i]);
            assert(s.emitted[i].vertex != v);
        }
    }
    assert forall|i: int, j: int| 0 <= i < j < t.emitted.len() implies (
    #[trigger] t.emitted[i]).vertex != (#[trigger] t.emitted[j]).vertex by {
        assert(t.emitted[i] == s.emitted[i]);
        if j < e {
            assert(t.emitted[j] == s.emitted[j]);
        }
    }
    assert forall|x: usize| #[trigger] discovered(t.parents, x) implies mentions(t.emitted, x) by {
        if x == v {
            assert(t.emitted[e].vertex == v);
        } else {
            assert(discovered(s.parents, x));
            let i = choose|i: int| 0 <= i < s.emitted.len() && (#[trigger] s.emitted[i]).vertex == x;
            assert(t.emitted[i].vertex == x);
        }
    }
    assert forall|i: int| 0 <= i < t.emitted.len() implies #[trigger] hangs(
        g,
        t.emitted,
        t.emitted.len() as int,
        i,
    ) by {
        if i < e {
            assert(t.emitted[i] == s.emitted[i]);
            assert(hangs(g, s.emitted, e, i));
            if s.emitted[i].depth != 0 {
                lemma_parent_index(g, s.emitted, e, i);
                let j = parent_index(g, s.emitted, e, i);
                assert(t.emitted[j] == s.emitted[j]);
            }
        } else if node.depth != 0 {
            let j = choose|j: int|
                0 <= j < s.emitted.len() && (#[trigger] s.emitted[j]).vertex == node.parent
                    && node.depth == s.emitted[j].depth + 1 && adjacent(g, node.parent, node.vertex);
            assert(t.emitted[j] == s.emitted[j]);
        }
    }
    assert forall|i: int| 0 <= i < t.emitted.len() implies (#[trigger] t.emitted[i]).depth <= i by {
        if i < e {
            assert(t.emitted[i] == s.emitted[i]);
        } else if node.depth != 0 {
            let j = choose|j: int|
                0 <= j < s.emitted.len() && (#[trigger] s.emitted[j]).vertex == node.parent
                    && node.depth == s.emitted[j].depth + 1 && adjacent(g, node.parent, node.vertex);
            assert(s.emitted[j].depth <= j);
        }
    }
    assert forall|i: int| 0 <= i < t.emitted.len() implies (#[trigger] t.emitted[i]).vertex
        < g.label_count() by {}
    lemma_distinct_bounded(t.emitted, g.label_count());
    let base = s.stack.drop_last();
    let kids = children(node, targets);
    assert(t.stack == base + kids);
    assert forall|k: int| 0 <= k < t.stack.len() implies g.vertices().contains(
        (#[trigger] t.stack[k]).vertex,
    ) && awaits(g, t.emitted, t.stack[k]) by {
        if k < base.len() {
            assert(t.stack[k] == s.stack[k]);
            assert(awaits(g, s.emitted, s.stack[k]));
            if s.stack[k].depth != 0 {
                let j = choose|j: int|
                    0 <= j < s.emitted.len() && (#[trigger] s.emitted[j]).vertex == s.stack[k].parent
                        && s.stack[k].depth == s.emitted[j].depth + 1 && adjacent(
                        g,
                        s.stack[k].parent,
                        s.stack[k].vertex,
                    );
                assert(t.emitted[j] == s.emitted[j]);
            }
        } else {
            let w = targets[k - base.len()];
            assert(t.stack[k] == child_node(node, w));
            assert(targets.contains(w));
            assert(adjacent(g, v, w));
            assert(t.emitted[e] == node);
        }
    }
    assert forall|i: int, w: usize|
        0 <= i < t.emitted.len() && adjacent(g, (#[trigger] t.emitted[i]).vertex, w) implies #[trigger] discovered(
        t.parents,
        w,
    ) || mentions(t.stack, w) by {
        if i < e {
            assert(t.emitted[i] == s.emitted[i]);
            if discovered(s.parents, w) {
                assert(discovered(t.parents, w));
            } else {
                assert(mentions(s.stack, w));
                let k = choose|k: int| 0 <= k < s.stack.len() && (#[trigger] s.stack[k]).vertex == w;
                if k == top {
                    assert(discovered(t.parents, w));
                } else {
                    assert(t.stack[k].vertex == w);
                }
            }
        } else {
            let x = choose|x: int| 0 <= x < targets.len() && targets[x] == w;
            assert(t.stack[base.len() + x] == child_node(node, w));
            assert(t.stack[base.len() + x].vertex == w);
        }
    }
    assert forall|root: usize| s.pre_rooted(root) implies t.pre_rooted(root) by {
        assert forall|i: int| 0 <= i < t.emitted.len() && (#[trigger] t.emitted[i]).depth
            == 0 implies t.emitted[i].vertex == root by {
            if i < e {
                assert(t.emitted[i] == s.emitted[i]);
            } else {
                assert(s.stack[top].depth == 0);
            }
        }
        assert forall|k: int| 0 <= k < t.stack.len() && (#[trigger] t.stack[k]).depth
            == 0 implies t.stack[k].vertex == root by {
            if k < base.len() {
                assert(t.stack[k] == s.stack[k]);
            } else {
                assert(t.stack[k] == child_node(node, targets[k - base.len()]));
            }
        }
        if !discovered(t.parents, root) {
            assert(!discovered(s.parents, root));
            let k = choose|k: int| 0 <= k < s.stack.len() && (#[trigger] s.stack[k]).vertex == root;
            assert(k != top);
            assert(t.stack[k].vertex == root);
        }
    }
}

/// A depth-first traversal of the vertices that `root` reaches. With
/// `POST_ORDER` a vertex is emitted after the vertices discovered from it,
/// without it when it is discovered.
pub struct DFSTraversal<'a, G: ExactCombinator, const POST_ORDER: bool> {
    pub(crate) graph: &'a G,
    pub(crate) parents: Vec<usize>,
    pub(crate) stack: Vec<TraversalNode>,
    pub(crate) output: Vec<bool>,
    pub(crate) emitted: Ghost<Seq<TraversalNode>>,
    pub(crate) visited: Ghost<Seq<TraversalNode>>,
    pub(crate) root: Ghost<usize>,
}

/// Puts a node for each of `targets` on the stack.
pub(crate) fn push_children(
    stack: &mut Vec<TraversalNode>,
    from: TraversalNode,
    targets: &Vec<usize>,
)
    requires
        from.depth < usize::MAX,
    ensures
        final(stack)@ == old(stack)@ + children(from, targets@),
{
    let mut i: usize = 0;
    while i < targets.len()
        invariant
            i <= targets.len(),
            from.depth < usize::MAX,
            stack@ == old(stack)@ + children(from, targets@.take(i as int)),
        decreases targets.len() - i,
    {
        stack.push(TraversalNode { vertex: targets[i], depth: from.depth + 1, parent: from.vertex });
        proof {
            lemma_take_push(targets@, i as int);
            assert(stack@ =~= old(stack)@ + children(from, targets@.take(i + 1)));
        }
        i += 1;
    }
    proof {
        lemma_take_all(targets@);
    }
}

/// One emission of a pre-order traversal over the given buffers.
pub(crate) fn pre_advance<G: ExactCombinator>(
    graph: &G,
    parents: &mut Vec<usize>,
    stack: &mut Vec<TraversalNode>,
    Ghost(rest): Ghost<DFSState>,
) -> (out: Option<TraversalNode>)
    requires
        (DFSState { parents: old(parents)@, stack: old(stack)@, ..rest }).pre_forest(graph),
    ensures
        (DFSState {
            parents: final(parents)@,
            stack: final(stack)@,
            emitted: if out is Some {
                rest.emitted.push(out->0)
            } else {
                rest.emitted
            },
            ..rest
        }) == (DFSState { parents: old(parents)@, stack: old(stack)@, ..rest }).pre_step(graph),
        out == (DFSState { parents: old(parents)@, stack: old(stack)@, ..rest }).pre_out(),
        (DFSState { parents: old(parents)@, stack: old(stack)@, ..rest }).pre_step(graph).pre_forest(
            graph,
        ),
        forall|root: usize|
            (DFSState { parents: old(parents)@, stack: old(stack)@, ..rest }).pre_rooted(root) ==> (
            DFSState { parents: old(parents)@, stack: old(stack)@, ..rest }).pre_step(
                graph,
            ).pre_rooted(root),
{
    let ghost before = DFSState { parents: parents@, stack: stack@, ..rest };
    loop
        invariant
            before == (DFSState { parents: old(parents)@, stack: old(stack)@, ..rest }),
            parents@ == before.parents,
            (DFSState { parents: parents@, stack: stack@, ..rest }).pre_forest(graph),
            drop_stale(parents@, stack@) == drop_stale(before.parents, before.stack),
            forall|root: usize|
                before.pre_rooted(root) ==> (DFSState {
                    parents: parents@,
                    stack: stack@,
                    ..rest
                }).pre_rooted(root),
        decreases stack@.len(),
    {
        let ghost now = DFSState { parents: parents@, stack: stack@, ..rest };
        match stack.pop() {
            None => {
                proof {
                    assert(now.stack.len() == 0);
                    assert(drop_stale(now.parents, now.stack) == now.stack);
                    assert(stack@ =~= drop_stale(before.parents, before.stack));
                    assert(before.pre_step(graph) == (DFSState { stack: stack@, ..before }));
                }
                return None;
            },
            Some(current) => {
                proof {
                    assert(stack@ =~= now.stack.drop_last());
                    assert(graph.vertices().contains(now.stack[now.stack.len() - 1].vertex));
                }
                if parents[current.vertex] != usize::MAX {
                    proof {
                        assert(discovered(now.parents, now.stack.last().vertex));
                        assert(drop_stale(now.parents, now.stack) == drop_stale(
                            now.parents,
                            now.stack.drop_last(),
                        ));
                        lemma_pre_pop(graph, now);
                    }
                    continue ;
                }
                proof {
                    assert(!discovered(now.parents, now.stack.last().vertex));
                    assert(drop_stale(now.parents, now.stack) == now.stack);
                    lemma_pre_emit(graph, now);
                    graph.lemma_vertices_queryable();
                    assert(now.pre_step(graph) == before.pre_step(graph));
                    assert(now.pre_out() == before.pre_out());
                }
                parents[current.vertex] = current.parent;
                let targets = graph.neighbor_iterator(current.vertex).unwrap();
                push_children(stack, current, &targets);
                return Some(current);
            },
        }
    }
}

impl<'a, G: ExactCombinator, const POST_ORDER: bool> DFSTraversal<'a, G, POST_ORDER> {
    /// The view that is traversed.
    pub closed spec fn graph(&self) -> &'a G {
        self.graph
    }

    /// The root of the traversal.
    pub closed spec fn root(&self) -> usize {
        self.root@
    }

    /// The state of the traversal.
    pub closed spec fn state(&self) -> DFSState {
        DFSState {
            parents: self.parents@,
            stack: self.stack@,
            output: self.output@,
            emitted: self.emitted@,
            visited: self.visited@,
        }
    }

    /// The vertices discovered so far, ascending by label.
    pub fn traversed_iter(&self) -> (out: Vec<usize>)
        ensures
            out@ == marked(self.state().parents),
    {
        marked_labels(&self.parents)
    }

    /// The parent array.
    pub fn extract_parents(self) -> (out: Vec<usize>)
        ensures
            out@ == self.state().parents,
    {
        self.parents
    }

    /// The buffers of the traversal as they are, for another traversal to
    /// use.
    pub fn extract_resources(self) -> (out: DFSResources)
        ensures
            out.wf(),
            out.parents() == Some(self.state().parents),
            out.stack() == Some(self.state().stack),
            out.output() == Some(self.state().output),
    {
        DFSResources::holding(self.parents, self.stack, self.output)
    }
}

impl<'a, G: ExactCombinator> DFSTraversal<'a, G, false> {
    /// The invariant of the traversal.
    pub open spec fn wf(&self) -> bool {
        &&& self.state().pre_forest(self.graph())
        &&& self.state().pre_rooted(self.root())
    }

    /// The depth of a discovered vertex: the number of tree edges between
    /// it and the root.
    pub open spec fn depth_of(&self, vertex: usize) -> nat {
        depth_in(self.state().emitted, vertex)
    }

    /// The state `start` is a state of a pre-order traversal rooted at `root`.
    pub proof fn lemma_start(g: &G, root: usize)
        requires
            traversable(g),
            g.label_count() <= usize::MAX,
            g.vertices().contains(root),
        ensures
            DFSState::start(g.label_count(), root, false).pre_forest(g),
            DFSState::start(g.label_count(), root, false).pre_rooted(root),
    {
        let s = DFSState::start(g.label_count(), root, false);
        assert(s.stack[0] == root_node(root));
        assert(awaits(g, s.emitted, s.stack[0]));
        assert(mentions(s.stack, root));
    }

    /// A traversal over buffers that are set up to visit `root`.
    pub(crate) fn over(
        graph: &'a G,
        parents: Vec<usize>,
        stack: Vec<TraversalNode>,
        output: Vec<bool>,
        root: usize,
    ) -> (out: Self)
        requires
            traversable(graph),
            graph.vertices().contains(root),
            parents@ == blank(graph.label_count()),
            stack@ == seq![root_node(root)],
            output@ == Seq::<bool>::empty(),
        ensures
            out.wf(),
            out.graph() == graph,
            out.root() == root,
            out.state() == DFSState::start(graph.label_count(), root, false),
    {
        proof {
            assert(parents@.len() == parents.len());
            Self::lemma_start(graph, root);
        }
        Self {
            graph,
            parents,
            stack,
            output,
            emitted: Ghost(Seq::empty()),
            visited: Ghost(Seq::empty()),
            root: Ghost(root),
        }
    }

    /// A traversal that is about to emit `root`.
    pub fn new(graph: &'a G, root: usize) -> (out: Self)
        requires
            traversable(graph),
            graph.vertices().contains(root),
        ensures
            out.wf(),
            out.graph() == graph,
            out.root() == root,
            out.state() == DFSState::start(graph.label_count(), root, false),
    {
        let n = graph.num_v_labels();
        let mut parents: Vec<usize> = Vec::new();
        refill(&mut parents, n, usize::MAX);
        let mut stack: Vec<TraversalNode> = Vec::new();
        stack.push(TraversalNode { vertex: root, depth: 0, parent: root });
        proof {
            assert(stack@ =~= seq![root_node(root)]);
        }
        Self::over(graph, parents, stack, Vec::new(), root)
    }

    /// A traversal that is about to emit `root`.
    pub fn from_root(graph: &'a G, root: usize) -> (out: Self)
        requires
            traversable(graph),
            graph.vertices().contains(root),
        ensures
            out.wf(),
            out.graph() == graph,
            out.root() == root,
            out.state() == DFSState::start(graph.label_count(), root, false),
    {
        Self::new(graph, root)
    }

    /// A pre-order traversal of every component of `graph`.
    pub fn full_traversal(graph: &'a G) -> (out: DFSFullTraversal<'a, G, false>)
        requires
            traversable(graph),
        ensures
            out.wf(),
            out.graph() == graph,
            out.state() == DFSFullState::start(graph.label_count(), graph.vertices(), false),
    {
        DFSFullTraversal::<G, false>::new(graph)
    }

    /// Puts the traversal into the state of a new traversal of the same
    /// view from `root`, keeping its buffers.
    pub fn restart_at(&mut self, root: usize)
        requires
            old(self).wf(),
            old(self).graph().vertices().contains(root),
        ensures
            final(self).wf(),
            final(self).graph() == old(self).graph(),
            final(self).root() == root,
            final(self).state() == DFSState::start(old(self).graph().label_count(), root, false),
    {
        let n = self.parents.len();
        refill(&mut self.parents, n, usize::MAX);
        self.output.clear();
        self.stack.clear();
        self.stack.push(TraversalNode { vertex: root, depth: 0, parent: root });
        proof {
            self.emitted@ = Seq::empty();
            self.visited@ = Seq::empty();
            self.root@ = root;
            Self::lemma_start(self.graph, root);
            assert(self.stack@ =~= seq![root_node(root)]);
            assert(self.output@ =~= Seq::<bool>::empty());
        }
    }

    /// Emits the next vertex in depth-first pre-order, or `None` once
    /// every vertex that the root reaches has been emitted.
    pub fn next(&mut self) -> (out: Option<TraversalNode>)
        requires
            old(self).wf(),
        ensures
            final(self).wf(),
            final(self).graph() == old(self).graph(),
            final(self).root() == old(self).root(),
            final(self).state() == old(self).state().pre_step(old(self).graph()),
            out == old(self).state().pre_out(),
    {
        let out = pre_advance(
            self.graph,
            &mut self.parents,
            &mut self.stack,
            Ghost(old(self).state()),
        );
        proof {
            if out is Some {
                self.emitted@ = self.emitted@.push(out->0);
            }
        }
        out
    }

    /// Runs the traversal to its end and returns what it emitted on the way.
    pub fn collect(&mut self) -> (out: Vec<TraversalNode>)
        requires
            old(self).wf(),
        ensures
            final(self).wf(),
            final(self).graph() == old(self).graph(),
            final(self).root() == old(self).root(),
            final(self).state().pre_done(),
            final(self).state() == old(self).state().pre_run(old(self).graph(), out@.len() + 1),
            final(self).state().emitted == old(self).state().emitted + out@,
    {
        let mut out: Vec<TraversalNode> = Vec::new();
        loop
            invariant_except_break
                self.state() == old(self).state().pre_run(old(self).graph(), out@.len()),
            invariant
                self.wf(),
                self.graph() == old(self).graph(),
                self.root() == old(self).root(),
                self.state().emitted == old(self).state().emitted + out@,
            ensures
                self.wf(),
                self.graph() == old(self).graph(),
                self.root() == old(self).root(),
                self.state().pre_done(),
                self.state() == old(self).state().pre_run(old(self).graph(), out@.len() + 1),
                self.state().emitted == old(self).state().emitted + out@,
            decreases self.graph().label_count() - self.state().emitted.len(),
        {
            proof {
                self.lemma_discovered_bounded();
            }
            let ghost before = self.state();
            match self.next() {
                Some(node) => {
                    out.push(node);
                    proof {
                        assert(self.state().emitted == before.emitted.push(node));
                        assert(self.state().emitted =~= old(self).state().emitted + out@);
                        self.lemma_discovered_bounded();
                    }
                },
                None => {
                    proof {
                        assert(self.state().emitted == before.emitted);
                        assert(self.state().stack.len() == 0);
                    }
                    break ;
                },
            }
        }
        out
    }

    /// Runs the traversal to its end.
    pub fn exhaust(&mut self)
        requires
            old(self).wf(),
        ensures
            final(self).wf(),
            final(self).graph() == old(self).graph(),
            final(self).root() == old(self).root(),
            final(self).state().pre_done(),
            exists|count: nat|
                final(self).state() == old(self).state().pre_run(old(self).graph(), count),
    {
        let ghost mut count: nat = 0;
        loop
            invariant_except_break
                self.state() == old(self).state().pre_run(old(self).graph(), count),
            invariant
                self.wf(),
                self.graph() == old(self).graph(),
                self.root() == old(self).root(),
            ensures
                self.wf(),
                self.graph() == old(self).graph(),
                self.root() == old(self).root(),
                self.state().pre_done(),
                self.state() == old(self).state().pre_run(old(self).graph(), count),
            decreases self.graph().label_count() - self.state().emitted.len(),
        {
            proof {
                self.lemma_discovered_bounded();
            }
            let ghost before = self.state();
            let more = self.next();
            proof {
                count = count + 1;
            }
            if more.is_none() {
                proof {
                    assert(self.state().stack.len() == 0);
                }
                break ;
            }
            proof {
                assert(self.state().emitted == before.emitted.push(more->0));
                self.lemma_discovered_bounded();
            }
        }
    }

    /// The path from the root down to `vertex` along the edges by which
    /// the traversal discovered it, or `None` while `vertex` is
    /// undiscovered. The path has `depth_of(vertex) + 1` labels, and each
    /// is adjacent to the next.
    pub fn extract_path(&self, vertex: usize) -> (out: Option<Vec<usize>>)
        requires
            self.wf(),
            vertex < self.graph().label_count(),
        ensures
            out is None <==> !discovered(self.state().parents, vertex),
            out matches Some(path) ==> {
                &&& tree_path(self.state().parents, path@, vertex)
                &&& path@[0] == self.root()
                &&& is_walk(self.graph(), path@)
                &&& path@.len() == self.depth_of(vertex) + 1
            },
    {
        if self.parents[vertex] == usize::MAX {
            None
        } else {
            proof {
                assert(discovered(self.state().parents, vertex));
            }
            let path = climb(
                self.graph,
                &self.parents,
                Ghost(self.emitted@),
                Ghost(self.emitted@.len() as int),
                vertex,
            );
            proof {
                let all = self.state().emitted;
                let i = choose|i: int| 0 <= i < all.len() && (#[trigger] all[i]).vertex == path@[0];
                lemma_depth_in(all, i);
            }
            Some(path)
        }
    }

    /// No more vertices are emitted than the view has labels.
    pub proof fn lemma_discovered_bounded(&self)
        requires
            self.wf(),
        ensures
            self.state().emitted.len() <= self.graph().label_count(),
    {
        let all = self.state().emitted;
        assert forall|i: int| 0 <= i < all.len() implies (#[trigger] all[i]).vertex
            < self.graph().label_count() by {
            assert(self.graph().vertices().contains(all[i].vertex));
        }
        lemma_distinct_bounded(all, self.graph().label_count());
    }

    /// Every vertex is emitted at most once, and only a vertex that the
    /// root reaches is ever emitted.
    pub proof fn lemma_discovered_reachable(&self)
        requires
            self.wf(),
        ensures
            distinct_vertices(self.state().emitted),
            forall|v: usize|
                discovered(self.state().parents, v) ==> reachable(self.graph(), self.root(), v),
    {
        let s = self.state();
        assert forall|v: usize| discovered(s.parents, v) implies reachable(
            self.graph(),
            self.root(),
            v,
        ) by {
            let i = choose|i: int| 0 <= i < s.emitted.len() && (#[trigger] s.emitted[i]).vertex == v;
            let r = lemma_tree_reach(self.graph(), s.emitted, s.emitted.len() as int, i);
            assert(s.emitted[r].depth == 0);
        }
    }

    /// Once the traversal is done, the emitted vertices are exactly the
    /// vertices that the root reaches.
    pub proof fn lemma_done_emitted_all(&self)
        requires
            self.wf(),
            self.state().pre_done(),
        ensures
            forall|v: usize|
                mentions(self.state().emitted, v) <==> reachable(self.graph(), self.root(), v),
    {
        let s = self.state();
        let g = self.graph();
        self.lemma_discovered_reachable();
        let inside = |v: usize| discovered(s.parents, v);
        if mentions(s.stack, self.root()) {
            lemma_stale_discovered(s.parents, s.stack, self.root());
        }
        assert(inside(self.root()));
        assert forall|u: usize, v: usize| inside(u) && #[trigger] adjacent(g, u, v) implies inside(
            v,
        ) by {
            let i = choose|i: int| 0 <= i < s.emitted.len() && (#[trigger] s.emitted[i]).vertex == u;
            assert(adjacent(g, s.emitted[i].vertex, v));
            if !discovered(s.parents, v) {
                assert(mentions(s.stack, v));
                lemma_stale_discovered(s.parents, s.stack, v);
            }
        }
        assert forall|v: usize| mentions(s.emitted, v) <==> reachable(g, self.root(), v) by {
            if mentions(s.emitted, v) {
                let i = choose|i: int| 0 <= i < s.emitted.len() && (#[trigger] s.emitted[i]).vertex == v;
                lemma_node_discovered(g, s.parents, s.emitted, s.emitted.len() as int, i);
            }
            if reachable(g, self.root(), v) {
                lemma_reach_stays(g, inside, self.root(), v);
            }
        }
    }
}

/// Looks add up.
pub proof fn lemma_post_run_add<G: ViewCombinator>(g: &G, s: DFSState, a: nat, b: nat)
    ensures
        s.post_run(g, a).post_run(g, b) == s.post_run(g, a + b),
    decreases b,
{
    if b > 0 {
        lemma_post_run_add(g, s, a, (b - 1) as nat);
    }
}

/// A finished post-order traversal stays where it is.
pub proof fn lemma_post_run_settles<G: ViewCombinator>(g: &G, s: DFSState, short: nat, long: nat)
    requires
        short <= long,
        s.post_run(g, short).post_done(),
    ensures
        s.post_run(g, long) == s.post_run(g, short),
    decreases long,
{
    if short < long {
        lemma_post_run_settles(g, s, short, (long - 1) as nat);
    }
}

/// A restarted post-order traversal and a new one emit the same nodes:
/// both begin in the state `start`, and two complete runs from one state
/// end in one state, with the same nodes emitted in the same order.
pub proof fn lemma_post_restart_is_fresh<G: ViewCombinator>(
    g: &G,
    restarted: DFSState,
    fresh: DFSState,
    n: nat,
    root: usize,
    a: nat,
    b: nat,
)
    requires
        restarted == DFSState::start(n, root, true),
        fresh == DFSState::start(n, root, true),
        restarted.post_run(g, a).post_done(),
        fresh.post_run(g, b).post_done(),
    ensures
        restarted.post_run(g, a) == fresh.post_run(g, b),
        restarted.post_run(g, a).emitted == fresh.post_run(g, b).emitted,
{
    if a <= b {
        lemma_post_run_settles(g, restarted, a, b);
    } else {
        lemma_post_run_settles(g, restarted, b, a);
    }
}

impl<'a, G: ExactCombinator> DFSTraversal<'a, G, true> {
    /// The invariant of the traversal.
    pub open spec fn wf(&self) -> bool {
        &&& self.state().post_forest(self.graph())
        &&& self.state().post_rooted(self.root())
    }

    /// The depth of a discovered vertex: the number of tree edges between
    /// it and the root.
    pub open spec fn depth_of(&self, vertex: usize) -> nat {
        depth_in(self.state().visited, vertex)
    }

    /// The state `start` is a state of a post-order traversal rooted at `root`.
    pub proof fn lemma_start(g: &G, root: usize)
        requires
            traversable(g),
            g.label_count() <= usize::MAX,
            g.vertices().contains(root),
        ensures
            DFSState::start(g.label_count(), root, true).post_forest(g),
            DFSState::start(g.label_count(), root, true).post_rooted(root),
    {
        let s = DFSState::start(g.label_count(), root, true);
        assert(s.stack[0] == root_node(root));
        assert(awaits(g, s.visited, s.stack[0]));
        assert(mentions(s.stack, root));
        assert forall|k: int| 0 <= k < s.stack.len() implies #[trigger] anchored(g, s, k) by {}
        assert forall|k: int| 0 <= k < s.stack.len() implies #[trigger] supported(s, k) by {}
        assert forall|k: int| 0 <= k < s.stack.len() implies #[trigger] waits_alone(g, s, k) by {}
    }

    /// A traversal over buffers that are set up to visit `root`.
    pub(crate) fn over(
        graph: &'a G,
        parents: Vec<usize>,
        stack: Vec<TraversalNode>,
        output: Vec<bool>,
        root: usize,
    ) -> (out: Self)
        requires
            traversable(graph),
            graph.vertices().contains(root),
            parents@ == blank(graph.label_count()),
            stack@ == seq![root_node(root)],
            output@ == Seq::new(graph.label_count(), |i: int| false),
        ensures
            out.wf(),
            out.graph() == graph,
            out.root() == root,
            out.state() == DFSState::start(graph.label_count(), root, true),
    {
        proof {
            assert(parents@.len() == parents.len());
            Self::lemma_start(graph, root);
        }
        Self {
            graph,
            parents,
            stack,
            output,
            emitted: Ghost(Seq::empty()),
            visited: Ghost(Seq::empty()),
            root: Ghost(root),
        }
    }

    /// A traversal that is about to visit `root`.
    pub fn new(graph: &'a G, root: usize) -> (out: Self)
        requires
            traversable(graph),
            graph.vertices().contains(root),
        ensures
            out.wf(),
            out.graph() == graph,
            out.root() == root,
            out.state() == DFSState::start(graph.label_count(), root, true),
    {
        let n = graph.num_v_labels();
        let mut parents: Vec<usize> = Vec::new();
        refill(&mut parents, n, usize::MAX);
        let mut output: Vec<bool> = Vec::new();
        refill_flags(&mut output, n);
        let mut stack: Vec<TraversalNode> = Vec::new();
        stack.push(TraversalNode { vertex: root, depth: 0, parent: root });
        proof {
            assert(stack@ =~= seq![root_node(root)]);
        }
        Self::over(graph, parents, stack, output, root)
    }

    /// A traversal that is about to visit `root`.
    pub fn from_root(graph: &'a G, root: usize) -> (out: Self)
        requires
            traversable(graph),
            graph.vertices().contains(root),
        ensures
            out.wf(),
            out.graph() == graph,
            out.root() == root,
            out.state() == DFSState::start(graph.label_count(), root, true),
    {
        Self::new(graph, root)
    }

    /// A post-order traversal of every component of `graph`.
    pub fn full_traversal(graph: &'a G) -> (out: DFSFullTraversal<'a, G, true>)
        requires
            traversable(graph),
        ensures
            out.wf(),
            out.graph() == graph,
            out.state() == DFSFullState::start(graph.label_count(), graph.vertices(), true),
    {
        DFSFullTraversal::<G, true>::new(graph)
    }

    /// Puts the traversal into the state of a new traversal of the same
    /// view from `root`, keeping its buffers.
    pub fn restart_at(&mut self, root: usize)
        requires
            old(self).wf(),
            old(self).graph().vertices().contains(root),
        ensures
            final(self).wf(),
            final(self).graph() == old(self).graph(),
            final(self).root() == root,
            final(self).state() == DFSState::start(old(self).graph().label_count(), root, true),
    {
        let n = self.parents.len();
        refill(&mut self.parents, n, usize::MAX);
        refill_flags(&mut self.output, n);
        self.stack.clear();
        self.stack.push(TraversalNode { vertex: root, depth: 0, parent: root });
        proof {
            self.emitted@ = Seq::empty();
            self.visited@ = Seq::empty();
            self.root@ = root;
            Self::lemma_start(self.graph, root);
            assert(self.stack@ =~= seq![root_node(root)]);
        }
    }

    /// Emits the next vertex in depth-first post-order, or `None` once
    /// every vertex that the root reaches has been emitted.
    pub fn next(&mut self) -> (out: Option<TraversalNode>)
        requires
            old(self).wf(),
        ensures
            final(self).wf(),
            final(self).graph() == old(self).graph(),
            final(self).root() == old(self).root(),
            exists|looks: nat|
                post_next(old(self).graph(), old(self).state(), looks, final(self).state(), out),
            out matches Some(node) ==> final(self).state().emitted == old(self).state().emitted.push(
                node,
            ),
            out is None ==> final(self).state().emitted == old(self).state().emitted
                && final(self).state().post_done(),
    {
        let ghost before = self.state();
        let (out, Ghost(after)) = post_advance(
            self.graph,
            &mut self.parents,
            &mut self.stack,
            &mut self.output,
            Ghost(before),
        );
        proof {
            self.emitted@ = after.emitted;
            self.visited@ = after.visited;
        }
        out
    }

    /// Runs the traversal to its end and returns what it emitted on the way.
    pub fn collect(&mut self) -> (out: Vec<TraversalNode>)
        requires
            old(self).wf(),
        ensures
            final(self).wf(),
            final(self).graph() == old(self).graph(),
            final(self).root() == old(self).root(),
            final(self).state().post_done(),
            exists|looks: nat|
                final(self).state() == old(self).state().post_run(old(self).graph(), looks),
            final(self).state().emitted == old(self).state().emitted + out@,
    {
        let mut out: Vec<TraversalNode> = Vec::new();
        let ghost mut total: nat = 0;
        loop
            invariant
                self.wf(),
                self.graph() == old(self).graph(),
                self.root() == old(self).root(),
                self.state() == old(self).state().post_run(old(self).graph(), total),
                self.state().emitted == old(self).state().emitted + out@,
            ensures
                self.state().post_done(),
            decreases self.graph().label_count() - self.state().emitted.len(),
        {
            let ghost before = self.state();
            let more = self.next();
            proof {
                let looks = choose|looks: nat|
                    post_next(self.graph(), before, looks, self.state(), more);
                lemma_post_run_add(self.graph(), old(self).state(), total, looks + 1);
                total = total + looks + 1;
                self.lemma_discovered_bounded();
            }
            match more {
                Some(node) => {
                    out.push(node);
                    proof {
                        assert(self.state().emitted =~= old(self).state().emitted + out@);
                    }
                },
                None => {
                    break ;
                },
            }
        }
        out
    }

    /// Runs the traversal to its end.
    pub fn exhaust(&mut self)
        requires
            old(self).wf(),
        ensures
            final(self).wf(),
            final(self).graph() == old(self).graph(),
            final(self).root() == old(self).root(),
            final(self).state().post_done(),
            exists|looks: nat|
                final(self).state() == old(self).state().post_run(old(self).graph(), looks),
    {
        let _ = self.collect();
    }

    /// The path from the root down to `vertex` along the edges by which
    /// the traversal discovered it, or `None` while `vertex` is
    /// undiscovered. The path has `depth_of(vertex) + 1` labels, and each
    /// is adjacent to the next.
    pub fn extract_path(&self, vertex: usize) -> (out: Option<Vec<usize>>)
        requires
            self.wf(),
            vertex < self.graph().label_count(),
        ensures
            out is None <==> !discovered(self.state().parents, vertex),
            out matches Some(path) ==> {
                &&& tree_path(self.state().parents, path@, vertex)
                &&& path@[0] == self.root()
                &&& is_walk(self.graph(), path@)
                &&& path@.len() == self.depth_of(vertex) + 1
            },
    {
        if self.parents[vertex] == usize::MAX {
            None
        } else {
            proof {
                assert(discovered(self.state().parents, vertex));
            }
            let path = climb(
                self.graph,
                &self.parents,
                Ghost(self.visited@),
                Ghost(self.visited@.len() as int),
                vertex,
            );
            proof {
                let all = self.state().visited;
                let i = choose|i: int| 0 <= i < all.len() && (#[trigger] all[i]).vertex == path@[0];
                lemma_depth_in(all, i);
            }
            Some(path)
        }
    }

    /// No more vertices are emitted than the view has labels.
    pub proof fn lemma_discovered_bounded(&self)
        requires
            self.wf(),
        ensures
            self.state().emitted.len() <= self.graph().label_count(),
    {
        let s = self.state();
        assert forall|i: int| 0 <= i < s.emitted.len() implies (#[trigger] s.emitted[i]).vertex
            < self.graph().label_count() by {
            lemma_emitted_discovered(self.graph(), s, i);
        }
        lemma_distinct_bounded(s.emitted, self.graph().label_count());
    }

    /// Every vertex is emitted at most once, and only a vertex that the
    /// root reaches is ever discovered.
    pub proof fn lemma_discovered_reachable(&self)
        requires
            self.wf(),
        ensures
            distinct_vertices(self.state().emitted),
            forall|v: usize|
                discovered(self.state().parents, v) ==> reachable(self.graph(), self.root(), v),
    {
        let s = self.state();
        assert forall|v: usize| discovered(s.parents, v) implies reachable(
            self.graph(),
            self.root(),
            v,
        ) by {
            let i = choose|i: int| 0 <= i < s.visited.len() && (#[trigger] s.visited[i]).vertex == v;
            let r = lemma_tree_reach(self.graph(), s.visited, s.visited.len() as int, i);
            assert(s.visited[r].depth == 0);
        }
    }

    /// Every emitted vertex comes before the vertex it was discovered from.
    pub proof fn lemma_children_first(&self)
        requires
            self.wf(),
        ensures
            children_first(self.state().emitted),
    {
    }

    /// Once the traversal is done, the emitted vertices are exactly the
    /// vertices that the root reaches.
    pub proof fn lemma_done_emitted_all(&self)
        requires
            self.wf(),
            self.state().post_done(),
        ensures
            forall|v: usize|
                mentions(self.state().emitted, v) <==> reachable(self.graph(), self.root(), v),
    {
        let s = self.state();
        let g = self.graph();
        self.lemma_discovered_reachable();
        let inside = |v: usize| discovered(s.parents, v);
        assert(inside(self.root())) by {
            if mentions(s.stack, self.root()) {
                let j = choose|j: int|
                    0 <= j < s.stack.len() && (#[trigger] s.stack[j]).vertex == self.root();
            }
        }
        assert forall|v: usize| discovered(s.parents, v) implies mentions(s.emitted, v) by {
            if !is_output(s.output, v) {
                assert(mentions(s.stack, v));
                let j = choose|j: int| 0 <= j < s.stack.len() && (#[trigger] s.stack[j]).vertex == v;
            }
        }
        assert forall|u: usize, v: usize| inside(u) && #[trigger] adjacent(g, u, v) implies inside(
            v,
        ) by {
            assert(mentions(s.emitted, u));
            let i = choose|i: int| 0 <= i < s.emitted.len() && (#[trigger] s.emitted[i]).vertex == u;
            assert(adjacent(g, s.emitted[i].vertex, v));
        }
        assert forall|v: usize| mentions(s.emitted, v) <==> reachable(g, self.root(), v) by {
            if mentions(s.emitted, v) {
                let i = choose|i: int| 0 <= i < s.emitted.len() && (#[trigger] s.emitted[i]).vertex == v;
                lemma_emitted_discovered(g, s, i);
            }
            if reachable(g, self.root(), v) {
                lemma_reach_stays(g, inside, self.root(), v);
            }
        }
    }
}

/// A finished pre-order traversal stays where it is, so the state in
/// which a run ends does not depend on how long it is run.
pub proof fn lemma_pre_run_settles<G: ViewCombinator>(g: &G, s: DFSState, short: nat, long: nat)
    requires
        1 <= short <= long,
        s.pre_run(g, (short - 1) as nat).pre_done(),
    ensures
        s.pre_run(g, long) == s.pre_run(g, short),
    decreases long,
{
    if short < long {
        lemma_pre_run_settles(g, s, short, (long - 1) as nat);
        let t = s.pre_run(g, short);
        let before = s.pre_run(g, (short - 1) as nat);
        assert(t.stack.len() == 0);
        assert(t.pre_step(g) == t);
    }
}

/// A restarted pre-order traversal and a new one emit the same nodes:
/// both begin in the state `start`, and two complete runs from one state
/// end in one state, with the same nodes emitted in the same order.
pub proof fn lemma_pre_restart_is_fresh<G: ViewCombinator>(
    g: &G,
    restarted: DFSState,
    fresh: DFSState,
    n: nat,
    root: usize,
    a: nat,
    b: nat,
)
    requires
        restarted == DFSState::start(n, root, false),
        fresh == DFSState::start(n, root, false),
        restarted.pre_run(g, a).pre_done(),
        fresh.pre_run(g, b).pre_done(),
    ensures
        restarted.pre_run(g, a + 1) == fresh.pre_run(g, b + 1),
        restarted.pre_run(g, a + 1).emitted == fresh.pre_run(g, b + 1).emitted,
{
    if a <= b {
        lemma_pre_run_settles(g, restarted, a + 1, b + 1);
    } else {
        lemma_pre_run_settles(g, restarted, b + 1, a + 1);
    }
}

} // verus!
