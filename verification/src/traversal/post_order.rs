//! Depth-first traversal in post-order: the steps and their invariant.
//!
//! The traversal looks at the top of its stack again and again. A node
//! whose vertex is already output is dropped. Any other node is visited:
//! its parent is recorded and a node for each neighbor that is still
//! undiscovered goes on the stack. A visit that puts nothing on the stack
//! takes the node off and emits it.

use crate::combinators::{adjacent, traversable, ExactCombinator, ViewCombinator};
use crate::seqs::{lemma_filter_member, lemma_filter_none, lemma_filter_step, lemma_take_all};
use crate::traversal::breadth_first::targets_of;
use crate::traversal::components::{beyond_reach, lemma_separated_push, separated};
use crate::traversal::depth_first::{awaits, children, pending, DFSState};
use crate::traversal::{
    absorbed, child_node, discovered, distinct_vertices, hangs, lemma_distinct_bounded,
    lemma_node_discovered, lemma_parent_index, mentions, parent_index, recorded, shallow,
    tree_like, within, TraversalNode,
};
use vstd::prelude::*;

verus! {

/// The predicate "is not discovered".
pub open spec fn unseen(parents: Seq<usize>) -> spec_fn(usize) -> bool {
    |w: usize| !discovered(parents, w)
}

/// Whether the vertex `v` is marked as output.
pub open spec fn is_output(output: Seq<bool>, v: usize) -> bool {
    v < output.len() && output[v as int]
}

/// Whether a node of `w` lies above position `k` of the stack.
pub open spec fn above(stack: Seq<TraversalNode>, k: int, w: usize) -> bool {
    exists|j: int| k < j < stack.len() && (#[trigger] stack[j]).vertex == w
}

/// Every neighbor of the vertex at position `k` is discovered or has a
/// node above `k`.
pub open spec fn settled<G: ViewCombinator>(
    g: &G,
    parents: Seq<usize>,
    stack: Seq<TraversalNode>,
    k: int,
) -> bool {
    forall|w: usize|
        adjacent(g, stack[k].vertex, w) ==> #[trigger] discovered(parents, w) || above(stack, k, w)
}

/// The node at position `k` is the one by which its vertex was visited, if
/// the vertex is visited but not output and has no node above `k`; and
/// then its neighbors are settled.
pub open spec fn anchored<G: ViewCombinator>(g: &G, s: DFSState, k: int) -> bool {
    discovered(s.parents, s.stack[k].vertex) && !is_output(s.output, s.stack[k].vertex) && !above(
        s.stack,
        k,
        s.stack[k].vertex,
    ) ==> s.visited.contains(s.stack[k]) && settled(g, s.parents, s.stack, k)
}

/// The node at position `k` rests on its parent: the parent is not output,
/// and its topmost node lies below `k`.
pub open spec fn supported(s: DFSState, k: int) -> bool {
    s.stack[k].depth > 0 ==> !is_output(s.output, s.stack[k].parent) && exists|below: int|
        0 <= below < k && (#[trigger] s.stack[below]).vertex == s.stack[k].parent && !above(
            s.stack,
            below,
            s.stack[k].parent,
        )
}

/// A root that waits to be visited waits alone, and nothing visited
/// reaches it.
pub open spec fn waits_alone<G: ViewCombinator>(g: &G, s: DFSState, k: int) -> bool {
    s.stack[k].depth == 0 && !discovered(s.parents, s.stack[k].vertex) ==> s.stack.len() == 1
        && beyond_reach(g, s.visited, s.stack[k].vertex)
}

/// Every node comes before its parent.
pub open spec fn children_first(emitted: Seq<TraversalNode>) -> bool {
    forall|i: int, j: int|
        0 <= i < emitted.len() && 0 <= j < emitted.len() && (#[trigger] emitted[j]).depth > 0 && (
        #[trigger] emitted[i]).vertex == emitted[j].parent ==> j < i
}

impl DFSState {
    /// The parent array after the node at the top has been visited.
    pub open spec fn post_parents(self) -> Seq<usize> {
        self.parents.update(self.stack.last().vertex as int, self.stack.last().parent)
    }

    /// The neighbors of the top vertex that are undiscovered when it is visited.
    pub open spec fn post_fresh<G: ViewCombinator>(self, g: &G) -> Seq<usize> {
        targets_of(g, self.stack.last().vertex).filter(unseen(self.post_parents()))
    }

    /// What one look at the top of the stack emits.
    pub open spec fn post_emits<G: ViewCombinator>(self, g: &G) -> Option<TraversalNode> {
        if self.stack.len() == 0 || is_output(self.output, self.stack.last().vertex)
            || self.post_fresh(g).len() > 0 {
            None
        } else {
            Some(self.stack.last())
        }
    }

    /// The state after one look at the top of the stack.
    pub open spec fn post_look<G: ViewCombinator>(self, g: &G) -> DFSState {
        if self.stack.len() == 0 {
            self
        } else {
            let top = self.stack.last();
            if is_output(self.output, top.vertex) {
                DFSState { stack: self.stack.drop_last(), ..self }
            } else {
                let visited = if discovered(self.parents, top.vertex) {
                    self.visited
                } else {
                    self.visited.push(top)
                };
                if self.post_fresh(g).len() == 0 {
                    DFSState {
                        parents: self.post_parents(),
                        stack: self.stack.drop_last(),
                        output: self.output.update(top.vertex as int, true),
                        emitted: self.emitted.push(top),
                        visited,
                    }
                } else {
                    DFSState {
                        parents: self.post_parents(),
                        stack: self.stack + children(top, self.post_fresh(g)),
                        visited,
                        ..self
                    }
                }
            }
        }
    }

    /// The state after `looks` looks at the top of the stack.
    pub open spec fn post_run<G: ViewCombinator>(self, g: &G, looks: nat) -> DFSState
        decreases looks,
    {
        if looks == 0 {
            self
        } else {
            self.post_run(g, (looks - 1) as nat).post_look(g)
        }
    }

    /// Whether a post-order traversal has nothing left to emit.
    pub open spec fn post_done(self) -> bool {
        self.stack.len() == 0
    }

    /// The invariant of a post-order traversal: the visited nodes form a
    /// forest over vertices of the view, one node per discovered vertex;
    /// the emitted nodes are visited nodes, one per output mark, and all
    /// their neighbors are discovered; a vertex that is visited but not
    /// output is on the stack, and its topmost node there is the one by
    /// which it was visited; every node on the stack lies above the
    /// topmost node of its parent, which is not output, and every emitted
    /// node comes before its parent; no visited root is reached from a
    /// node visited before it.
    pub open spec fn post_forest<G: ExactCombinator>(self, g: &G) -> bool {
        &&& traversable(g)
        &&& self.parents.len() == g.label_count()
        &&& self.parents.len() <= usize::MAX
        &&& self.output.len() == self.parents.len()
        &&& within(g, self.visited)
        &&& recorded(self.parents, self.visited)
        &&& distinct_vertices(self.visited)
        &&& forall|v: usize| #[trigger] discovered(self.parents, v) ==> mentions(self.visited, v)
        &&& tree_like(g, self.visited, self.visited.len() as int)
        &&& shallow(self.visited)
        &&& pending(g, self.visited, self.stack)
        &&& forall|i: int| 0 <= i < self.emitted.len() ==> self.visited.contains(#[trigger] self.emitted[i])
        &&& distinct_vertices(self.emitted)
        &&& forall|v: usize| #[trigger] is_output(self.output, v) <==> mentions(self.emitted, v)
        &&& absorbed(g, self.parents, self.emitted)
        &&& forall|v: usize|
            #[trigger] discovered(self.parents, v) && !is_output(self.output, v) ==> mentions(
                self.stack,
                v,
            )
        &&& forall|k: int| 0 <= k < self.stack.len() ==> #[trigger] anchored(g, self, k)
        &&& forall|k: int| 0 <= k < self.stack.len() ==> #[trigger] supported(self, k)
        &&& children_first(self.emitted)
        &&& forall|k: int| 0 <= k < self.stack.len() ==> #[trigger] waits_alone(g, self, k)
        &&& separated(g, self.visited)
    }

    /// What holds in addition when the traversal has the single root
    /// `root`: only its node has depth 0, and it is discovered or on the stack.
    pub open spec fn post_rooted(self, root: usize) -> bool {
        &&& forall|i: int|
            0 <= i < self.visited.len() && (#[trigger] self.visited[i]).depth == 0
                ==> self.visited[i].vertex == root
        &&& forall|k: int|
            0 <= k < self.stack.len() && (#[trigger] self.stack[k]).depth == 0 ==> self.stack[k].vertex
                == root
        &&& discovered(self.parents, root) || mentions(self.stack, root)
    }
}

/// What a call of `next` does: `looks` looks that emit nothing, then one
/// that emits `out` and leads to `after`, or finds the stack empty.
pub open spec fn post_next<G: ViewCombinator>(
    g: &G,
    before: DFSState,
    looks: nat,
    after: DFSState,
    out: Option<TraversalNode>,
) -> bool {
    &&& forall|j: nat|
        j < looks ==> (#[trigger] before.post_run(g, j)).post_emits(g) is None && before.post_run(
            g,
            j,
        ).stack.len() > 0
    &&& after == before.post_run(g, looks + 1)
    &&& out == before.post_run(g, looks).post_emits(g)
    &&& out is None ==> before.post_run(g, looks).stack.len() == 0
}

/// What is discovered or on the stack in `before` is so in `after`.
pub open spec fn keeps(before: DFSState, after: DFSState) -> bool {
    forall|x: usize|
        #[trigger] discovered(before.parents, x) || mentions(before.stack, x) ==> discovered(
            after.parents,
            x,
        ) || mentions(after.stack, x)
}

/// `keeps` carries over two steps.
pub proof fn lemma_keeps_trans(a: DFSState, b: DFSState, c: DFSState)
    requires
        keeps(a, b),
        keeps(b, c),
    ensures
        keeps(a, c),
{
    assert forall|x: usize|
        #[trigger] discovered(a.parents, x) || mentions(a.stack, x) implies discovered(
        c.parents,
        x,
    ) || mentions(c.stack, x) by {
        assert(discovered(b.parents, x) || mentions(b.stack, x));
    }
}

/// An emitted vertex is discovered.
pub proof fn lemma_emitted_discovered<G: ExactCombinator>(g: &G, s: DFSState, i: int)
    requires
        s.post_forest(g),
        0 <= i < s.emitted.len(),
    ensures
        discovered(s.parents, s.emitted[i].vertex),
{
    assert(s.visited.contains(s.emitted[i]));
    let k = choose|k: int| 0 <= k < s.visited.len() && s.visited[k] == s.emitted[i];
    lemma_node_discovered(g, s.parents, s.visited, s.visited.len() as int, k);
}

/// Dropping a node whose vertex is output keeps the invariant.
#[verifier::rlimit(30)]
#[verifier::spinoff_prover]
pub proof fn lemma_post_drop<G: ExactCombinator>(g: &G, s: DFSState)
    requires
        s.post_forest(g),
        s.stack.len() > 0,
        is_output(s.output, s.stack.last().vertex),
    ensures
        s.post_look(g) == (DFSState { stack: s.stack.drop_last(), ..s }),
        s.post_look(g).post_forest(g),
        s.post_emits(g) is None,
        forall|root: usize| s.post_rooted(root) ==> s.post_look(g).post_rooted(root),
        keeps(s, s.post_look(g)),
{
    let t = s.post_look(g);
    let top = s.stack.len() - 1;
    let v = s.stack[top].vertex;
    assert(mentions(s.emitted, v));
    assert forall|x: usize|
        #[trigger] discovered(s.parents, x) || mentions(s.stack, x) implies discovered(
        t.parents,
        x,
    ) || mentions(t.stack, x) by {
        if !discovered(s.parents, x) {
            let j = choose|j: int| 0 <= j < s.stack.len() && (#[trigger] s.stack[j]).vertex == x;
            if j != top {
                assert(t.stack[j].vertex == x);
            } else {
                let e2 = choose|e2: int|
                    0 <= e2 < s.emitted.len() && (#[trigger] s.emitted[e2]).vertex == v;
                lemma_emitted_discovered(g, s, e2);
            }
        }
    }
    let e = choose|e: int| 0 <= e < s.emitted.len() && (#[trigger] s.emitted[e]).vertex == v;
    lemma_emitted_discovered(g, s, e);
    assert forall|k: int| 0 <= k < t.stack.len() implies g.vertices().contains(
        (#[trigger] t.stack[k]).vertex,
    ) && awaits(g, t.visited, t.stack[k]) by {
        assert(t.stack[k] == s.stack[k]);
    }
    assert forall|x: usize|
        #[trigger] discovered(t.parents, x) && !is_output(t.output, x) implies mentions(
        t.stack,
        x,
    ) by {
        let j = choose|j: int| 0 <= j < s.stack.len() && (#[trigger] s.stack[j]).vertex == x;
        assert(j != top);
        assert(t.stack[j].vertex == x);
    }
    assert forall|k: int| 0 <= k < t.stack.len() implies #[trigger] anchored(g, t, k) by {
        assert(t.stack[k] == s.stack[k]);
        let u = s.stack[k].vertex;
        if discovered(t.parents, u) && !is_output(t.output, u) && !above(t.stack, k, u) {
            assert(!above(s.stack, k, u)) by {
                if above(s.stack, k, u) {
                    let j = choose|j: int| k < j < s.stack.len() && (#[trigger] s.stack[j]).vertex == u;
                    assert(j != top);
                    assert(t.stack[j].vertex == u);
                }
            }
            assert(anchored(g, s, k));
            assert forall|w: usize| adjacent(g, t.stack[k].vertex, w) implies #[trigger] discovered(
                t.parents,
                w,
            ) || above(t.stack, k, w) by {
                if !discovered(s.parents, w) {
                    assert(above(s.stack, k, w));
                    let j = choose|j: int| k < j < s.stack.len() && (#[trigger] s.stack[j]).vertex == w;
                    assert(j != top);
                    assert(t.stack[j].vertex == w);
                }
            }
        }
    }
    assert forall|k: int| 0 <= k < t.stack.len() implies #[trigger] supported(t, k) by {
        assert(t.stack[k] == s.stack[k]);
        assert(supported(s, k));
        if s.stack[k].depth > 0 {
            let below = choose|below: int|
                0 <= below < k && (#[trigger] s.stack[below]).vertex == s.stack[k].parent && !above(
                    s.stack,
                    below,
                    s.stack[k].parent,
                );
            assert(t.stack[below] == s.stack[below]);
            if above(t.stack, below, s.stack[k].parent) {
                let j = choose|j: int|
                    below < j < t.stack.len() && (#[trigger] t.stack[j]).vertex == s.stack[k].parent;
                assert(s.stack[j].vertex == s.stack[k].parent);
            }
        }
    }
    assert forall|k: int| 0 <= k < t.stack.len() implies #[trigger] waits_alone(g, t, k) by {
        assert(t.stack[k] == s.stack[k]);
        assert(waits_alone(g, s, k));
    }
    assert forall|root: usize| s.post_rooted(root) implies t.post_rooted(root) by {
        assert forall|k: int| 0 <= k < t.stack.len() && (#[trigger] t.stack[k]).depth
            == 0 implies t.stack[k].vertex == root by {
            assert(t.stack[k] == s.stack[k]);
        }
        if !discovered(s.parents, root) {
            let j = choose|j: int| 0 <= j < s.stack.len() && (#[trigger] s.stack[j]).vertex == root;
            assert(j != top);
            assert(t.stack[j].vertex == root);
        }
    }
}

/// The state between the visit of the top node and what follows it: the
/// parent of the vertex is recorded and the node is among the visited.
pub open spec fn post_visited(s: DFSState) -> DFSState {
    DFSState {
        parents: s.post_parents(),
        visited: if discovered(s.parents, s.stack.last().vertex) {
            s.visited
        } else {
            s.visited.push(s.stack.last())
        },
        ..s
    }
}

/// What a visit establishes: the forest grows by the node, if it is new.
#[verifier::rlimit(30)]
#[verifier::spinoff_prover]
pub proof fn lemma_post_visit<G: ExactCombinator>(g: &G, s: DFSState)
    requires
        s.post_forest(g),
        s.stack.len() > 0,
        !is_output(s.output, s.stack.last().vertex),
    ensures
        g.neighbors(s.stack.last().vertex) is Some,
        g.queryable(s.stack.last().vertex),
        s.stack.last().vertex < s.parents.len(),
        s.stack.last().depth < usize::MAX,
        forall|i: int|
            0 <= i < targets_of(g, s.stack.last().vertex).len() ==> (#[trigger] targets_of(
                g,
                s.stack.last().vertex,
            )[i]) < s.parents.len(),
        discovered(s.parents, s.stack.last().vertex) ==> s.post_parents() == s.parents
            && s.post_fresh(g).len() == 0,
        ({
            let m = post_visited(s);
            &&& m.visited.contains(s.stack.last())
            &&& discovered(m.parents, s.stack.last().vertex)
            &&& forall|x: usize| discovered(s.parents, x) ==> discovered(m.parents, x)
            &&& forall|x: usize|
                discovered(m.parents, x) ==> discovered(s.parents, x) || x == s.stack.last().vertex
            &&& within(g, m.visited)
            &&& recorded(m.parents, m.visited)
            &&& distinct_vertices(m.visited)
            &&& forall|x: usize| #[trigger] discovered(m.parents, x) ==> mentions(m.visited, x)
            &&& tree_like(g, m.visited, m.visited.len() as int)
            &&& shallow(m.visited)
            &&& pending(g, m.visited, m.stack)
            &&& absorbed(g, m.parents, m.emitted)
            &&& forall|i: int| 0 <= i < m.emitted.len() ==> m.visited.contains(#[trigger] m.emitted[i])
            &&& separated(g, m.visited)
        }),
{
    let top = s.stack.len() - 1;
    let node = s.stack[top];
    let v = node.vertex;
    let m = post_visited(s);
    assert(waits_alone(g, s, top));
    if !discovered(s.parents, v) {
        lemma_separated_push(g, s.visited, node);
    }
    let targets = targets_of(g, v);
    g.lemma_vertices_queryable();
    assert(g.vertices().contains(v) && awaits(g, s.visited, s.stack[top]));
    assert forall|i: int| 0 <= i < targets.len() implies (#[trigger] targets[i]) < s.parents.len() by {
        assert(targets.contains(targets[i]));
        assert(adjacent(g, v, targets[i]));
        assert(g.vertices().contains(targets[i]));
    }
    assert forall|i: int, x: usize|
        0 <= i < m.emitted.len() && adjacent(g, (#[trigger] m.emitted[i]).vertex, x) implies #[trigger] discovered(
        m.parents,
        x,
    ) by {
        assert(discovered(s.parents, x));
    }
    if discovered(s.parents, v) {
        assert(anchored(g, s, top));
        assert(!above(s.stack, top, v));
        assert(s.visited.contains(node));
        let k = choose|k: int| 0 <= k < s.visited.len() && s.visited[k] == node;
        assert(s.parents[s.visited[k].vertex as int] == s.visited[k].parent);
        assert(s.post_parents() =~= s.parents);
        assert forall|i: int| 0 <= i < targets.len() implies !unseen(s.post_parents())(
            #[trigger] targets[i],
        ) by {
            assert(targets.contains(targets[i]));
            assert(adjacent(g, v, targets[i]));
            assert(discovered(s.parents, targets[i]) || above(s.stack, top, targets[i]));
        }
        lemma_filter_none(targets, unseen(s.post_parents()));
        lemma_node_discovered(g, s.parents, s.visited, s.visited.len() as int, k);
        assert forall|i: int| 0 <= i < s.visited.len() implies (#[trigger] s.visited[i]).vertex
            < g.label_count() by {
            assert(g.vertices().contains(s.visited[i].vertex));
        }
        lemma_distinct_bounded(s.visited, g.label_count());
        assert(s.visited[k].depth <= k);
    } else {
        let e = s.visited.len() as int;
        assert(m.visited =~= s.visited.push(node));
        assert(m.visited[e] == node);
        assert(!mentions(s.visited, v)) by {
            if mentions(s.visited, v) {
                let i = choose|i: int| 0 <= i < s.visited.len() && (#[trigger] s.visited[i]).vertex == v;
                lemma_node_discovered(g, s.parents, s.visited, e, i);
            }
        }
        assert(node.parent < s.parents.len()) by {
            if node.depth != 0 {
                let j = choose|j: int|
                    0 <= j < s.visited.len() && (#[trigger] s.visited[j]).vertex == node.parent
                        && node.depth == s.visited[j].depth + 1 && adjacent(g, node.parent, node.vertex);
                assert(s.visited[j].vertex < s.parents.len());
            }
        }
        assert forall|i: int| 0 <= i < m.visited.len() implies g.vertices().contains(
            (#[trigger] m.visited[i]).vertex,
        ) by {
            if i < e {
                assert(m.visited[i] == s.visited[i]);
            }
        }
        assert forall|i: int| 0 <= i < m.visited.len() implies (#[trigger] m.visited[i]).vertex
            < m.parents.len() && m.parents[m.visited[i].vertex as int] == m.visited[i].parent by {
            if i < e {
                assert(m.visited[i] == s.visited[i]);
                assert(s.visited[i].vertex != v);
            }
        }
        assert forall|i: int, j: int| 0 <= i < j < m.visited.len() implies (
        #[trigger] m.visited[i]).vertex != (#[trigger] m.visited[j]).vertex by {
            assert(m.visited[i] == s.visited[i]);
            if j < e {
                assert(m.visited[j] == s.visited[j]);
            }
        }
        assert forall|x: usize| #[trigger] discovered(m.parents, x) implies mentions(m.visited, x) by {
            if x == v {
                assert(m.visited[e].vertex == v);
            } else {
                assert(discovered(s.parents, x));
                let i = choose|i: int| 0 <= i < s.visited.len() && (#[trigger] s.visited[i]).vertex == x;
                assert(m.visited[i].vertex == x);
            }
        }
        assert forall|i: int| 0 <= i < m.visited.len() implies #[trigger] hangs(
            g,
            m.visited,
            m.visited.len() as int,
            i,
        ) by {
            if i < e {
                assert(m.visited[i] == s.visited[i]);
                assert(hangs(g, s.visited, e, i));
                if s.visited[i].depth != 0 {
                    lemma_parent_index(g, s.visited, e, i);
                    let j = parent_index(g, s.visited, e, i);
                    assert(m.visited[j] == s.visited[j]);
                }
            } else if node.depth != 0 {
                let j = choose|j: int|
                    0 <= j < s.visited.len() && (#[trigger] s.visited[j]).vertex == node.parent
                        && node.depth == s.visited[j].depth + 1 && adjacent(g, node.parent, node.vertex);
                assert(m.visited[j] == s.visited[j]);
            }
        }
        assert forall|i: int| 0 <= i < m.visited.len() implies (#[trigger] m.visited[i]).depth <= i by {
            if i < e {
                assert(m.visited[i] == s.visited[i]);
            } else if node.depth != 0 {
                let j = choose|j: int|
                    0 <= j < s.visited.len() && (#[trigger] s.visited[j]).vertex == node.parent
                        && node.depth == s.visited[j].depth + 1 && adjacent(g, node.parent, node.vertex);
                assert(s.visited[j].depth <= j);
            }
        }
        assert forall|i: int| 0 <= i < m.visited.len() implies (#[trigger] m.visited[i]).vertex
            < g.label_count() by {}
        lemma_distinct_bounded(m.visited, g.label_count());
        assert forall|k: int| 0 <= k < m.stack.len() implies g.vertices().contains(
            (#[trigger] m.stack[k]).vertex,
        ) && awaits(g, m.visited, m.stack[k]) by {
            assert(awaits(g, s.visited, s.stack[k]));
            if s.stack[k].depth != 0 {
                let j = choose|j: int|
                    0 <= j < s.visited.len() && (#[trigger] s.visited[j]).vertex == s.stack[k].parent
                        && s.stack[k].depth == s.visited[j].depth + 1 && adjacent(
                        g,
                        s.stack[k].parent,
                        s.stack[k].vertex,
                    );
                assert(m.visited[j] == s.visited[j]);
            }
        }
        assert forall|i: int| 0 <= i < m.emitted.len() implies m.visited.contains(
            #[trigger] m.emitted[i],
        ) by {
            let k = choose|k: int| 0 <= k < s.visited.len() && s.visited[k] == s.emitted[i];
            assert(m.visited[k] == s.emitted[i]);
        }
    }
}

/// A visit that finds nothing new takes the node off and emits it, and
/// that keeps the invariant.
#[verifier::rlimit(30)]
#[verifier::spinoff_prover]
pub proof fn lemma_post_emit<G: ExactCombinator>(g: &G, s: DFSState)
    requires
        s.post_forest(g),
        s.stack.len() > 0,
        !is_output(s.output, s.stack.last().vertex),
        s.post_fresh(g).len() == 0,
    ensures
        s.post_emits(g) == Some(s.stack.last()),
        s.post_look(g).post_forest(g),
        s.post_look(g).emitted == s.emitted.push(s.stack.last()),
        s.post_look(g).visited.len() >= s.visited.len(),
        forall|root: usize| s.post_rooted(root) ==> s.post_look(g).post_rooted(root),
        keeps(s, s.post_look(g)),
{
    lemma_post_visit(g, s);
    assert forall|x: usize|
        #[trigger] discovered(s.parents, x) || mentions(s.stack, x) implies discovered(
        s.post_look(g).parents,
        x,
    ) || mentions(s.post_look(g).stack, x) by {
        if !discovered(s.parents, x) {
            let j = choose|j: int| 0 <= j < s.stack.len() && (#[trigger] s.stack[j]).vertex == x;
            if j != s.stack.len() - 1 {
                assert(s.post_look(g).stack[j].vertex == x);
            }
        }
    }
    let top = s.stack.len() - 1;
    let node = s.stack[top];
    let v = node.vertex;
    let m = post_visited(s);
    let t = s.post_look(g);
    let targets = targets_of(g, v);
    let e = s.emitted.len() as int;
    assert(t.emitted[e] == node);
    assert(!mentions(s.emitted, v));
    assert forall|k: int| 0 <= k < t.stack.len() implies g.vertices().contains(
        (#[trigger] t.stack[k]).vertex,
    ) && awaits(g, t.visited, t.stack[k]) by {
        assert(t.stack[k] == m.stack[k]);
    }
    assert forall|i: int| 0 <= i < t.emitted.len() implies t.visited.contains(
        #[trigger] t.emitted[i],
    ) by {
        if i < e {
            assert(t.emitted[i] == m.emitted[i]);
        }
    }
    assert forall|i: int, j: int| 0 <= i < j < t.emitted.len() implies (#[trigger] t.emitted[i]).vertex
        != (#[trigger] t.emitted[j]).vertex by {
        assert(t.emitted[i] == s.emitted[i]);
        if j < e {
            assert(t.emitted[j] == s.emitted[j]);
        }
    }
    assert forall|x: usize| #[trigger] is_output(t.output, x) <==> mentions(t.emitted, x) by {
        if x == v {
            assert(t.emitted[e].vertex == v);
            assert(v < s.output.len());
        } else {
            assert(is_output(s.output, x) <==> mentions(s.emitted, x));
            assert(is_output(t.output, x) == is_output(s.output, x));
            if mentions(s.emitted, x) {
                let i = choose|i: int| 0 <= i < s.emitted.len() && (#[trigger] s.emitted[i]).vertex == x;
                assert(t.emitted[i].vertex == x);
            }
            if mentions(t.emitted, x) {
                let i = choose|i: int| 0 <= i < t.emitted.len() && (#[trigger] t.emitted[i]).vertex == x;
                assert(i < e);
                assert(s.emitted[i].vertex == x);
            }
        }
    }
    assert forall|i: int, w: usize|
        0 <= i < t.emitted.len() && adjacent(g, (#[trigger] t.emitted[i]).vertex, w) implies #[trigger] discovered(
        t.parents,
        w,
    ) by {
        if i < e {
            assert(t.emitted[i] == m.emitted[i]);
        } else {
            let x = choose|x: int| 0 <= x < targets.len() && targets[x] == w;
            if unseen(s.post_parents())(w) {
                lemma_filter_member(targets, unseen(s.post_parents()), w);
                assert(s.post_fresh(g).contains(w));
            }
        }
    }
    assert forall|x: usize|
        #[trigger] discovered(t.parents, x) && !is_output(t.output, x) implies mentions(
        t.stack,
        x,
    ) by {
        assert(x != v);
        assert(discovered(s.parents, x));
        let j = choose|j: int| 0 <= j < s.stack.len() && (#[trigger] s.stack[j]).vertex == x;
        assert(j != top);
        assert(t.stack[j].vertex == x);
    }
    assert forall|k: int| 0 <= k < t.stack.len() implies #[trigger] anchored(g, t, k) by {
        assert(t.stack[k] == s.stack[k]);
        let u = s.stack[k].vertex;
        if discovered(t.parents, u) && !is_output(t.output, u) && !above(t.stack, k, u) {
            assert(u != v);
            assert(discovered(s.parents, u));
            assert(!above(s.stack, k, u)) by {
                if above(s.stack, k, u) {
                    let j = choose|j: int| k < j < s.stack.len() && (#[trigger] s.stack[j]).vertex == u;
                    assert(j != top);
                    assert(t.stack[j].vertex == u);
                }
            }
            assert(anchored(g, s, k));
            let i = choose|i: int| 0 <= i < s.visited.len() && s.visited[i] == s.stack[k];
            assert(t.visited[i] == s.stack[k]);
            assert forall|w: usize| adjacent(g, t.stack[k].vertex, w) implies #[trigger] discovered(
                t.parents,
                w,
            ) || above(t.stack, k, w) by {
                if !discovered(s.parents, w) {
                    assert(above(s.stack, k, w));
                    let j = choose|j: int| k < j < s.stack.len() && (#[trigger] s.stack[j]).vertex == w;
                    if j != top {
                        assert(t.stack[j].vertex == w);
                    }
                }
            }
        }
    }
    assert forall|k: int| 0 <= k < t.stack.len() implies #[trigger] waits_alone(g, t, k) by {
        assert(t.stack[k] == s.stack[k]);
        assert(waits_alone(g, s, k));
        assert(discovered(s.parents, s.stack[k].vertex) ==> discovered(
            t.parents,
            t.stack[k].vertex,
        ));
    }
    assert(supported(s, top));
    assert forall|k: int| 0 <= k < t.stack.len() implies #[trigger] supported(t, k) by {
        assert(t.stack[k] == s.stack[k]);
        assert(supported(s, k));
        if s.stack[k].depth > 0 {
            let below = choose|below: int|
                0 <= below < k && (#[trigger] s.stack[below]).vertex == s.stack[k].parent && !above(
                    s.stack,
                    below,
                    s.stack[k].parent,
                );
            assert(t.stack[below] == s.stack[below]);
            if s.stack[k].parent == v {
                assert(s.stack[top].vertex == v);
                assert(above(s.stack, below, v));
            }
            if above(t.stack, below, s.stack[k].parent) {
                let j = choose|j: int|
                    below < j < t.stack.len() && (#[trigger] t.stack[j]).vertex == s.stack[k].parent;
                assert(s.stack[j].vertex == s.stack[k].parent);
            }
        }
    }
    assert forall|i: int, j: int|
        0 <= i < t.emitted.len() && 0 <= j < t.emitted.len() && (#[trigger] t.emitted[j]).depth > 0 && (
        #[trigger] t.emitted[i]).vertex == t.emitted[j].parent implies j < i by {
        if i < e && j < e {
            assert(t.emitted[i] == s.emitted[i]);
            assert(t.emitted[j] == s.emitted[j]);
        } else if j == e && i < e {
            assert(t.emitted[i] == s.emitted[i]);
            assert(!is_output(s.output, node.parent));
            assert(mentions(s.emitted, node.parent));
        } else if j == e && i == e {
            assert(node.depth != 0);
            assert(awaits(g, s.visited, s.stack[top]));
            let p = choose|p: int|
                0 <= p < s.visited.len() && (#[trigger] s.visited[p]).vertex == node.parent
                    && node.depth == s.visited[p].depth + 1 && adjacent(g, node.parent, node.vertex);
            assert(m.visited.contains(node));
            let q = choose|q: int| 0 <= q < m.visited.len() && m.visited[q] == node;
            if discovered(s.parents, v) {
                if p < q {
                    assert(s.visited[p].vertex != s.visited[q].vertex);
                } else if q < p {
                    assert(s.visited[q].vertex != s.visited[p].vertex);
                } else {
                    assert(s.visited[p].depth == node.depth);
                }
            } else {
                lemma_node_discovered(g, s.parents, s.visited, s.visited.len() as int, p);
            }
        }
    }
    assert forall|root: usize| s.post_rooted(root) implies t.post_rooted(root) by {
        assert forall|i: int| 0 <= i < t.visited.len() && (#[trigger] t.visited[i]).depth
            == 0 implies t.visited[i].vertex == root by {
            if i < s.visited.len() {
                assert(t.visited[i] == s.visited[i]);
            } else {
                assert(s.stack[top].depth == 0);
            }
        }
        assert forall|k: int| 0 <= k < t.stack.len() && (#[trigger] t.stack[k]).depth
            == 0 implies t.stack[k].vertex == root by {
            assert(t.stack[k] == s.stack[k]);
        }
        if !discovered(t.parents, root) {
            let j = choose|j: int| 0 <= j < s.stack.len() && (#[trigger] s.stack[j]).vertex == root;
            assert(j != top);
            assert(t.stack[j].vertex == root);
        }
    }
}

/// After a visit that finds undiscovered neighbors, the topmost node of
/// every vertex that is visited but not output is still the one by which
/// it was visited, and its neighbors are settled.
#[verifier::rlimit(30)]
#[verifier::spinoff_prover]
pub proof fn lemma_descend_anchored<G: ExactCombinator>(g: &G, s: DFSState)
    requires
        s.post_forest(g),
        s.stack.len() > 0,
        !is_output(s.output, s.stack.last().vertex),
        s.post_fresh(g).len() > 0,
    ensures
        forall|k: int| 0 <= k < s.post_look(g).stack.len() ==> #[trigger] anchored(g, s.post_look(g), k),
{
    lemma_post_visit(g, s);
    let top = s.stack.len() - 1;
    let node = s.stack[top];
    let v = node.vertex;
    let m = post_visited(s);
    let t = s.post_look(g);
    let targets = targets_of(g, v);
    let fresh = s.post_fresh(g);
    let kids = children(node, fresh);
    assert(!discovered(s.parents, v));
    assert(t.stack == s.stack + kids);
    assert forall|i: int| 0 <= i < fresh.len() implies targets.contains(#[trigger] fresh[i])
        && !discovered(m.parents, fresh[i]) by {
        assert(fresh.contains(fresh[i]));
        lemma_filter_member(targets, unseen(s.post_parents()), fresh[i]);
    }
    assert forall|k: int| 0 <= k < t.stack.len() implies #[trigger] anchored(g, t, k) by {
        let u = t.stack[k].vertex;
        if discovered(t.parents, u) && !is_output(t.output, u) && !above(t.stack, k, u) {
            if k > top {
                assert(t.stack[k] == child_node(node, fresh[k - top - 1]));
                assert(false);
            } else if k == top {
                assert(t.stack[k] == node);
                assert forall|w: usize| adjacent(g, t.stack[k].vertex, w) implies #[trigger] discovered(
                    t.parents,
                    w,
                ) || above(t.stack, k, w) by {
                    if !discovered(t.parents, w) {
                        lemma_filter_member(targets, unseen(s.post_parents()), w);
                        let x = choose|x: int| 0 <= x < fresh.len() && fresh[x] == w;
                        assert(t.stack[top + 1 + x] == child_node(node, w));
                        assert(t.stack[top + 1 + x].vertex == w);
                    }
                }
            } else {
                assert(t.stack[k] == s.stack[k]);
                if u == v {
                    assert(t.stack[top].vertex == v);
                    assert(above(t.stack, k, u));
                }
                assert(discovered(s.parents, u));
                assert(!above(s.stack, k, u)) by {
                    if above(s.stack, k, u) {
                        let j = choose|j: int|
                            k < j < s.stack.len() && (#[trigger] s.stack[j]).vertex == u;
                        assert(t.stack[j].vertex == u);
                    }
                }
                assert(anchored(g, s, k));
                let i = choose|i: int| 0 <= i < s.visited.len() && s.visited[i] == s.stack[k];
                assert(t.visited[i] == s.stack[k]);
                assert forall|w: usize| adjacent(g, t.stack[k].vertex, w) implies #[trigger] discovered(
                    t.parents,
                    w,
                ) || above(t.stack, k, w) by {
                    if !discovered(s.parents, w) {
                        assert(above(s.stack, k, w));
                        let j = choose|j: int|
                            k < j < s.stack.len() && (#[trigger] s.stack[j]).vertex == w;
                        assert(t.stack[j].vertex == w);
                    }
                }
            }
        }
    }
}

/// After a visit that finds undiscovered neighbors, every node on the
/// stack still rests on its parent.
#[verifier::rlimit(30)]
#[verifier::spinoff_prover]
pub proof fn lemma_descend_supported<G: ExactCombinator>(g: &G, s: DFSState)
    requires
        s.post_forest(g),
        s.stack.len() > 0,
        !is_output(s.output, s.stack.last().vertex),
        s.post_fresh(g).len() > 0,
    ensures
        forall|k: int| 0 <= k < s.post_look(g).stack.len() ==> #[trigger] supported(s.post_look(g), k),
{
    lemma_post_visit(g, s);
    let top = s.stack.len() - 1;
    let node = s.stack[top];
    let v = node.vertex;
    let m = post_visited(s);
    let t = s.post_look(g);
    let targets = targets_of(g, v);
    let fresh = s.post_fresh(g);
    let kids = children(node, fresh);
    assert(!discovered(s.parents, v));
    assert(t.stack == s.stack + kids);
    assert forall|i: int| 0 <= i < fresh.len() implies targets.contains(#[trigger] fresh[i])
        && !discovered(m.parents, fresh[i]) by {
        assert(fresh.contains(fresh[i]));
        lemma_filter_member(targets, unseen(s.post_parents()), fresh[i]);
    }
    assert forall|k: int| 0 <= k < t.stack.len() implies #[trigger] supported(t, k) by {
        if k <= top {
            assert(t.stack[k] == s.stack[k]);
            assert(supported(s, k));
            if s.stack[k].depth > 0 {
                let below = choose|below: int|
                    0 <= below < k && (#[trigger] s.stack[below]).vertex == s.stack[k].parent
                        && !above(s.stack, below, s.stack[k].parent);
                assert(t.stack[below] == s.stack[below]);
                assert(awaits(g, s.visited, s.stack[k]));
                let p = choose|p: int|
                    0 <= p < s.visited.len() && (#[trigger] s.visited[p]).vertex == s.stack[k].parent
                        && s.stack[k].depth == s.visited[p].depth + 1 && adjacent(
                        g,
                        s.stack[k].parent,
                        s.stack[k].vertex,
                    );
                lemma_node_discovered(g, s.parents, s.visited, s.visited.len() as int, p);
                if above(t.stack, below, s.stack[k].parent) {
                    let j = choose|j: int|
                        below < j < t.stack.len() && (#[trigger] t.stack[j]).vertex
                            == s.stack[k].parent;
                    if j <= top {
                        assert(s.stack[j].vertex == s.stack[k].parent);
                    } else {
                        assert(t.stack[j] == child_node(node, fresh[j - top - 1]));
                    }
                }
            }
        } else {
            assert(t.stack[k] == child_node(node, fresh[k - top - 1]));
            assert(t.stack[top] == node);
            if above(t.stack, top, v) {
                let j = choose|j: int| top < j < t.stack.len() && (#[trigger] t.stack[j]).vertex == v;
                assert(t.stack[j] == child_node(node, fresh[j - top - 1]));
            }
        }
    }
}

/// A visit that finds undiscovered neighbors puts a node for each on the
/// stack, and that keeps the invariant.
#[verifier::rlimit(30)]
#[verifier::spinoff_prover]
pub proof fn lemma_post_descend<G: ExactCombinator>(g: &G, s: DFSState)
    requires
        s.post_forest(g),
        s.stack.len() > 0,
        !is_output(s.output, s.stack.last().vertex),
        s.post_fresh(g).len() > 0,
    ensures
        s.post_emits(g) is None,
        s.post_look(g).post_forest(g),
        s.post_look(g).emitted == s.emitted,
        s.post_look(g).visited.len() == s.visited.len() + 1,
        s.post_look(g).visited.len() <= g.label_count(),
        forall|root: usize| s.post_rooted(root) ==> s.post_look(g).post_rooted(root),
        keeps(s, s.post_look(g)),
{
    lemma_post_visit(g, s);
    assert forall|x: usize|
        #[trigger] discovered(s.parents, x) || mentions(s.stack, x) implies discovered(
        s.post_look(g).parents,
        x,
    ) || mentions(s.post_look(g).stack, x) by {
        if !discovered(s.parents, x) {
            let j = choose|j: int| 0 <= j < s.stack.len() && (#[trigger] s.stack[j]).vertex == x;
            assert(s.post_look(g).stack[j].vertex == x);
        }
    }
    let top = s.stack.len() - 1;
    let node = s.stack[top];
    let v = node.vertex;
    let m = post_visited(s);
    let t = s.post_look(g);
    let targets = targets_of(g, v);
    let fresh = s.post_fresh(g);
    let kids = children(node, fresh);
    assert(!discovered(s.parents, v));
    assert(t.stack == s.stack + kids);
    assert forall|i: int| 0 <= i < t.visited.len() implies (#[trigger] t.visited[i]).vertex
        < g.label_count() by {
        assert(g.vertices().contains(t.visited[i].vertex));
    }
    lemma_distinct_bounded(t.visited, g.label_count());
    assert forall|i: int| 0 <= i < fresh.len() implies targets.contains(#[trigger] fresh[i])
        && !discovered(m.parents, fresh[i]) by {
        assert(fresh.contains(fresh[i]));
        lemma_filter_member(targets, unseen(s.post_parents()), fresh[i]);
    }
    assert forall|k: int| 0 <= k < t.stack.len() implies g.vertices().contains(
        (#[trigger] t.stack[k]).vertex,
    ) && awaits(g, t.visited, t.stack[k]) by {
        if k <= top {
            assert(t.stack[k] == m.stack[k]);
        } else {
            let w = fresh[k - top - 1];
            assert(t.stack[k] == child_node(node, w));
            assert(adjacent(g, v, w));
            assert(t.visited[s.visited.len() as int] == node);
        }
    }
    assert forall|x: usize|
        #[trigger] discovered(t.parents, x) && !is_output(t.output, x) implies mentions(
        t.stack,
        x,
    ) by {
        if x == v {
            assert(t.stack[top].vertex == v);
        } else {
            assert(discovered(s.parents, x));
            let j = choose|j: int| 0 <= j < s.stack.len() && (#[trigger] s.stack[j]).vertex == x;
            assert(t.stack[j].vertex == x);
        }
    }
    lemma_descend_anchored(g, s);
    assert forall|k: int| 0 <= k < t.stack.len() implies #[trigger] waits_alone(g, t, k) by {
        if k < top {
            assert(t.stack[k] == s.stack[k]);
            assert(waits_alone(g, s, k));
            assert(discovered(s.parents, s.stack[k].vertex) ==> discovered(
                t.parents,
                t.stack[k].vertex,
            ));
        } else if k == top {
            assert(t.stack[k] == node);
        } else {
            assert(t.stack[k] == child_node(node, fresh[k - top - 1]));
        }
    }
    lemma_descend_supported(g, s);
    assert forall|root: usize| s.post_rooted(root) implies t.post_rooted(root) by {
        assert forall|i: int| 0 <= i < t.visited.len() && (#[trigger] t.visited[i]).depth
            == 0 implies t.visited[i].vertex == root by {
            if i < s.visited.len() {
                assert(t.visited[i] == s.visited[i]);
            } else {
                assert(s.stack[top].depth == 0);
            }
        }
        assert forall|k: int| 0 <= k < t.stack.len() && (#[trigger] t.stack[k]).depth
            == 0 implies t.stack[k].vertex == root by {
            if k <= top {
                assert(t.stack[k] == s.stack[k]);
            } else {
                assert(t.stack[k] == child_node(node, fresh[k - top - 1]));
            }
        }
        if !discovered(t.parents, root) {
            let j = choose|j: int| 0 <= j < s.stack.len() && (#[trigger] s.stack[j]).vertex == root;
            assert(t.stack[j].vertex == root);
        }
    }
}

/// Puts a node on the stack for each of `targets` that is undiscovered,
/// and returns how many that were.
pub(crate) fn push_fresh(
    stack: &mut Vec<TraversalNode>,
    parents: &Vec<usize>,
    from: TraversalNode,
    targets: &Vec<usize>,
) -> (count: usize)
    requires
        from.depth < usize::MAX,
        forall|i: int| 0 <= i < targets@.len() ==> (#[trigger] targets@[i]) < parents@.len(),
    ensures
        final(stack)@ == old(stack)@ + children(from, targets@.filter(unseen(parents@))),
        count == targets@.filter(unseen(parents@)).len(),
{
    let mut count: usize = 0;
    let mut i: usize = 0;
    proof {
        assert(targets@.take(0).filter(unseen(parents@)).len() == 0) by {
            broadcast use vstd::seq_lib::group_filter_ensures;

        }
        assert(stack@ =~= old(stack)@ + children(from, targets@.take(0).filter(unseen(parents@))));
    }
    while i < targets.len()
        invariant
            i <= targets.len(),
            from.depth < usize::MAX,
            forall|k: int| 0 <= k < targets@.len() ==> (#[trigger] targets@[k]) < parents@.len(),
            stack@ == old(stack)@ + children(
                from,
                targets@.take(i as int).filter(unseen(parents@)),
            ),
            count == targets@.take(i as int).filter(unseen(parents@)).len(),
            count <= i,
        decreases targets.len() - i,
    {
        let w = targets[i];
        proof {
            lemma_filter_step(targets@, i as int, unseen(parents@));
        }
        if parents[w] == usize::MAX {
            stack.push(TraversalNode { vertex: w, depth: from.depth + 1, parent: from.vertex });
            count += 1;
            proof {
                assert(stack@ =~= old(stack)@ + children(
                    from,
                    targets@.take(i + 1).filter(unseen(parents@)),
                ));
            }
        }
        i += 1;
    }
    proof {
        lemma_take_all(targets@);
    }
    count
}

/// One emission of a post-order traversal over the given buffers: looks
/// at the top of the stack until a look emits a node or finds the stack
/// empty. Returns the emission and the state it leads to.
pub(crate) fn post_advance<G: ExactCombinator>(
    graph: &G,
    parents: &mut Vec<usize>,
    stack: &mut Vec<TraversalNode>,
    output: &mut Vec<bool>,
    Ghost(before): Ghost<DFSState>,
) -> (out: (Option<TraversalNode>, Ghost<DFSState>))
    requires
        before.parents == old(parents)@,
        before.stack == old(stack)@,
        before.output == old(output)@,
        before.post_forest(graph),
    ensures
        out.1@.parents == final(parents)@,
        out.1@.stack == final(stack)@,
        out.1@.output == final(output)@,
        out.1@.post_forest(graph),
        exists|looks: nat| post_next(graph, before, looks, out.1@, out.0),
        out.0 matches Some(node) ==> out.1@.emitted == before.emitted.push(node),
        out.0 is None ==> out.1@.emitted == before.emitted && out.1@.stack.len() == 0,
        forall|root: usize| before.post_rooted(root) ==> out.1@.post_rooted(root),
        keeps(before, out.1@),
{
    let ghost mut now = before;
    let ghost mut looks: nat = 0;
    proof {
        assert forall|i: int| 0 <= i < before.visited.len() implies (
        #[trigger] before.visited[i]).vertex < graph.label_count() by {
            assert(graph.vertices().contains(before.visited[i].vertex));
        }
        lemma_distinct_bounded(before.visited, graph.label_count());
    }
    loop
        invariant
            now.parents == parents@,
            now.stack == stack@,
            now.output == output@,
            now.post_forest(graph),
            now == before.post_run(graph, looks),
            now.emitted == before.emitted,
            now.visited.len() <= graph.label_count(),
            forall|j: nat|
                j < looks ==> (#[trigger] before.post_run(graph, j)).post_emits(graph) is None
                    && before.post_run(graph, j).stack.len() > 0,
            forall|root: usize| before.post_rooted(root) ==> now.post_rooted(root),
            keeps(before, now),
        decreases graph.label_count() - now.visited.len(), now.stack.len(),
    {
        let len = stack.len();
        if len == 0 {
            let out = (None, Ghost(now));
            proof {
                assert(now.post_emits(graph) is None);
                assert(before.post_run(graph, looks + 1) == now);
                assert(post_next(graph, before, looks, out.1@, out.0));
            }
            return out;
        }
        let current = stack[len - 1];
        proof {
            assert(graph.vertices().contains(now.stack[len - 1].vertex));
        }
        if output[current.vertex] {
            proof {
                lemma_post_drop(graph, now);
                lemma_keeps_trans(before, now, now.post_look(graph));
            }
            stack.pop();
            proof {
                now = now.post_look(graph);
                looks = looks + 1;
            }
            continue ;
        }
        proof {
            lemma_post_visit(graph, now);
        }
        parents[current.vertex] = current.parent;
        let targets = graph.neighbor_iterator(current.vertex).unwrap();
        let count = push_fresh(stack, parents, current, &targets);
        if count == 0 {
            proof {
                lemma_post_emit(graph, now);
                lemma_keeps_trans(before, now, now.post_look(graph));
                assert(stack@ =~= now.stack);
            }
            stack.pop();
            output[current.vertex] = true;
            let ghost after = now.post_look(graph);
            let out = (Some(current), Ghost(after));
            proof {
                assert(now.post_emits(graph) == Some(current));
                assert(before.post_run(graph, looks + 1) == after);
                assert(post_next(graph, before, looks, out.1@, out.0));
            }
            return out;
        }
        proof {
            lemma_post_descend(graph, now);
            lemma_keeps_trans(before, now, now.post_look(graph));
            now = now.post_look(graph);
            looks = looks + 1;
        }
    }
}

} // verus!
