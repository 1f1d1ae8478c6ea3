//! Breadth-first traversal from a root.

use crate::combinators::{adjacent, traversable, ExactCombinator, ViewCombinator};
use crate::reach::{is_walk, lemma_reach_stays, reachable};
use crate::seqs::{lemma_take_all, lemma_take_push};
use crate::traversal::full_breadth_first::{BFSFullState, BFSFullTraversal};
use crate::traversal::recycle::BFSResources;
use crate::traversal::{
    absorbed, ascending, blank, child_node, climb, depth_in, discovered, distinct_vertices, hangs,
    lemma_depth_in, lemma_distinct_bounded, lemma_node_discovered, lemma_parent_index,
    lemma_tree_reach, marked, marked_labels, mentions, parent_index, recorded, refill, root_node,
    shallow, tree_like, tree_path, within, TraversalNode,
};
use std::collections::VecDeque;
use vstd::prelude::*;

verus! {

/// The state of a breadth-first traversal: the parent array, the queue of
/// discovered nodes that wait to be emitted, head first, and the nodes
/// emitted so far.
pub struct BFSState {
    pub parents: Seq<usize>,
    pub queue: Seq<TraversalNode>,
    pub emitted: Seq<TraversalNode>,
}

/// The neighbors of `vertex` as the traversal sees them.
pub open spec fn targets_of<G: ViewCombinator>(g: &G, vertex: usize) -> Seq<usize> {
    match g.neighbors(vertex) {
        Some(targets) => targets,
        None => Seq::empty(),
    }
}

/// Discovery: every target that is still undiscovered when its turn comes
/// gets `head` as its parent and a node at the tail of the queue.
pub open spec fn bfs_absorb(
    parents: Seq<usize>,
    queue: Seq<TraversalNode>,
    head: TraversalNode,
    targets: Seq<usize>,
) -> (Seq<usize>, Seq<TraversalNode>)
    decreases targets.len(),
{
    if targets.len() == 0 {
        (parents, queue)
    } else {
        let (p, q) = bfs_absorb(parents, queue, head, targets.drop_last());
        let w = targets.last();
        if w < p.len() && p[w as int] == usize::MAX {
            (p.update(w as int, head.vertex), q.push(child_node(head, w)))
        } else {
            (p, q)
        }
    }
}

/// The queue is in level order: depths never go down and span at most two
/// levels.
pub open spec fn leveled(queue: Seq<TraversalNode>) -> bool {
    &&& ascending(queue)
    &&& forall|i: int| 0 <= i < queue.len() ==> (#[trigger] queue[i]).depth <= queue[0].depth + 1
}

impl BFSState {
    /// The state of a traversal that is about to emit `root`.
    pub open spec fn start(n: nat, root: usize) -> BFSState {
        BFSState {
            parents: blank(n).update(root as int, root),
            queue: seq![root_node(root)],
            emitted: Seq::empty(),
        }
    }

    /// All discovered nodes in discovery order: the emitted ones, then the queue.
    pub open spec fn all(self) -> Seq<TraversalNode> {
        self.emitted + self.queue
    }

    /// Whether nothing is left to emit.
    pub open spec fn done(self) -> bool {
        self.queue.len() == 0
    }

    /// The state after one emission; a finished traversal stays as it is.
    pub open spec fn step<G: ViewCombinator>(self, g: &G) -> BFSState {
        if self.queue.len() == 0 {
            self
        } else {
            let head = self.queue[0];
            let (parents, queue) = bfs_absorb(
                self.parents,
                self.queue.skip(1),
                head,
                targets_of(g, head.vertex),
            );
            BFSState { parents, queue, emitted: self.emitted.push(head) }
        }
    }

    /// The state after `count` emissions.
    pub open spec fn run<G: ViewCombinator>(self, g: &G, count: nat) -> BFSState
        decreases count,
    {
        if count == 0 {
            self
        } else {
            self.run(g, (count - 1) as nat).step(g)
        }
    }

    /// The invariant of every breadth-first state: the discovered nodes
    /// form a forest over vertices of the view, one node per discovered
    /// vertex; the neighbors of every emitted node are discovered; the
    /// queue is in level order.
    pub open spec fn forest<G: ExactCombinator>(self, g: &G) -> bool {
        &&& traversable(g)
        &&& self.parents.len() == g.label_count()
        &&& self.parents.len() <= usize::MAX
        &&& within(g, self.all())
        &&& recorded(self.parents, self.all())
        &&& distinct_vertices(self.all())
        &&& forall|v: usize| #[trigger] discovered(self.parents, v) ==> mentions(self.all(), v)
        &&& tree_like(g, self.all(), self.emitted.len() as int)
        &&& shallow(self.all())
        &&& absorbed(g, self.parents, self.emitted)
        &&& leveled(self.queue)
    }

    /// What holds in addition when the traversal has the single root
    /// `root`: its node comes first and is the only one of depth 0, and
    /// depths never go down from one emission to the next.
    pub open spec fn rooted(self, root: usize) -> bool {
        &&& self.all().len() > 0
        &&& self.all()[0] == root_node(root)
        &&& forall|i: int| 0 <= i < self.all().len() && (#[trigger] self.all()[i]).depth == 0 ==> i == 0
        &&& ascending(self.all())
    }

    /// No discovered neighbor of an emitted node lies more than one level
    /// below it.
    pub open spec fn relaxed<G: ViewCombinator>(self, g: &G) -> bool {
        forall|i: int, j: int|
            0 <= i < self.emitted.len() && 0 <= j < self.all().len() && adjacent(
                g,
                (#[trigger] self.all()[i]).vertex,
                (#[trigger] self.all()[j]).vertex,
            ) ==> self.all()[j].depth <= self.all()[i].depth + 1
    }
}

/// The state in the middle of an emission: `head` has left the queue and
/// joined `emitted`, and the targets in `done` have had their turn. `base`
/// is what was discovered before the emission began.
pub open spec fn expanding<G: ExactCombinator>(
    g: &G,
    s: BFSState,
    head: TraversalNode,
    done: Seq<usize>,
    base: Seq<TraversalNode>,
) -> bool {
    &&& traversable(g)
    &&& s.parents.len() == g.label_count()
    &&& s.parents.len() <= usize::MAX
    &&& s.emitted.len() > 0
    &&& s.emitted.last() == head
    &&& head.depth < usize::MAX
    &&& within(g, s.all())
    &&& recorded(s.parents, s.all())
    &&& distinct_vertices(s.all())
    &&& forall|v: usize| #[trigger] discovered(s.parents, v) ==> mentions(s.all(), v)
    &&& tree_like(g, s.all(), s.emitted.len() as int)
    &&& shallow(s.all())
    &&& absorbed(g, s.parents, s.emitted.drop_last())
    &&& forall|t: int| 0 <= t < done.len() ==> discovered(s.parents, #[trigger] done[t])
    &&& ascending(s.queue)
    &&& forall|i: int|
        0 <= i < s.queue.len() ==> head.depth <= (#[trigger] s.queue[i]).depth <= head.depth + 1
    &&& base.len() <= s.all().len()
    &&& forall|i: int| 0 <= i < base.len() ==> #[trigger] s.all()[i] == base[i]
    &&& forall|i: int|
        base.len() <= i < s.all().len() ==> (#[trigger] s.all()[i]).depth == head.depth + 1
}

/// Taking the head off the queue begins an emission.
pub proof fn lemma_expand_begin<G: ExactCombinator>(g: &G, s: BFSState)
    requires
        s.forest(g),
        s.queue.len() > 0,
    ensures
        expanding(
            g,
            BFSState {
                parents: s.parents,
                queue: s.queue.skip(1),
                emitted: s.emitted.push(s.queue[0]),
            },
            s.queue[0],
            Seq::empty(),
            s.all(),
        ),
{
    let head = s.queue[0];
    let m = BFSState {
        parents: s.parents,
        queue: s.queue.skip(1),
        emitted: s.emitted.push(head),
    };
    assert(m.all() =~= s.all());
    assert(m.emitted.drop_last() =~= s.emitted);
    let e = s.emitted.len() as int;
    assert(s.all()[e] == head);
    assert forall|i: int| 0 <= i < s.all().len() implies (#[trigger] s.all()[i]).vertex
        < g.label_count() by {
        assert(g.vertices().contains(s.all()[i].vertex));
    }
    lemma_distinct_bounded(s.all(), g.label_count());
    assert(head.depth <= e);
    assert forall|i: int| 0 <= i < m.queue.len() implies head.depth <= (#[trigger] m.queue[i]).depth
        <= head.depth + 1 by {
        assert(m.queue[i] == s.queue[i + 1]);
        assert(s.queue[0].depth <= s.queue[i + 1].depth);
    }
    assert forall|i: int, j: int| 0 <= i <= j < m.queue.len() implies (#[trigger] m.queue[i]).depth
        <= (#[trigger] m.queue[j]).depth by {
        assert(m.queue[i] == s.queue[i + 1]);
        assert(m.queue[j] == s.queue[j + 1]);
    }
    assert forall|i: int| 0 <= i < m.all().len() implies #[trigger] hangs(
        g,
        m.all(),
        m.emitted.len() as int,
        i,
    ) by {
        assert(hangs(g, s.all(), e, i));
        if s.all()[i].depth != 0 {
            lemma_parent_index(g, s.all(), e, i);
            let j = parent_index(g, s.all(), e, i);
            assert(m.all()[j].vertex == m.all()[i].parent);
        }
    }
}

/// One target has its turn.
pub proof fn lemma_expand_turn<G: ExactCombinator>(
    g: &G,
    s: BFSState,
    head: TraversalNode,
    targets: Seq<usize>,
    turn: int,
    base: Seq<TraversalNode>,
)
    requires
        0 <= turn < targets.len(),
        g.neighbors(head.vertex) == Some(targets),
        expanding(g, s, head, targets.take(turn), base),
    ensures
        targets[turn] < s.parents.len(),
        ({
            let w = targets[turn];
            let after = if s.parents[w as int] == usize::MAX {
                BFSState {
                    parents: s.parents.update(w as int, head.vertex),
                    queue: s.queue.push(child_node(head, w)),
                    emitted: s.emitted,
                }
            } else {
                s
            };
            expanding(g, after, head, targets.take(turn + 1), base)
        }),
{
    let w = targets[turn];
    let e = s.emitted.len() as int;
    assert(s.all()[e - 1] == head);
    assert(g.vertices().contains(head.vertex));
    assert(targets.contains(w));
    assert(adjacent(g, head.vertex, w));
    assert(g.vertices().contains(w));
    assert(w < s.parents.len());
    lemma_take_push(targets, turn);
    let done = targets.take(turn);
    let done2 = targets.take(turn + 1);
    if s.parents[w as int] == usize::MAX {
        let fresh = child_node(head, w);
        let after = BFSState {
            parents: s.parents.update(w as int, head.vertex),
            queue: s.queue.push(fresh),
            emitted: s.emitted,
        };
        let old_all = s.all();
        let all = after.all();
        let last = old_all.len() as int;
        assert(all =~= old_all.push(fresh));
        assert(!mentions(old_all, w)) by {
            if mentions(old_all, w) {
                let i = choose|i: int| 0 <= i < old_all.len() && (#[trigger] old_all[i]).vertex == w;
                assert(s.parents[old_all[i].vertex as int] == old_all[i].parent);
                assert(hangs(g, old_all, e, i));
                if old_all[i].depth != 0 {
                    lemma_parent_index(g, old_all, e, i);
                    let j = parent_index(g, old_all, e, i);
                    assert(old_all[j].vertex < s.parents.len());
                }
            }
        }
        assert forall|i: int| 0 <= i < all.len() implies g.vertices().contains(
            (#[trigger] all[i]).vertex,
        ) by {
            if i < last {
                assert(all[i] == old_all[i]);
            }
        }
        assert forall|i: int| 0 <= i < all.len() implies (#[trigger] all[i]).vertex
            < after.parents.len() && after.parents[all[i].vertex as int] == all[i].parent by {
            if i < last {
                assert(all[i] == old_all[i]);
                assert(old_all[i].vertex != w);
            }
        }
        assert forall|i: int, j: int| 0 <= i < j < all.len() implies (#[trigger] all[i]).vertex != (
        #[trigger] all[j]).vertex by {
            assert(all[i] == old_all[i]);
            if j < last {
                assert(all[j] == old_all[j]);
            }
        }
        assert forall|v: usize| #[trigger] discovered(after.parents, v) implies mentions(all, v) by {
            if v == w {
                assert(all[last].vertex == w);
            } else {
                assert(discovered(s.parents, v));
                let i = choose|i: int| 0 <= i < old_all.len() && (#[trigger] old_all[i]).vertex == v;
                assert(all[i].vertex == v);
            }
        }
        assert forall|i: int| 0 <= i < all.len() implies #[trigger] hangs(g, all, e, i) by {
            if i < last {
                assert(all[i] == old_all[i]);
                assert(hangs(g, old_all, e, i));
                if old_all[i].depth != 0 {
                    lemma_parent_index(g, old_all, e, i);
                    let j = parent_index(g, old_all, e, i);
                    assert(all[j] == old_all[j]);
                }
            } else {
                assert(all[e - 1] == head);
            }
        }
        assert forall|i: int| 0 <= i < all.len() implies (#[trigger] all[i]).depth <= i by {
            if i < last {
                assert(all[i] == old_all[i]);
            } else {
                assert(old_all[e - 1].depth <= e - 1);
            }
        }
        assert forall|i: int, x: usize|
            0 <= i < after.emitted.drop_last().len() && adjacent(
                g,
                (#[trigger] after.emitted.drop_last()[i]).vertex,
                x,
            ) implies #[trigger] discovered(after.parents, x) by {
            assert(discovered(s.parents, x));
        }
        assert forall|t: int| 0 <= t < done2.len() implies discovered(
            after.parents,
            #[trigger] done2[t],
        ) by {
            if t < turn {
                assert(done2[t] == done[t]);
                assert(discovered(s.parents, done[t]));
            }
        }
        assert forall|i: int, j: int|
            0 <= i <= j < after.queue.len() implies (#[trigger] after.queue[i]).depth <= (
        #[trigger] after.queue[j]).depth by {
            if j < s.queue.len() {
                assert(after.queue[i] == s.queue[i]);
                assert(after.queue[j] == s.queue[j]);
            } else if i < s.queue.len() {
                assert(after.queue[i] == s.queue[i]);
            }
        }
        assert forall|i: int| 0 <= i < after.queue.len() implies head.depth <= (
        #[trigger] after.queue[i]).depth <= head.depth + 1 by {
            if i < s.queue.len() {
                assert(after.queue[i] == s.queue[i]);
            }
        }
        assert forall|i: int| 0 <= i < base.len() implies #[trigger] all[i] == base[i] by {
            assert(all[i] == old_all[i]);
        }
        assert forall|i: int| base.len() <= i < all.len() implies (#[trigger] all[i]).depth
            == head.depth + 1 by {
            if i < last {
                assert(all[i] == old_all[i]);
            }
        }
    } else {
        assert forall|t: int| 0 <= t < done2.len() implies discovered(s.parents, #[trigger] done2[t]) by {
            if t < turn {
                assert(done2[t] == done[t]);
            }
        }
    }
}

/// When every target has had its turn the emission is complete.
pub proof fn lemma_expand_end<G: ExactCombinator>(
    g: &G,
    s: BFSState,
    head: TraversalNode,
    targets: Seq<usize>,
    base: Seq<TraversalNode>,
)
    requires
        g.neighbors(head.vertex) == Some(targets),
        expanding(g, s, head, targets, base),
    ensures
        s.forest(g),
{
    assert forall|i: int, w: usize|
        0 <= i < s.emitted.len() && adjacent(g, (#[trigger] s.emitted[i]).vertex, w) implies #[trigger] discovered(
        s.parents,
        w,
    ) by {
        if i < s.emitted.len() - 1 {
            assert(s.emitted.drop_last()[i] == s.emitted[i]);
        } else {
            let t = choose|t: int| 0 <= t < targets.len() && targets[t] == w;
            assert(discovered(s.parents, targets[t]));
        }
    }
    assert forall|i: int| 0 <= i < s.queue.len() implies (#[trigger] s.queue[i]).depth
        <= s.queue[0].depth + 1 by {
        assert(head.depth <= s.queue[0].depth);
    }
}

/// An emission keeps a single-rooted state single-rooted.
pub proof fn lemma_expand_rooted<G: ExactCombinator>(
    g: &G,
    before: BFSState,
    after: BFSState,
    targets: Seq<usize>,
    root: usize,
)
    requires
        before.forest(g),
        before.rooted(root),
        before.queue.len() > 0,
        expanding(g, after, before.queue[0], targets, before.all()),
    ensures
        after.rooted(root),
{
    let head = before.queue[0];
    let b = before.all();
    let a = after.all();
    let e = before.emitted.len() as int;
    assert(b[e] == head);
    assert(a[0] == b[0]);
    assert forall|i: int| 0 <= i < a.len() && (#[trigger] a[i]).depth == 0 implies i == 0 by {
        if i < b.len() {
            assert(a[i] == b[i]);
        }
    }
    assert forall|i: int, j: int| 0 <= i <= j < a.len() implies (#[trigger] a[i]).depth <= (
    #[trigger] a[j]).depth by {
        if j < b.len() {
            assert(a[i] == b[i]);
            assert(a[j] == b[j]);
        } else if i < b.len() {
            assert(a[i] == b[i]);
            if i <= e {
                assert(b[i].depth <= b[e].depth);
            } else {
                assert(before.queue[i - e] == b[i]);
                assert(before.queue[i - e].depth <= before.queue[0].depth + 1);
            }
        }
    }
}

/// An emission keeps a single-rooted state relaxed.
pub proof fn lemma_expand_relaxed<G: ExactCombinator>(
    g: &G,
    before: BFSState,
    after: BFSState,
    targets: Seq<usize>,
    root: usize,
)
    requires
        before.forest(g),
        before.rooted(root),
        before.relaxed(g),
        before.queue.len() > 0,
        after.emitted == before.emitted.push(before.queue[0]),
        expanding(g, after, before.queue[0], targets, before.all()),
    ensures
        after.relaxed(g),
{
    let head = before.queue[0];
    let b = before.all();
    let a = after.all();
    let e = before.emitted.len() as int;
    assert(b[e] == head);
    assert forall|i: int, j: int|
        0 <= i < after.emitted.len() && 0 <= j < a.len() && adjacent(
            g,
            (#[trigger] a[i]).vertex,
            (#[trigger] a[j]).vertex,
        ) implies a[j].depth <= a[i].depth + 1 by {
        assert(a[i] == b[i]);
        if j < b.len() {
            assert(a[j] == b[j]);
            if i == e {
                if j <= e {
                    assert(b[j].depth <= b[e].depth);
                } else {
                    assert(before.queue[j - e] == b[j]);
                    assert(before.queue[j - e].depth <= before.queue[0].depth + 1);
                }
            }
        } else if i < e {
            let w = a[j].vertex;
            assert(before.emitted[i] == b[i]);
            assert(adjacent(g, before.emitted[i].vertex, w));
            assert(discovered(before.parents, w));
            assert(mentions(b, w));
            let k = choose|k: int| 0 <= k < b.len() && (#[trigger] b[k]).vertex == w;
            assert(a[k] == b[k]);
            assert(a[k].vertex != a[j].vertex);
        }
    }
}

/// `after` is `before` followed by nodes that are no roots.
pub open spec fn extends(before: Seq<TraversalNode>, after: Seq<TraversalNode>) -> bool {
    &&& before.len() <= after.len()
    &&& forall|i: int| 0 <= i < before.len() ==> #[trigger] after[i] == before[i]
    &&& forall|i: int| before.len() <= i < after.len() ==> (#[trigger] after[i]).depth > 0
}

/// Emits the head of the queue: takes it off, discovers its undiscovered
/// neighbors and returns it.
pub(crate) fn bfs_expand<G: ExactCombinator>(
    graph: &G,
    parents: &mut Vec<usize>,
    queue: &mut VecDeque<TraversalNode>,
    Ghost(emitted): Ghost<Seq<TraversalNode>>,
) -> (head: TraversalNode)
    requires
        (BFSState { parents: old(parents)@, queue: old(queue)@, emitted }).forest(graph),
        old(queue)@.len() > 0,
    ensures
        head == old(queue)@[0],
        (BFSState { parents: final(parents)@, queue: final(queue)@, emitted: emitted.push(head) })
            == (BFSState { parents: old(parents)@, queue: old(queue)@, emitted }).step(graph),
        (BFSState {
            parents: final(parents)@,
            queue: final(queue)@,
            emitted: emitted.push(head),
        }).forest(graph),
        forall|root: usize|
            (BFSState { parents: old(parents)@, queue: old(queue)@, emitted }).rooted(root) ==> (
            BFSState {
                parents: final(parents)@,
                queue: final(queue)@,
                emitted: emitted.push(head),
            }).rooted(root),
        extends(
            (BFSState { parents: old(parents)@, queue: old(queue)@, emitted }).all(),
            (BFSState {
                parents: final(parents)@,
                queue: final(queue)@,
                emitted: emitted.push(head),
            }).all(),
        ),
        forall|root: usize|
            (BFSState { parents: old(parents)@, queue: old(queue)@, emitted }).rooted(root) && (
            BFSState { parents: old(parents)@, queue: old(queue)@, emitted }).relaxed(graph) ==> (
            BFSState {
                parents: final(parents)@,
                queue: final(queue)@,
                emitted: emitted.push(head),
            }).relaxed(graph),
{
    let ghost before = BFSState { parents: parents@, queue: queue@, emitted };
    let head = queue.pop_front().unwrap();
    let ghost tail = queue@;
    proof {
        assert(tail =~= before.queue.skip(1));
        lemma_expand_begin(graph, before);
        let e = emitted.len() as int;
        assert(before.all()[e] == head);
        assert(graph.vertices().contains(head.vertex));
        graph.lemma_vertices_queryable();
    }
    let targets = graph.neighbor_iterator(head.vertex).unwrap();
    let mut i: usize = 0;
    while i < targets.len()
        invariant
            i <= targets.len(),
            graph.neighbors(head.vertex) == Some(targets@),
            expanding(
                graph,
                BFSState { parents: parents@, queue: queue@, emitted: emitted.push(head) },
                head,
                targets@.take(i as int),
                before.all(),
            ),
            (parents@, queue@) == bfs_absorb(before.parents, tail, head, targets@.take(i as int)),
        decreases targets.len() - i,
    {
        let w = targets[i];
        proof {
            lemma_expand_turn(
                graph,
                BFSState { parents: parents@, queue: queue@, emitted: emitted.push(head) },
                head,
                targets@,
                i as int,
                before.all(),
            );
            lemma_take_push(targets@, i as int);
        }
        if parents[w] == usize::MAX {
            parents[w] = head.vertex;
            queue.push_back(TraversalNode { vertex: w, depth: head.depth + 1, parent: head.vertex });
        }
        i += 1;
    }
    proof {
        lemma_take_all(targets@);
        let after = BFSState { parents: parents@, queue: queue@, emitted: emitted.push(head) };
        lemma_expand_end(graph, after, head, targets@, before.all());
        assert forall|root: usize| before.rooted(root) implies after.rooted(root) by {
            lemma_expand_rooted(graph, before, after, targets@, root);
        }
        assert forall|root: usize| before.rooted(root) && before.relaxed(graph) implies after.relaxed(
            graph,
        ) by {
            lemma_expand_relaxed(graph, before, after, targets@, root);
        }
    }
    head
}

/// A breadth-first traversal of the vertices that `root` reaches.
///
/// Each call of `next` emits one vertex; depths never go down from one
/// emission to the next.
pub struct BFSTraversal<'a, G: ExactCombinator> {
    pub(crate) graph: &'a G,
    pub(crate) parents: Vec<usize>,
    pub(crate) queue: VecDeque<TraversalNode>,
    pub(crate) emitted: Ghost<Seq<TraversalNode>>,
    pub(crate) root: Ghost<usize>,
}

/// Whether `next` state and emission are what one step makes of `before`.
pub open spec fn bfs_emits<G: ViewCombinator>(
    g: &G,
    before: BFSState,
    after: BFSState,
    out: Option<TraversalNode>,
) -> bool {
    &&& after == before.step(g)
    &&& out == if before.done() {
        None
    } else {
        Some(before.queue[0])
    }
}

impl<'a, G: ExactCombinator> BFSTraversal<'a, G> {
    /// The view that is traversed.
    pub closed spec fn graph(&self) -> &'a G {
        self.graph
    }

    /// The root of the traversal.
    pub closed spec fn root(&self) -> usize {
        self.root@
    }

    /// The state of the traversal.
    pub closed spec fn state(&self) -> BFSState {
        BFSState { parents: self.parents@, queue: self.queue@, emitted: self.emitted@ }
    }

    /// The invariant of the traversal.
    pub open spec fn wf(&self) -> bool {
        &&& self.state().forest(self.graph())
        &&& self.state().rooted(self.root())
        &&& self.state().relaxed(self.graph())
    }

    /// The depth of a discovered vertex: the number of tree edges between
    /// it and the root.
    pub open spec fn depth_of(&self, vertex: usize) -> nat {
        depth_in(self.state().all(), vertex)
    }

    /// No walk from the root to an emitted vertex has fewer edges than
    /// the depth of the vertex.
    pub proof fn lemma_depth_is_least(&self, walk: Seq<usize>)
        requires
            self.wf(),
            is_walk(self.graph(), walk),
            walk.first() == self.root(),
            mentions(self.state().emitted, walk.last()),
        ensures
            self.depth_of(walk.last()) + 1 <= walk.len(),
    {
        let s = self.state();
        let all = s.all();
        let target = choose|t: int|
            0 <= t < s.emitted.len() && (#[trigger] s.emitted[t]).vertex == walk.last();
        assert(all[target] == s.emitted[target]);
        lemma_depth_in(all, target);
        let k = self.lemma_walk_levels(walk, target, walk.len() - 1);
        if all[target].depth > walk.len() - 1 {
            if k < target {
                assert(all[k].vertex != all[target].vertex);
            } else if target < k {
                assert(all[target].vertex != all[k].vertex);
            }
        }
    }

    /// Along a walk from the root, each label up to position `upto` is
    /// discovered no deeper than its position, unless the node at `target`
    /// is no deeper than that position itself.
    pub proof fn lemma_walk_levels(&self, walk: Seq<usize>, target: int, upto: int) -> (k: int)
        requires
            self.wf(),
            is_walk(self.graph(), walk),
            walk.first() == self.root(),
            0 <= target < self.state().emitted.len(),
            0 <= upto < walk.len(),
        ensures
            self.state().all()[target].depth <= upto || (0 <= k < self.state().all().len()
                && self.state().all()[k].vertex == walk[upto] && self.state().all()[k].depth <= upto),
        decreases upto,
    {
        let s = self.state();
        let all = s.all();
        if upto == 0 {
            assert(all[0] == root_node(self.root()));
            0
        } else {
            let j = self.lemma_walk_levels(walk, target, upto - 1);
            if all[target].depth <= upto - 1 {
                0
            } else {
                assert(j < target) by {
                    if j >= target {
                        assert(all[target].depth <= all[j].depth);
                    }
                }
                assert(s.emitted[j] == all[j]);
                assert(adjacent(self.graph(), walk[upto - 1], walk[upto - 1 + 1]));
                assert(adjacent(self.graph(), s.emitted[j].vertex, walk[upto]));
                assert(discovered(s.parents, walk[upto]));
                let k = choose|k: int| 0 <= k < all.len() && (#[trigger] all[k]).vertex == walk[upto];
                assert(adjacent(self.graph(), all[j].vertex, all[k].vertex));
                k
            }
        }
    }

    /// The state `start` is a state of a traversal rooted at `root`.
    pub proof fn lemma_start(g: &G, root: usize)
        requires
            traversable(g),
            g.label_count() <= usize::MAX,
            g.vertices().contains(root),
        ensures
            BFSState::start(g.label_count(), root).forest(g),
            BFSState::start(g.label_count(), root).rooted(root),
            BFSState::start(g.label_count(), root).relaxed(g),
    {
        let s = BFSState::start(g.label_count(), root);
        assert(s.all() =~= seq![root_node(root)]);
        assert(s.all()[0] == root_node(root));
        assert forall|v: usize| #[trigger] discovered(s.parents, v) implies mentions(s.all(), v) by {
            assert(v == root);
            assert(s.all()[0].vertex == v);
        }
        assert forall|i: int| 0 <= i < s.all().len() implies #[trigger] hangs(g, s.all(), 0, i) by {}
    }

    /// A traversal over buffers that are set up to emit `root`.
    pub(crate) fn over(
        graph: &'a G,
        parents: Vec<usize>,
        queue: VecDeque<TraversalNode>,
        root: usize,
    ) -> (out: Self)
        requires
            traversable(graph),
            graph.vertices().contains(root),
            parents@ == blank(graph.label_count()).update(root as int, root),
            queue@ == seq![root_node(root)],
        ensures
            out.wf(),
            out.graph() == graph,
            out.root() == root,
            out.state() == BFSState::start(graph.label_count(), root),
    {
        proof {
            assert(parents@.len() == parents.len());
            Self::lemma_start(graph, root);
        }
        Self { graph, parents, queue, emitted: Ghost(Seq::empty()), root: Ghost(root) }
    }

    /// A traversal that is about to emit `root`.
    pub fn new(graph: &'a G, root: usize) -> (out: Self)
        requires
            traversable(graph),
            graph.vertices().contains(root),
        ensures
            out.wf(),
            out.graph() == graph,
            out.root() == root,
            out.state() == BFSState::start(graph.label_count(), root),
    {
        let n = graph.num_v_labels();
        let mut parents: Vec<usize> = Vec::new();
        refill(&mut parents, n, usize::MAX);
        parents[root] = root;
        let mut queue: VecDeque<TraversalNode> = VecDeque::new();
        queue.push_back(TraversalNode { vertex: root, depth: 0, parent: root });
        proof {
            assert(queue@ =~= seq![root_node(root)]);
        }
        Self::over(graph, parents, queue, root)
    }

    /// A traversal that is about to emit `root`.
    pub fn from_root(graph: &'a G, root: usize) -> (out: Self)
        requires
            traversable(graph),
            graph.vertices().contains(root),
        ensures
            out.wf(),
            out.graph() == graph,
            out.root() == root,
            out.state() == BFSState::start(graph.label_count(), root),
    {
        Self::new(graph, root)
    }

    /// A traversal of every component of `graph`.
    pub fn full_traversal(graph: &'a G) -> (out: BFSFullTraversal<'a, G>)
        requires
            traversable(graph),
        ensures
            out.wf(),
            out.graph() == graph,
            out.state() == BFSFullState::start(graph.label_count(), graph.vertices()),
    {
        BFSFullTraversal::new(graph)
    }

    /// Puts the traversal into the state of a new traversal of the same
    /// view from `root`, keeping its buffers.
    pub fn restart_at(&mut self, root: usize)
        requires
            old(self).wf(),
            old(self).graph().vertices().contains(root),
        ensures
            final(self).wf(),
            final(self).graph() == old(self).graph(),
            final(self).root() == root,
            final(self).state() == BFSState::start(old(self).graph().label_count(), root),
    {
        let n = self.parents.len();
        refill(&mut self.parents, n, usize::MAX);
        self.parents[root] = root;
        self.queue.clear();
        self.queue.push_back(TraversalNode { vertex: root, depth: 0, parent: root });
        proof {
            self.emitted@ = Seq::empty();
            self.root@ = root;
            Self::lemma_start(self.graph, root);
            assert(self.parents@ =~= blank(n as nat).update(root as int, root));
            assert(self.queue@ =~= seq![root_node(root)]);
        }
    }

    /// Emits the next vertex in breadth-first order, or `None` once every
    /// vertex that the root reaches has been emitted.
    pub fn next(&mut self) -> (out: Option<TraversalNode>)
        requires
            old(self).wf(),
        ensures
            final(self).wf(),
            final(self).graph() == old(self).graph(),
            final(self).root() == old(self).root(),
            bfs_emits(old(self).graph(), old(self).state(), final(self).state(), out),
    {
        if self.queue.len() == 0 {
            None
        } else {
            let head = bfs_expand(self.graph, &mut self.parents, &mut self.queue, Ghost(self.emitted@));
            proof {
                self.emitted@ = self.emitted@.push(head);
            }
            Some(head)
        }
    }

    /// Runs the traversal to its end and returns what it emitted on the way.
    pub fn collect(&mut self) -> (out: Vec<TraversalNode>)
        requires
            old(self).wf(),
        ensures
            final(self).wf(),
            final(self).graph() == old(self).graph(),
            final(self).root() == old(self).root(),
            final(self).state().done(),
            final(self).state() == old(self).state().run(old(self).graph(), out@.len()),
            final(self).state().emitted == old(self).state().emitted + out@,
    {
        let mut out: Vec<TraversalNode> = Vec::new();
        loop
            invariant
                self.wf(),
                self.graph() == old(self).graph(),
                self.root() == old(self).root(),
                self.state() == old(self).state().run(old(self).graph(), out@.len()),
                self.state().emitted == old(self).state().emitted + out@,
            ensures
                self.state().done(),
            decreases self.graph().label_count() - self.state().emitted.len(),
        {
            proof {
                self.lemma_discovered_bounded();
            }
            let ghost before = self.state();
            match self.next() {
                Some(node) => {
                    out.push(node);
                    proof {
                        assert(self.state().emitted =~= old(self).state().emitted + out@);
                    }
                },
                None => {
                    break ;
                },
            }
        }
        out
    }

    /// Runs the traversal to its end.
    pub fn exhaust(&mut self)
        requires
            old(self).wf(),
        ensures
            final(self).wf(),
            final(self).graph() == old(self).graph(),
            final(self).root() == old(self).root(),
            final(self).state().done(),
            exists|count: nat|
                final(self).state() == old(self).state().run(old(self).graph(), count),
    {
        let ghost mut count: nat = 0;
        loop
            invariant
                self.wf(),
                self.graph() == old(self).graph(),
                self.root() == old(self).root(),
                self.state() == old(self).state().run(old(self).graph(), count),
            ensures
                self.state().done(),
            decreases self.graph().label_count() - self.state().emitted.len(),
        {
            proof {
                self.lemma_discovered_bounded();
            }
            match self.next() {
                Some(_) => {
                    proof {
                        count = count + 1;
                    }
                },
                None => {
                    break ;
                },
            }
        }
    }

    /// The path from the root down to `vertex` along the edges by which
    /// the traversal discovered it, or `None` while `vertex` is
    /// undiscovered. The path has `depth_of(vertex) + 1` labels, and each
    /// is adjacent to the next.
    pub fn extract_path(&self, vertex: usize) -> (out: Option<Vec<usize>>)
        requires
            self.wf(),
            vertex < self.graph().label_count(),
        ensures
            out is None <==> !discovered(self.state().parents, vertex),
            out matches Some(path) ==> {
                &&& tree_path(self.state().parents, path@, vertex)
                &&& path@[0] == self.root()
                &&& is_walk(self.graph(), path@)
                &&& path@.len() == self.depth_of(vertex) + 1
            },
    {
        if self.parents[vertex] == usize::MAX {
            None
        } else {
            proof {
                assert(discovered(self.state().parents, vertex));
            }
            let path = climb(
                self.graph,
                &self.parents,
                Ghost(self.state().all()),
                Ghost(self.emitted@.len() as int),
                vertex,
            );
            proof {
                let all = self.state().all();
                let i = choose|i: int| 0 <= i < all.len() && (#[trigger] all[i]).vertex == path@[0];
                lemma_depth_in(all, i);
            }
            Some(path)
        }
    }

    /// The parent array.
    pub fn extract_parents(self) -> (out: Vec<usize>)
        ensures
            out@ == self.state().parents,
    {
        self.parents
    }

    /// The buffers of the traversal as they are, for another traversal to
    /// use.
    pub fn extract_resources(self) -> (out: BFSResources)
        ensures
            out.wf(),
            out.parents() == Some(self.state().parents),
            out.queue() == Some(self.state().queue),
    {
        BFSResources::holding(self.parents, self.queue)
    }

    /// The vertices discovered so far, ascending by label.
    pub fn traversed_iter(&self) -> (out: Vec<usize>)
        ensures
            out@ == marked(self.state().parents),
    {
        marked_labels(&self.parents)
    }

    /// No more vertices are discovered than the view has labels.
    pub proof fn lemma_discovered_bounded(&self)
        requires
            self.wf(),
        ensures
            self.state().all().len() <= self.graph().label_count(),
            self.state().emitted.len() + self.state().queue.len() <= self.graph().label_count(),
    {
        let all = self.state().all();
        assert forall|i: int| 0 <= i < all.len() implies (#[trigger] all[i]).vertex
            < self.graph().label_count() by {
            assert(self.graph().vertices().contains(all[i].vertex));
        }
        lemma_distinct_bounded(all, self.graph().label_count());
    }

    /// Depths never go down from one emission to the next.
    pub proof fn lemma_depths_ascend(&self)
        requires
            self.wf(),
        ensures
            ascending(self.state().emitted),
    {
        let s = self.state();
        assert forall|i: int, j: int| 0 <= i <= j < s.emitted.len() implies (
        #[trigger] s.emitted[i]).depth <= (#[trigger] s.emitted[j]).depth by {
            assert(s.all()[i] == s.emitted[i]);
            assert(s.all()[j] == s.emitted[j]);
        }
    }

    /// Every vertex is emitted at most once, and only a vertex that the
    /// root reaches is ever discovered.
    pub proof fn lemma_discovered_reachable(&self)
        requires
            self.wf(),
        ensures
            distinct_vertices(self.state().emitted),
            forall|v: usize|
                discovered(self.state().parents, v) ==> reachable(self.graph(), self.root(), v),
    {
        let s = self.state();
        let all = s.all();
        assert forall|i: int, j: int| 0 <= i < j < s.emitted.len() implies (
        #[trigger] s.emitted[i]).vertex != (#[trigger] s.emitted[j]).vertex by {
            assert(all[i] == s.emitted[i]);
            assert(all[j] == s.emitted[j]);
        }
        assert forall|v: usize| discovered(s.parents, v) implies reachable(
            self.graph(),
            self.root(),
            v,
        ) by {
            let i = choose|i: int| 0 <= i < all.len() && (#[trigger] all[i]).vertex == v;
            let r = lemma_tree_reach(self.graph(), all, s.emitted.len() as int, i);
            assert(all[r].depth == 0);
        }
    }

    /// Once the traversal is done, the emitted vertices are exactly the
    /// vertices that the root reaches.
    pub proof fn lemma_done_emitted_all(&self)
        requires
            self.wf(),
            self.state().done(),
        ensures
            forall|v: usize|
                mentions(self.state().emitted, v) <==> reachable(self.graph(), self.root(), v),
    {
        let s = self.state();
        let g = self.graph();
        assert(s.all() =~= s.emitted);
        self.lemma_discovered_reachable();
        let inside = |v: usize| discovered(s.parents, v);
        assert(s.all()[0] == root_node(self.root()));
        assert(inside(self.root()));
        assert forall|u: usize, v: usize| inside(u) && #[trigger] adjacent(g, u, v) implies inside(
            v,
        ) by {
            let i = choose|i: int| 0 <= i < s.all().len() && (#[trigger] s.all()[i]).vertex == u;
            assert(adjacent(g, s.emitted[i].vertex, v));
        }
        assert forall|v: usize| mentions(s.emitted, v) <==> reachable(g, self.root(), v) by {
            if mentions(s.emitted, v) {
                let i = choose|i: int| 0 <= i < s.emitted.len() && (#[trigger] s.emitted[i]).vertex == v;
                lemma_node_discovered(g, s.parents, s.all(), s.emitted.len() as int, i);
            }
            if reachable(g, self.root(), v) {
                lemma_reach_stays(g, inside, self.root(), v);
            }
        }
    }
}

/// Discovery never changes the parent of a discovered label.
pub proof fn lemma_absorb_keeps_parents(
    parents: Seq<usize>,
    queue: Seq<TraversalNode>,
    head: TraversalNode,
    targets: Seq<usize>,
    v: usize,
)
    requires
        discovered(parents, v),
    ensures
        bfs_absorb(parents, queue, head, targets).0.len() == parents.len(),
        bfs_absorb(parents, queue, head, targets).0[v as int] == parents[v as int],
    decreases targets.len(),
{
    if targets.len() > 0 {
        lemma_absorb_keeps_parents(parents, queue, head, targets.drop_last(), v);
    }
}

/// Discovery leaves the queue as it was and puts children of `head`
/// behind it.
pub proof fn lemma_absorb_children(
    parents: Seq<usize>,
    queue: Seq<TraversalNode>,
    head: TraversalNode,
    targets: Seq<usize>,
)
    ensures
        queue.len() <= bfs_absorb(parents, queue, head, targets).1.len(),
        forall|i: int|
            0 <= i < queue.len() ==> #[trigger] bfs_absorb(parents, queue, head, targets).1[i]
                == queue[i],
        forall|i: int|
            queue.len() <= i < bfs_absorb(parents, queue, head, targets).1.len() ==> (
            #[trigger] bfs_absorb(parents, queue, head, targets).1[i]).parent == head.vertex,
    decreases targets.len(),
{
    if targets.len() > 0 {
        lemma_absorb_children(parents, queue, head, targets.drop_last());
    }
}

/// The length of the parent array never changes.
pub proof fn lemma_absorb_keeps_len(
    parents: Seq<usize>,
    queue: Seq<TraversalNode>,
    head: TraversalNode,
    targets: Seq<usize>,
)
    ensures
        bfs_absorb(parents, queue, head, targets).0.len() == parents.len(),
    decreases targets.len(),
{
    if targets.len() > 0 {
        lemma_absorb_keeps_len(parents, queue, head, targets.drop_last());
    }
}

/// Once a path to a label has been found, no emission changes it: the
/// path leads down the tree after the next emission as before, and no
/// other path does.
pub proof fn lemma_bfs_path_is_final<G: ViewCombinator>(
    g: &G,
    s: BFSState,
    path: Seq<usize>,
    later: Seq<usize>,
    to: usize,
)
    requires
        s.parents.len() <= usize::MAX,
        tree_path(s.parents, path, to),
        tree_path(s.step(g).parents, later, to),
    ensures
        tree_path(s.step(g).parents, path, to),
        later == path,
{
    let after = s.step(g).parents;
    if s.queue.len() > 0 {
        let head = s.queue[0];
        let targets = targets_of(g, head.vertex);
        lemma_absorb_keeps_len(s.parents, s.queue.skip(1), head, targets);
        assert forall|v: usize| #[trigger] discovered(s.parents, v) implies after[v as int]
            == s.parents[v as int] by {
            lemma_absorb_keeps_parents(s.parents, s.queue.skip(1), head, targets, v);
        }
    }
    crate::traversal::lemma_tree_path_stays(s.parents, after, path, to);
    crate::traversal::lemma_tree_path_unique(after, path, later, to);
}

/// A finished traversal stays where it is, so the state in which a run
/// ends does not depend on how long it is run.
pub proof fn lemma_bfs_run_settles<G: ViewCombinator>(g: &G, s: BFSState, short: nat, long: nat)
    requires
        short <= long,
        s.run(g, short).done(),
    ensures
        s.run(g, long) == s.run(g, short),
    decreases long,
{
    if short < long {
        lemma_bfs_run_settles(g, s, short, (long - 1) as nat);
    }
}

/// A restarted traversal and a new one emit the same nodes: both begin
/// in the state `start`, and two complete runs from one state end in one
/// state, with the same nodes emitted in the same order.
pub proof fn lemma_bfs_restart_is_fresh<G: ViewCombinator>(
    g: &G,
    restarted: BFSState,
    fresh: BFSState,
    n: nat,
    root: usize,
    a: nat,
    b: nat,
)
    requires
        restarted == BFSState::start(n, root),
        fresh == BFSState::start(n, root),
        restarted.run(g, a).done(),
        fresh.run(g, b).done(),
    ensures
        restarted.run(g, a) == fresh.run(g, b),
        restarted.run(g, a).emitted == fresh.run(g, b).emitted,
{
    if a <= b {
        lemma_bfs_run_settles(g, restarted, a, b);
    } else {
        lemma_bfs_run_settles(g, restarted, b, a);
    }
}

} // verus!
