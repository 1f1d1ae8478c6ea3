//! Breadth-first traversal of every component of a view.

use crate::combinators::{adjacent, symmetric, traversable, ExactCombinator, ViewCombinator};
use crate::reach::{components, lemma_reach_self, lemma_reach_stays, lemma_reach_step, reachable};
use crate::traversal::breadth_first::{
    bfs_absorb, bfs_expand, extends, lemma_absorb_children, targets_of, BFSState,
};
use crate::traversal::components::{
    first_free, grouped, in_turn, lemma_group_is_component, lemma_in_turn_grows,
    lemma_root_before, lemma_root_before_prefix, lemma_root_before_skips,
    lemma_roots_count_components, lemma_roots_in_order, picked, root_before, roots, separated,
    tied,
};
use crate::traversal::recycle::BFSResources;
use crate::traversal::{
    blank, discovered, distinct_vertices, hangs, lemma_distinct_bounded, lemma_node_discovered,
    lemma_parent_index, marked, marked_labels, mentions, parent_index, refill, root_node,
    TraversalNode,
};
use std::collections::VecDeque;
use vstd::prelude::*;

verus! {

/// The position of the first undiscovered vertex of `order` at or after
/// `cursor`; the length of `order` if there is none.
pub open spec fn next_root(parents: Seq<usize>, order: Seq<usize>, cursor: nat) -> nat
    decreases order.len() - cursor,
{
    if cursor >= order.len() {
        order.len()
    } else if !discovered(parents, order[cursor as int]) {
        cursor
    } else {
        next_root(parents, order, cursor + 1)
    }
}

/// What `next_root` finds.
pub proof fn lemma_next_root(parents: Seq<usize>, order: Seq<usize>, cursor: nat)
    requires
        cursor <= order.len(),
    ensures
        cursor <= next_root(parents, order, cursor) <= order.len(),
        forall|k: int|
            cursor <= k < next_root(parents, order, cursor) ==> discovered(parents, #[trigger] order[k]),
        next_root(parents, order, cursor) < order.len() ==> !discovered(
            parents,
            order[next_root(parents, order, cursor) as int],
        ),
    decreases order.len() - cursor,
{
    if cursor < order.len() && discovered(parents, order[cursor as int]) {
        lemma_next_root(parents, order, cursor + 1);
    }
}

/// The state of a full breadth-first traversal: a breadth-first state,
/// the order in which vertices are tried as roots, and how far into that
/// order the traversal has looked.
pub struct BFSFullState {
    pub walk: BFSState,
    pub order: Seq<usize>,
    pub cursor: nat,
}

impl BFSFullState {
    /// The state of a traversal that has not looked for its first root yet.
    pub open spec fn start(n: nat, order: Seq<usize>) -> BFSFullState {
        BFSFullState {
            walk: BFSState { parents: blank(n), queue: Seq::empty(), emitted: Seq::empty() },
            order,
            cursor: 0,
        }
    }

    /// The state of a traversal that begins with the component of `root`.
    pub open spec fn start_at(n: nat, order: Seq<usize>, root: usize) -> BFSFullState {
        BFSFullState { walk: BFSState::start(n, root), order, cursor: 0 }
    }

    /// The state with a root in the queue, if the queue was empty and an
    /// undiscovered vertex is left in the order.
    pub open spec fn seeded(self) -> BFSFullState {
        if self.walk.queue.len() > 0 {
            self
        } else {
            let at = next_root(self.walk.parents, self.order, self.cursor);
            if at >= self.order.len() {
                BFSFullState { cursor: self.order.len(), ..self }
            } else {
                let root = self.order[at as int];
                BFSFullState {
                    walk: BFSState {
                        parents: self.walk.parents.update(root as int, root),
                        queue: seq![root_node(root)],
                        emitted: self.walk.emitted,
                    },
                    cursor: at + 1,
                    ..self
                }
            }
        }
    }

    /// Whether nothing is left to emit.
    pub open spec fn done(self) -> bool {
        self.seeded().walk.queue.len() == 0
    }

    /// What the traversal emits next.
    pub open spec fn out(self) -> Option<TraversalNode> {
        if self.done() {
            None
        } else {
            Some(self.seeded().walk.queue[0])
        }
    }

    /// The state after the next emission: if the queue is empty, the next
    /// undiscovered vertex of the order becomes a root; then the head of
    /// the queue is emitted.
    pub open spec fn step<G: ViewCombinator>(self, g: &G) -> BFSFullState {
        let s = self.seeded();
        BFSFullState { walk: s.walk.step(g), ..s }
    }

    /// The state after `count` emissions.
    pub open spec fn run<G: ViewCombinator>(self, g: &G, count: nat) -> BFSFullState
        decreases count,
    {
        if count == 0 {
            self
        } else {
            self.run(g, (count - 1) as nat).step(g)
        }
    }

    /// The invariant: a breadth-first forest; the order is that of the
    /// view's vertices, and what the cursor has passed is discovered; no
    /// root is reached from a node discovered before it.
    pub open spec fn forest<G: ExactCombinator>(self, g: &G) -> bool {
        &&& self.walk.forest(g)
        &&& self.order == g.vertices()
        &&& self.cursor <= self.order.len()
        &&& forall|k: int| 0 <= k < self.cursor ==> discovered(self.walk.parents, #[trigger] self.order[k])
        &&& separated(g, self.walk.all())
    }

    /// No root waits in the queue behind its head.
    pub open spec fn one_root_waits(self) -> bool {
        forall|k: int|
            self.walk.emitted.len() < k < self.walk.all().len() ==> (#[trigger] self.walk.all()[k]).depth
                != 0
    }

    /// The invariant with what it says of the components: the nodes from
    /// one root up to the next are reached from that root, and every root
    /// but one that the traversal began with was the first undiscovered
    /// vertex of the order when its turn came.
    pub open spec fn sound<G: ExactCombinator>(self, g: &G) -> bool {
        &&& self.forest(g)
        &&& self.one_root_waits()
        &&& grouped(g, self.walk.all())
        &&& in_turn(self.order, self.walk.all())
    }
}

/// Nodes that are no roots do not disturb the separation of the roots.
pub proof fn lemma_extends_separated<G: ViewCombinator>(
    g: &G,
    before: Seq<TraversalNode>,
    after: Seq<TraversalNode>,
)
    requires
        separated(g, before),
        extends(before, after),
    ensures
        separated(g, after),
{
    assert forall|i: int, r: int|
        0 <= i < r < after.len() && (#[trigger] after[r]).depth == 0 implies !reachable(
        g,
        (#[trigger] after[i]).vertex,
        after[r].vertex,
    ) by {
        assert(r < before.len());
        assert(after[r] == before[r]);
        assert(after[i] == before[i]);
    }
}

/// Looking for the next root keeps the invariant.
pub proof fn lemma_seeded<G: ExactCombinator>(g: &G, s: BFSFullState)
    requires
        s.forest(g),
    ensures
        s.seeded().forest(g),
        s.seeded().walk.queue.len() == 0 ==> s.seeded().cursor == s.order.len(),
        s.seeded().walk.emitted == s.walk.emitted,
{
    if s.walk.queue.len() == 0 {
        lemma_next_root(s.walk.parents, s.order, s.cursor);
        let at = next_root(s.walk.parents, s.order, s.cursor);
        let t = s.seeded();
        if at < s.order.len() {
            let root = s.order[at as int];
            let all = t.walk.all();
            let e = s.walk.emitted.len() as int;
            assert(s.walk.all() =~= s.walk.emitted);
            assert(all =~= s.walk.emitted.push(root_node(root)));
            assert(g.vertices().contains(root));
            assert(!mentions(s.walk.emitted, root)) by {
                if mentions(s.walk.emitted, root) {
                    let i = choose|i: int|
                        0 <= i < s.walk.emitted.len() && (#[trigger] s.walk.emitted[i]).vertex == root;
                    lemma_node_discovered(g, s.walk.parents, s.walk.all(), e, i);
                }
            }
            assert forall|i: int| 0 <= i < all.len() implies g.vertices().contains(
                (#[trigger] all[i]).vertex,
            ) by {
                if i < e {
                    assert(all[i] == s.walk.all()[i]);
                }
            }
            assert forall|i: int| 0 <= i < all.len() implies (#[trigger] all[i]).vertex
                < t.walk.parents.len() && t.walk.parents[all[i].vertex as int] == all[i].parent by {
                if i < e {
                    assert(all[i] == s.walk.all()[i]);
                    assert(s.walk.emitted[i].vertex != root);
                }
            }
            assert forall|i: int, j: int| 0 <= i < j < all.len() implies (#[trigger] all[i]).vertex != (
            #[trigger] all[j]).vertex by {
                assert(all[i] == s.walk.all()[i]);
                if j < e {
                    assert(all[j] == s.walk.all()[j]);
                }
            }
            assert forall|v: usize| #[trigger] discovered(t.walk.parents, v) implies mentions(
                all,
                v,
            ) by {
                if v == root {
                    assert(all[e].vertex == root);
                } else {
                    assert(discovered(s.walk.parents, v));
                    let i = choose|i: int|
                        0 <= i < s.walk.all().len() && (#[trigger] s.walk.all()[i]).vertex == v;
                    assert(all[i].vertex == v);
                }
            }
            assert forall|i: int| 0 <= i < all.len() implies #[trigger] hangs(g, all, e, i) by {
                if i < e {
                    assert(all[i] == s.walk.all()[i]);
                    assert(hangs(g, s.walk.all(), e, i));
                    if all[i].depth != 0 {
                        lemma_parent_index(g, s.walk.all(), e, i);
                        let j = parent_index(g, s.walk.all(), e, i);
                        assert(all[j] == s.walk.all()[j]);
                    }
                }
            }
            assert forall|i: int| 0 <= i < all.len() implies (#[trigger] all[i]).depth <= i by {
                if i < e {
                    assert(all[i] == s.walk.all()[i]);
                }
            }
            assert forall|i: int, w: usize|
                0 <= i < t.walk.emitted.len() && adjacent(
                    g,
                    (#[trigger] t.walk.emitted[i]).vertex,
                    w,
                ) implies #[trigger] discovered(t.walk.parents, w) by {
                assert(discovered(s.walk.parents, w));
            }
            assert forall|k: int| 0 <= k < t.cursor implies discovered(
                t.walk.parents,
                #[trigger] t.order[k],
            ) by {
                if k < at {
                    assert(discovered(s.walk.parents, s.order[k]));
                }
            }
            let inside = |v: usize| discovered(s.walk.parents, v);
            assert forall|u: usize, v: usize| inside(u) && #[trigger] adjacent(
                g,
                u,
                v,
            ) implies inside(v) by {
                let i = choose|i: int|
                    0 <= i < s.walk.all().len() && (#[trigger] s.walk.all()[i]).vertex == u;
                assert(adjacent(g, s.walk.emitted[i].vertex, v));
            }
            assert forall|i: int, r: int|
                0 <= i < r < all.len() && (#[trigger] all[r]).depth == 0 implies !reachable(
                g,
                (#[trigger] all[i]).vertex,
                all[r].vertex,
            ) by {
                assert(all[i] == s.walk.all()[i]);
                if r < e {
                    assert(all[r] == s.walk.all()[r]);
                } else {
                    lemma_node_discovered(g, s.walk.parents, s.walk.all(), e, i);
                    if reachable(g, all[i].vertex, root) {
                        lemma_reach_stays(g, inside, all[i].vertex, root);
                    }
                }
            }
        }
    }
}

/// Looking for the next root keeps what the invariant says of the
/// components.
pub proof fn lemma_seeded_sound<G: ExactCombinator>(g: &G, s: BFSFullState)
    requires
        s.sound(g),
    ensures
        s.seeded().sound(g),
{
    lemma_seeded(g, s);
    if s.walk.queue.len() == 0 {
        lemma_next_root(s.walk.parents, s.order, s.cursor);
        let at = next_root(s.walk.parents, s.order, s.cursor);
        let t = s.seeded();
        if at < s.order.len() {
            let root = s.order[at as int];
            let a = s.walk.all();
            let b = t.walk.all();
            let e = s.walk.emitted.len() as int;
            assert(a =~= s.walk.emitted);
            assert(b =~= a.push(root_node(root)));
            assert forall|i: int| 0 <= i < b.len() implies #[trigger] tied(g, b, i) by {
                if i < e {
                    assert(tied(g, a, i));
                    assert(a[0].depth == 0);
                    lemma_root_before(a, i);
                    lemma_root_before_prefix(a, b, i);
                } else {
                    lemma_reach_self(g, root);
                }
            }
            assert(picked(s.order, b, e)) by {
                assert(b.take(e) =~= a);
                assert forall|k: int| 0 <= k < at implies mentions(
                    b.take(e),
                    #[trigger] s.order[k],
                ) by {
                    assert(discovered(s.walk.parents, s.order[k]));
                }
                assert(first_free(s.order, b, e, at as int));
            }
            lemma_in_turn_grows(s.order, a, b);
        }
    }
}

/// An emission keeps what the invariant says of the components.
pub proof fn lemma_step_sound<G: ExactCombinator>(g: &G, s: BFSFullState, t: BFSFullState)
    requires
        s.sound(g),
        s.walk.queue.len() > 0,
        t.walk == s.walk.step(g),
        t.order == s.order,
        t.walk.forest(g),
        extends(s.walk.all(), t.walk.all()),
    ensures
        t.one_root_waits(),
        grouped(g, t.walk.all()),
        in_turn(t.order, t.walk.all()),
{
    let a = s.walk.all();
    let b = t.walk.all();
    let e = s.walk.emitted.len() as int;
    let head = s.walk.queue[0];
    let rest = s.walk.queue.skip(1);
    lemma_absorb_children(s.walk.parents, rest, head, targets_of(g, head.vertex));
    let q = bfs_absorb(s.walk.parents, rest, head, targets_of(g, head.vertex)).1;
    assert(t.walk.queue == q);
    assert(a[e] == head);
    assert(a[0].depth == 0);
    assert forall|k: int| e < k < b.len() implies (#[trigger] b[k]).depth != 0 by {
        if k < a.len() {
            assert(b[k] == a[k]);
        }
    }
    assert forall|i: int| 0 <= i < b.len() implies #[trigger] tied(g, b, i) by {
        if i < a.len() {
            assert(tied(g, a, i));
            lemma_root_before(a, i);
            lemma_root_before_prefix(a, b, i);
            assert(b[i] == a[i]);
            assert(b[root_before(a, i)] == a[root_before(a, i)]);
        } else {
            assert(b[i] == q[i - e - 1]);
            assert(b[i].parent == head.vertex);
            assert(hangs(g, b, e + 1, i));
            lemma_root_before_skips(b, e, i);
            lemma_root_before(a, e);
            lemma_root_before_prefix(a, b, e);
            assert(tied(g, a, e));
            assert(b[root_before(a, e)] == a[root_before(a, e)]);
            lemma_reach_step(g, a[root_before(a, e)].vertex, head.vertex, b[i].vertex);
        }
    }
    assert forall|i: int| a.len() <= i < b.len() implies #[trigger] picked(t.order, b, i) by {
        assert(b[i].depth > 0);
    }
    lemma_in_turn_grows(s.order, a, b);
}

/// A breadth-first traversal of every vertex of a view, one component
/// after the other. A node of depth 0 begins a component.
pub struct BFSFullTraversal<'a, G: ExactCombinator> {
    pub(crate) graph: &'a G,
    pub(crate) parents: Vec<usize>,
    pub(crate) queue: VecDeque<TraversalNode>,
    pub(crate) vertex_order: Vec<usize>,
    pub(crate) cursor: usize,
    pub(crate) emitted: Ghost<Seq<TraversalNode>>,
}

impl<'a, G: ExactCombinator> BFSFullTraversal<'a, G> {
    /// The view that is traversed.
    pub closed spec fn graph(&self) -> &'a G {
        self.graph
    }

    /// The state of the traversal.
    pub closed spec fn state(&self) -> BFSFullState {
        BFSFullState {
            walk: BFSState { parents: self.parents@, queue: self.queue@, emitted: self.emitted@ },
            order: self.vertex_order@,
            cursor: self.cursor as nat,
        }
    }

    /// The invariant of the traversal.
    pub open spec fn wf(&self) -> bool {
        self.state().sound(self.graph())
    }

    /// A traversal over buffers that are set up to begin.
    pub(crate) fn over(
        graph: &'a G,
        parents: Vec<usize>,
        queue: VecDeque<TraversalNode>,
        Ghost(root): Ghost<Option<usize>>,
    ) -> (out: Self)
        requires
            traversable(graph),
            match root {
                Some(r) => graph.vertices().contains(r) && parents@ == blank(
                    graph.label_count(),
                ).update(r as int, r) && queue@ == seq![root_node(r)],
                None => parents@ == blank(graph.label_count()) && queue@ == Seq::<
                    TraversalNode,
                >::empty(),
            },
        ensures
            out.wf(),
            out.graph() == graph,
            out.state() == match root {
                Some(r) => BFSFullState::start_at(graph.label_count(), graph.vertices(), r),
                None => BFSFullState::start(graph.label_count(), graph.vertices()),
            },
    {
        let vertex_order = graph.vertex_iterator();
        let out = Self {
            graph,
            parents,
            queue,
            vertex_order,
            cursor: 0,
            emitted: Ghost(Seq::empty()),
        };
        proof {
            assert(parents@.len() == parents.len());
            let s = out.state();
            match root {
                Some(r) => {
                    crate::traversal::breadth_first::BFSTraversal::<G>::lemma_start(graph, r);
                    assert(s.walk == BFSState::start(graph.label_count(), r));
                    assert(s.walk.rooted(r));
                    assert(s.walk.all().len() == 1) by {
                        assert(s.walk.all() =~= seq![root_node(r)]);
                    }
                    lemma_reach_self(graph, r);
                    assert(tied(graph, s.walk.all(), 0));
                },
                None => {
                    assert(s.walk.all() =~= Seq::empty());
                    assert(s.walk.forest(graph));
                },
            }
        }
        out
    }

    /// A traversal that has not begun.
    pub fn new(graph: &'a G) -> (out: Self)
        requires
            traversable(graph),
        ensures
            out.wf(),
            out.graph() == graph,
            out.state() == BFSFullState::start(graph.label_count(), graph.vertices()),
    {
        let n = graph.num_v_labels();
        let mut parents: Vec<usize> = Vec::new();
        refill(&mut parents, n, usize::MAX);
        Self::over(graph, parents, VecDeque::new(), Ghost(None))
    }

    /// Emits the next vertex, or `None` once every vertex of the view has
    /// been emitted. When a component is exhausted, the first vertex in
    /// the view's own order that is still undiscovered begins the next.
    pub fn next(&mut self) -> (out: Option<TraversalNode>)
        requires
            old(self).wf(),
        ensures
            final(self).wf(),
            final(self).graph() == old(self).graph(),
            final(self).state() == old(self).state().step(old(self).graph()),
            out == old(self).state().out(),
    {
        proof {
            lemma_seeded(self.graph, self.state());
            lemma_seeded_sound(self.graph, self.state());
            lemma_next_root(self.parents@, self.vertex_order@, self.cursor as nat);
        }
        if self.queue.len() == 0 {
            let mut found = false;
            while !found && self.cursor < self.vertex_order.len()
                invariant
                    self.graph() == old(self).graph(),
                    self.parents@ == old(self).parents@,
                    self.emitted@ == old(self).emitted@,
                    self.vertex_order@ == old(self).vertex_order@,
                    self.queue@ == old(self).queue@,
                    self.queue@.len() == 0,
                    old(self).wf(),
                    old(self).cursor <= self.cursor <= self.vertex_order.len(),
                    next_root(self.parents@, self.vertex_order@, self.cursor as nat) == next_root(
                        old(self).parents@,
                        old(self).vertex_order@,
                        old(self).cursor as nat,
                    ),
                    found ==> self.cursor < self.vertex_order.len() && !discovered(
                        self.parents@,
                        self.vertex_order@[self.cursor as int],
                    ),
                decreases self.vertex_order.len() - self.cursor, if found { 0int } else { 1int },
            {
                let v = self.vertex_order[self.cursor];
                proof {
                    assert(self.graph().vertices().contains(self.vertex_order@[self.cursor as int]));
                }
                if self.parents[v] == usize::MAX {
                    found = true;
                } else {
                    self.cursor += 1;
                }
            }
            if found {
                let v = self.vertex_order[self.cursor];
                proof {
                    assert(self.graph().vertices().contains(self.vertex_order@[self.cursor as int]));
                }
                self.cursor += 1;
                self.parents[v] = v;
                self.queue.push_back(TraversalNode { vertex: v, depth: 0, parent: v });
                proof {
                    assert(self.queue@ =~= seq![root_node(v)]);
                    assert(self.state() == old(self).state().seeded());
                }
            } else {
                proof {
                    assert(self.state() == old(self).state().seeded());
                }
            }
        }
        if self.queue.len() == 0 {
            None
        } else {
            let ghost before = self.state();
            let head = bfs_expand(self.graph, &mut self.parents, &mut self.queue, Ghost(self.emitted@));
            proof {
                self.emitted@ = self.emitted@.push(head);
                let after = self.state();
                lemma_extends_separated(self.graph, before.walk.all(), after.walk.all());
                lemma_step_sound(self.graph, before, after);
                assert forall|k: int| 0 <= k < after.cursor implies discovered(
                    after.walk.parents,
                    #[trigger] after.order[k],
                ) by {
                    assert(discovered(before.walk.parents, before.order[k]));
                    let i = choose|i: int|
                        0 <= i < before.walk.all().len() && (#[trigger] before.walk.all()[i]).vertex
                            == before.order[k];
                    assert(after.walk.all()[i] == before.walk.all()[i]);
                    lemma_node_discovered(
                        self.graph,
                        after.walk.parents,
                        after.walk.all(),
                        after.walk.emitted.len() as int,
                        i,
                    );
                }
            }
            Some(head)
        }
    }

    /// Runs the traversal to its end and returns what it emitted on the way.
    pub fn collect(&mut self) -> (out: Vec<TraversalNode>)
        requires
            old(self).wf(),
        ensures
            final(self).wf(),
            final(self).graph() == old(self).graph(),
            final(self).state().done(),
            final(self).state() == old(self).state().run(old(self).graph(), out@.len() + 1),
            final(self).state().walk.emitted == old(self).state().walk.emitted + out@,
    {
        let mut out: Vec<TraversalNode> = Vec::new();
        loop
            invariant_except_break
                self.state() == old(self).state().run(old(self).graph(), out@.len()),
            invariant
                self.wf(),
                self.graph() == old(self).graph(),
                self.state().walk.emitted == old(self).state().walk.emitted + out@,
            ensures
                self.wf(),
                self.graph() == old(self).graph(),
                self.state().done(),
                self.state() == old(self).state().run(old(self).graph(), out@.len() + 1),
                self.state().walk.emitted == old(self).state().walk.emitted + out@,
            decreases self.graph().label_count() - self.state().walk.emitted.len(),
        {
            let ghost before = self.state();
            proof {
                lemma_seeded(self.graph, before);
            }
            match self.next() {
                Some(node) => {
                    out.push(node);
                    proof {
                        assert(self.state().walk.emitted == before.walk.emitted.push(node));
                        assert(self.state().walk.emitted =~= old(self).state().walk.emitted + out@);
                        self.lemma_discovered_bounded();
                    }
                },
                None => {
                    proof {
                        assert(self.state().walk.emitted == before.walk.emitted);
                        assert(self.state() == before.seeded());
                        assert(self.state().seeded() == self.state());
                    }
                    break ;
                },
            }
        }
        out
    }

    /// Runs the traversal to its end and returns the number of depth-0
    /// emissions on the way. For a traversal that had not begun, that is
    /// the number of connected components if the view is symmetric.
    pub fn component_count(&mut self) -> (count: usize)
        requires
            old(self).wf(),
        ensures
            final(self).wf(),
            final(self).graph() == old(self).graph(),
            final(self).state().done(),
            count == roots(
                final(self).state().walk.emitted.skip(old(self).state().walk.emitted.len() as int),
            ).len(),
            old(self).state().walk.emitted.len() == 0 && symmetric(old(self).graph()) ==> count
                == components(old(self).graph()).len(),
    {
        let nodes = self.collect();
        proof {
            assert(self.state().walk.emitted.skip(old(self).state().walk.emitted.len() as int)
                =~= nodes@);
            if old(self).state().walk.emitted.len() == 0 && symmetric(self.graph()) {
                assert(self.state().walk.emitted =~= nodes@);
                self.lemma_count_components();
            }
        }
        crate::traversal::components::count_roots(&nodes)
    }

    /// The buffers of the traversal as they are, for another traversal to
    /// use.
    pub fn extract_resources(self) -> (out: BFSResources)
        ensures
            out.wf(),
            out.parents() == Some(self.state().walk.parents),
            out.queue() == Some(self.state().walk.queue),
    {
        BFSResources::holding(self.parents, self.queue)
    }

    /// The vertices discovered so far, ascending by label.
    pub fn traversed_iter(&self) -> (out: Vec<usize>)
        ensures
            out@ == marked(self.state().walk.parents),
    {
        marked_labels(&self.parents)
    }

    /// No more vertices are discovered than the view has labels.
    pub proof fn lemma_discovered_bounded(&self)
        requires
            self.wf(),
        ensures
            self.state().walk.emitted.len() + self.state().walk.queue.len() <= self.graph().label_count(),
    {
        let all = self.state().walk.all();
        assert forall|i: int| 0 <= i < all.len() implies (#[trigger] all[i]).vertex
            < self.graph().label_count() by {
            assert(self.graph().vertices().contains(all[i].vertex));
        }
        lemma_distinct_bounded(all, self.graph().label_count());
    }

    /// Once the traversal is done, every vertex of the view has been
    /// emitted exactly once.
    pub proof fn lemma_done_emitted_all(&self)
        requires
            self.wf(),
            self.state().done(),
        ensures
            distinct_vertices(self.state().walk.emitted),
            forall|v: usize|
                mentions(self.state().walk.emitted, v) <==> self.graph().vertices().contains(v),
    {
        let s = self.state();
        let g = self.graph();
        lemma_seeded(g, s);
        lemma_next_root(s.walk.parents, s.order, s.cursor);
        assert(s.walk.all() =~= s.walk.emitted);
        assert forall|v: usize| mentions(s.walk.emitted, v) <==> g.vertices().contains(v) by {
            if mentions(s.walk.emitted, v) {
                let i = choose|i: int|
                    0 <= i < s.walk.emitted.len() && (#[trigger] s.walk.emitted[i]).vertex == v;
                assert(g.vertices().contains(s.walk.all()[i].vertex));
            }
            if g.vertices().contains(v) {
                let k = choose|k: int| 0 <= k < s.order.len() && s.order[k] == v;
                assert(discovered(s.walk.parents, s.order[k]));
            }
        }
    }

    /// Once the traversal of a symmetric view is done, the emissions of
    /// depth 0 are as many as the view has connected components.
    pub proof fn lemma_count_components(&self)
        requires
            self.wf(),
            self.state().done(),
            symmetric(self.graph()),
        ensures
            components(self.graph()).finite(),
            roots(self.state().walk.emitted).len() == components(self.graph()).len(),
    {
        let s = self.state();
        self.lemma_done_emitted_all();
        assert(s.walk.all() =~= s.walk.emitted);
        lemma_roots_count_components(self.graph(), s.walk.emitted);
    }

    /// In a symmetric view, two emitted vertices lie in the same connected
    /// component exactly if the same emission of depth 0 comes last before
    /// both: the emissions from one of depth 0 up to the next are the
    /// vertices of one component.
    pub proof fn lemma_groups_are_components(&self, i: int, j: int)
        requires
            self.wf(),
            symmetric(self.graph()),
            0 <= i < self.state().walk.emitted.len(),
            0 <= j < self.state().walk.emitted.len(),
        ensures
            reachable(
                self.graph(),
                self.state().walk.emitted[i].vertex,
                self.state().walk.emitted[j].vertex,
            ) <==> root_before(self.state().walk.emitted, i) == root_before(
                self.state().walk.emitted,
                j,
            ),
    {
        let all = self.state().walk.all();
        let emitted = self.state().walk.emitted;
        assert(all[0].depth == 0);
        assert(all[i] == emitted[i]);
        assert(all[j] == emitted[j]);
        lemma_root_before_prefix(emitted, all, i);
        lemma_root_before_prefix(emitted, all, j);
        lemma_group_is_component(self.graph(), all, i, j);
    }

    /// Every emission is reached from the last emission of depth 0 at or
    /// before it, symmetric view or not.
    pub proof fn lemma_reached_from_root(&self, i: int)
        requires
            self.wf(),
            0 <= i < self.state().walk.emitted.len(),
        ensures
            0 <= root_before(self.state().walk.emitted, i) <= i,
            self.state().walk.emitted[root_before(self.state().walk.emitted, i)].depth == 0,
            reachable(
                self.graph(),
                self.state().walk.emitted[root_before(self.state().walk.emitted, i)].vertex,
                self.state().walk.emitted[i].vertex,
            ),
    {
        let all = self.state().walk.all();
        let emitted = self.state().walk.emitted;
        assert(all[0].depth == 0);
        assert(all[0] == emitted[0]);
        assert(all[i] == emitted[i]);
        lemma_root_before(emitted, i);
        lemma_root_before_prefix(emitted, all, i);
        assert(tied(self.graph(), all, i));
        assert(all[root_before(emitted, i)] == emitted[root_before(emitted, i)]);
    }

    /// The emissions of depth 0 come in the order of the view's vertices:
    /// of two of them, neither the first emission of all, the vertex of
    /// the earlier one stands earlier among the vertices. The result is
    /// the two positions.
    pub proof fn lemma_roots_in_order(&self, i: int, j: int) -> (at: (int, int))
        requires
            self.wf(),
            0 < i < j < self.state().walk.emitted.len(),
            self.state().walk.emitted[i].depth == 0,
            self.state().walk.emitted[j].depth == 0,
        ensures
            0 <= at.0 < at.1 < self.graph().vertices().len(),
            self.graph().vertices()[at.0] == self.state().walk.emitted[i].vertex,
            self.graph().vertices()[at.1] == self.state().walk.emitted[j].vertex,
    {
        let all = self.state().walk.all();
        assert(all[i] == self.state().walk.emitted[i]);
        assert(all[j] == self.state().walk.emitted[j]);
        lemma_roots_in_order(self.state().order, all, i, j)
    }

    /// A traversal that has not begun emits the first vertex of the view
    /// first.
    pub proof fn lemma_first_root(graph: &G)
        requires
            traversable(graph),
            graph.vertices().len() > 0,
        ensures
            BFSFullState::start(graph.label_count(), graph.vertices()).out() == Some(
                root_node(graph.vertices()[0]),
            ),
    {
        let s = BFSFullState::start(graph.label_count(), graph.vertices());
        assert(graph.vertices().contains(graph.vertices()[0]));
        assert(!discovered(s.walk.parents, s.order[0]));
        assert(next_root(s.walk.parents, s.order, 0) == 0);
    }
}

} // verus!
