//! Depth-first traversal of every component of a view, in pre-order or in
//! post-order.

use crate::combinators::{adjacent, symmetric, traversable, ExactCombinator, ViewCombinator};
use crate::reach::{components, lemma_reach_self, lemma_reach_stays, lemma_reach_step, reachable};
use crate::traversal::breadth_first::targets_of;
use crate::traversal::components::{
    beyond_reach, first_free, grouped, in_turn, lemma_group_is_component, lemma_in_turn_grows,
    lemma_root_before, lemma_root_before_prefix, lemma_roots_count_components,
    lemma_roots_in_order, lemma_same_roots, picked, root_before, roots, separated, tied,
};
use crate::traversal::depth_first::{
    awaits, children, drop_stale, lemma_pre_emit, lemma_pre_pop, pre_advance, DFSState,
};
use crate::traversal::full_breadth_first::{lemma_next_root, next_root};
use crate::traversal::post_order::{
    anchored, children_first, is_output, keeps, lemma_emitted_discovered, post_advance, post_next,
    supported, waits_alone,
};
use crate::traversal::refill_flags;
use crate::traversal::recycle::DFSResources;
use crate::traversal::{
    blank, discovered, distinct_vertices, lemma_distinct_bounded, lemma_node_discovered, marked,
    marked_labels, mentions, refill, root_node, TraversalNode,
};
use vstd::prelude::*;

verus! {

/// The state of a full depth-first traversal: a depth-first state, the
/// order in which vertices are tried as roots, and how far into that order
/// the traversal has looked.
pub struct DFSFullState {
    pub walk: DFSState,
    pub order: Seq<usize>,
    pub cursor: nat,
}

impl DFSFullState {
    /// The state of a traversal that has not looked for its first root yet.
    pub open spec fn start(n: nat, order: Seq<usize>, post_order: bool) -> DFSFullState {
        DFSFullState {
            walk: DFSState { stack: Seq::empty(), ..DFSState::start(n, 0, post_order) },
            order,
            cursor: 0,
        }
    }

    /// The state of a traversal that begins with the component of `root`.
    pub open spec fn start_at(n: nat, order: Seq<usize>, root: usize, post_order: bool) -> DFSFullState {
        DFSFullState { walk: DFSState::start(n, root, post_order), order, cursor: 0 }
    }

    /// The state of a pre-order traversal that is ready to emit: the
    /// discovered nodes at the top of the stack are gone, and if that
    /// empties the stack, the next undiscovered vertex of the order is on
    /// it as a root, if there is one.
    pub open spec fn pre_seeded(self) -> DFSFullState {
        let stack = drop_stale(self.walk.parents, self.walk.stack);
        if stack.len() > 0 {
            DFSFullState { walk: DFSState { stack, ..self.walk }, ..self }
        } else {
            let at = next_root(self.walk.parents, self.order, self.cursor);
            if at >= self.order.len() {
                DFSFullState {
                    walk: DFSState { stack, ..self.walk },
                    cursor: self.order.len(),
                    ..self
                }
            } else {
                DFSFullState {
                    walk: DFSState { stack: seq![root_node(self.order[at as int])], ..self.walk },
                    cursor: at + 1,
                    ..self
                }
            }
        }
    }

    /// Whether a pre-order traversal has nothing left to emit.
    pub open spec fn pre_done(self) -> bool {
        self.pre_seeded().walk.stack.len() == 0
    }

    /// What a pre-order traversal emits next.
    pub open spec fn pre_out(self) -> Option<TraversalNode> {
        if self.pre_done() {
            None
        } else {
            Some(self.pre_seeded().walk.stack.last())
        }
    }

    /// The state of a pre-order traversal after its next emission.
    pub open spec fn pre_step<G: ViewCombinator>(self, g: &G) -> DFSFullState {
        let s = self.pre_seeded();
        DFSFullState { walk: s.walk.pre_step(g), ..s }
    }

    /// The state of a pre-order traversal after `count` emissions.
    pub open spec fn pre_run<G: ViewCombinator>(self, g: &G, count: nat) -> DFSFullState
        decreases count,
    {
        if count == 0 {
            self
        } else {
            self.pre_run(g, (count - 1) as nat).pre_step(g)
        }
    }

    /// The invariant of a pre-order traversal: a depth-first forest; the
    /// order is that of the view's vertices, and what the cursor has
    /// passed is discovered or on the stack; a root waits on the stack
    /// alone, and nothing emitted reaches it or any emitted root after it.
    pub open spec fn pre_forest<G: ExactCombinator>(self, g: &G) -> bool {
        &&& self.walk.pre_forest(g)
        &&& self.order == g.vertices()
        &&& self.cursor <= self.order.len()
        &&& forall|k: int|
            0 <= k < self.cursor ==> #[trigger] discovered(self.walk.parents, self.order[k])
                || mentions(self.walk.stack, self.order[k])
        &&& forall|k: int|
            0 <= k < self.walk.stack.len() && (#[trigger] self.walk.stack[k]).depth == 0 ==> {
                &&& self.walk.stack.len() == 1
                &&& !discovered(self.walk.parents, self.walk.stack[k].vertex) ==> beyond_reach(
                    g,
                    self.walk.emitted,
                    self.walk.stack[k].vertex,
                )
            }
        &&& separated(g, self.walk.emitted)
    }

    /// The invariant of a pre-order traversal with what it says of the
    /// components: the nodes from one root up to the next are reached
    /// from that root, as is whatever waits on the stack from the last
    /// root; and every root but one that the traversal began with was the
    /// first undiscovered vertex of the order when its turn came.
    pub open spec fn pre_sound<G: ExactCombinator>(self, g: &G) -> bool {
        &&& self.pre_forest(g)
        &&& grouped(g, self.walk.emitted)
        &&& in_turn(self.order, self.walk.emitted)
        &&& forall|k: int|
            0 <= k < self.walk.stack.len() ==> #[trigger] placed(
                g,
                self.order,
                self.walk.parents,
                self.walk.emitted,
                self.walk.stack[k],
            )
    }

    /// Whether a post-order traversal has come to its end: the stack is
    /// empty and no undiscovered vertex is left in the order.
    pub open spec fn post_done(self) -> bool {
        self.walk.stack.len() == 0 && next_root(self.walk.parents, self.order, self.cursor)
            >= self.order.len()
    }

    /// What one look of a post-order traversal emits.
    pub open spec fn post_emits<G: ViewCombinator>(self, g: &G) -> Option<TraversalNode> {
        if self.walk.stack.len() == 0 {
            None
        } else {
            self.walk.post_emits(g)
        }
    }

    /// The state after one look of a post-order traversal: a look at the
    /// top of the stack, or, if the stack is empty, the next undiscovered
    /// vertex of the order put on it as a root.
    pub open spec fn post_look<G: ViewCombinator>(self, g: &G) -> DFSFullState {
        if self.walk.stack.len() > 0 {
            DFSFullState { walk: self.walk.post_look(g), ..self }
        } else {
            let at = next_root(self.walk.parents, self.order, self.cursor);
            if at >= self.order.len() {
                DFSFullState { cursor: self.order.len(), ..self }
            } else {
                DFSFullState {
                    walk: DFSState { stack: seq![root_node(self.order[at as int])], ..self.walk },
                    cursor: at + 1,
                    ..self
                }
            }
        }
    }

    /// The state after `looks` looks of a post-order traversal.
    pub open spec fn post_run<G: ViewCombinator>(self, g: &G, looks: nat) -> DFSFullState
        decreases looks,
    {
        if looks == 0 {
            self
        } else {
            self.post_run(g, (looks - 1) as nat).post_look(g)
        }
    }

    /// The invariant of a post-order traversal: a post-order forest; the
    /// order is that of the view's vertices, and what the cursor has
    /// passed is discovered or on the stack.
    pub open spec fn post_forest<G: ExactCombinator>(self, g: &G) -> bool {
        &&& self.walk.post_forest(g)
        &&& self.order == g.vertices()
        &&& self.cursor <= self.order.len()
        &&& forall|k: int|
            0 <= k < self.cursor ==> #[trigger] discovered(self.walk.parents, self.order[k])
                || mentions(self.walk.stack, self.order[k])
    }
}

/// What a call of `next` of a full post-order traversal does: `looks`
/// looks that emit nothing, then one that emits `out` and leads to
/// `after`, or finds the traversal at its end.
pub open spec fn full_post_next<G: ViewCombinator>(
    g: &G,
    before: DFSFullState,
    looks: nat,
    after: DFSFullState,
    out: Option<TraversalNode>,
) -> bool {
    &&& forall|j: nat|
        j < looks ==> (#[trigger] before.post_run(g, j)).post_emits(g) is None && !before.post_run(
            g,
            j,
        ).post_done()
    &&& after == before.post_run(g, looks + 1)
    &&& out == before.post_run(g, looks).post_emits(g)
    &&& out is None ==> before.post_run(g, looks).post_done()
}

/// Looks add up.
pub proof fn lemma_full_post_run_add<G: ViewCombinator>(g: &G, s: DFSFullState, a: nat, b: nat)
    ensures
        s.post_run(g, a).post_run(g, b) == s.post_run(g, a + b),
    decreases b,
{
    if b > 0 {
        lemma_full_post_run_add(g, s, a, (b - 1) as nat);
    }
}

/// While the stack is not empty, the looks of a full traversal are those
/// of its depth-first state.
pub proof fn lemma_full_post_run_walk<G: ViewCombinator>(g: &G, s: DFSFullState, looks: nat)
    requires
        forall|j: nat| j < looks ==> (#[trigger] s.walk.post_run(g, j)).stack.len() > 0,
    ensures
        s.post_run(g, looks) == (DFSFullState { walk: s.walk.post_run(g, looks), ..s }),
    decreases looks,
{
    if looks > 0 {
        lemma_full_post_run_walk(g, s, (looks - 1) as nat);
        assert(s.walk.post_run(g, (looks - 1) as nat).stack.len() > 0);
    }
}

/// Dropping a discovered node from the top keeps the invariant.
pub proof fn lemma_full_pre_pop<G: ExactCombinator>(g: &G, s: DFSFullState)
    requires
        s.pre_forest(g),
        s.walk.stack.len() > 0,
        discovered(s.walk.parents, s.walk.stack.last().vertex),
    ensures
        (DFSFullState { walk: DFSState { stack: s.walk.stack.drop_last(), ..s.walk }, ..s }).pre_forest(
            g,
        ),
{
    let t = DFSFullState { walk: DFSState { stack: s.walk.stack.drop_last(), ..s.walk }, ..s };
    let top = s.walk.stack.len() - 1;
    lemma_pre_pop(g, s.walk);
    assert forall|k: int| 0 <= k < t.cursor implies #[trigger] discovered(
        t.walk.parents,
        t.order[k],
    ) || mentions(t.walk.stack, t.order[k]) by {
        if !discovered(s.walk.parents, s.order[k]) {
            let j = choose|j: int|
                0 <= j < s.walk.stack.len() && (#[trigger] s.walk.stack[j]).vertex == s.order[k];
            assert(j != top);
            assert(t.walk.stack[j].vertex == s.order[k]);
        }
    }
    assert forall|k: int|
        0 <= k < t.walk.stack.len() && (#[trigger] t.walk.stack[k]).depth == 0 implies {
        &&& t.walk.stack.len() == 1
        &&& !discovered(t.walk.parents, t.walk.stack[k].vertex) ==> beyond_reach(
            g,
            t.walk.emitted,
            t.walk.stack[k].vertex,
        )
    } by {
        assert(t.walk.stack[k] == s.walk.stack[k]);
    }
}

/// Dropping every discovered node from the top keeps the invariant.
pub proof fn lemma_full_pre_settle<G: ExactCombinator>(g: &G, s: DFSFullState)
    requires
        s.pre_forest(g),
    ensures
        (DFSFullState {
            walk: DFSState { stack: drop_stale(s.walk.parents, s.walk.stack), ..s.walk },
            ..s
        }).pre_forest(g),
        drop_stale(s.walk.parents, s.walk.stack).len() > 0 ==> !discovered(
            s.walk.parents,
            drop_stale(s.walk.parents, s.walk.stack).last().vertex,
        ),
    decreases s.walk.stack.len(),
{
    if s.walk.stack.len() > 0 && discovered(s.walk.parents, s.walk.stack.last().vertex) {
        lemma_full_pre_pop(g, s);
        lemma_full_pre_settle(
            g,
            DFSFullState { walk: DFSState { stack: s.walk.stack.drop_last(), ..s.walk }, ..s },
        );
    } else {
        assert(drop_stale(s.walk.parents, s.walk.stack) == s.walk.stack);
        assert((DFSFullState { walk: DFSState { stack: s.walk.stack, ..s.walk }, ..s }) == s);
    }
}

/// Getting ready to emit keeps the invariant.
pub proof fn lemma_full_pre_seeded<G: ExactCombinator>(g: &G, s: DFSFullState)
    requires
        s.pre_forest(g),
    ensures
        s.pre_seeded().pre_forest(g),
        s.pre_seeded().walk.emitted == s.walk.emitted,
        s.pre_seeded().walk.parents == s.walk.parents,
        s.pre_seeded().walk.stack.len() > 0 ==> !discovered(
            s.walk.parents,
            s.pre_seeded().walk.stack.last().vertex,
        ),
        s.pre_seeded().walk.stack.len() == 0 ==> s.pre_seeded().cursor == s.order.len(),
{
    lemma_full_pre_settle(g, s);
    let st = drop_stale(s.walk.parents, s.walk.stack);
    let m = DFSFullState { walk: DFSState { stack: st, ..s.walk }, ..s };
    if st.len() == 0 {
        lemma_next_root(s.walk.parents, s.order, s.cursor);
        let at = next_root(s.walk.parents, s.order, s.cursor);
        let t = s.pre_seeded();
        if at < s.order.len() {
            let root = s.order[at as int];
            assert(t.walk.stack[0] == root_node(root));
            assert(g.vertices().contains(root));
            assert(awaits(g, t.walk.emitted, t.walk.stack[0]));
            assert(mentions(t.walk.stack, root));
            assert forall|i: int, w: usize|
                0 <= i < t.walk.emitted.len() && adjacent(
                    g,
                    (#[trigger] t.walk.emitted[i]).vertex,
                    w,
                ) implies #[trigger] discovered(t.walk.parents, w) || mentions(t.walk.stack, w) by {
                assert(discovered(m.walk.parents, w) || mentions(m.walk.stack, w));
                if mentions(m.walk.stack, w) {
                    let j = choose|j: int|
                        0 <= j < m.walk.stack.len() && (#[trigger] m.walk.stack[j]).vertex == w;
                }
            }
            assert forall|k: int| 0 <= k < t.cursor implies #[trigger] discovered(
                t.walk.parents,
                t.order[k],
            ) || mentions(t.walk.stack, t.order[k]) by {
                if k < s.cursor {
                    assert(discovered(m.walk.parents, m.order[k]) || mentions(
                        m.walk.stack,
                        m.order[k],
                    ));
                    if mentions(m.walk.stack, m.order[k]) {
                        let j = choose|j: int|
                            0 <= j < m.walk.stack.len() && (#[trigger] m.walk.stack[j]).vertex
                                == m.order[k];
                    }
                } else if k < at {
                    assert(discovered(s.walk.parents, s.order[k]));
                }
            }
            let inside = |v: usize| discovered(s.walk.parents, v);
            assert forall|u: usize, v: usize| inside(u) && #[trigger] adjacent(
                g,
                u,
                v,
            ) implies inside(v) by {
                let i = choose|i: int|
                    0 <= i < s.walk.emitted.len() && (#[trigger] s.walk.emitted[i]).vertex == u;
                assert(adjacent(g, m.walk.emitted[i].vertex, v));
                assert(discovered(m.walk.parents, v) || mentions(m.walk.stack, v));
                if mentions(m.walk.stack, v) {
                    let j = choose|j: int|
                        0 <= j < m.walk.stack.len() && (#[trigger] m.walk.stack[j]).vertex == v;
                }
            }
            assert forall|i: int| 0 <= i < t.walk.emitted.len() implies !reachable(
                g,
                (#[trigger] t.walk.emitted[i]).vertex,
                root,
            ) by {
                lemma_node_discovered(
                    g,
                    s.walk.parents,
                    s.walk.emitted,
                    s.walk.emitted.len() as int,
                    i,
                );
                if reachable(g, t.walk.emitted[i].vertex, root) {
                    lemma_reach_stays(g, inside, t.walk.emitted[i].vertex, root);
                }
            }
        } else {
            assert forall|k: int| 0 <= k < s.order.len() implies #[trigger] discovered(
                s.walk.parents,
                s.order[k],
            ) || mentions(st, s.order[k]) by {
                if k < s.cursor {
                    assert(discovered(m.walk.parents, m.order[k]) || mentions(
                        m.walk.stack,
                        m.order[k],
                    ));
                }
            }
        }
    }
}

/// Emitting the undiscovered node at the top keeps the invariant.
pub proof fn lemma_full_pre_emit<G: ExactCombinator>(g: &G, s: DFSFullState)
    requires
        s.pre_forest(g),
        s.walk.stack.len() > 0,
        !discovered(s.walk.parents, s.walk.stack.last().vertex),
    ensures
        (DFSFullState { walk: s.walk.pre_step(g), ..s }).pre_forest(g),
{
    lemma_pre_emit(g, s.walk);
    let t = DFSFullState { walk: s.walk.pre_step(g), ..s };
    let node = s.walk.stack.last();
    let top = s.walk.stack.len() - 1;
    let e = s.walk.emitted.len() as int;
    let base = s.walk.stack.drop_last();
    assert(t.walk.emitted =~= s.walk.emitted.push(node));
    assert forall|k: int| 0 <= k < t.cursor implies #[trigger] discovered(
        t.walk.parents,
        t.order[k],
    ) || mentions(t.walk.stack, t.order[k]) by {
        if discovered(s.walk.parents, s.order[k]) {
            assert(discovered(t.walk.parents, t.order[k]));
        } else {
            let j = choose|j: int|
                0 <= j < s.walk.stack.len() && (#[trigger] s.walk.stack[j]).vertex == s.order[k];
            if j == top {
                assert(discovered(t.walk.parents, t.order[k]));
            } else {
                assert(t.walk.stack[j] == s.walk.stack[j]);
            }
        }
    }
    assert forall|k: int|
        0 <= k < t.walk.stack.len() && (#[trigger] t.walk.stack[k]).depth == 0 implies {
        &&& t.walk.stack.len() == 1
        &&& !discovered(t.walk.parents, t.walk.stack[k].vertex) ==> beyond_reach(
            g,
            t.walk.emitted,
            t.walk.stack[k].vertex,
        )
    } by {
        if k < base.len() {
            assert(t.walk.stack[k] == s.walk.stack[k]);
            assert(s.walk.stack.len() == 1);
        }
    }
    assert forall|i: int, r: int|
        0 <= i < r < t.walk.emitted.len() && (#[trigger] t.walk.emitted[r]).depth == 0 implies !reachable(
        g,
        (#[trigger] t.walk.emitted[i]).vertex,
        t.walk.emitted[r].vertex,
    ) by {
        assert(t.walk.emitted[i] == s.walk.emitted[i]);
        if r < e {
            assert(t.walk.emitted[r] == s.walk.emitted[r]);
        } else {
            assert(s.walk.stack[top].depth == 0);
        }
    }
}

/// A node below depth 0 is reached from the last root among `emitted`.
pub open spec fn held<G: ViewCombinator>(
    g: &G,
    emitted: Seq<TraversalNode>,
    node: TraversalNode,
) -> bool {
    node.depth != 0 ==> emitted.len() > 0 && reachable(
        g,
        emitted[root_before(emitted, emitted.len() - 1)].vertex,
        node.vertex,
    )
}

/// A node on the stack is in its place: below depth 0 it is reached from
/// the last emitted root; an undiscovered root was picked in the turn of
/// `order`, unless it is the first node of all.
pub open spec fn placed<G: ViewCombinator>(
    g: &G,
    order: Seq<usize>,
    parents: Seq<usize>,
    emitted: Seq<TraversalNode>,
    node: TraversalNode,
) -> bool {
    &&& held(g, emitted, node)
    &&& !discovered(parents, node.vertex) ==> picked(
        order,
        emitted.push(node),
        emitted.len() as int,
    )
}

/// The stack without the discovered nodes at its top is the lower part
/// of the stack.
pub proof fn lemma_drop_stale_below(parents: Seq<usize>, stack: Seq<TraversalNode>)
    ensures
        drop_stale(parents, stack).len() <= stack.len(),
        forall|k: int|
            0 <= k < drop_stale(parents, stack).len() ==> #[trigger] drop_stale(parents, stack)[k]
                == stack[k],
    decreases stack.len(),
{
    if stack.len() > 0 && discovered(parents, stack.last().vertex) {
        lemma_drop_stale_below(parents, stack.drop_last());
    }
}

/// Getting ready to emit keeps what the invariant says of the components.
pub proof fn lemma_full_pre_seeded_sound<G: ExactCombinator>(g: &G, s: DFSFullState)
    requires
        s.pre_sound(g),
    ensures
        s.pre_seeded().pre_sound(g),
{
    lemma_full_pre_seeded(g, s);
    lemma_drop_stale_below(s.walk.parents, s.walk.stack);
    let st = drop_stale(s.walk.parents, s.walk.stack);
    let t = s.pre_seeded();
    let e = s.walk.emitted.len() as int;
    if st.len() > 0 {
        assert forall|k: int| 0 <= k < t.walk.stack.len() implies #[trigger] placed(
            g,
            t.order,
            t.walk.parents,
            t.walk.emitted,
            t.walk.stack[k],
        ) by {
            assert(t.walk.stack[k] == s.walk.stack[k]);
            assert(placed(g, s.order, s.walk.parents, s.walk.emitted, s.walk.stack[k]));
        }
    } else {
        lemma_next_root(s.walk.parents, s.order, s.cursor);
        let at = next_root(s.walk.parents, s.order, s.cursor);
        if at < s.order.len() {
            let node = root_node(s.order[at as int]);
            let longer = s.walk.emitted.push(node);
            assert(t.walk.stack[0] == node);
            assert(longer.take(e) =~= s.walk.emitted);
            assert forall|k: int| 0 <= k < at implies mentions(
                longer.take(e),
                #[trigger] s.order[k],
            ) by {
                if k < s.cursor {
                    assert(discovered(s.walk.parents, s.order[k]) || mentions(
                        s.walk.stack,
                        s.order[k],
                    ));
                    if mentions(s.walk.stack, s.order[k]) {
                        crate::traversal::depth_first::lemma_stale_discovered(
                            s.walk.parents,
                            s.walk.stack,
                            s.order[k],
                        );
                    }
                }
                assert(discovered(s.walk.parents, s.order[k]));
            }
            assert(first_free(s.order, longer, e, at as int));
            assert(placed(g, t.order, t.walk.parents, t.walk.emitted, node));
        }
    }
}

/// Emitting the undiscovered node at the top keeps what the invariant
/// says of the components.
pub proof fn lemma_full_pre_emit_sound<G: ExactCombinator>(g: &G, s: DFSFullState)
    requires
        s.pre_sound(g),
        s.walk.stack.len() > 0,
        !discovered(s.walk.parents, s.walk.stack.last().vertex),
    ensures
        (DFSFullState { walk: s.walk.pre_step(g), ..s }).pre_sound(g),
{
    lemma_full_pre_emit(g, s);
    lemma_pre_emit(g, s.walk);
    let t = DFSFullState { walk: s.walk.pre_step(g), ..s };
    let node = s.walk.stack.last();
    let top = s.walk.stack.len() - 1;
    let e = s.walk.emitted.len() as int;
    let a = s.walk.emitted;
    let b = t.walk.emitted;
    let base = s.walk.stack.drop_last();
    let grown = children(node, targets_of(g, node.vertex));
    assert(b =~= a.push(node));
    assert(placed(g, s.order, s.walk.parents, a, s.walk.stack[top]));
    assert(b[0].depth == 0);
    if node.depth != 0 {
        assert(e > 0);
        lemma_root_before_prefix(a, b, e - 1);
        lemma_root_before(a, e - 1);
        assert(b[root_before(a, e - 1)] == a[root_before(a, e - 1)]);
        assert(root_before(b, e) == root_before(a, e - 1));
    } else {
        lemma_reach_self(g, node.vertex);
    }
    assert(tied(g, b, e));
    assert forall|i: int| 0 <= i < b.len() implies #[trigger] tied(g, b, i) by {
        if i < e {
            assert(tied(g, a, i));
            assert(a[0].depth == 0);
            lemma_root_before(a, i);
            lemma_root_before_prefix(a, b, i);
            assert(b[i] == a[i]);
            assert(b[root_before(a, i)] == a[root_before(a, i)]);
        }
    }
    assert forall|i: int| a.len() <= i < b.len() implies #[trigger] picked(s.order, b, i) by {}
    lemma_in_turn_grows(s.order, a, b);
    assert forall|k: int| 0 <= k < t.walk.stack.len() implies #[trigger] placed(
        g,
        t.order,
        t.walk.parents,
        b,
        t.walk.stack[k],
    ) by {
        let waiting = t.walk.stack[k];
        if k < base.len() {
            assert(waiting == s.walk.stack[k]);
            assert(placed(g, s.order, s.walk.parents, a, s.walk.stack[k]));
            assert(s.walk.stack.len() > 1);
            assert(waiting.depth != 0);
            assert(node.depth != 0);
        } else {
            let w = targets_of(g, node.vertex)[k - base.len()];
            assert(waiting == grown[k - base.len()]);
            assert(waiting == crate::traversal::child_node(node, w));
            assert(targets_of(g, node.vertex).contains(w));
            assert(adjacent(g, node.vertex, w));
            lemma_reach_step(g, b[root_before(b, e)].vertex, node.vertex, w);
        }
        assert(waiting.depth != 0);
        assert(held(g, b, waiting));
    }
}

/// A depth-first traversal of every vertex of a view, one component after
/// the other. A node of depth 0 begins a component.
pub struct DFSFullTraversal<'a, G: ExactCombinator, const POST_ORDER: bool> {
    pub(crate) graph: &'a G,
    pub(crate) parents: Vec<usize>,
    pub(crate) stack: Vec<TraversalNode>,
    pub(crate) vertex_order: Vec<usize>,
    pub(crate) cursor: usize,
    pub(crate) output: Vec<bool>,
    pub(crate) emitted: Ghost<Seq<TraversalNode>>,
    pub(crate) visited: Ghost<Seq<TraversalNode>>,
}

/// Takes the discovered nodes off the top of the stack.
pub(crate) fn settle(parents: &Vec<usize>, stack: &mut Vec<TraversalNode>)
    requires
        forall|k: int| 0 <= k < old(stack)@.len() ==> (#[trigger] old(stack)@[k]).vertex < parents@.len(),
    ensures
        final(stack)@ == drop_stale(parents@, old(stack)@),
{
    loop
        invariant
            forall|k: int| 0 <= k < stack@.len() ==> (#[trigger] stack@[k]).vertex < parents@.len(),
            drop_stale(parents@, stack@) == drop_stale(parents@, old(stack)@),
        ensures
            stack@ == drop_stale(parents@, old(stack)@),
        decreases stack@.len(),
    {
        let len = stack.len();
        if len == 0 {
            break ;
        }
        if parents[stack[len - 1].vertex] == usize::MAX {
            break ;
        }
        let ghost before = stack@;
        stack.pop();
        proof {
            assert(stack@ =~= before.drop_last());
        }
    }
}

impl<'a, G: ExactCombinator, const POST_ORDER: bool> DFSFullTraversal<'a, G, POST_ORDER> {
    /// The view that is traversed.
    pub closed spec fn graph(&self) -> &'a G {
        self.graph
    }

    /// The state of the traversal.
    pub closed spec fn state(&self) -> DFSFullState {
        DFSFullState {
            walk: DFSState {
                parents: self.parents@,
                stack: self.stack@,
                output: self.output@,
                emitted: self.emitted@,
                visited: self.visited@,
            },
            order: self.vertex_order@,
            cursor: self.cursor as nat,
        }
    }

    /// The buffers of the traversal as they are, for another traversal to
    /// use.
    pub fn extract_resources(self) -> (out: DFSResources)
        ensures
            out.wf(),
            out.parents() == Some(self.state().walk.parents),
            out.stack() == Some(self.state().walk.stack),
            out.output() == Some(self.state().walk.output),
    {
        DFSResources::holding(self.parents, self.stack, self.output)
    }

    /// The vertices discovered so far, ascending by label.
    pub fn traversed_iter(&self) -> (out: Vec<usize>)
        ensures
            out@ == marked(self.state().walk.parents),
    {
        marked_labels(&self.parents)
    }

    /// Moves the cursor to the next undiscovered vertex of the order and
    /// returns it, or `None` from the end of the order.
    pub(crate) fn find_root(&mut self) -> (out: Option<usize>)
        requires
            old(self).state().order == old(self).graph().vertices(),
            old(self).state().cursor <= old(self).state().order.len(),
            forall|v: usize|
                old(self).graph().vertices().contains(v) ==> v < old(self).state().walk.parents.len(),
        ensures
            final(self).graph() == old(self).graph(),
            final(self).state() == (DFSFullState {
                cursor: final(self).state().cursor,
                ..old(self).state()
            }),
            final(self).state().cursor == next_root(
                old(self).state().walk.parents,
                old(self).state().order,
                old(self).state().cursor,
            ),
            match out {
                Some(v) => final(self).state().cursor < final(self).state().order.len() && v
                    == final(self).state().order[final(self).state().cursor as int],
                None => final(self).state().cursor == final(self).state().order.len(),
            },
    {
        let mut found = false;
        while !found && self.cursor < self.vertex_order.len()
            invariant
                self.graph() == old(self).graph(),
                self.state() == (DFSFullState { cursor: self.state().cursor, ..old(self).state() }),
                self.state().order == self.graph().vertices(),
                forall|v: usize|
                    self.graph().vertices().contains(v) ==> v < self.state().walk.parents.len(),
                old(self).state().cursor <= self.cursor <= self.vertex_order.len(),
                next_root(self.parents@, self.vertex_order@, self.cursor as nat) == next_root(
                    old(self).state().walk.parents,
                    old(self).state().order,
                    old(self).state().cursor,
                ),
                found ==> self.cursor < self.vertex_order.len() && !discovered(
                    self.parents@,
                    self.vertex_order@[self.cursor as int],
                ),
            decreases
                    self.vertex_order.len() - self.cursor,
                    if found {
                        0int
                    } else {
                        1int
                    },
        {
            let v = self.vertex_order[self.cursor];
            proof {
                assert(self.graph().vertices().contains(self.vertex_order@[self.cursor as int]));
            }
            if self.parents[v] == usize::MAX {
                found = true;
            } else {
                self.cursor += 1;
            }
        }
        if found {
            Some(self.vertex_order[self.cursor])
        } else {
            None
        }
    }
}

impl<'a, G: ExactCombinator> DFSFullTraversal<'a, G, false> {
    /// The invariant of the traversal.
    pub open spec fn wf(&self) -> bool {
        self.state().pre_sound(self.graph())
    }

    /// A traversal over buffers that are set up to begin.
    pub(crate) fn over(
        graph: &'a G,
        parents: Vec<usize>,
        stack: Vec<TraversalNode>,
        output: Vec<bool>,
        Ghost(root): Ghost<Option<usize>>,
    ) -> (out: Self)
        requires
            traversable(graph),
            parents@ == blank(graph.label_count()),
            output@ == Seq::<bool>::empty(),
            match root {
                Some(r) => graph.vertices().contains(r) && stack@ == seq![root_node(r)],
                None => stack@ == Seq::<TraversalNode>::empty(),
            },
        ensures
            out.wf(),
            out.graph() == graph,
            out.state() == match root {
                Some(r) => DFSFullState::start_at(graph.label_count(), graph.vertices(), r, false),
                None => DFSFullState::start(graph.label_count(), graph.vertices(), false),
            },
    {
        let vertex_order = graph.vertex_iterator();
        let out = Self {
            graph,
            parents,
            stack,
            vertex_order,
            cursor: 0,
            output,
            emitted: Ghost(Seq::empty()),
            visited: Ghost(Seq::empty()),
        };
        proof {
            assert(parents@.len() == parents.len());
            let s = out.state();
            match root {
                Some(r) => {
                    crate::traversal::depth_first::DFSTraversal::<G, false>::lemma_start(graph, r);
                    assert(s.walk == DFSState::start(graph.label_count(), r, false));
                },
                None => {
                    assert(s == DFSFullState::start(graph.label_count(), graph.vertices(), false));
                },
            }
        }
        out
    }

    /// A traversal that has not begun.
    pub fn new(graph: &'a G) -> (out: Self)
        requires
            traversable(graph),
        ensures
            out.wf(),
            out.graph() == graph,
            out.state() == DFSFullState::start(graph.label_count(), graph.vertices(), false),
    {
        let n = graph.num_v_labels();
        let mut parents: Vec<usize> = Vec::new();
        refill(&mut parents, n, usize::MAX);
        Self::over(graph, parents, Vec::new(), Vec::new(), Ghost(None))
    }

    /// Emits the next vertex in depth-first pre-order, or `None` once
    /// every vertex of the view has been emitted. When a component is
    /// exhausted, the first vertex in the view's own order that is still
    /// undiscovered begins the next.
    pub fn next(&mut self) -> (out: Option<TraversalNode>)
        requires
            old(self).wf(),
        ensures
            final(self).wf(),
            final(self).graph() == old(self).graph(),
            final(self).state() == old(self).state().pre_step(old(self).graph()),
            out == old(self).state().pre_out(),
    {
        proof {
            lemma_full_pre_seeded(self.graph, self.state());
            lemma_full_pre_seeded_sound(self.graph, self.state());
            lemma_full_pre_settle(self.graph, self.state());
            assert forall|k: int| 0 <= k < self.stack@.len() implies (#[trigger] self.stack@[k]).vertex
                < self.parents@.len() by {
                assert(self.graph().vertices().contains(self.stack@[k].vertex));
            }
        }
        settle(&self.parents, &mut self.stack);
        if self.stack.len() == 0 {
            match self.find_root() {
                Some(v) => {
                    proof {
                        assert(self.state().cursor < self.state().order.len());
                        assert(self.vertex_order@.len() == self.vertex_order.len());
                    }
                    self.cursor += 1;
                    self.stack.push(TraversalNode { vertex: v, depth: 0, parent: v });
                    proof {
                        assert(self.stack@ =~= seq![root_node(v)]);
                    }
                },
                None => {},
            }
        }
        proof {
            assert(self.state() == old(self).state().pre_seeded());
            let s = self.state();
            if s.walk.stack.len() > 0 {
                assert(drop_stale(s.walk.parents, s.walk.stack) == s.walk.stack);
                lemma_full_pre_emit(self.graph, s);
                lemma_full_pre_emit_sound(self.graph, s);
            } else {
                assert(s.walk.pre_step(self.graph()) == s.walk);
            }
        }
        let ghost ready = self.state().walk;
        let out = pre_advance(self.graph, &mut self.parents, &mut self.stack, Ghost(ready));
        proof {
            if out is Some {
                self.emitted@ = self.emitted@.push(out->0);
            }
        }
        out
    }

    /// Runs the traversal to its end and returns what it emitted on the way.
    pub fn collect(&mut self) -> (out: Vec<TraversalNode>)
        requires
            old(self).wf(),
        ensures
            final(self).wf(),
            final(self).graph() == old(self).graph(),
            final(self).state().pre_done(),
            final(self).state() == old(self).state().pre_run(old(self).graph(), out@.len() + 1),
            final(self).state().walk.emitted == old(self).state().walk.emitted + out@,
    {
        let mut out: Vec<TraversalNode> = Vec::new();
        loop
            invariant_except_break
                self.state() == old(self).state().pre_run(old(self).graph(), out@.len()),
            invariant
                self.wf(),
                self.graph() == old(self).graph(),
                self.state().walk.emitted == old(self).state().walk.emitted + out@,
            ensures
                self.wf(),
                self.graph() == old(self).graph(),
                self.state().pre_done(),
                self.state() == old(self).state().pre_run(old(self).graph(), out@.len() + 1),
                self.state().walk.emitted == old(self).state().walk.emitted + out@,
            decreases self.graph().label_count() - self.state().walk.emitted.len(),
        {
            let ghost before = self.state();
            proof {
                lemma_full_pre_seeded(self.graph, before);
                self.lemma_discovered_bounded();
            }
            match self.next() {
                Some(node) => {
                    out.push(node);
                    proof {
                        assert(self.state().walk.emitted == before.walk.emitted.push(node));
                        assert(self.state().walk.emitted =~= old(self).state().walk.emitted + out@);
                        self.lemma_discovered_bounded();
                    }
                },
                None => {
                    proof {
                        assert(self.state().walk.emitted == before.walk.emitted);
                        assert(self.state().walk.stack.len() == 0);
                        assert(self.state().cursor == self.state().order.len());
                        assert(next_root(
                            self.state().walk.parents,
                            self.state().order,
                            self.state().cursor,
                        ) == self.state().order.len());
                    }
                    break ;
                },
            }
        }
        out
    }

    /// Runs the traversal to its end and returns the number of depth-0
    /// emissions on the way. For a traversal that had not begun, that is
    /// the number of connected components if the view is symmetric.
    pub fn component_count(&mut self) -> (count: usize)
        requires
            old(self).wf(),
        ensures
            final(self).wf(),
            final(self).graph() == old(self).graph(),
            final(self).state().pre_done(),
            exists|emissions: nat|
                final(self).state() == old(self).state().pre_run(old(self).graph(), emissions),
            count == roots(
                final(self).state().walk.emitted.skip(old(self).state().walk.emitted.len() as int),
            ).len(),
            old(self).state().walk.emitted.len() == 0 && symmetric(old(self).graph()) ==> count
                == components(old(self).graph()).len(),
    {
        let nodes = self.collect();
        proof {
            assert(self.state().walk.emitted.skip(old(self).state().walk.emitted.len() as int)
                =~= nodes@);
            if old(self).state().walk.emitted.len() == 0 && symmetric(self.graph()) {
                assert(self.state().walk.emitted =~= nodes@);
                self.lemma_count_components();
            }
        }
        crate::traversal::components::count_roots(&nodes)
    }

    /// No more vertices are emitted than the view has labels.
    pub proof fn lemma_discovered_bounded(&self)
        requires
            self.wf(),
        ensures
            self.state().walk.emitted.len() <= self.graph().label_count(),
    {
        let all = self.state().walk.emitted;
        assert forall|i: int| 0 <= i < all.len() implies (#[trigger] all[i]).vertex
            < self.graph().label_count() by {
            assert(self.graph().vertices().contains(all[i].vertex));
        }
        lemma_distinct_bounded(all, self.graph().label_count());
    }

    /// Once the traversal is done, every vertex of the view has been
    /// emitted exactly once.
    pub proof fn lemma_done_emitted_all(&self)
        requires
            self.wf(),
            self.state().pre_done(),
        ensures
            distinct_vertices(self.state().walk.emitted),
            forall|v: usize|
                mentions(self.state().walk.emitted, v) <==> self.graph().vertices().contains(v),
    {
        let s = self.state();
        let g = self.graph();
        lemma_full_pre_seeded(g, s);
        let t = s.pre_seeded();
        assert forall|v: usize| mentions(s.walk.emitted, v) <==> g.vertices().contains(v) by {
            if g.vertices().contains(v) {
                let k = choose|k: int| 0 <= k < t.order.len() && t.order[k] == v;
                assert(discovered(t.walk.parents, t.order[k]) || mentions(
                    t.walk.stack,
                    t.order[k],
                ));
                if mentions(t.walk.stack, v) {
                    let j = choose|j: int|
                        0 <= j < t.walk.stack.len() && (#[trigger] t.walk.stack[j]).vertex == v;
                }
                assert(discovered(s.walk.parents, v));
            }
        }
    }

    /// Once the traversal of a symmetric view is done, the emissions of
    /// depth 0 are as many as the view has connected components.
    pub proof fn lemma_count_components(&self)
        requires
            self.wf(),
            self.state().pre_done(),
            symmetric(self.graph()),
        ensures
            components(self.graph()).finite(),
            roots(self.state().walk.emitted).len() == components(self.graph()).len(),
    {
        self.lemma_done_emitted_all();
        lemma_roots_count_components(self.graph(), self.state().walk.emitted);
    }

    /// In a symmetric view, two emitted vertices lie in the same connected
    /// component exactly if the same emission of depth 0 comes last before
    /// both: the emissions from one of depth 0 up to the next are the
    /// vertices of one component.
    pub proof fn lemma_groups_are_components(&self, i: int, j: int)
        requires
            self.wf(),
            symmetric(self.graph()),
            0 <= i < self.state().walk.emitted.len(),
            0 <= j < self.state().walk.emitted.len(),
        ensures
            reachable(
                self.graph(),
                self.state().walk.emitted[i].vertex,
                self.state().walk.emitted[j].vertex,
            ) <==> root_before(self.state().walk.emitted, i) == root_before(
                self.state().walk.emitted,
                j,
            ),
    {
        assert(self.state().walk.emitted[0].depth == 0);
        lemma_group_is_component(self.graph(), self.state().walk.emitted, i, j);
    }

    /// Every emission is reached from the last emission of depth 0 at or
    /// before it, symmetric view or not.
    pub proof fn lemma_reached_from_root(&self, i: int)
        requires
            self.wf(),
            0 <= i < self.state().walk.emitted.len(),
        ensures
            0 <= root_before(self.state().walk.emitted, i) <= i,
            self.state().walk.emitted[root_before(self.state().walk.emitted, i)].depth == 0,
            reachable(
                self.graph(),
                self.state().walk.emitted[root_before(self.state().walk.emitted, i)].vertex,
                self.state().walk.emitted[i].vertex,
            ),
    {
        let emitted = self.state().walk.emitted;
        assert(emitted[0].depth == 0);
        lemma_root_before(emitted, i);
        assert(tied(self.graph(), emitted, i));
    }

    /// The emissions of depth 0 come in the order of the view's vertices:
    /// of two of them, neither the first emission of all, the vertex of
    /// the earlier one stands earlier among the vertices. The result is
    /// the two positions.
    pub proof fn lemma_roots_in_order(&self, i: int, j: int) -> (at: (int, int))
        requires
            self.wf(),
            0 < i < j < self.state().walk.emitted.len(),
            self.state().walk.emitted[i].depth == 0,
            self.state().walk.emitted[j].depth == 0,
        ensures
            0 <= at.0 < at.1 < self.graph().vertices().len(),
            self.graph().vertices()[at.0] == self.state().walk.emitted[i].vertex,
            self.graph().vertices()[at.1] == self.state().walk.emitted[j].vertex,
    {
        lemma_roots_in_order(self.state().order, self.state().walk.emitted, i, j)
    }

    /// A traversal that has not begun emits the first vertex of the view
    /// first.
    pub proof fn lemma_first_root(graph: &G)
        requires
            traversable(graph),
            graph.vertices().len() > 0,
        ensures
            DFSFullState::start(graph.label_count(), graph.vertices(), false).pre_out() == Some(
                root_node(graph.vertices()[0]),
            ),
    {
        let s = DFSFullState::start(graph.label_count(), graph.vertices(), false);
        assert(graph.vertices().contains(graph.vertices()[0]));
        assert(!discovered(s.walk.parents, s.order[0]));
        assert(next_root(s.walk.parents, s.order, 0) == 0);
        assert(drop_stale(s.walk.parents, s.walk.stack) == s.walk.stack);
    }
}

impl<'a, G: ExactCombinator> DFSFullTraversal<'a, G, true> {
    /// The invariant of the traversal.
    pub open spec fn wf(&self) -> bool {
        self.state().post_forest(self.graph())
    }

    /// A traversal over buffers that are set up to begin.
    pub(crate) fn over(
        graph: &'a G,
        parents: Vec<usize>,
        stack: Vec<TraversalNode>,
        output: Vec<bool>,
        Ghost(root): Ghost<Option<usize>>,
    ) -> (out: Self)
        requires
            traversable(graph),
            parents@ == blank(graph.label_count()),
            output@ == Seq::new(graph.label_count(), |i: int| false),
            match root {
                Some(r) => graph.vertices().contains(r) && stack@ == seq![root_node(r)],
                None => stack@ == Seq::<TraversalNode>::empty(),
            },
        ensures
            out.wf(),
            out.graph() == graph,
            out.state() == match root {
                Some(r) => DFSFullState::start_at(graph.label_count(), graph.vertices(), r, true),
                None => DFSFullState::start(graph.label_count(), graph.vertices(), true),
            },
    {
        let vertex_order = graph.vertex_iterator();
        let out = Self {
            graph,
            parents,
            stack,
            vertex_order,
            cursor: 0,
            output,
            emitted: Ghost(Seq::empty()),
            visited: Ghost(Seq::empty()),
        };
        proof {
            assert(parents@.len() == parents.len());
            let s = out.state();
            match root {
                Some(r) => {
                    crate::traversal::depth_first::DFSTraversal::<G, true>::lemma_start(graph, r);
                    assert(s.walk == DFSState::start(graph.label_count(), r, true));
                },
                None => {
                    assert(s == DFSFullState::start(graph.label_count(), graph.vertices(), true));
                    assert forall|k: int| 0 <= k < s.walk.stack.len() implies #[trigger] anchored(
                        graph,
                        s.walk,
                        k,
                    ) by {}
                    assert forall|k: int| 0 <= k < s.walk.stack.len() implies #[trigger] supported(
                        s.walk,
                        k,
                    ) by {}
                    assert forall|k: int| 0 <= k < s.walk.stack.len() implies #[trigger] waits_alone(
                        graph,
                        s.walk,
                        k,
                    ) by {}
                },
            }
        }
        out
    }

    /// A traversal that has not begun.
    pub fn new(graph: &'a G) -> (out: Self)
        requires
            traversable(graph),
        ensures
            out.wf(),
            out.graph() == graph,
            out.state() == DFSFullState::start(graph.label_count(), graph.vertices(), true),
    {
        let n = graph.num_v_labels();
        let mut parents: Vec<usize> = Vec::new();
        refill(&mut parents, n, usize::MAX);
        let mut output: Vec<bool> = Vec::new();
        refill_flags(&mut output, n);
        Self::over(graph, parents, Vec::new(), output, Ghost(None))
    }

    /// Emits the next vertex in depth-first post-order, or `None` once
    /// every vertex of the view has been emitted. When a component is
    /// exhausted, the first vertex in the view's own order that is still
    /// undiscovered begins the next.
    pub fn next(&mut self) -> (out: Option<TraversalNode>)
        requires
            old(self).wf(),
        ensures
            final(self).wf(),
            final(self).graph() == old(self).graph(),
            exists|looks: nat|
                full_post_next(old(self).graph(), old(self).state(), looks, final(self).state(), out),
            out matches Some(node) ==> final(self).state().walk.emitted
                == old(self).state().walk.emitted.push(node),
            out is None ==> final(self).state().walk.emitted == old(self).state().walk.emitted
                && final(self).state().post_done(),
    {
        let ghost mut total: nat = 0;
        loop
            invariant
                self.wf(),
                self.graph() == old(self).graph(),
                self.state() == old(self).state().post_run(old(self).graph(), total),
                self.state().walk.emitted == old(self).state().walk.emitted,
                forall|j: nat|
                    j < total ==> (#[trigger] old(self).state().post_run(
                        old(self).graph(),
                        j,
                    )).post_emits(old(self).graph()) is None && !old(self).state().post_run(
                        old(self).graph(),
                        j,
                    ).post_done(),
            decreases self.state().order.len() - self.state().cursor,
        {
            let ghost start = self.state();
            let ghost g = self.graph;
            let (out, Ghost(after)) = post_advance(
                self.graph,
                &mut self.parents,
                &mut self.stack,
                &mut self.output,
                Ghost(start.walk),
            );
            proof {
                self.emitted@ = after.emitted;
                self.visited@ = after.visited;
            }
            let ghost looks = choose|looks: nat| post_next(g, start.walk, looks, after, out);
            proof {
                lemma_full_post_run_walk(g, start, looks);
                let reached = DFSFullState { walk: start.walk.post_run(g, looks), ..start };
                assert(start.post_run(g, looks) == reached);
                assert forall|j: nat| j < total + looks implies (#[trigger] old(self).state().post_run(
                    g,
                    j,
                )).post_emits(g) is None && !old(self).state().post_run(g, j).post_done() by {
                    if j >= total {
                        let d = (j - total) as nat;
                        lemma_full_post_run_add(g, old(self).state(), total, d);
                        lemma_full_post_run_walk(g, start, d);
                        assert(start.walk.post_run(g, d).post_emits(g) is None);
                        assert(start.walk.post_run(g, d).stack.len() > 0);
                    }
                }
                lemma_full_post_run_add(g, old(self).state(), total, looks);
                lemma_full_post_run_add(g, old(self).state(), total, looks + 1);
                assert(keeps(start.walk, after));
                assert forall|k: int| 0 <= k < start.cursor implies #[trigger] discovered(
                    after.parents,
                    start.order[k],
                ) || mentions(after.stack, start.order[k]) by {
                    assert(discovered(start.walk.parents, start.order[k]) || mentions(
                        start.walk.stack,
                        start.order[k],
                    ));
                }
            }
            if out.is_some() {
                proof {
                    assert(start.post_run(g, looks).post_emits(g) == out);
                    assert(self.state() == start.post_run(g, looks + 1));
                    assert(full_post_next(
                        g,
                        old(self).state(),
                        total + looks,
                        self.state(),
                        out,
                    ));
                }
                return out;
            }
            proof {
                assert(start.walk.post_run(g, looks).stack.len() == 0);
                assert(after == start.walk.post_run(g, looks));
                assert(self.state() == start.post_run(g, looks));
                lemma_next_root(self.parents@, self.vertex_order@, self.cursor as nat);
                assert forall|v: usize| self.graph().vertices().contains(v) implies v
                    < self.state().walk.parents.len() by {}
            }
            let ghost settled = self.state();
            match self.find_root() {
                Some(v) => {
                    proof {
                        assert(self.state().cursor < self.state().order.len());
                        assert(self.vertex_order@.len() == self.vertex_order.len());
                    }
                    self.cursor += 1;
                    self.stack.push(TraversalNode { vertex: v, depth: 0, parent: v });
                    proof {
                        assert(self.stack@ =~= seq![root_node(v)]);
                        assert(self.state() == settled.post_look(g));
                        assert(settled.post_emits(g) is None);
                        assert(!settled.post_done());
                        total = total + looks + 1;
                        let s = self.state();
                        assert(s.walk.stack[0] == root_node(v));
                        assert(g.vertices().contains(v));
                        assert(awaits(g, s.walk.visited, s.walk.stack[0]));
                        assert(mentions(s.walk.stack, v));
                        assert forall|k: int| 0 <= k < s.walk.stack.len() implies #[trigger] anchored(
                            g,
                            s.walk,
                            k,
                        ) by {}
                        assert forall|k: int| 0 <= k < s.walk.stack.len() implies #[trigger] supported(
                            s.walk,
                            k,
                        ) by {}
                        let inside = |x: usize| discovered(settled.walk.parents, x);
                        assert forall|a: usize, b: usize| inside(a) && #[trigger] adjacent(
                            g,
                            a,
                            b,
                        ) implies inside(b) by {
                            if !is_output(settled.walk.output, a) {
                                assert(mentions(settled.walk.stack, a));
                                let j = choose|j: int|
                                    0 <= j < settled.walk.stack.len() && (
                                    #[trigger] settled.walk.stack[j]).vertex == a;
                            }
                            assert(mentions(settled.walk.emitted, a));
                            let i = choose|i: int|
                                0 <= i < settled.walk.emitted.len() && (
                                #[trigger] settled.walk.emitted[i]).vertex == a;
                            assert(adjacent(g, settled.walk.emitted[i].vertex, b));
                        }
                        assert forall|i: int| 0 <= i < s.walk.visited.len() implies !reachable(
                            g,
                            (#[trigger] s.walk.visited[i]).vertex,
                            v,
                        ) by {
                            lemma_node_discovered(
                                g,
                                settled.walk.parents,
                                settled.walk.visited,
                                settled.walk.visited.len() as int,
                                i,
                            );
                            if reachable(g, s.walk.visited[i].vertex, v) {
                                lemma_reach_stays(g, inside, s.walk.visited[i].vertex, v);
                            }
                        }
                        assert forall|k: int| 0 <= k < s.walk.stack.len() implies #[trigger] waits_alone(
                            g,
                            s.walk,
                            k,
                        ) by {}
                        assert forall|x: usize|
                            #[trigger] discovered(s.walk.parents, x) && !is_output(
                                s.walk.output,
                                x,
                            ) implies mentions(s.walk.stack, x) by {
                            assert(mentions(settled.walk.stack, x));
                            let j = choose|j: int|
                                0 <= j < settled.walk.stack.len() && (
                                #[trigger] settled.walk.stack[j]).vertex == x;
                        }
                        assert forall|k: int| 0 <= k < s.cursor implies #[trigger] discovered(
                            s.walk.parents,
                            s.order[k],
                        ) || mentions(s.walk.stack, s.order[k]) by {
                            if k < settled.cursor {
                                assert(discovered(settled.walk.parents, settled.order[k]) || mentions(
                                    settled.walk.stack,
                                    settled.order[k],
                                ));
                                if mentions(settled.walk.stack, settled.order[k]) {
                                    let j = choose|j: int|
                                        0 <= j < settled.walk.stack.len() && (
                                        #[trigger] settled.walk.stack[j]).vertex == settled.order[k];
                                }
                            } else if k < s.cursor - 1 {
                                assert(discovered(settled.walk.parents, settled.order[k]));
                            }
                        }
                    }
                },
                None => {
                    proof {
                        assert(settled.post_done());
                        assert(settled.post_emits(g) is None);
                        assert(self.state() == settled.post_look(g));
                        assert(full_post_next(
                            g,
                            old(self).state(),
                            total + looks,
                            self.state(),
                            None,
                        ));
                        let s = self.state();
                        assert forall|k: int| 0 <= k < s.cursor implies #[trigger] discovered(
                            s.walk.parents,
                            s.order[k],
                        ) || mentions(s.walk.stack, s.order[k]) by {
                            if k >= settled.cursor {
                                assert(discovered(settled.walk.parents, settled.order[k]));
                            } else {
                                assert(discovered(settled.walk.parents, settled.order[k]) || mentions(
                                    settled.walk.stack,
                                    settled.order[k],
                                ));
                            }
                        }
                    }
                    return None;
                },
            }
        }
    }

    /// Runs the traversal to its end and returns what it emitted on the way.
    pub fn collect(&mut self) -> (out: Vec<TraversalNode>)
        requires
            old(self).wf(),
        ensures
            final(self).wf(),
            final(self).graph() == old(self).graph(),
            final(self).state().post_done(),
            exists|looks: nat|
                final(self).state() == old(self).state().post_run(old(self).graph(), looks),
            final(self).state().walk.emitted == old(self).state().walk.emitted + out@,
    {
        let mut out: Vec<TraversalNode> = Vec::new();
        let ghost mut total: nat = 0;
        loop
            invariant
                self.wf(),
                self.graph() == old(self).graph(),
                self.state() == old(self).state().post_run(old(self).graph(), total),
                self.state().walk.emitted == old(self).state().walk.emitted + out@,
            ensures
                self.state().post_done(),
            decreases self.graph().label_count() - self.state().walk.emitted.len(),
        {
            let ghost before = self.state();
            let more = self.next();
            proof {
                let looks = choose|looks: nat|
                    full_post_next(self.graph(), before, looks, self.state(), more);
                lemma_full_post_run_add(self.graph(), old(self).state(), total, looks + 1);
                total = total + looks + 1;
                self.lemma_discovered_bounded();
            }
            match more {
                Some(node) => {
                    out.push(node);
                    proof {
                        assert(self.state().walk.emitted =~= old(self).state().walk.emitted + out@);
                    }
                },
                None => {
                    break ;
                },
            }
        }
        out
    }

    /// No more vertices are emitted than the view has labels.
    pub proof fn lemma_discovered_bounded(&self)
        requires
            self.wf(),
        ensures
            self.state().walk.emitted.len() <= self.graph().label_count(),
    {
        let s = self.state().walk;
        assert forall|i: int| 0 <= i < s.emitted.len() implies (#[trigger] s.emitted[i]).vertex
            < self.graph().label_count() by {
            lemma_emitted_discovered(self.graph(), s, i);
        }
        lemma_distinct_bounded(s.emitted, self.graph().label_count());
    }

    /// Every emitted vertex comes before the vertex it was discovered from.
    pub proof fn lemma_children_first(&self)
        requires
            self.wf(),
        ensures
            children_first(self.state().walk.emitted),
    {
    }

    /// Once the traversal of a symmetric view is done, the emissions of
    /// depth 0 are as many as the view has connected components.
    pub proof fn lemma_count_components(&self)
        requires
            self.wf(),
            self.state().post_done(),
            symmetric(self.graph()),
        ensures
            components(self.graph()).finite(),
            roots(self.state().walk.emitted).len() == components(self.graph()).len(),
    {
        let s = self.state().walk;
        let g = self.graph();
        self.lemma_done_emitted_all();
        assert forall|x: TraversalNode| s.emitted.contains(x) <==> s.visited.contains(x) by {
            if s.emitted.contains(x) {
                let i = choose|i: int| 0 <= i < s.emitted.len() && s.emitted[i] == x;
                assert(s.visited.contains(s.emitted[i]));
            }
            if s.visited.contains(x) {
                let i = choose|i: int| 0 <= i < s.visited.len() && s.visited[i] == x;
                lemma_node_discovered(g, s.parents, s.visited, s.visited.len() as int, i);
                if !is_output(s.output, x.vertex) {
                    assert(mentions(s.stack, x.vertex));
                    let j = choose|j: int|
                        0 <= j < s.stack.len() && (#[trigger] s.stack[j]).vertex == x.vertex;
                }
                assert(mentions(s.emitted, x.vertex));
                let e = choose|e: int|
                    0 <= e < s.emitted.len() && (#[trigger] s.emitted[e]).vertex == x.vertex;
                assert(s.visited.contains(s.emitted[e]));
                let k = choose|k: int| 0 <= k < s.visited.len() && s.visited[k] == s.emitted[e];
                if k < i {
                    assert(s.visited[k].vertex != s.visited[i].vertex);
                } else if i < k {
                    assert(s.visited[i].vertex != s.visited[k].vertex);
                }
            }
        }
        lemma_same_roots(s.emitted, s.visited);
        assert forall|v: usize| #[trigger] g.vertices().contains(v) implies mentions(
            s.visited,
            v,
        ) by {
            assert(mentions(s.emitted, v));
            let e = choose|e: int| 0 <= e < s.emitted.len() && (#[trigger] s.emitted[e]).vertex == v;
            assert(s.visited.contains(s.emitted[e]));
            let k = choose|k: int| 0 <= k < s.visited.len() && s.visited[k] == s.emitted[e];
            assert(s.visited[k].vertex == v);
        }
        lemma_roots_count_components(g, s.visited);
    }

    /// Runs the traversal to its end and returns the number of depth-0
    /// emissions on the way. For a traversal that had not begun, that is
    /// the number of connected components if the view is symmetric.
    pub fn component_count(&mut self) -> (count: usize)
        requires
            old(self).wf(),
        ensures
            final(self).wf(),
            final(self).graph() == old(self).graph(),
            final(self).state().post_done(),
            exists|looks: nat|
                final(self).state() == old(self).state().post_run(old(self).graph(), looks),
            count == roots(
                final(self).state().walk.emitted.skip(old(self).state().walk.emitted.len() as int),
            ).len(),
            old(self).state().walk.emitted.len() == 0 && symmetric(old(self).graph()) ==> count
                == components(old(self).graph()).len(),
    {
        let nodes = self.collect();
        proof {
            assert(self.state().walk.emitted.skip(old(self).state().walk.emitted.len() as int)
                =~= nodes@);
            if old(self).state().walk.emitted.len() == 0 && symmetric(self.graph()) {
                assert(self.state().walk.emitted =~= nodes@);
                self.lemma_count_components();
            }
        }
        crate::traversal::components::count_roots(&nodes)
    }

    /// Once the traversal is done, every vertex of the view has been
    /// emitted exactly once.
    pub proof fn lemma_done_emitted_all(&self)
        requires
            self.wf(),
            self.state().post_done(),
        ensures
            distinct_vertices(self.state().walk.emitted),
            forall|v: usize|
                mentions(self.state().walk.emitted, v) <==> self.graph().vertices().contains(v),
    {
        let s = self.state();
        let g = self.graph();
        lemma_next_root(s.walk.parents, s.order, s.cursor);
        assert forall|v: usize| mentions(s.walk.emitted, v) <==> g.vertices().contains(v) by {
            if mentions(s.walk.emitted, v) {
                let i = choose|i: int|
                    0 <= i < s.walk.emitted.len() && (#[trigger] s.walk.emitted[i]).vertex == v;
                lemma_emitted_discovered(g, s.walk, i);
                assert(s.walk.visited.contains(s.walk.emitted[i]));
                let k = choose|k: int|
                    0 <= k < s.walk.visited.len() && s.walk.visited[k] == s.walk.emitted[i];
                assert(g.vertices().contains(s.walk.visited[k].vertex));
            }
            if g.vertices().contains(v) {
                let k = choose|k: int| 0 <= k < s.order.len() && s.order[k] == v;
                if k < s.cursor {
                    assert(discovered(s.walk.parents, s.order[k]) || mentions(
                        s.walk.stack,
                        s.order[k],
                    ));
                    if mentions(s.walk.stack, v) {
                        let j = choose|j: int|
                            0 <= j < s.walk.stack.len() && (#[trigger] s.walk.stack[j]).vertex == v;
                    }
                } else {
                    assert(discovered(s.walk.parents, s.order[k]));
                }
                assert(discovered(s.walk.parents, v));
                if !is_output(s.walk.output, v) {
                    assert(mentions(s.walk.stack, v));
                    let j = choose|j: int|
                        0 <= j < s.walk.stack.len() && (#[trigger] s.walk.stack[j]).vertex == v;
                }
            }
        }
    }
}

} // verus!
