//! Walks and reachability in a view.

use crate::combinators::{adjacent, symmetric, ViewCombinator};
use vstd::prelude::*;

verus! {

/// A non-empty sequence of labels in which each is adjacent to the next.
pub open spec fn is_walk<G: ViewCombinator>(g: &G, walk: Seq<usize>) -> bool {
    &&& walk.len() > 0
    &&& forall|i: int| 0 <= i < walk.len() - 1 ==> adjacent(g, #[trigger] walk[i], walk[i + 1])
}

/// Whether a walk leads from `from` to `to`. Every label reaches itself.
pub open spec fn reachable<G: ViewCombinator>(g: &G, from: usize, to: usize) -> bool {
    exists|walk: Seq<usize>| #[trigger] is_walk(g, walk) && walk.first() == from && walk.last() == to
}

/// The labels that `from` reaches.
pub open spec fn component_of<G: ViewCombinator>(g: &G, from: usize) -> Set<usize> {
    Set::new(|to: usize| reachable(g, from, to))
}

/// The connected components of a symmetric view: the distinct sets
/// `component_of(v)` over the vertices `v` of the view.
pub open spec fn components<G: ViewCombinator>(g: &G) -> Set<Set<usize>> {
    Set::new(|c: Set<usize>| exists|v: usize| g.vertices().contains(v) && c == component_of(g, v))
}

/// Every label reaches itself.
pub proof fn lemma_reach_self<G: ViewCombinator>(g: &G, v: usize)
    ensures
        reachable(g, v, v),
{
    let walk = seq![v];
    assert(is_walk(g, walk));
    assert(walk.first() == v && walk.last() == v);
}

/// A walk can be extended by one adjacency.
pub proof fn lemma_reach_step<G: ViewCombinator>(g: &G, from: usize, via: usize, to: usize)
    requires
        reachable(g, from, via),
        adjacent(g, via, to),
    ensures
        reachable(g, from, to),
{
    let walk = choose|walk: Seq<usize>| #[trigger]
        is_walk(g, walk) && walk.first() == from && walk.last() == via;
    let longer = walk.push(to);
    assert forall|i: int| 0 <= i < longer.len() - 1 implies adjacent(
        g,
        #[trigger] longer[i],
        longer[i + 1],
    ) by {
        if i < walk.len() - 1 {
            assert(longer[i] == walk[i]);
            assert(longer[i + 1] == walk[i + 1]);
            assert(adjacent(g, walk[i], walk[i + 1]));
        } else {
            assert(longer[i] == via);
        }
    }
    assert(is_walk(g, longer));
    assert(longer.first() == from && longer.last() == to);
}

/// A set of labels that holds `from` and is closed under adjacency holds
/// the end of every walk that starts at `from`.
pub proof fn lemma_walk_stays<G: ViewCombinator>(
    g: &G,
    inside: spec_fn(usize) -> bool,
    walk: Seq<usize>,
)
    requires
        is_walk(g, walk),
        inside(walk.first()),
        forall|u: usize, v: usize| inside(u) && #[trigger] adjacent(g, u, v) ==> inside(v),
    ensures
        inside(walk.last()),
    decreases walk.len(),
{
    if walk.len() > 1 {
        let shorter = walk.drop_last();
        assert forall|i: int| 0 <= i < shorter.len() - 1 implies adjacent(
            g,
            #[trigger] shorter[i],
            shorter[i + 1],
        ) by {
            assert(shorter[i] == walk[i]);
            assert(shorter[i + 1] == walk[i + 1]);
            assert(adjacent(g, walk[i], walk[i + 1]));
        }
        assert(shorter.first() == walk.first());
        lemma_walk_stays(g, inside, shorter);
        let k = walk.len() - 2;
        assert(shorter.last() == walk[k]);
        assert(adjacent(g, walk[k], walk[k + 1]));
    }
}

/// A set of labels that holds `from` and is closed under adjacency holds
/// everything that `from` reaches.
pub proof fn lemma_reach_stays<G: ViewCombinator>(
    g: &G,
    inside: spec_fn(usize) -> bool,
    from: usize,
    to: usize,
)
    requires
        inside(from),
        forall|u: usize, v: usize| inside(u) && #[trigger] adjacent(g, u, v) ==> inside(v),
        reachable(g, from, to),
    ensures
        inside(to),
{
    let walk = choose|walk: Seq<usize>| #[trigger]
        is_walk(g, walk) && walk.first() == from && walk.last() == to;
    lemma_walk_stays(g, inside, walk);
}

/// Walks can be joined end to end.
pub proof fn lemma_reach_trans<G: ViewCombinator>(g: &G, a: usize, b: usize, c: usize)
    requires
        reachable(g, a, b),
        reachable(g, b, c),
    ensures
        reachable(g, a, c),
{
    let inside = |x: usize| reachable(g, a, x);
    assert forall|u: usize, v: usize| inside(u) && #[trigger] adjacent(g, u, v) implies inside(
        v,
    ) by {
        lemma_reach_step(g, a, u, v);
    }
    lemma_reach_stays(g, inside, b, c);
}

/// In a symmetric view every walk can be walked backwards.
pub proof fn lemma_reach_sym<G: ViewCombinator>(g: &G, a: usize, b: usize)
    requires
        symmetric(g),
        reachable(g, a, b),
    ensures
        reachable(g, b, a),
{
    let inside = |x: usize| reachable(g, x, a);
    lemma_reach_self(g, a);
    assert forall|u: usize, v: usize| inside(u) && #[trigger] adjacent(g, u, v) implies inside(
        v,
    ) by {
        assert(adjacent(g, v, u));
        lemma_reach_self(g, v);
        lemma_reach_step(g, v, v, u);
        lemma_reach_trans(g, v, u, a);
    }
    lemma_reach_stays(g, inside, a, b);
}

/// In a symmetric view two labels of which one reaches the other have the
/// same component.
pub proof fn lemma_same_component<G: ViewCombinator>(g: &G, a: usize, b: usize)
    requires
        symmetric(g),
        reachable(g, a, b),
    ensures
        component_of(g, a) == component_of(g, b),
{
    lemma_reach_sym(g, a, b);
    assert forall|x: usize| reachable(g, a, x) <==> reachable(g, b, x) by {
        if reachable(g, a, x) {
            lemma_reach_trans(g, b, a, x);
        }
        if reachable(g, b, x) {
            lemma_reach_trans(g, a, b, x);
        }
    }
    assert(component_of(g, a) =~= component_of(g, b));
}

} // verus!
