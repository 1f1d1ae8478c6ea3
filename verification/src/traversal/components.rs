//! Counting the trees of a traversal forest.

use crate::combinators::{symmetric, ViewCombinator};
use crate::reach::{
    component_of, components, lemma_reach_self, lemma_reach_sym, lemma_reach_trans,
    lemma_same_component, reachable,
};
use crate::seqs::{lemma_filter_step, lemma_take_all};
use crate::traversal::{
    distinct_vertices, lemma_tree_reach, mentions, tree_like, within, TraversalNode,
};
use vstd::prelude::*;

verus! {

/// The predicate "is the node of a root".
pub open spec fn is_root() -> spec_fn(TraversalNode) -> bool {
    |n: TraversalNode| n.depth == 0
}

/// The nodes of roots among `nodes`, in order.
pub open spec fn roots(nodes: Seq<TraversalNode>) -> Seq<TraversalNode> {
    nodes.filter(is_root())
}

/// No root is reached from a node that comes before it.
pub open spec fn separated<G: ViewCombinator>(g: &G, nodes: Seq<TraversalNode>) -> bool {
    forall|i: int, r: int|
        0 <= i < r < nodes.len() && (#[trigger] nodes[r]).depth == 0 ==> !reachable(
            g,
            (#[trigger] nodes[i]).vertex,
            nodes[r].vertex,
        )
}

/// Nothing among `nodes` reaches `v`.
pub open spec fn beyond_reach<G: ViewCombinator>(g: &G, nodes: Seq<TraversalNode>, v: usize) -> bool {
    forall|i: int| 0 <= i < nodes.len() ==> !reachable(g, (#[trigger] nodes[i]).vertex, v)
}

/// A node that nothing before it reaches keeps the roots separated.
pub proof fn lemma_separated_push<G: ViewCombinator>(
    g: &G,
    nodes: Seq<TraversalNode>,
    node: TraversalNode,
)
    requires
        separated(g, nodes),
        node.depth == 0 ==> beyond_reach(g, nodes, node.vertex),
    ensures
        separated(g, nodes.push(node)),
{
    let longer = nodes.push(node);
    assert forall|i: int, r: int|
        0 <= i < r < longer.len() && (#[trigger] longer[r]).depth == 0 implies !reachable(
        g,
        (#[trigger] longer[i]).vertex,
        longer[r].vertex,
    ) by {
        assert(longer[i] == nodes[i]);
        if r < nodes.len() {
            assert(longer[r] == nodes[r]);
        }
    }
}

/// The roots among nodes of distinct vertices are distinct, and they are
/// the nodes of depth 0.
pub proof fn lemma_roots_distinct(nodes: Seq<TraversalNode>)
    requires
        crate::traversal::distinct_vertices(nodes),
    ensures
        roots(nodes).no_duplicates(),
        forall|x: TraversalNode| roots(nodes).contains(x) <==> (nodes.contains(x) && x.depth == 0),
    decreases nodes.len(),
{
    assert forall|x: TraversalNode| roots(nodes).contains(x) <==> (nodes.contains(x) && x.depth
        == 0) by {
        crate::seqs::lemma_filter_member(nodes, is_root(), x);
    }
    if nodes.len() == 0 {
        crate::seqs::lemma_filter_none(nodes, is_root());
    } else {
        let rest = nodes.drop_last();
        let last = nodes.last();
        assert forall|i: int, j: int| 0 <= i < j < rest.len() implies (#[trigger] rest[i]).vertex != (
        #[trigger] rest[j]).vertex by {
            assert(rest[i] == nodes[i]);
            assert(rest[j] == nodes[j]);
        }
        lemma_roots_distinct(rest);
        rest.lemma_filter_push(last, is_root());
        assert(rest.push(last) =~= nodes);
        if last.depth == 0 {
            assert(!roots(rest).contains(last)) by {
                if rest.contains(last) {
                    let i = choose|i: int| 0 <= i < rest.len() && rest[i] == last;
                    assert(nodes[i].vertex != nodes[nodes.len() - 1].vertex);
                }
            }
            let r = roots(rest);
            assert forall|i: int, j: int|
                0 <= i < r.push(last).len() && 0 <= j < r.push(last).len() && i != j implies r.push(
                last,
            )[i] != r.push(last)[j] by {
                if i < r.len() && j < r.len() {
                    assert(r[i] != r[j]);
                } else if i < r.len() {
                    assert(r.contains(r[i]));
                } else {
                    assert(r.contains(r[j]));
                }
            }
        }
    }
}

/// Two sequences of nodes of distinct vertices that hold the same nodes
/// hold the same number of roots.
pub proof fn lemma_same_roots(a: Seq<TraversalNode>, b: Seq<TraversalNode>)
    requires
        crate::traversal::distinct_vertices(a),
        crate::traversal::distinct_vertices(b),
        forall|x: TraversalNode| a.contains(x) <==> b.contains(x),
    ensures
        roots(a).len() == roots(b).len(),
{
    lemma_roots_distinct(a);
    lemma_roots_distinct(b);
    assert forall|x: TraversalNode| roots(a).to_set().contains(x) <==> roots(b).to_set().contains(
        x,
    ) by {
        assert(roots(a).contains(x) <==> (a.contains(x) && x.depth == 0));
        assert(roots(b).contains(x) <==> (b.contains(x) && x.depth == 0));
    }
    assert(roots(a).to_set() =~= roots(b).to_set());
    roots(a).unique_seq_to_set();
    roots(b).unique_seq_to_set();
}

/// The components of the roots among the first `k` nodes.
pub open spec fn root_components<G: ViewCombinator>(
    g: &G,
    nodes: Seq<TraversalNode>,
    k: int,
) -> Set<Set<usize>> {
    Set::new(
        |c: Set<usize>|
            exists|i: int|
                0 <= i < k && (#[trigger] nodes[i]).depth == 0 && c == component_of(
                    g,
                    nodes[i].vertex,
                ),
    )
}

/// Separated roots have components of their own: among the first `k`
/// nodes there are as many roots as root components.
pub proof fn lemma_root_components<G: ViewCombinator>(g: &G, nodes: Seq<TraversalNode>, k: int)
    requires
        separated(g, nodes),
        0 <= k <= nodes.len(),
    ensures
        root_components(g, nodes, k).finite(),
        root_components(g, nodes, k).len() == roots(nodes.take(k)).len(),
    decreases k,
{
    if k == 0 {
        assert(root_components(g, nodes, 0) =~= Set::empty());
        assert(nodes.take(0) =~= Seq::empty());
        assert(roots(nodes.take(0)).len() == 0) by {
            broadcast use vstd::seq_lib::group_filter_ensures;

        }
    } else {
        lemma_root_components(g, nodes, k - 1);
        lemma_filter_step(nodes, k - 1, is_root());
        let before = root_components(g, nodes, k - 1);
        let after = root_components(g, nodes, k);
        if nodes[k - 1].depth == 0 {
            let c = component_of(g, nodes[k - 1].vertex);
            assert(!before.contains(c)) by {
                if before.contains(c) {
                    let i = choose|i: int|
                        0 <= i < k - 1 && (#[trigger] nodes[i]).depth == 0 && c == component_of(
                            g,
                            nodes[i].vertex,
                        );
                    lemma_reach_self(g, nodes[k - 1].vertex);
                    assert(c.contains(nodes[k - 1].vertex));
                    assert(reachable(g, nodes[i].vertex, nodes[k - 1].vertex));
                }
            }
            assert(after =~= before.insert(c)) by {
                assert forall|x: Set<usize>| after.contains(x) <==> before.insert(c).contains(
                    x,
                ) by {
                    if after.contains(x) {
                        let i = choose|i: int|
                            0 <= i < k && (#[trigger] nodes[i]).depth == 0 && x == component_of(
                                g,
                                nodes[i].vertex,
                            );
                        if i < k - 1 {
                            assert(before.contains(x));
                        }
                    }
                    if before.contains(x) {
                        let i = choose|i: int|
                            0 <= i < k - 1 && (#[trigger] nodes[i]).depth == 0 && x == component_of(
                                g,
                                nodes[i].vertex,
                            );
                        assert(after.contains(x));
                    }
                    if x == c {
                        assert(nodes[k - 1].depth == 0);
                        assert(after.contains(x));
                    }
                }
            }
        } else {
            assert(after =~= before) by {
                assert forall|x: Set<usize>| after.contains(x) <==> before.contains(x) by {
                    if after.contains(x) {
                        let i = choose|i: int|
                            0 <= i < k && (#[trigger] nodes[i]).depth == 0 && x == component_of(
                                g,
                                nodes[i].vertex,
                            );
                        assert(i < k - 1);
                    }
                    if before.contains(x) {
                        let i = choose|i: int|
                            0 <= i < k - 1 && (#[trigger] nodes[i]).depth == 0 && x == component_of(
                                g,
                                nodes[i].vertex,
                            );
                        assert(after.contains(x));
                    }
                }
            }
        }
    }
}

/// A forest that spans a symmetric view and whose roots are separated has
/// one root per connected component.
pub proof fn lemma_roots_count_components<G: ViewCombinator>(g: &G, nodes: Seq<TraversalNode>)
    requires
        symmetric(g),
        tree_like(g, nodes, nodes.len() as int),
        separated(g, nodes),
        within(g, nodes),
        forall|v: usize| #[trigger] g.vertices().contains(v) ==> mentions(nodes, v),
    ensures
        components(g).finite(),
        components(g).len() == roots(nodes).len(),
{
    let n = nodes.len() as int;
    lemma_root_components(g, nodes, n);
    lemma_take_all(nodes);
    let rc = root_components(g, nodes, n);
    assert forall|c: Set<usize>| components(g).contains(c) <==> rc.contains(c) by {
        if components(g).contains(c) {
            let v = choose|v: usize| g.vertices().contains(v) && c == component_of(g, v);
            assert(mentions(nodes, v));
            let i = choose|i: int| 0 <= i < nodes.len() && (#[trigger] nodes[i]).vertex == v;
            let r = lemma_tree_reach(g, nodes, n, i);
            lemma_same_component(g, nodes[r].vertex, v);
            assert(nodes[r].depth == 0);
            assert(rc.contains(c));
        }
        if rc.contains(c) {
            let i = choose|i: int|
                0 <= i < n && (#[trigger] nodes[i]).depth == 0 && c == component_of(
                    g,
                    nodes[i].vertex,
                );
            assert(g.vertices().contains(nodes[i].vertex));
        }
    }
    assert(components(g) =~= rc);
}

/// The position of the last root at or before position `i`.
pub open spec fn root_before(nodes: Seq<TraversalNode>, i: int) -> int
    decreases i,
{
    if i <= 0 || nodes[i].depth == 0 {
        i
    } else {
        root_before(nodes, i - 1)
    }
}

/// What `root_before` finds among nodes of which the first is a root.
pub proof fn lemma_root_before(nodes: Seq<TraversalNode>, i: int)
    requires
        0 <= i < nodes.len(),
        nodes[0].depth == 0,
    ensures
        0 <= root_before(nodes, i) <= i,
        nodes[root_before(nodes, i)].depth == 0,
        forall|k: int| root_before(nodes, i) < k <= i ==> (#[trigger] nodes[k]).depth != 0,
    decreases i,
{
    if i > 0 && nodes[i].depth != 0 {
        lemma_root_before(nodes, i - 1);
    }
}

/// `root_before` reads no node after position `i`.
pub proof fn lemma_root_before_prefix(a: Seq<TraversalNode>, b: Seq<TraversalNode>, i: int)
    requires
        0 <= i < a.len(),
        i < b.len(),
        forall|k: int| 0 <= k <= i ==> #[trigger] a[k] == b[k],
    ensures
        root_before(a, i) == root_before(b, i),
    decreases i,
{
    assert(a[i] == b[i]);
    if i > 0 && a[i].depth != 0 {
        lemma_root_before_prefix(a, b, i - 1);
    }
}

/// Where no root lies after position `from` up to position `i`, both have
/// the same root before them.
pub proof fn lemma_root_before_skips(nodes: Seq<TraversalNode>, from: int, i: int)
    requires
        0 <= from <= i < nodes.len(),
        forall|k: int| from < k <= i ==> (#[trigger] nodes[k]).depth != 0,
    ensures
        root_before(nodes, i) == root_before(nodes, from),
    decreases i - from,
{
    if from < i {
        assert(nodes[i].depth != 0);
        lemma_root_before_skips(nodes, from, i - 1);
    }
}

/// Node `i` is reached from the last root at or before it.
pub open spec fn tied<G: ViewCombinator>(g: &G, nodes: Seq<TraversalNode>, i: int) -> bool {
    reachable(g, nodes[root_before(nodes, i)].vertex, nodes[i].vertex)
}

/// Every node is reached from the last root at or before it: the nodes
/// from one root up to the next belong to the tree of that root.
pub open spec fn grouped<G: ViewCombinator>(g: &G, nodes: Seq<TraversalNode>) -> bool {
    forall|i: int| 0 <= i < nodes.len() ==> #[trigger] tied(g, nodes, i)
}

/// In a symmetric view, among grouped nodes with separated roots, two
/// nodes lie in the same connected component exactly if the same root
/// comes last before both: the nodes from one root up to the next are
/// the nodes of one component.
pub proof fn lemma_group_is_component<G: ViewCombinator>(
    g: &G,
    nodes: Seq<TraversalNode>,
    i: int,
    j: int,
)
    requires
        symmetric(g),
        separated(g, nodes),
        grouped(g, nodes),
        0 <= i < nodes.len(),
        0 <= j < nodes.len(),
        nodes[0].depth == 0,
    ensures
        reachable(g, nodes[i].vertex, nodes[j].vertex) <==> root_before(nodes, i) == root_before(
            nodes,
            j,
        ),
{
    lemma_root_before(nodes, i);
    lemma_root_before(nodes, j);
    let a = root_before(nodes, i);
    let b = root_before(nodes, j);
    assert(tied(g, nodes, i));
    assert(tied(g, nodes, j));
    lemma_reach_sym(g, nodes[a].vertex, nodes[i].vertex);
    lemma_reach_sym(g, nodes[b].vertex, nodes[j].vertex);
    if a == b {
        lemma_reach_trans(g, nodes[i].vertex, nodes[a].vertex, nodes[j].vertex);
    }
    if reachable(g, nodes[i].vertex, nodes[j].vertex) {
        lemma_reach_trans(g, nodes[a].vertex, nodes[i].vertex, nodes[j].vertex);
        lemma_reach_trans(g, nodes[a].vertex, nodes[j].vertex, nodes[b].vertex);
        lemma_reach_sym(g, nodes[a].vertex, nodes[b].vertex);
        if a < b {
            assert(!reachable(g, nodes[a].vertex, nodes[b].vertex));
        }
        if b < a {
            assert(!reachable(g, nodes[b].vertex, nodes[a].vertex));
        }
    }
}

/// Position `p` of `order` holds the vertex of node `j`, and every vertex
/// before it in `order` has a node before node `j`.
pub open spec fn first_free(
    order: Seq<usize>,
    nodes: Seq<TraversalNode>,
    j: int,
    p: int,
) -> bool {
    &&& 0 <= p < order.len()
    &&& order[p] == nodes[j].vertex
    &&& forall|k: int| 0 <= k < p ==> mentions(nodes.take(j), #[trigger] order[k])
}

/// If node `j` is a root other than the first node, its vertex was the
/// first of `order` without a node when its turn came.
pub open spec fn picked(order: Seq<usize>, nodes: Seq<TraversalNode>, j: int) -> bool {
    j > 0 && nodes[j].depth == 0 ==> exists|p: int| #[trigger] first_free(order, nodes, j, p)
}

/// Every root after the first node was picked in the turn of `order`.
pub open spec fn in_turn(order: Seq<usize>, nodes: Seq<TraversalNode>) -> bool {
    forall|j: int| 0 <= j < nodes.len() ==> #[trigger] picked(order, nodes, j)
}

/// Nodes that are added behind the others, each of them picked in turn
/// or no root, leave the roots in turn.
pub proof fn lemma_in_turn_grows(
    order: Seq<usize>,
    before: Seq<TraversalNode>,
    after: Seq<TraversalNode>,
)
    requires
        in_turn(order, before),
        before.len() <= after.len(),
        forall|i: int| 0 <= i < before.len() ==> #[trigger] after[i] == before[i],
        forall|i: int| before.len() <= i < after.len() ==> #[trigger] picked(order, after, i),
    ensures
        in_turn(order, after),
{
    assert forall|j: int| 0 <= j < after.len() implies #[trigger] picked(order, after, j) by {
        if j < before.len() && j > 0 && after[j].depth == 0 {
            assert(picked(order, before, j));
            assert(after[j] == before[j]);
            let p = choose|p: int| #[trigger] first_free(order, before, j, p);
            assert(after.take(j) =~= before.take(j));
            assert(first_free(order, after, j, p));
        }
    }
}

/// Roots that were picked in turn come in the order of `order`: of two
/// roots after the first node, the vertex of the earlier one stands
/// earlier in `order`.
pub proof fn lemma_roots_in_order(
    order: Seq<usize>,
    nodes: Seq<TraversalNode>,
    i: int,
    j: int,
) -> (at: (int, int))
    requires
        in_turn(order, nodes),
        distinct_vertices(nodes),
        0 < i < j < nodes.len(),
        nodes[i].depth == 0,
        nodes[j].depth == 0,
    ensures
        0 <= at.0 < at.1 < order.len(),
        order[at.0] == nodes[i].vertex,
        order[at.1] == nodes[j].vertex,
{
    assert(picked(order, nodes, i));
    assert(picked(order, nodes, j));
    let p = choose|p: int| #[trigger] first_free(order, nodes, i, p);
    let q = choose|q: int| #[trigger] first_free(order, nodes, j, q);
    if q < p {
        assert(mentions(nodes.take(i), order[q]));
        let m = choose|m: int|
            0 <= m < nodes.take(i).len() && (#[trigger] nodes.take(i)[m]).vertex == order[q];
        assert(nodes.take(i)[m] == nodes[m]);
        assert(nodes[m].vertex != nodes[j].vertex);
    }
    if q == p {
        assert(nodes[i].vertex != nodes[j].vertex);
    }
    (p, q)
}

/// The number of roots among `nodes`.
pub fn count_roots(nodes: &Vec<TraversalNode>) -> (count: usize)
    ensures
        count == roots(nodes@).len(),
{
    let mut count: usize = 0;
    let mut i: usize = 0;
    while i < nodes.len()
        invariant
            i <= nodes.len(),
            count == roots(nodes@.take(i as int)).len(),
            count <= i,
        decreases nodes.len() - i,
    {
        proof {
            lemma_filter_step(nodes@, i as int, is_root());
        }
        if nodes[i].depth == 0 {
            count += 1;
        }
        i += 1;
    }
    proof {
        lemma_take_all(nodes@);
    }
    count
}

} // verus!
