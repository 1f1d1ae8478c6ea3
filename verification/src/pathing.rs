//! Paths: a shortest path between two vertices, and shortest paths between
//! all pairs.

use crate::combinators::{traversable, ExactCombinator};
use crate::reach::{is_walk, reachable};
use crate::traversal::breadth_first::{BFSState, BFSTraversal};
use crate::traversal::{lemma_node_discovered, mentions, tree_path};
use vstd::prelude::*;

verus! {

/// `path` is a walk from `from` to `to`, and no walk from `from` to `to`
/// is shorter.
pub open spec fn shortest<G: ExactCombinator>(
    g: &G,
    from: usize,
    to: usize,
    path: Seq<usize>,
) -> bool {
    &&& is_walk(g, path)
    &&& path.first() == from
    &&& path.last() == to
    &&& forall|walk: Seq<usize>|
        #[trigger] is_walk(g, walk) && walk.first() == from && walk.last() == to ==> path.len()
            <= walk.len()
}

/// `path` leads from `from` down the tree of a breadth-first traversal
/// from `from` to `to`.
pub open spec fn found_by_bfs<G: ExactCombinator>(
    g: &G,
    from: usize,
    to: usize,
    path: Seq<usize>,
) -> bool {
    exists|emissions: nat|
        tree_path(
            (#[trigger] BFSState::start(g.label_count(), from).run(g, emissions)).parents,
            path,
            to,
        )
}

/// A shortest path from `u` to `v`, or `None` if `u` does not reach `v`:
/// the path along which a breadth-first traversal from `u` discovers `v`.
pub fn shortest_path<G: ExactCombinator>(g: &G, u: usize, v: usize) -> (out: Option<Vec<usize>>)
    requires
        traversable(g),
        g.vertices().contains(u),
        v < g.label_count(),
    ensures
        out is None <==> !reachable(g, u, v),
        out matches Some(path) ==> shortest(g, u, v, path@) && found_by_bfs(g, u, v, path@),
{
    let mut bfs = BFSTraversal::new(g, u);
    let ghost mut emissions: nat = 0;
    loop
        invariant
            bfs.wf(),
            bfs.graph() == g,
            bfs.root() == u,
            bfs.state() == BFSState::start(g.label_count(), u).run(g, emissions),
        ensures
            bfs.wf(),
            bfs.graph() == g,
            bfs.root() == u,
            bfs.state() == BFSState::start(g.label_count(), u).run(g, emissions),
            bfs.state().done() || mentions(bfs.state().emitted, v),
        decreases g.label_count() - bfs.state().emitted.len(),
    {
        proof {
            bfs.lemma_discovered_bounded();
            emissions = emissions + 1;
        }
        match bfs.next() {
            Some(node) => {
                if node.vertex == v {
                    proof {
                        let s = bfs.state();
                        let last = s.emitted.len() - 1;
                        assert(s.emitted[last] == node);
                    }
                    break ;
                }
            },
            None => {
                break ;
            },
        }
    }
    proof {
        let s = bfs.state();
        bfs.lemma_discovered_reachable();
        if s.done() {
            bfs.lemma_done_emitted_all();
            assert(s.all() =~= s.emitted);
        }
        if mentions(s.emitted, v) {
            let i = choose|i: int| 0 <= i < s.emitted.len() && (#[trigger] s.emitted[i]).vertex == v;
            assert(s.all()[i] == s.emitted[i]);
            lemma_node_discovered(g, s.parents, s.all(), s.emitted.len() as int, i);
            assert forall|walk: Seq<usize>|
                #[trigger] is_walk(g, walk) && walk.first() == u && walk.last()
                    == v implies bfs.depth_of(v) + 1 <= walk.len() by {
                bfs.lemma_depth_is_least(walk);
            }
        }
    }
    bfs.extract_path(v)
}

/// Views that can be asked for a path.
pub trait PathingGraph: ExactCombinator {
    /// A shortest path from `u` to `v`; `Err` if `u` does not reach `v`.
    fn shortest_path(graph: &Self, u: usize, v: usize) -> (out: Result<Vec<usize>, ()>)
        requires
            traversable(graph),
            graph.vertices().contains(u),
            v < graph.label_count(),
        ensures
            out is Err <==> !reachable(graph, u, v),
            out matches Ok(path) ==> shortest(graph, u, v, path@) && found_by_bfs(
                graph,
                u,
                v,
                path@,
            ),
    {
        match crate::pathing::shortest_path(graph, u, v) {
            Some(path) => Ok(path),
            None => Err(()),
        }
    }
}

impl<G: ExactCombinator> PathingGraph for G {

}

/// Whether the pair `(a, b)` comes before the pair `(c, d)`: sources
/// ascend, and the targets of one source ascend.
pub open spec fn pair_before(a: int, b: int, c: int, d: int) -> bool {
    a < c || (a == c && b < d)
}

/// Every label of the view is one of its vertices.
pub open spec fn dense<G: ExactCombinator>(g: &G) -> bool {
    forall|v: usize| v < g.label_count() ==> g.vertices().contains(v)
}

/// All pairs of vertices in which the first reaches the second and is not
/// below it, each with a shortest path between them: for every source in
/// ascending order, every target up to the source in ascending order. One
/// breadth-first traversal is restarted for each source in turn.
pub struct APSPIterator<'a, G: ExactCombinator> {
    bfs: BFSTraversal<'a, G>,
    nv: usize,
    u: usize,
    v: usize,
}

impl<'a, G: ExactCombinator> APSPIterator<'a, G> {
    /// The view whose pairs are enumerated.
    pub closed spec fn graph(&self) -> &'a G {
        self.bfs.graph()
    }

    /// The source of the pair that is tried next.
    pub closed spec fn source(&self) -> int {
        self.u as int
    }

    /// The target of the pair that is tried next.
    pub closed spec fn target(&self) -> int {
        self.v as int
    }

    /// The invariant: the traversal from the current source is complete.
    pub closed spec fn wf(&self) -> bool {
        &&& self.bfs.wf()
        &&& dense(self.bfs.graph())
        &&& self.nv == self.bfs.graph().label_count()
        &&& self.nv > 0
        &&& self.u < self.nv ==> self.bfs.root() == self.u && self.bfs.state().done() && self.v
            <= self.u + 1 && exists|emissions: nat|
            self.bfs.state() == (#[trigger] BFSState::start(self.nv as nat, self.u).run(
                self.bfs.graph(),
                emissions,
            ))
    }

    /// Enumeration begins at the pair `(0, 0)`.
    pub fn new(graph: &'a G) -> (out: Self)
        requires
            traversable(graph),
            dense(graph),
            graph.label_count() > 0,
        ensures
            out.wf(),
            out.graph() == graph,
            out.source() == 0,
            out.target() == 0,
    {
        let nv = graph.num_v_labels();
        let mut bfs = BFSTraversal::new(graph, 0);
        bfs.exhaust();
        Self { bfs, nv, u: 0, v: 0 }
    }

    /// The next pair `(u, v)` with `v <= u` in which `u` reaches `v`,
    /// with a shortest path from `u` to `v`; `None` when no such pair is
    /// left.
    pub fn next(&mut self) -> (out: Option<(usize, usize, Vec<usize>)>)
        requires
            old(self).wf(),
        ensures
            final(self).wf(),
            final(self).graph() == old(self).graph(),
            !pair_before(
                final(self).source(),
                final(self).target(),
                old(self).source(),
                old(self).target(),
            ),
            forall|a: usize, b: usize|
                b <= a < old(self).graph().label_count() && !pair_before(
                    a as int,
                    b as int,
                    old(self).source(),
                    old(self).target(),
                ) && pair_before(a as int, b as int, final(self).source(), final(self).target())
                    && !(out matches Some(found) && found.0 == a && found.1 == b) ==> !reachable(
                    old(self).graph(),
                    a,
                    b,
                ),
            match out {
                Some((a, b, path)) => {
                    &&& b <= a < old(self).graph().label_count()
                    &&& !pair_before(a as int, b as int, old(self).source(), old(self).target())
                    &&& final(self).source() == a
                    &&& final(self).target() == b + 1
                    &&& reachable(old(self).graph(), a, b)
                    &&& shortest(old(self).graph(), a, b, path@)
                    &&& found_by_bfs(old(self).graph(), a, b, path@)
                },
                None => final(self).source() >= old(self).graph().label_count(),
            },
    {
        loop
            invariant
                self.wf(),
                self.graph() == old(self).graph(),
                !pair_before(self.source(), self.target(), old(self).source(), old(self).target()),
                forall|a: usize, b: usize|
                    b <= a < old(self).graph().label_count() && !pair_before(
                        a as int,
                        b as int,
                        old(self).source(),
                        old(self).target(),
                    ) && pair_before(a as int, b as int, self.source(), self.target())
                        ==> !reachable(old(self).graph(), a, b),
            decreases self.nv - self.u, self.u + 1 - self.v,
        {
            if self.u >= self.nv {
                return None;
            }
            if self.v > self.u {
                self.v = 0;
                self.u += 1;
                if self.u >= self.nv {
                    return None;
                }
                self.bfs.restart_at(self.u);
                self.bfs.exhaust();
                continue ;
            }
            let target = self.v;
            self.v += 1;
            let found = self.bfs.extract_path(target);
            proof {
                self.bfs.lemma_discovered_reachable();
                self.bfs.lemma_done_emitted_all();
                let s = self.bfs.state();
                if reachable(self.bfs.graph(), self.u, target) {
                    assert(mentions(s.emitted, target));
                    let i = choose|i: int|
                        0 <= i < s.emitted.len() && (#[trigger] s.emitted[i]).vertex == target;
                    assert(s.all()[i] == s.emitted[i]);
                    lemma_node_discovered(
                        self.bfs.graph(),
                        s.parents,
                        s.all(),
                        s.emitted.len() as int,
                        i,
                    );
                    assert forall|walk: Seq<usize>|
                        #[trigger] is_walk(self.bfs.graph(), walk) && walk.first() == self.u
                            && walk.last() == target implies self.bfs.depth_of(target) + 1
                        <= walk.len() by {
                        self.bfs.lemma_depth_is_least(walk);
                    }
                }
            }
            match found {
                Some(path) => {
                    return Some((self.u, target, path));
                },
                None => {},
            }
        }
    }

    /// Every pair that is left, in order.
    pub fn collect(&mut self) -> (out: Vec<(usize, usize, Vec<usize>)>)
        requires
            old(self).wf(),
        ensures
            final(self).wf(),
            final(self).graph() == old(self).graph(),
            final(self).source() >= old(self).graph().label_count(),
            forall|i: int|
                0 <= i < out@.len() ==> {
                    let (a, b, path) = #[trigger] out@[i];
                    &&& b <= a < old(self).graph().label_count()
                    &&& reachable(old(self).graph(), a, b)
                    &&& shortest(old(self).graph(), a, b, path@)
                    &&& found_by_bfs(old(self).graph(), a, b, path@)
                },
            forall|i: int, j: int|
                0 <= i < j < out@.len() ==> pair_before(
                    (#[trigger] out@[i]).0 as int,
                    out@[i].1 as int,
                    (#[trigger] out@[j]).0 as int,
                    out@[j].1 as int,
                ),
            forall|a: usize, b: usize|
                b <= a < old(self).graph().label_count() && !pair_before(
                    a as int,
                    b as int,
                    old(self).source(),
                    old(self).target(),
                ) && reachable(old(self).graph(), a, b) ==> exists|i: int|
                    0 <= i < out@.len() && (#[trigger] out@[i]).0 == a && out@[i].1 == b,
    {
        let mut out: Vec<(usize, usize, Vec<usize>)> = Vec::new();
        loop
            invariant
                self.wf(),
                self.graph() == old(self).graph(),
                !pair_before(self.source(), self.target(), old(self).source(), old(self).target()),
                forall|i: int|
                    0 <= i < out@.len() ==> {
                        let (a, b, path) = #[trigger] out@[i];
                        &&& b <= a < old(self).graph().label_count()
                        &&& reachable(old(self).graph(), a, b)
                        &&& shortest(old(self).graph(), a, b, path@)
                        &&& found_by_bfs(old(self).graph(), a, b, path@)
                        &&& pair_before(a as int, b as int, self.source(), self.target())
                    },
                forall|i: int, j: int|
                    0 <= i < j < out@.len() ==> pair_before(
                        (#[trigger] out@[i]).0 as int,
                        out@[i].1 as int,
                        (#[trigger] out@[j]).0 as int,
                        out@[j].1 as int,
                    ),
                forall|a: usize, b: usize|
                    b <= a < old(self).graph().label_count() && !pair_before(
                        a as int,
                        b as int,
                        old(self).source(),
                        old(self).target(),
                    ) && pair_before(a as int, b as int, self.source(), self.target()) && reachable(
                        old(self).graph(),
                        a,
                        b,
                    ) ==> exists|i: int|
                        0 <= i < out@.len() && (#[trigger] out@[i]).0 == a && out@[i].1 == b,
            ensures
                self.wf(),
                self.graph() == old(self).graph(),
                self.source() >= old(self).graph().label_count(),
                forall|i: int|
                    0 <= i < out@.len() ==> {
                        let (a, b, path) = #[trigger] out@[i];
                        &&& b <= a < old(self).graph().label_count()
                        &&& reachable(old(self).graph(), a, b)
                        &&& shortest(old(self).graph(), a, b, path@)
                        &&& found_by_bfs(old(self).graph(), a, b, path@)
                    },
                forall|i: int, j: int|
                    0 <= i < j < out@.len() ==> pair_before(
                        (#[trigger] out@[i]).0 as int,
                        out@[i].1 as int,
                        (#[trigger] out@[j]).0 as int,
                        out@[j].1 as int,
                    ),
                forall|a: usize, b: usize|
                    b <= a < old(self).graph().label_count() && !pair_before(
                        a as int,
                        b as int,
                        old(self).source(),
                        old(self).target(),
                    ) && reachable(old(self).graph(), a, b) ==> exists|i: int|
                        0 <= i < out@.len() && (#[trigger] out@[i]).0 == a && out@[i].1 == b,
            decreases
                    old(self).graph().label_count() - self.source(),
                    self.source() + 2 - self.target(),
        {
            let ghost before_source = self.source();
            let ghost before_target = self.target();
            let ghost before_out = out@;
            match self.next() {
                Some(found) => {
                    let ghost a = found.0;
                    let ghost b = found.1;
                    out.push(found);
                    proof {
                        let last = before_out.len() as int;
                        assert(out@[last].0 == a && out@[last].1 == b);
                        assert forall|i: int| 0 <= i < out@.len() implies {
                            let (x, y, path) = #[trigger] out@[i];
                            &&& y <= x < old(self).graph().label_count()
                            &&& reachable(old(self).graph(), x, y)
                            &&& shortest(old(self).graph(), x, y, path@)
                            &&& found_by_bfs(old(self).graph(), x, y, path@)
                            &&& pair_before(x as int, y as int, self.source(), self.target())
                        } by {
                            if i < last {
                                assert(out@[i] == before_out[i]);
                            }
                        }
                        assert forall|i: int, j: int| 0 <= i < j < out@.len() implies pair_before(
                            (#[trigger] out@[i]).0 as int,
                            out@[i].1 as int,
                            (#[trigger] out@[j]).0 as int,
                            out@[j].1 as int,
                        ) by {
                            assert(out@[i] == before_out[i]);
                            if j < last {
                                assert(out@[j] == before_out[j]);
                            }
                        }
                        assert forall|x: usize, y: usize|
                            y <= x < old(self).graph().label_count() && !pair_before(
                                x as int,
                                y as int,
                                old(self).source(),
                                old(self).target(),
                            ) && pair_before(x as int, y as int, self.source(), self.target())
                                && reachable(old(self).graph(), x, y) implies exists|i: int|
                            0 <= i < out@.len() && (#[trigger] out@[i]).0 == x && out@[i].1 == y by {
                            if x == a && y == b {
                                assert(out@[last].0 == x);
                            } else if pair_before(x as int, y as int, before_source, before_target) {
                                let i = choose|i: int|
                                    0 <= i < before_out.len() && (#[trigger] before_out[i]).0 == x
                                        && before_out[i].1 == y;
                                assert(out@[i] == before_out[i]);
                            }
                        }
                    }
                },
                None => {
                    proof {
                        assert forall|x: usize, y: usize|
                            y <= x < old(self).graph().label_count() && !pair_before(
                                x as int,
                                y as int,
                                old(self).source(),
                                old(self).target(),
                            ) && reachable(old(self).graph(), x, y) implies exists|i: int|
                            0 <= i < out@.len() && (#[trigger] out@[i]).0 == x && out@[i].1 == y by {
                            assert(pair_before(x as int, y as int, self.source(), self.target()));
                            if !pair_before(x as int, y as int, before_source, before_target) {
                                assert(false);
                            }
                        }
                    }
                    break ;
                },
            }
        }
        out
    }
}

} // verus!
