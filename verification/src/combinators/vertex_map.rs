//! The view that renames vertices.

use crate::combinators::{
    adjacent, closed, image, pure_mapping, symmetric, traversable, ExactCombinator, ViewCombinator,
};
use crate::seqs::lemma_concat_member;
use crate::seqs::{
    differs_from, lemma_filter_member, lemma_map_member, lemma_map_step, lemma_take_all,
    lemma_take_push,
};
use vstd::prelude::*;

verus! {

/// A view of `G` in which every vertex `v` goes by the label `F(v)`.
///
/// Vertices with the same image become one vertex. An edge between two
/// of them would be a loop at that vertex and is left out.
pub struct VertexMap<G: ViewCombinator, F: Fn(&usize) -> usize> {
    preimage: G,
    f: F,
}

/// The predicate "joins two different labels".
pub open spec fn no_loop() -> spec_fn((usize, usize)) -> bool {
    |e: (usize, usize)| e.0 != e.1
}

impl<G: ViewCombinator, F: Fn(&usize) -> usize> VertexMap<G, F> {
    /// The view underneath.
    pub closed spec fn preimage(&self) -> &G {
        &self.preimage
    }

    /// The relabeling.
    pub closed spec fn mapping(&self) -> &F {
        &self.f
    }

    /// The label that `v` goes by in the view.
    pub open spec fn maps(&self, v: usize) -> usize {
        image(*self.mapping(), v)
    }

    /// `maps`, as a function on labels.
    pub open spec fn relabel(&self) -> spec_fn(usize) -> usize {
        |v: usize| self.maps(v)
    }

    /// `maps` of both endpoints, as a function on edges.
    pub open spec fn relabel_edge(&self) -> spec_fn((usize, usize)) -> (usize, usize) {
        |e: (usize, usize)| (self.maps(e.0), self.maps(e.1))
    }

    /// What `from` contributes to the neighbors of `target`: if it goes by
    /// `target`, the images of its own neighbors other than `target`.
    pub open spec fn share(&self, from: usize, target: usize) -> Seq<usize> {
        if self.maps(from) == target {
            match self.preimage().neighbors(from) {
                Some(ns) => ns.map_values(self.relabel()).filter(differs_from(target)),
                None => Seq::empty(),
            }
        } else {
            Seq::empty()
        }
    }

    /// The shares of the vertices `sources`, in order.
    pub open spec fn gathered(&self, sources: Seq<usize>, target: usize) -> Seq<usize>
        decreases sources.len(),
    {
        if sources.len() == 0 {
            Seq::empty()
        } else {
            self.gathered(sources.drop_last(), target) + self.share(sources.last(), target)
        }
    }

    /// The view of `preimage` relabeled by `map`.
    pub fn build(preimage: G, map: F) -> (out: Self)
        requires
            preimage.wf(),
            pure_mapping(map),
        ensures
            out.wf(),
            *out.preimage() == preimage,
            *out.mapping() == map,
    {
        Self { preimage, f: map }
    }

    /// Runs the relabeling on one label.
    fn apply(&self, v: usize) -> (label: usize)
        requires
            self.wf(),
        ensures
            label == self.maps(v),
    {
        (self.f)(&v)
    }

    /// The images of `targets` other than `target`.
    fn images_without(&self, targets: &Vec<usize>, target: usize, out: &mut Vec<usize>)
        requires
            self.wf(),
        ensures
            final(out)@ == old(out)@ + targets@.map_values(self.relabel()).filter(
                differs_from(target),
            ),
    {
        let mut j: usize = 0;
        proof {
            assert(targets@.take(0).map_values(self.relabel()) =~= Seq::empty());
            assert(Seq::<usize>::empty().filter(differs_from(target)) =~= Seq::empty()) by {
                broadcast use vstd::seq_lib::group_filter_ensures;

            }
            assert(out@ + Seq::<usize>::empty() =~= out@);
        }
        while j < targets.len()
            invariant
                self.wf(),
                j <= targets.len(),
                out@ == old(out)@ + targets@.take(j as int).map_values(self.relabel()).filter(
                    differs_from(target),
                ),
            decreases targets.len() - j,
        {
            let label = self.apply(targets[j]);
            proof {
                lemma_map_step(targets@, j as int, self.relabel());
                targets@.take(j as int).map_values(self.relabel()).lemma_filter_push(
                    label,
                    differs_from(target),
                );
            }
            if label != target {
                out.push(label);
                proof {
                    assert(out@ =~= old(out)@ + targets@.take(j + 1).map_values(
                        self.relabel(),
                    ).filter(differs_from(target)));
                }
            }
            j += 1;
        }
        proof {
            lemma_take_all(targets@);
        }
    }

    /// No edge of the view joins a label to itself, and the view has
    /// neighbors for exactly the labels that its vertices go by.
    pub proof fn lemma_relabeled(&self)
        requires
            self.wf(),
        ensures
            forall|i: int|
                0 <= i < self.edges().len() ==> (#[trigger] self.edges()[i]).0 != self.edges()[i].1,
            forall|label: usize|
                self.vertices().contains(label) <==> exists|i: int|
                    0 <= i < self.preimage().vertices().len() && self.maps(
                        #[trigger] self.preimage().vertices()[i],
                    ) == label,
            forall|label: usize| self.neighbors(label) is Some <==> self.vertices().contains(label),
    {
        broadcast use vstd::seq_lib::group_filter_ensures;

        assert forall|i: int| 0 <= i < self.edges().len() implies (#[trigger] self.edges()[i]).0
            != self.edges()[i].1 by {
            assert(no_loop()(self.edges()[i]));
        }
        assert forall|label: usize|
            self.vertices().contains(label) <==> exists|i: int|
                0 <= i < self.preimage().vertices().len() && self.maps(
                    #[trigger] self.preimage().vertices()[i],
                ) == label by {
            lemma_map_member(self.preimage().vertices(), self.relabel(), label);
        }
    }
}

impl<G: ViewCombinator, F: Fn(&usize) -> usize> ViewCombinator for VertexMap<G, F> {
    open spec fn wf(&self) -> bool {
        self.preimage().wf() && pure_mapping(*self.mapping())
    }

    open spec fn vertices(&self) -> Seq<usize> {
        self.preimage().vertices().map_values(self.relabel())
    }

    open spec fn edges(&self) -> Seq<(usize, usize)> {
        self.preimage().edges().map_values(self.relabel_edge()).filter(no_loop())
    }

    open spec fn neighbors(&self, vertex: usize) -> Option<Seq<usize>> {
        if self.vertices().contains(vertex) {
            Some(self.gathered(self.preimage().vertices(), vertex))
        } else {
            None
        }
    }

    open spec fn queryable(&self, vertex: usize) -> bool {
        true
    }

    proof fn lemma_vertices_queryable(&self) {
    }

    fn vertex_iterator(&self) -> (out: Vec<usize>) {
        let all = self.preimage.vertex_iterator();
        let mut out: Vec<usize> = Vec::new();
        let mut i: usize = 0;
        proof {
            assert(all@.take(0).map_values(self.relabel()) =~= Seq::empty());
        }
        while i < all.len()
            invariant
                self.wf(),
                i <= all.len(),
                out@ == all@.take(i as int).map_values(self.relabel()),
            decreases all.len() - i,
        {
            let label = self.apply(all[i]);
            proof {
                lemma_map_step(all@, i as int, self.relabel());
            }
            out.push(label);
            i += 1;
        }
        proof {
            lemma_take_all(all@);
        }
        out
    }

    fn edge_iterator(&self) -> (out: Vec<(usize, usize)>) {
        let all = self.preimage.edge_iterator();
        let mut out: Vec<(usize, usize)> = Vec::new();
        let mut i: usize = 0;
        proof {
            assert(all@.take(0).map_values(self.relabel_edge()) =~= Seq::empty());
            assert(Seq::<(usize, usize)>::empty().filter(no_loop()) =~= Seq::empty()) by {
                broadcast use vstd::seq_lib::group_filter_ensures;

            }
        }
        while i < all.len()
            invariant
                self.wf(),
                i <= all.len(),
                out@ == all@.take(i as int).map_values(self.relabel_edge()).filter(no_loop()),
            decreases all.len() - i,
        {
            let e = all[i];
            let u = self.apply(e.0);
            let v = self.apply(e.1);
            proof {
                lemma_map_step(all@, i as int, self.relabel_edge());
                all@.take(i as int).map_values(self.relabel_edge()).lemma_filter_push(
                    (u, v),
                    no_loop(),
                );
            }
            if u != v {
                out.push((u, v));
            }
            i += 1;
        }
        proof {
            lemma_take_all(all@);
        }
        out
    }

    fn neighbor_iterator(&self, vertex: usize) -> (out: Option<Vec<usize>>) {
        let all = self.preimage.vertex_iterator();
        let mut found = false;
        let mut out: Vec<usize> = Vec::new();
        let mut i: usize = 0;
        proof {
            self.preimage.lemma_vertices_queryable();
        }
        while i < all.len()
            invariant
                self.wf(),
                all@ == self.preimage().vertices(),
                forall|v: usize| self.preimage().vertices().contains(v) ==> self.preimage().queryable(v),
                i <= all.len(),
                found <==> exists|k: int| 0 <= k < i && self.maps(#[trigger] all@[k]) == vertex,
                out@ == self.gathered(all@.take(i as int), vertex),
            decreases all.len() - i,
        {
            let u = all[i];
            proof {
                lemma_take_push(all@, i as int);
                assert(all@.contains(all@[i as int]));
            }
            if self.apply(u) == vertex {
                found = true;
                match self.preimage.neighbor_iterator(u) {
                    Some(targets) => {
                        self.images_without(&targets, vertex, &mut out);
                    },
                    None => {
                        proof {
                            assert(out@ + Seq::<usize>::empty() =~= out@);
                        }
                    },
                }
            } else {
                proof {
                    assert(out@ + Seq::<usize>::empty() =~= out@);
                }
            }
            i += 1;
        }
        proof {
            lemma_take_all(all@);
            lemma_map_member(self.preimage().vertices(), self.relabel(), vertex);
        }
        if found {
            Some(out)
        } else {
            None
        }
    }
}

impl<G: ExactCombinator, F: Fn(&usize) -> usize> ExactCombinator for VertexMap<G, F> {
    open spec fn label_count(&self) -> nat {
        self.preimage().label_count()
    }

    fn num_v_labels(&self) -> (n: usize) {
        self.preimage.num_v_labels()
    }
}

impl<G: ViewCombinator, F: Fn(&usize) -> usize> VertexMap<G, F> {
    /// What is gathered for `target` is the image of a neighbor of a
    /// source that goes by `target`, and is not `target` itself.
    pub proof fn lemma_gathered(&self, sources: Seq<usize>, target: usize, label: usize)
        requires
            self.gathered(sources, target).contains(label),
        ensures
            label != target,
            exists|i: int, w: usize|
                0 <= i < sources.len() && self.maps(#[trigger] sources[i]) == target && adjacent(
                    self.preimage(),
                    sources[i],
                    w,
                ) && #[trigger] self.maps(w) == label,
        decreases sources.len(),
    {
        let rest = self.gathered(sources.drop_last(), target);
        let share = self.share(sources.last(), target);
        lemma_concat_member(rest, share, label);
        if rest.contains(label) {
            self.lemma_gathered(sources.drop_last(), target, label);
            let (i, w) = choose|i: int, w: usize|
                0 <= i < sources.drop_last().len() && self.maps(#[trigger] sources.drop_last()[i])
                    == target && adjacent(self.preimage(), sources.drop_last()[i], w)
                    && #[trigger] self.maps(w) == label;
            assert(sources[i] == sources.drop_last()[i]);
        } else {
            let from = sources.last();
            let ns = self.preimage().neighbors(from)->0;
            let mapped = ns.map_values(self.relabel());
            lemma_filter_member(mapped, differs_from(target), label);
            lemma_map_member(ns, self.relabel(), label);
            let k = choose|k: int| 0 <= k < ns.len() && self.relabel()(#[trigger] ns[k]) == label;
            assert(ns.contains(ns[k]));
            assert(sources[sources.len() - 1] == from);
            assert(self.maps(ns[k]) == label);
        }
    }

    /// The image of a neighbor of a source that goes by `target` is
    /// gathered for `target`, unless it is `target` itself.
    pub proof fn lemma_gathers(&self, sources: Seq<usize>, target: usize, i: int, w: usize)
        requires
            0 <= i < sources.len(),
            self.maps(sources[i]) == target,
            adjacent(self.preimage(), sources[i], w),
            self.maps(w) != target,
        ensures
            self.gathered(sources, target).contains(self.maps(w)),
        decreases sources.len(),
    {
        let rest = self.gathered(sources.drop_last(), target);
        let share = self.share(sources.last(), target);
        lemma_concat_member(rest, share, self.maps(w));
        if i < sources.len() - 1 {
            assert(sources.drop_last()[i] == sources[i]);
            self.lemma_gathers(sources.drop_last(), target, i, w);
        } else {
            let ns = self.preimage().neighbors(sources[i])->0;
            let mapped = ns.map_values(self.relabel());
            let k = choose|k: int| 0 <= k < ns.len() && ns[k] == w;
            assert(mapped[k] == self.maps(w));
            assert(mapped.contains(self.maps(w)));
            lemma_filter_member(mapped, differs_from(target), self.maps(w));
        }
    }

    /// Relabeling a closed symmetric view leaves a symmetric view.
    pub proof fn lemma_symmetric(&self)
        requires
            self.wf(),
            closed(self.preimage()),
            symmetric(self.preimage()),
        ensures
            symmetric(self),
    {
        let pre = self.preimage();
        assert forall|a: usize, b: usize| #[trigger] adjacent(self, a, b) implies adjacent(
            self,
            b,
            a,
        ) by {
            self.lemma_gathered(pre.vertices(), a, b);
            let (i, w) = choose|i: int, w: usize|
                0 <= i < pre.vertices().len() && self.maps(#[trigger] pre.vertices()[i]) == a
                    && adjacent(pre, pre.vertices()[i], w) && #[trigger] self.maps(w) == b;
            let u = pre.vertices()[i];
            assert(pre.vertices().contains(u));
            assert(pre.vertices().contains(w));
            assert(adjacent(pre, w, u));
            let k = choose|k: int| 0 <= k < pre.vertices().len() && pre.vertices()[k] == w;
            self.lemma_gathers(pre.vertices(), b, k, u);
            lemma_map_member(pre.vertices(), self.relabel(), b);
            assert(self.relabel()(pre.vertices()[k]) == b);
        }
    }

    /// Relabeling a closed view leaves a closed view.
    pub proof fn lemma_closed(&self)
        requires
            self.wf(),
            closed(self.preimage()),
        ensures
            closed(self),
    {
        let pre = self.preimage();
        assert forall|u: usize, v: usize|
            self.vertices().contains(u) && #[trigger] adjacent(self, u, v) implies self.vertices().contains(
            v,
        ) by {
            self.lemma_gathered(pre.vertices(), u, v);
            let (i, w) = choose|i: int, w: usize|
                0 <= i < pre.vertices().len() && self.maps(#[trigger] pre.vertices()[i]) == u
                    && adjacent(pre, pre.vertices()[i], w) && #[trigger] self.maps(w) == v;
            assert(pre.vertices().contains(pre.vertices()[i]));
            assert(pre.vertices().contains(w));
            lemma_map_member(pre.vertices(), self.relabel(), v);
            let k = choose|k: int| 0 <= k < pre.vertices().len() && pre.vertices()[k] == w;
            assert(self.relabel()(pre.vertices()[k]) == v);
        }
        assert forall|i: int| 0 <= i < self.edges().len() implies self.vertices().contains(
            (#[trigger] self.edges()[i]).0,
        ) && self.vertices().contains(self.edges()[i].1) by {
            let e = self.edges()[i];
            let mapped = pre.edges().map_values(self.relabel_edge());
            assert(self.edges().contains(e));
            lemma_filter_member(mapped, no_loop(), e);
            lemma_map_member(pre.edges(), self.relabel_edge(), e);
            let j = choose|j: int|
                0 <= j < pre.edges().len() && self.relabel_edge()(#[trigger] pre.edges()[j]) == e;
            let a = pre.edges()[j].0;
            let b = pre.edges()[j].1;
            assert(pre.vertices().contains(a) && pre.vertices().contains(b));
            lemma_map_member(pre.vertices(), self.relabel(), e.0);
            lemma_map_member(pre.vertices(), self.relabel(), e.1);
            let ka = choose|k: int| 0 <= k < pre.vertices().len() && pre.vertices()[k] == a;
            let kb = choose|k: int| 0 <= k < pre.vertices().len() && pre.vertices()[k] == b;
            assert(self.relabel()(pre.vertices()[ka]) == e.0);
            assert(self.relabel()(pre.vertices()[kb]) == e.1);
        }
    }
}

impl<G: ExactCombinator, F: Fn(&usize) -> usize> VertexMap<G, F> {
    /// Relabeling a traversable view within its label count leaves a
    /// traversable view.
    pub proof fn lemma_traversable(&self)
        requires
            self.wf(),
            closed(self.preimage()),
            forall|v: usize|
                self.preimage().vertices().contains(v) ==> #[trigger] self.maps(v)
                    < self.preimage().label_count(),
        ensures
            traversable(self),
    {
        self.lemma_closed();
        assert forall|label: usize| #[trigger] self.vertices().contains(label) implies label
            < self.label_count() by {
            lemma_map_member(self.preimage().vertices(), self.relabel(), label);
            let i = choose|i: int|
                0 <= i < self.preimage().vertices().len() && self.relabel()(
                    #[trigger] self.preimage().vertices()[i],
                ) == label;
            assert(self.preimage().vertices().contains(self.preimage().vertices()[i]));
        }
    }
}

} // verus!
