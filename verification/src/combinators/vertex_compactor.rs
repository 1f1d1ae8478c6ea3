//! The view that renumbers vertices densely.

use crate::combinators::{
    adjacent, closed, symmetric, traversable, ExactCombinator, ViewCombinator,
};
use crate::seqs::lemma_map_member;
use crate::seqs::{lemma_map_step, lemma_push_member, lemma_take_all, lemma_take_push};
use std::collections::HashMap;
use vstd::prelude::*;

verus! {

broadcast use vstd::std_specs::hash::group_hash_axioms;

/// The labels of `vertices` without repetitions, each where it first occurs.
pub open spec fn first_seen(vertices: Seq<usize>) -> Seq<usize>
    decreases vertices.len(),
{
    if vertices.len() == 0 {
        Seq::empty()
    } else {
        let rest = first_seen(vertices.drop_last());
        if rest.contains(vertices.last()) {
            rest
        } else {
            rest.push(vertices.last())
        }
    }
}

/// The position of `label` in `labels`.
pub open spec fn position(labels: Seq<usize>, label: usize) -> usize {
    labels.index_of(label) as usize
}

/// `first_seen` holds the same labels as its argument, each once.
pub proof fn lemma_first_seen(vertices: Seq<usize>)
    ensures
        first_seen(vertices).no_duplicates(),
        first_seen(vertices).len() <= vertices.len(),
        forall|x: usize| first_seen(vertices).contains(x) <==> vertices.contains(x),
    decreases vertices.len(),
{
    if vertices.len() > 0 {
        let rest = first_seen(vertices.drop_last());
        let last = vertices.last();
        lemma_first_seen(vertices.drop_last());
        assert forall|x: usize| first_seen(vertices).contains(x) <==> vertices.contains(x) by {
            lemma_push_member(rest, last, x);
            assert(vertices =~= vertices.drop_last().push(last));
            lemma_push_member(vertices.drop_last(), last, x);
        }
    }
}

/// A view of `G` in which the vertices are numbered `0`, `1`, `2`, ... in
/// the order in which `G` first yields them.
pub struct VertexCompactor<G: ViewCombinator> {
    preimage: G,
    map: HashMap<usize, usize>,
    labels: Vec<usize>,
}

impl<G: ViewCombinator> VertexCompactor<G> {
    /// The view underneath.
    pub closed spec fn preimage(&self) -> &G {
        &self.preimage
    }

    /// The labels of the preimage, by their number in this view.
    pub open spec fn labels(&self) -> Seq<usize> {
        first_seen(self.preimage().vertices())
    }

    /// The number of a label of the preimage in this view.
    pub open spec fn number(&self, label: usize) -> usize {
        position(self.labels(), label)
    }

    /// `number`, as a function on labels.
    pub open spec fn renumber(&self) -> spec_fn(usize) -> usize {
        |label: usize| self.number(label)
    }

    /// `number` of both endpoints, as a function on edges.
    pub open spec fn renumber_edge(&self) -> spec_fn((usize, usize)) -> (usize, usize) {
        |e: (usize, usize)| (self.number(e.0), self.number(e.1))
    }

    /// The lookup tables agree with `labels`.
    pub closed spec fn tables_agree(&self) -> bool {
        &&& self.labels@ == self.labels()
        &&& forall|i: int|
            0 <= i < self.labels@.len() ==> self.map@.contains_key(#[trigger] self.labels@[i])
                && self.map@[self.labels@[i]] == i
        &&& forall|k: usize| self.map@.contains_key(k) ==> self.labels@.contains(k)
    }

    /// The renumbered view of `preimage`.
    pub fn build(preimage: G) -> (out: Self)
        requires
            preimage.wf(),
            closed(&preimage),
        ensures
            out.wf(),
            *out.preimage() == preimage,
    {
        let all = preimage.vertex_iterator();
        let mut map: HashMap<usize, usize> = HashMap::new();
        let mut labels: Vec<usize> = Vec::new();
        let mut i: usize = 0;
        while i < all.len()
            invariant
                i <= all.len(),
                labels@ == first_seen(all@.take(i as int)),
                labels@.len() <= i,
                forall|j: int|
                    0 <= j < labels@.len() ==> map@.contains_key(#[trigger] labels@[j])
                        && map@[labels@[j]] == j,
                forall|k: usize| map@.contains_key(k) ==> labels@.contains(k),
            decreases all.len() - i,
        {
            let v = all[i];
            proof {
                lemma_take_push(all@, i as int);
                lemma_first_seen(all@.take(i as int));
            }
            if !map.contains_key(&v) {
                let ghost before = labels@;
                let ghost before_map = map@;
                map.insert(v, labels.len());
                labels.push(v);
                proof {
                    assert forall|j: int| 0 <= j < labels@.len() implies map@.contains_key(
                        #[trigger] labels@[j],
                    ) && map@[labels@[j]] == j by {
                        if j < before.len() {
                            assert(labels@[j] == before[j]);
                            assert(before_map.contains_key(before[j]));
                        }
                    }
                    assert forall|k: usize| map@.contains_key(k) implies labels@.contains(k) by {
                        lemma_push_member(before, v, k);
                    }
                }
            } else {
                proof {
                    assert(labels@.contains(v));
                }
            }
            i += 1;
        }
        proof {
            lemma_take_all(all@);
        }
        Self { preimage, map, labels }
    }

    /// The number of `label`, which is a vertex of the preimage.
    fn lookup(&self, label: usize) -> (number: usize)
        requires
            self.wf(),
            self.preimage().vertices().contains(label),
        ensures
            number == self.number(label),
            number < self.labels().len(),
    {
        proof {
            lemma_first_seen(self.preimage().vertices());
            assert(self.labels@.contains(label));
            let i = self.labels@.index_of(label);
            assert(self.map@.contains_key(self.labels@[i]));
        }
        match self.map.get(&label) {
            Some(number) => *number,
            None => 0,
        }
    }

    /// The numbers of `targets`, which are vertices of the preimage.
    fn lookup_all(&self, targets: &Vec<usize>) -> (out: Vec<usize>)
        requires
            self.wf(),
            forall|i: int| 0 <= i < targets@.len() ==> self.preimage().vertices().contains(
                #[trigger] targets@[i],
            ),
        ensures
            out@ == targets@.map_values(self.renumber()),
    {
        let mut out: Vec<usize> = Vec::new();
        let mut i: usize = 0;
        proof {
            assert(targets@.take(0).map_values(self.renumber()) =~= Seq::empty());
        }
        while i < targets.len()
            invariant
                self.wf(),
                forall|k: int| 0 <= k < targets@.len() ==> self.preimage().vertices().contains(
                    #[trigger] targets@[k],
                ),
                i <= targets.len(),
                out@ == targets@.take(i as int).map_values(self.renumber()),
            decreases targets.len() - i,
        {
            let number = self.lookup(targets[i]);
            proof {
                lemma_map_step(targets@, i as int, self.renumber());
            }
            out.push(number);
            i += 1;
        }
        proof {
            lemma_take_all(targets@);
        }
        out
    }

    /// A label of the view's own is numbered by its position.
    pub proof fn lemma_number(&self, i: int)
        requires
            self.wf(),
            0 <= i < self.labels().len(),
        ensures
            self.number(self.labels()[i]) == i,
    {
        lemma_first_seen(self.preimage().vertices());
        let labels = self.labels();
        let j = labels.index_of(labels[i]);
        assert(labels.contains(labels[i]));
        assert(0 <= j < labels.len() && labels[j] == labels[i]);
        assert(self.labels@.len() == self.labels.len());
        if i != j {
            assert(labels[i] != labels[j]);
        }
    }

    /// Two numbers are adjacent exactly if their labels are.
    pub proof fn lemma_renumbered(&self, a: usize, b: usize)
        requires
            self.wf(),
            a < self.labels().len(),
            b < self.labels().len(),
        ensures
            adjacent(self, a, b) <==> adjacent(
                self.preimage(),
                self.labels()[a as int],
                self.labels()[b as int],
            ),
    {
        let pre = self.preimage();
        let labels = self.labels();
        lemma_first_seen(pre.vertices());
        assert(labels.contains(labels[a as int]));
        assert(labels.contains(labels[b as int]));
        self.lemma_number(b as int);
        if pre.neighbors(labels[a as int]) is Some {
            let ns = pre.neighbors(labels[a as int])->0;
            lemma_map_member(ns, self.renumber(), b);
            if adjacent(self, a, b) {
                let k = choose|k: int| 0 <= k < ns.len() && self.renumber()(#[trigger] ns[k]) == b;
                assert(ns.contains(ns[k]));
                assert(adjacent(pre, labels[a as int], ns[k]));
                assert(pre.vertices().contains(ns[k]));
                assert(labels.contains(ns[k]));
                let j = labels.index_of(ns[k]);
                assert(0 <= j < labels.len() && labels[j] == ns[k]);
                self.lemma_number(j);
            }
            if adjacent(pre, labels[a as int], labels[b as int]) {
                let k = choose|k: int| 0 <= k < ns.len() && ns[k] == labels[b as int];
                assert(self.renumber()(ns[k]) == b);
            }
        }
    }

    /// Renumbering a symmetric view leaves a symmetric view.
    pub proof fn lemma_symmetric(&self)
        requires
            self.wf(),
            symmetric(self.preimage()),
        ensures
            symmetric(self),
    {
        self.lemma_traversable();
        assert forall|a: usize, b: usize| #[trigger] adjacent(self, a, b) implies adjacent(
            self,
            b,
            a,
        ) by {
            assert(a < self.labels().len());
            assert(self.vertices()[a as int] == a);
            assert(self.vertices().contains(a));
            assert(self.vertices().contains(b));
            self.lemma_renumbered(a, b);
            self.lemma_renumbered(b, a);
            assert(adjacent(self.preimage(), self.labels()[a as int], self.labels()[b as int]));
        }
    }

    /// The view can be traversed: its vertices are the numbers below its
    /// label count, and it never points outside itself.
    pub proof fn lemma_traversable(&self)
        requires
            self.wf(),
        ensures
            traversable(self),
            forall|v: usize| self.vertices().contains(v) <==> v < self.label_count(),
    {
        let pre = self.preimage();
        let labels = self.labels();
        lemma_first_seen(pre.vertices());
        assert forall|v: usize| self.vertices().contains(v) <==> v < self.label_count() by {
            if v < self.label_count() {
                assert(self.vertices()[v as int] == v);
            }
            if self.vertices().contains(v) {
                let i = choose|i: int| 0 <= i < self.vertices().len() && self.vertices()[i] == v;
            }
        }
        assert forall|v: usize| #[trigger] self.vertices().contains(v) implies self.neighbors(
            v,
        ) is Some by {
            assert(labels.contains(labels[v as int]));
            assert(pre.vertices().contains(labels[v as int]));
        }
        assert forall|label: usize| pre.vertices().contains(label) implies self.number(label)
            < labels.len() by {
            assert(labels.contains(label));
        }
        assert forall|u: usize, v: usize|
            self.vertices().contains(u) && #[trigger] adjacent(self, u, v) implies self.vertices().contains(
            v,
        ) by {
            let ns = pre.neighbors(labels[u as int])->0;
            let i = choose|i: int|
                0 <= i < ns.map_values(self.renumber()).len() && ns.map_values(self.renumber())[i]
                    == v;
            assert(labels.contains(labels[u as int]));
            assert(ns.contains(ns[i]));
            assert(adjacent(pre, labels[u as int], ns[i]));
            assert(pre.vertices().contains(ns[i]));
        }
        assert forall|i: int| 0 <= i < self.edges().len() implies self.vertices().contains(
            (#[trigger] self.edges()[i]).0,
        ) && self.vertices().contains(self.edges()[i].1) by {
            assert(pre.vertices().contains(pre.edges()[i].0));
            assert(pre.vertices().contains(pre.edges()[i].1));
        }
    }
}

impl<G: ViewCombinator> ViewCombinator for VertexCompactor<G> {
    open spec fn wf(&self) -> bool {
        &&& self.preimage().wf()
        &&& closed(self.preimage())
        &&& self.tables_agree()
    }

    open spec fn vertices(&self) -> Seq<usize> {
        Seq::new(self.labels().len(), |i: int| i as usize)
    }

    open spec fn edges(&self) -> Seq<(usize, usize)> {
        self.preimage().edges().map_values(self.renumber_edge())
    }

    open spec fn neighbors(&self, vertex: usize) -> Option<Seq<usize>> {
        if vertex < self.labels().len() {
            match self.preimage().neighbors(self.labels()[vertex as int]) {
                Some(targets) => Some(targets.map_values(self.renumber())),
                None => None,
            }
        } else {
            None
        }
    }

    open spec fn queryable(&self, vertex: usize) -> bool {
        true
    }

    proof fn lemma_vertices_queryable(&self) {
    }

    fn vertex_iterator(&self) -> (out: Vec<usize>) {
        let n = self.labels.len();
        let mut out: Vec<usize> = Vec::with_capacity(n);
        let mut i: usize = 0;
        while i < n
            invariant
                i <= n,
                n == self.labels().len(),
                out@ == Seq::new(i as nat, |k: int| k as usize),
            decreases n - i,
        {
            out.push(i);
            proof {
                assert(out@ =~= Seq::new((i + 1) as nat, |k: int| k as usize));
            }
            i += 1;
        }
        out
    }

    fn edge_iterator(&self) -> (out: Vec<(usize, usize)>) {
        let all = self.preimage.edge_iterator();
        let mut out: Vec<(usize, usize)> = Vec::with_capacity(all.len());
        let mut i: usize = 0;
        proof {
            assert(all@.take(0).map_values(self.renumber_edge()) =~= Seq::empty());
        }
        while i < all.len()
            invariant
                self.wf(),
                all@ == self.preimage().edges(),
                i <= all.len(),
                out@ == all@.take(i as int).map_values(self.renumber_edge()),
            decreases all.len() - i,
        {
            let e = all[i];
            proof {
                assert(self.preimage().vertices().contains(self.preimage().edges()[i as int].0));
                assert(self.preimage().vertices().contains(self.preimage().edges()[i as int].1));
                lemma_map_step(all@, i as int, self.renumber_edge());
            }
            let u = self.lookup(e.0);
            let v = self.lookup(e.1);
            out.push((u, v));
            i += 1;
        }
        proof {
            lemma_take_all(all@);
        }
        out
    }

    fn neighbor_iterator(&self, vertex: usize) -> (out: Option<Vec<usize>>) {
        if vertex >= self.labels.len() {
            return None;
        }
        let label = self.labels[vertex];
        proof {
            lemma_first_seen(self.preimage().vertices());
            assert(self.labels().contains(self.labels()[vertex as int]));
            self.preimage.lemma_vertices_queryable();
        }
        match self.preimage.neighbor_iterator(label) {
            Some(targets) => {
                proof {
                    assert forall|i: int|
                        0 <= i < targets@.len() implies self.preimage().vertices().contains(
                        #[trigger] targets@[i],
                    ) by {
                        assert(targets@.contains(targets@[i]));
                        assert(adjacent(self.preimage(), label, targets@[i]));
                    }
                }
                Some(self.lookup_all(&targets))
            },
            None => None,
        }
    }
}

impl<G: ViewCombinator> ExactCombinator for VertexCompactor<G> {
    open spec fn label_count(&self) -> nat {
        self.labels().len()
    }

    fn num_v_labels(&self) -> (n: usize) {
        self.labels.len()
    }
}

} // verus!
