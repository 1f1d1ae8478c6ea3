//! Disjoint sets over the labels `0..n`, merged by size and searched with
//! path halving.

use vstd::prelude::*;

verus! {

/// A partition of the labels `0..n` into sets, each with one of its
/// labels as its root.
///
/// The model is `roots`: the root of the set of every label.
pub struct UnionFind {
    uf: Vec<usize>,
    rank: Vec<usize>,
    roots: Ghost<Seq<usize>>,
    level: Ghost<Seq<nat>>,
}

/// The labels whose root is `root`.
pub open spec fn class_of(roots: Seq<usize>, root: usize) -> Set<usize> {
    Set::new(|x: usize| x < roots.len() && roots[x as int] == root)
}

/// The labels below `n`.
pub open spec fn labels_up_to(n: nat) -> Set<usize> {
    Set::new(|x: usize| x < n)
}

/// There are `n` labels below `n`.
pub proof fn lemma_labels_up_to(n: nat)
    requires
        n <= usize::MAX + 1,
    ensures
        labels_up_to(n).finite(),
        labels_up_to(n).len() == n,
    decreases n,
{
    if n == 0 {
        assert(labels_up_to(0) =~= Set::empty());
    } else {
        lemma_labels_up_to((n - 1) as nat);
        assert(labels_up_to(n) =~= labels_up_to((n - 1) as nat).insert((n - 1) as usize));
    }
}

/// Two sets with different roots together have no more labels than there are.
pub proof fn lemma_classes_fit(roots: Seq<usize>, a: usize, b: usize)
    requires
        a != b,
        roots.len() <= usize::MAX,
    ensures
        class_of(roots, a).finite(),
        class_of(roots, b).finite(),
        class_of(roots, a).len() + class_of(roots, b).len() <= roots.len(),
        class_of(roots, a).union(class_of(roots, b)).len() == class_of(roots, a).len() + class_of(
            roots,
            b,
        ).len(),
{
    let all = labels_up_to(roots.len());
    let ca = class_of(roots, a);
    let cb = class_of(roots, b);
    lemma_labels_up_to(roots.len());
    assert(ca.subset_of(all));
    assert(cb.subset_of(all));
    vstd::set_lib::lemma_len_subset(ca, all);
    vstd::set_lib::lemma_len_subset(cb, all);
    assert(ca.disjoint(cb));
    vstd::set_lib::lemma_set_disjoint_lens(ca, cb);
    assert(ca.union(cb).subset_of(all));
    vstd::set_lib::lemma_len_subset(ca.union(cb), all);
}

impl UnionFind {
    /// The number of labels.
    pub closed spec fn len(&self) -> nat {
        self.uf@.len()
    }

    /// The root of the set of every label.
    pub closed spec fn roots(&self) -> Seq<usize> {
        self.roots@
    }

    /// The parent of every label: a label of the same set that is one
    /// step closer to the root. A root is its own parent.
    pub closed spec fn parents(&self) -> Seq<usize> {
        self.uf@
    }

    /// The root of the set that holds `x`.
    pub open spec fn root(&self, x: usize) -> usize {
        self.roots()[x as int]
    }

    /// Whether `x` and `y` are in the same set.
    pub open spec fn same_set(&self, x: usize, y: usize) -> bool {
        self.root(x) == self.root(y)
    }

    /// The number of labels in the set with the root `root`.
    pub open spec fn size_of(&self, root: usize) -> nat {
        class_of(self.roots(), root).len()
    }

    /// What the invariant says of the label `x`.
    pub closed spec fn sound_at(&self, x: int) -> bool {
        &&& self.uf@[x] < self.uf@.len()
        &&& self.roots@[x] < self.uf@.len()
        &&& self.roots@[self.uf@[x] as int] == self.roots@[x]
        &&& self.uf@[x] == x ==> self.roots@[x] == x
        &&& self.uf@[x] != x ==> self.level@[x] < self.level@[self.uf@[x] as int]
        &&& self.roots@[x] == x ==> self.rank@[x] == class_of(self.roots@, x as usize).len()
        &&& self.roots@[x] == x ==> self.level@[x] < self.rank@[x]
        &&& self.level@[x] <= self.uf@.len()
    }

    /// The invariant: parents lead to roots, and every root knows the
    /// size of its set.
    pub closed spec fn wf(&self) -> bool {
        &&& self.rank@.len() == self.uf@.len()
        &&& self.roots@.len() == self.uf@.len()
        &&& self.level@.len() == self.uf@.len()
        &&& self.uf@.len() <= usize::MAX
        &&& forall|x: int| 0 <= x < self.uf@.len() ==> #[trigger] self.sound_at(x)
    }

    /// What the invariant says about the model.
    pub proof fn lemma_roots(&self)
        requires
            self.wf(),
        ensures
            self.roots().len() == self.len(),
            self.parents().len() == self.len(),
            forall|x: usize| x < self.len() ==> #[trigger] self.root(x) < self.len(),
            forall|x: usize| x < self.len() ==> self.root(#[trigger] self.root(x)) == self.root(x),
            forall|x: usize|
                x < self.len() ==> (#[trigger] self.parents()[x as int]) < self.len() && self.root(
                    self.parents()[x as int],
                ) == self.root(x),
    {
        assert forall|x: usize| x < self.len() implies #[trigger] self.root(x) < self.len() by {
            assert(self.sound_at(x as int));
        }
        assert forall|x: usize| x < self.len() implies self.root(#[trigger] self.root(x))
            == self.root(x) by {
            self.lemma_root_is_fixed(x);
        }
        assert forall|x: usize| x < self.len() implies (#[trigger] self.parents()[x as int])
            < self.len() && self.root(self.parents()[x as int]) == self.root(x) by {
            assert(self.sound_at(x as int));
        }
    }

    /// The root of a label is a root.
    proof fn lemma_root_is_fixed(&self, x: usize)
        requires
            self.wf(),
            x < self.uf@.len(),
        ensures
            self.roots@[x as int] < self.uf@.len(),
            self.roots@[self.roots@[x as int] as int] == self.roots@[x as int],
            self.uf@[self.roots@[x as int] as int] == self.roots@[x as int],
        decreases self.uf@.len() - self.level@[x as int],
    {
        assert(self.sound_at(x as int));
        let p = self.uf@[x as int];
        if p != x {
            assert(self.sound_at(p as int));
            self.lemma_root_is_fixed(p);
        }
    }

    /// The partition of `size` labels into sets of one.
    pub fn new(size: usize) -> (out: Self)
        ensures
            out.wf(),
            out.len() == size,
            forall|x: usize| x < size ==> out.root(x) == x,
    {
        let mut uf: Vec<usize> = Vec::with_capacity(size);
        let mut rank: Vec<usize> = Vec::with_capacity(size);
        let mut i: usize = 0;
        while i < size
            invariant
                i <= size,
                uf@.len() == i,
                rank@.len() == i,
                forall|k: int| 0 <= k < i ==> #[trigger] uf@[k] == k,
                forall|k: int| 0 <= k < i ==> #[trigger] rank@[k] == 1,
            decreases size - i,
        {
            uf.push(i);
            rank.push(1);
            i += 1;
        }
        let out = Self {
            uf,
            rank,
            roots: Ghost(uf@),
            level: Ghost(Seq::new(size as nat, |k: int| 0nat)),
        };
        proof {
            assert(out.uf@.len() == out.uf.len());
            assert forall|x: int| 0 <= x < out.uf@.len() implies #[trigger] out.sound_at(x) by {
                assert(class_of(out.roots@, x as usize) =~= set![x as usize]);
            }
        }
        out
    }

    /// The root of the set that holds `u`. Every label on the way to the
    /// root gets its grandparent as its parent.
    fn mut_find(&mut self, u: usize) -> (root: usize)
        requires
            old(self).wf(),
            u < old(self).len(),
        ensures
            final(self).wf(),
            final(self).roots() == old(self).roots(),
            root == old(self).root(u),
            final(self).parents()[root as int] == root,
    {
        let start = u;
        let mut u = u;
        proof {
            assert(self.sound_at(u as int));
        }
        while self.uf[u] != u
            invariant
                self.wf(),
                self.roots@ == old(self).roots@,
                u < self.uf@.len(),
                self.roots@[u as int] == old(self).roots@[start as int],
            decreases self.uf@.len() - self.level@[u as int],
        {
            proof {
                assert(self.sound_at(u as int));
                assert(self.sound_at(self.uf@[u as int] as int));
            }
            let parent = self.uf[u];
            let grandparent = self.uf[parent];
            proof {
                assert(self.sound_at(grandparent as int));
            }
            let ghost before = *self;
            self.uf[u] = grandparent;
            proof {
                assert forall|x: int| 0 <= x < self.uf@.len() implies #[trigger] self.sound_at(x) by {
                    assert(before.sound_at(x));
                }
            }
            u = grandparent;
        }
        proof {
            assert(self.sound_at(u as int));
        }
        u
    }

    /// The parent of `u`: a label of the same set.
    pub fn find(&self, u: usize) -> (parent: usize)
        requires
            self.wf(),
            u < self.len(),
        ensures
            parent == self.parents()[u as int],
            parent < self.len(),
            self.same_set(parent, u),
    {
        proof {
            assert(self.sound_at(u as int));
        }
        self.uf[u]
    }

    /// Merges the set of `u` and the set of `v`. The root of the larger
    /// set becomes the root of both; of two sets of the same size, that of
    /// the set of `u`.
    pub fn union(&mut self, u: usize, v: usize)
        requires
            old(self).wf(),
            u < old(self).len(),
            v < old(self).len(),
        ensures
            final(self).wf(),
            final(self).len() == old(self).len(),
            final(self).root(u) == if old(self).size_of(old(self).root(u)) < old(self).size_of(
                old(self).root(v),
            ) {
                old(self).root(v)
            } else {
                old(self).root(u)
            },
            forall|x: usize|
                x < old(self).len() ==> #[trigger] final(self).root(x) == if old(self).same_set(x, u)
                    || old(self).same_set(x, v) {
                    final(self).root(u)
                } else {
                    old(self).root(x)
                },
    {
        let root_u = self.mut_find(u);
        let root_v = self.mut_find(v);
        proof {
            self.lemma_root_is_fixed(u);
            self.lemma_root_is_fixed(v);
            assert(self.sound_at(root_u as int));
            assert(self.sound_at(root_v as int));
        }
        if root_u != root_v {
            proof {
                lemma_classes_fit(self.roots@, root_u, root_v);
            }
            if self.rank[root_u] < self.rank[root_v] {
                self.attach(root_u, root_v);
            } else {
                self.attach(root_v, root_u);
            }
        }
    }

    /// Makes the root `child` a child of the root `parent`.
    fn attach(&mut self, child: usize, parent: usize)
        requires
            old(self).wf(),
            child < old(self).len(),
            parent < old(self).len(),
            child != parent,
            old(self).roots()[child as int] == child,
            old(self).roots()[parent as int] == parent,
        ensures
            final(self).wf(),
            final(self).len() == old(self).len(),
            forall|x: usize|
                x < old(self).len() ==> #[trigger] final(self).root(x) == if old(self).root(x) == child {
                    parent
                } else {
                    old(self).root(x)
                },
    {
        proof {
            assert(self.sound_at(child as int));
            assert(self.sound_at(parent as int));
            self.lemma_root_is_fixed(child);
            self.lemma_root_is_fixed(parent);
            lemma_classes_fit(self.roots@, child, parent);
        }
        let ghost before = *self;
        self.uf[child] = parent;
        self.rank[parent] += self.rank[child];
        proof {
            let roots = before.roots@;
            let after = Seq::new(
                roots.len(),
                |x: int|
                    if roots[x] == child {
                        parent
                    } else {
                        roots[x]
                    },
            );
            let lifted = if before.level@[parent as int] > before.level@[child as int] {
                before.level@[parent as int]
            } else {
                before.level@[child as int] + 1
            };
            self.roots@ = after;
            self.level@ = before.level@.update(parent as int, lifted);
            assert(class_of(after, parent) =~= class_of(roots, child).union(class_of(roots, parent)));
            assert forall|x: int| 0 <= x < self.uf@.len() implies #[trigger] self.sound_at(x) by {
                assert(before.sound_at(x));
                assert(before.sound_at(before.uf@[x] as int));
                assert(before.sound_at(child as int));
                assert(before.sound_at(parent as int));
                if x != child && roots[x] == x && x != parent {
                    assert(class_of(after, x as usize) =~= class_of(roots, x as usize));
                }
            }
        }
    }
}

} // verus!
