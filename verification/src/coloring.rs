//! Greedy vertex coloring.

use crate::graph::{all_live, mirrored, AbstractGraph, UnGraph};
use crate::storage::{slot_of, stores_edge, targets_allocated, Slots, Storage};
use crate::traversal::refill;
use vstd::prelude::*;

verus! {

/// The color of a vertex that has none.
pub const UNCOLORED: usize = usize::MAX;

/// A neighborhood of this size or more is colored with a table of the
/// colors in use; a smaller one by looking through it once per color.
pub const TABLE_THRESHOLD: usize = 500;

/// Whether one of `targets` has the color `c`.
pub open spec fn used_by(coloring: Seq<usize>, targets: Seq<usize>, c: usize) -> bool {
    exists|i: int|
        0 <= i < targets.len() && (#[trigger] targets[i]) < coloring.len() && coloring[targets[i] as int]
            == c
}

/// The least color from `from` on that none of `targets` has; `chrom` if
/// every color below `chrom` is taken.
pub open spec fn free_from(coloring: Seq<usize>, targets: Seq<usize>, from: nat, chrom: nat) -> nat
    decreases chrom - from,
{
    if from >= chrom {
        chrom
    } else if !used_by(coloring, targets, from as usize) {
        from
    } else {
        free_from(coloring, targets, from + 1, chrom)
    }
}

/// The neighbors of `u`.
pub open spec fn neighbors_in(slots: Slots, u: usize) -> Seq<usize> {
    match slot_of(slots, u) {
        Some(targets) => targets,
        None => Seq::empty(),
    }
}

/// The number of colors and the coloring after `u` has been given the
/// least color that none of its neighbors has.
pub open spec fn color_one(slots: Slots, state: (nat, Seq<usize>), u: usize) -> (nat, Seq<usize>) {
    let (chrom, coloring) = state;
    let c = free_from(coloring, neighbors_in(slots, u), 0, chrom);
    (
        if c == chrom {
            chrom + 1
        } else {
            chrom
        },
        coloring.update(u as int, c as usize),
    )
}

/// The number of colors and the coloring after the vertices of `order`
/// have been colored one after the other.
pub open spec fn colored(slots: Slots, order: Seq<usize>) -> (nat, Seq<usize>)
    decreases order.len(),
{
    if order.len() == 0 {
        (0, Seq::new(slots.len(), |i: int| usize::MAX))
    } else {
        color_one(slots, colored(slots, order.drop_last()), order.last())
    }
}

/// No two different adjacent vertices that both have a color have the
/// same color, and every color is below `chrom`.
pub open spec fn proper(slots: Slots, chrom: nat, coloring: Seq<usize>) -> bool {
    &&& coloring.len() == slots.len()
    &&& forall|x: int| 0 <= x < coloring.len() ==> #[trigger] coloring[x] == usize::MAX || coloring[x] < chrom
    &&& forall|a: usize, b: usize|
        a != b && #[trigger] stores_edge(slots, a, b) && a < coloring.len() && b < coloring.len()
            && coloring[a as int] != usize::MAX && coloring[b as int] != usize::MAX
            ==> coloring[a as int] != coloring[b as int]
}

/// What `free_from` finds: a color that is free, with every color from
/// `from` up to it taken.
pub proof fn lemma_free_from(coloring: Seq<usize>, targets: Seq<usize>, from: nat, chrom: nat)
    requires
        from <= chrom <= usize::MAX,
    ensures
        from <= free_from(coloring, targets, from, chrom) <= chrom,
        free_from(coloring, targets, from, chrom) < chrom ==> !used_by(
            coloring,
            targets,
            free_from(coloring, targets, from, chrom) as usize,
        ),
        forall|c: usize|
            from <= c < free_from(coloring, targets, from, chrom) ==> #[trigger] used_by(
                coloring,
                targets,
                c,
            ),
    decreases chrom - from,
{
    if from < chrom && used_by(coloring, targets, from as usize) {
        lemma_free_from(coloring, targets, from + 1, chrom);
    }
}

/// Coloring one more vertex of mirrored slots keeps a coloring proper.
pub proof fn lemma_color_one(slots: Slots, chrom: nat, coloring: Seq<usize>, u: usize)
    requires
        proper(slots, chrom, coloring),
        mirrored(slots),
        all_live(slots),
        u < slots.len(),
        chrom < usize::MAX,
    ensures
        proper(slots, color_one(slots, (chrom, coloring), u).0, color_one(slots, (chrom, coloring), u).1),
        color_one(slots, (chrom, coloring), u).0 <= chrom + 1,
{
    let targets = neighbors_in(slots, u);
    let c = free_from(coloring, targets, 0, chrom);
    let after = color_one(slots, (chrom, coloring), u);
    lemma_free_from(coloring, targets, 0, chrom);
    assert(!used_by(coloring, targets, c as usize)) by {
        if c == chrom && used_by(coloring, targets, c as usize) {
            let i = choose|i: int|
                0 <= i < targets.len() && (#[trigger] targets[i]) < coloring.len()
                    && coloring[targets[i] as int] == c as usize;
            assert(coloring[targets[i] as int] == usize::MAX || coloring[targets[i] as int] < chrom);
        }
    }
    assert forall|a: usize, b: usize|
        a != b && #[trigger] stores_edge(slots, a, b) && a < after.1.len() && b < after.1.len()
            && after.1[a as int] != usize::MAX && after.1[b as int] != usize::MAX implies after.1[a as int]
        != after.1[b as int] by {
        if a == u {
            let i = choose|i: int| 0 <= i < targets.len() && targets[i] == b;
            assert(targets[i] < coloring.len());
        } else if b == u {
            assert(stores_edge(slots, b, a));
            let i = choose|i: int| 0 <= i < targets.len() && targets[i] == a;
            assert(targets[i] < coloring.len());
        }
    }
}

/// Whether one of `targets` has the color `c`.
fn color_in_use(coloring: &Vec<usize>, targets: &Vec<usize>, c: usize) -> (used: bool)
    requires
        forall|i: int| 0 <= i < targets@.len() ==> (#[trigger] targets@[i]) < coloring@.len(),
    ensures
        used == used_by(coloring@, targets@, c),
{
    let mut i: usize = 0;
    while i < targets.len()
        invariant
            i <= targets.len(),
            forall|k: int| 0 <= k < targets@.len() ==> (#[trigger] targets@[k]) < coloring@.len(),
            forall|k: int| 0 <= k < i ==> coloring@[(#[trigger] targets@[k]) as int] != c,
        decreases targets.len() - i,
    {
        if coloring[targets[i]] == c {
            return true;
        }
        i += 1;
    }
    false
}

/// The least color that none of `targets` has, found by looking through
/// the targets once per color.
fn least_free_by_scan(coloring: &Vec<usize>, targets: &Vec<usize>, chrom: usize) -> (c: usize)
    requires
        forall|i: int| 0 <= i < targets@.len() ==> (#[trigger] targets@[i]) < coloring@.len(),
    ensures
        c == free_from(coloring@, targets@, 0, chrom as nat),
{
    let mut c: usize = 0;
    while c < chrom
        invariant
            c <= chrom,
            forall|i: int| 0 <= i < targets@.len() ==> (#[trigger] targets@[i]) < coloring@.len(),
            free_from(coloring@, targets@, c as nat, chrom as nat) == free_from(
                coloring@,
                targets@,
                0,
                chrom as nat,
            ),
        decreases chrom - c,
    {
        if !color_in_use(coloring, targets, c) {
            return c;
        }
        c += 1;
    }
    c
}

/// The least color that none of `targets` has, found with a table of the
/// colors in use.
fn least_free_by_table(
    coloring: &Vec<usize>,
    targets: &Vec<usize>,
    chrom: usize,
    local_colors: &mut Vec<bool>,
) -> (c: usize)
    requires
        old(local_colors)@.len() == chrom,
        forall|i: int| 0 <= i < targets@.len() ==> (#[trigger] targets@[i]) < coloring@.len(),
        forall|x: int|
            0 <= x < coloring@.len() ==> #[trigger] coloring@[x] == usize::MAX || coloring@[x] < chrom,
    ensures
        c == free_from(coloring@, targets@, 0, chrom as nat),
        final(local_colors)@.len() == chrom,
{
    let mut k: usize = 0;
    while k < chrom
        invariant
            k <= chrom,
            local_colors@.len() == chrom,
            forall|x: int| 0 <= x < k ==> !(#[trigger] local_colors@[x]),
        decreases chrom - k,
    {
        local_colors[k] = false;
        k += 1;
    }
    let mut i: usize = 0;
    while i < targets.len()
        invariant
            i <= targets.len(),
            local_colors@.len() == chrom,
            forall|j: int| 0 <= j < targets@.len() ==> (#[trigger] targets@[j]) < coloring@.len(),
            forall|x: int|
                0 <= x < coloring@.len() ==> #[trigger] coloring@[x] == usize::MAX || coloring@[x]
                    < chrom,
            forall|x: int|
                0 <= x < chrom ==> (#[trigger] local_colors@[x] <==> used_by(
                    coloring@,
                    targets@.take(i as int),
                    x as usize,
                )),
        decreases targets.len() - i,
    {
        let v = targets[i];
        let ghost before = local_colors@;
        if coloring[v] != usize::MAX {
            local_colors[coloring[v]] = true;
        }
        proof {
            let shorter = targets@.take(i as int);
            let longer = targets@.take(i + 1);
            assert forall|x: int| 0 <= x < chrom implies (#[trigger] local_colors@[x] <==> used_by(
                coloring@,
                longer,
                x as usize,
            )) by {
                if used_by(coloring@, shorter, x as usize) {
                    let j = choose|j: int|
                        0 <= j < shorter.len() && (#[trigger] shorter[j]) < coloring@.len()
                            && coloring@[shorter[j] as int] == x as usize;
                    assert(longer[j] == shorter[j]);
                }
                if coloring@[v as int] == x as usize {
                    assert(longer[i as int] == v);
                }
                if used_by(coloring@, longer, x as usize) {
                    let j = choose|j: int|
                        0 <= j < longer.len() && (#[trigger] longer[j]) < coloring@.len()
                            && coloring@[longer[j] as int] == x as usize;
                    if j < i {
                        assert(shorter[j] == longer[j]);
                    }
                }
            }
        }
        i += 1;
    }
    proof {
        crate::seqs::lemma_take_all(targets@);
    }
    let mut c: usize = 0;
    while c < chrom
        invariant
            c <= chrom,
            local_colors@.len() == chrom,
            forall|x: int|
                0 <= x < chrom ==> (#[trigger] local_colors@[x] <==> used_by(
                    coloring@,
                    targets@,
                    x as usize,
                )),
            free_from(coloring@, targets@, c as nat, chrom as nat) == free_from(
                coloring@,
                targets@,
                0,
                chrom as nat,
            ),
        decreases chrom - c,
    {
        if !local_colors[c] {
            return c;
        }
        c += 1;
    }
    c
}

/// Colors the vertices of `order` one after the other, each with the
/// least color that none of its neighbors has at that time. Returns the
/// number of colors used and the color of every vertex; a vertex that is
/// not in `order` has the color `UNCOLORED`.
pub fn greedy_coloring<S: Storage>(graph: &UnGraph<S>, order: &[usize]) -> (out: (usize, Vec<usize>))
    requires
        graph.wf(),
        forall|i: int| 0 <= i < order@.len() ==> (#[trigger] order@[i]) < graph.slots().len(),
    ensures
        (out.0 as nat, out.1@) == colored(graph.slots(), order@),
        proper(graph.slots(), out.0 as nat, out.1@),
        out.0 <= order@.len(),
{
    let n = graph.num_v_labels();
    let mut coloring: Vec<usize> = Vec::new();
    refill(&mut coloring, n, usize::MAX);
    let mut chrom: usize = 0;
    let mut local_colors: Vec<bool> = Vec::new();
    let mut i: usize = 0;
    proof {
        graph.lemma_undirected();
        graph.lemma_slot_bounds();
        assert(order@.take(0) =~= Seq::empty());
    }
    while i < order.len()
        invariant
            graph.wf(),
            mirrored(graph.slots()),
            all_live(graph.slots()),
            targets_allocated(graph.slots()),
            n == graph.slots().len(),
            forall|k: int| 0 <= k < order@.len() ==> (#[trigger] order@[k]) < graph.slots().len(),
            i <= order.len(),
            chrom <= i,
            local_colors@.len() == chrom,
            (chrom as nat, coloring@) == colored(graph.slots(), order@.take(i as int)),
            proper(graph.slots(), chrom as nat, coloring@),
        decreases order.len() - i,
    {
        let u = order[i];
        let targets = match graph.neighbor_iterator(u) {
            Some(targets) => targets,
            None => Vec::new(),
        };
        proof {
            crate::seqs::lemma_take_push(order@, i as int);
            assert(graph.slots()[u as int] is Some);
            assert(targets@ == neighbors_in(graph.slots(), u));
            assert forall|k: int| 0 <= k < targets@.len() implies (#[trigger] targets@[k])
                < coloring@.len() by {
                assert(targets@.contains(targets@[k]));
                assert(stores_edge(graph.slots(), u, targets@[k]));
            }
            lemma_color_one(graph.slots(), chrom as nat, coloring@, u);
            lemma_free_from(coloring@, targets@, 0, chrom as nat);
        }
        let c = if targets.len() < TABLE_THRESHOLD {
            least_free_by_scan(&coloring, &targets, chrom)
        } else {
            least_free_by_table(&coloring, &targets, chrom, &mut local_colors)
        };
        coloring[u] = c;
        if c == chrom {
            local_colors.push(false);
            chrom += 1;
        }
        i += 1;
    }
    proof {
        crate::seqs::lemma_take_all(order@);
    }
    (chrom, coloring)
}

} // verus!
