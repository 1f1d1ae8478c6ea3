//! Adjacency-matrix storage: one cell per ordered pair of labels.
//!
//! The cell in row `from`, column `to` holds 1 if the entry `from -> to`
//! is stored and 0 if not, so an entry is stored at most once.

use crate::seqs::{
    differs_from, lemma_concat_member, lemma_filter_all, lemma_filter_member, lemma_filter_none,
    lemma_push_member, lemma_take_all, lemma_take_push,
};
use crate::storage::{
    lemma_slots_without, live_labels, row_edges, slots_with, slots_without, stored_edges,
    stores_edge, EntryRule, Slots, Storage,
};
use nalgebra::DMatrix;
use vstd::prelude::*;

verus! {

/// The cells of an adjacency matrix: a matrix of bytes.
#[verifier::external_body]
pub struct Cells {
    inner: DMatrix<u8>,
}

/// The bytes that the cells hold, row by row.
pub uninterp spec fn cell_rows(cells: Cells) -> Seq<Seq<u8>>;

/// A square matrix of `n` rows in which every cell holds `value`.
///
/// Calls `DMatrix::from_element`, which makes a matrix of the given shape
/// with every element set to the given one. The number of cells has to be
/// one that a vector can hold.
#[verifier::external_body]
fn cells_filled(n: usize, value: u8) -> (cells: Cells)
    requires
        n * n <= isize::MAX,
    ensures
        cell_rows(cells) == Seq::new(n as nat, |i: int| Seq::new(n as nat, |j: int| value)),
{
    Cells { inner: DMatrix::from_element(n, n, value) }
}

/// The number of rows.
///
/// Calls `Matrix::nrows`.
#[verifier::external_body]
fn cells_order(cells: &Cells) -> (n: usize)
    ensures
        n == cell_rows(*cells).len(),
{
    cells.inner.nrows()
}

/// The byte in row `i`, column `j`.
///
/// Indexes the matrix by the pair `(i, j)`, which gives the element in
/// that row and column and panics outside the matrix.
#[verifier::external_body]
fn cells_get(cells: &Cells, i: usize, j: usize) -> (value: u8)
    requires
        i < cell_rows(*cells).len(),
        j < cell_rows(*cells)[i as int].len(),
    ensures
        value == cell_rows(*cells)[i as int][j as int],
{
    cells.inner[(i, j)]
}

/// Puts `value` into row `i`, column `j`.
///
/// Assigns through the matrix index `(i, j)`, which changes the element
/// in that row and column and no other, and panics outside the matrix.
#[verifier::external_body]
fn cells_set(cells: &mut Cells, i: usize, j: usize, value: u8)
    requires
        i < cell_rows(*old(cells)).len(),
        j < cell_rows(*old(cells))[i as int].len(),
    ensures
        cell_rows(*final(cells)) == cell_rows(*old(cells)).update(
            i as int,
            cell_rows(*old(cells))[i as int].update(j as int, value),
        ),
{
    cells.inner[(i, j)] = value;
}

/// Makes the matrix square with `n` rows: the cells it had within that
/// shape keep their bytes, the others hold `value`.
///
/// Calls `DMatrix::resize_mut`, which copies the elements so that each
/// stays at its row and column, and fills the extra rows and columns with
/// the given element. The number of cells has to be one that a vector can
/// hold.
#[verifier::external_body]
fn cells_resize(cells: &mut Cells, n: usize, value: u8)
    requires
        n * n <= isize::MAX,
    ensures
        cell_rows(*final(cells)) == Seq::new(
            n as nat,
            |i: int|
                Seq::new(
                    n as nat,
                    |j: int|
                        if i < cell_rows(*old(cells)).len() && j < cell_rows(*old(cells))[i].len() {
                            cell_rows(*old(cells))[i][j]
                        } else {
                            value
                        },
                ),
        ),
{
    cells.inner.resize_mut(n, n, value);
}

/// The columns of `row` that hold 1, ascending.
pub open spec fn ones(row: Seq<u8>) -> Seq<usize>
    decreases row.len(),
{
    if row.len() == 0 {
        Seq::empty()
    } else {
        let rest = ones(row.drop_last());
        if row.last() == 1 {
            rest.push((row.len() - 1) as usize)
        } else {
            rest
        }
    }
}

/// The predicate "is below `bound`".
pub open spec fn below(bound: usize) -> spec_fn(usize) -> bool {
    |x: usize| x < bound
}

/// The predicate "is above `bound`".
pub open spec fn above(bound: usize) -> spec_fn(usize) -> bool {
    |x: usize| x > bound
}

/// Ascending targets with `to` among them: as they are if `to` is one of
/// them, else with `to` at its place.
pub open spec fn placed(targets: Seq<usize>, to: usize) -> Seq<usize> {
    if targets.contains(to) {
        targets
    } else {
        targets.filter(below(to)).push(to) + targets.filter(above(to))
    }
}

/// Targets without `to` are those below it and those above it.
pub proof fn lemma_split_around(targets: Seq<usize>, to: usize)
    requires
        !targets.contains(to),
    ensures
        targets.filter(below(to)).len() + targets.filter(above(to)).len() == targets.len(),
    decreases targets.len(),
{
    if targets.len() == 0 {
        crate::seqs::lemma_filter_none(targets, below(to));
        crate::seqs::lemma_filter_none(targets, above(to));
    } else {
        let rest = targets.drop_last();
        let last = targets.last();
        assert(rest.push(last) =~= targets);
        assert(targets.contains(last));
        assert(!rest.contains(to)) by {
            if rest.contains(to) {
                let i = choose|i: int| 0 <= i < rest.len() && rest[i] == to;
                assert(targets[i] == to);
            }
        }
        lemma_split_around(rest, to);
        rest.lemma_filter_push(last, below(to));
        rest.lemma_filter_push(last, above(to));
    }
}

/// The slot that a row stands for.
pub open spec fn slot_of_row() -> spec_fn(Seq<u8>) -> Option<Seq<usize>> {
    |row: Seq<u8>| Some(ones(row))
}

/// The largest number of rows of a square matrix whose cells one vector
/// can hold on this machine: the largest `n` with `n * n <= isize::MAX`.
pub open spec fn matrix_capacity() -> nat {
    if usize::MAX > 0xffff_ffff {
        0xb504_f333
    } else {
        0xb504
    }
}

/// A matrix within the capacity has no more cells than a vector can hold.
pub proof fn lemma_matrix_capacity(n: nat)
    requires
        n <= matrix_capacity(),
    ensures
        n * n <= isize::MAX,
{
    if usize::MAX > 0xffff_ffff {
        assert(isize::MAX >= 0x7fff_ffff_ffff_ffff);
        assert(n * n <= 0xb504_f333 * 0xb504_f333) by (nonlinear_arith)
            requires
                n <= 0xb504_f333,
        ;
    } else {
        assert(isize::MAX >= 0x7fff_ffff);
        assert(n * n <= 0xb504 * 0xb504) by (nonlinear_arith)
            requires
                n <= 0xb504,
        ;
    }
}

/// A column is among the ones of a row exactly if it holds 1.
pub proof fn lemma_ones_contains(row: Seq<u8>, column: usize)
    requires
        row.len() <= usize::MAX,
    ensures
        ones(row).contains(column) <==> (column < row.len() && row[column as int] == 1),
    decreases row.len(),
{
    if row.len() > 0 {
        lemma_ones_contains(row.drop_last(), column);
        if row.last() == 1 {
            lemma_push_member(ones(row.drop_last()), (row.len() - 1) as usize, column);
        }
    }
}

/// Cells that hold 0 at the end of a row change nothing.
pub proof fn lemma_ones_padded(row: Seq<u8>, padded: Seq<u8>)
    requires
        row.len() <= padded.len(),
        forall|j: int| 0 <= j < row.len() ==> padded[j] == row[j],
        forall|j: int| row.len() <= j < padded.len() ==> padded[j] == 0,
    ensures
        ones(padded) == ones(row),
    decreases padded.len(),
{
    if row.len() < padded.len() {
        let shorter = padded.drop_last();
        lemma_ones_padded(row, shorter);
    } else {
        assert(padded =~= row);
    }
}

/// The ones of a row after a cell that held no 1 has been set to 1.
pub proof fn lemma_ones_set(row: Seq<u8>, to: usize)
    requires
        to < row.len() <= usize::MAX,
        row[to as int] != 1,
    ensures
        ones(row.update(to as int, 1)) == ones(row).filter(below(to)).push(to) + ones(row).filter(
            above(to),
        ),
    decreases row.len(),
{
    let updated = row.update(to as int, 1);
    let last = (row.len() - 1) as usize;
    let shorter = row.drop_last();
    let a = ones(shorter);
    if to == last {
        assert(updated.drop_last() =~= shorter);
        assert forall|i: int| 0 <= i < a.len() implies below(to)(#[trigger] a[i]) && !above(to)(
            a[i],
        ) by {
            assert(a.contains(a[i]));
            lemma_ones_contains(shorter, a[i]);
        }
        lemma_filter_all(a, below(to));
        lemma_filter_none(a, above(to));
        assert(a.push(to) + Seq::<usize>::empty() =~= a.push(to));
    } else {
        assert(updated.drop_last() =~= shorter.update(to as int, 1));
        lemma_ones_set(shorter, to);
        if row.last() == 1 {
            a.lemma_filter_push(last, below(to));
            a.lemma_filter_push(last, above(to));
            assert((a.filter(below(to)).push(to) + a.filter(above(to))).push(last) =~= a.filter(
                below(to),
            ).push(to) + a.filter(above(to)).push(last));
        }
    }
}

/// The ones of a row after a cell has been set to 0.
pub proof fn lemma_ones_cleared(row: Seq<u8>, to: usize)
    requires
        to < row.len() <= usize::MAX,
    ensures
        ones(row.update(to as int, 0)) == ones(row).filter(differs_from(to)),
    decreases row.len(),
{
    let updated = row.update(to as int, 0);
    let last = (row.len() - 1) as usize;
    let shorter = row.drop_last();
    let a = ones(shorter);
    if to == last {
        assert(updated.drop_last() =~= shorter);
        assert forall|i: int| 0 <= i < a.len() implies differs_from(to)(#[trigger] a[i]) by {
            assert(a.contains(a[i]));
            lemma_ones_contains(shorter, a[i]);
        }
        lemma_filter_all(a, differs_from(to));
        a.lemma_filter_push(last, differs_from(to));
    } else {
        assert(updated.drop_last() =~= shorter.update(to as int, 0));
        lemma_ones_cleared(shorter, to);
        a.lemma_filter_push(last, differs_from(to));
    }
}

/// Adjacency-matrix storage for simple directed graphs.
pub struct AdjacencyMatrix {
    matrix: Cells,
}

impl AdjacencyMatrix {
    /// The cells, row by row.
    pub closed spec fn rows(&self) -> Seq<Seq<u8>> {
        cell_rows(self.matrix)
    }

    /// The matrix is square.
    pub open spec fn square(&self) -> bool {
        forall|i: int| 0 <= i < self.rows().len() ==> (#[trigger] self.rows()[i]).len() == self.rows().len()
    }

    /// The columns of row `vertex` that hold 1.
    fn ones_of(&self, vertex: usize) -> (out: Vec<usize>)
        requires
            self.wf(),
            vertex < self.rows().len(),
        ensures
            out@ == ones(self.rows()[vertex as int]),
    {
        let n = cells_order(&self.matrix);
        let ghost row = self.rows()[vertex as int];
        let mut out: Vec<usize> = Vec::new();
        let mut j: usize = 0;
        while j < n
            invariant
                self.wf(),
                vertex < self.rows().len(),
                n == self.rows().len(),
                row == self.rows()[vertex as int],
                j <= n,
                out@ == ones(row.take(j as int)),
            decreases n - j,
        {
            proof {
                lemma_take_push(row, j as int);
            }
            if cells_get(&self.matrix, vertex, j) == 1 {
                out.push(j);
            }
            j += 1;
        }
        proof {
            lemma_take_all(row);
        }
        out
    }

    /// Puts `value` into the cell of the entry `from -> to`.
    fn mark(&mut self, from: usize, to: usize, value: u8)
        requires
            old(self).wf(),
            from < old(self).rows().len(),
            to < old(self).rows().len(),
            value <= 1,
        ensures
            final(self).wf(),
            final(self).slots() == if value == 1 {
                slots_with(old(self).slots(), from, to, Self::entry_rule())
            } else {
                slots_without(old(self).slots(), from, to)
            },
    {
        proof {
            assert(old(self).rows()[from as int].len() == old(self).rows().len());
        }
        cells_set(&mut self.matrix, from, to, value);
        proof {
            let before = old(self).rows();
            let after = self.rows();
            let row = before[from as int];
            assert forall|i: int| 0 <= i < after.len() implies (#[trigger] after[i]).len()
                == after.len() by {
                assert(before[i].len() == before.len());
            }
            if value == 1 {
                lemma_ones_contains(row, to);
                if row[to as int] == 1 {
                    assert(row.update(to as int, 1) =~= row);
                } else {
                    lemma_ones_set(row, to);
                }
                assert(self.slots() =~= slots_with(
                    old(self).slots(),
                    from,
                    to,
                    Self::entry_rule(),
                ));
            } else {
                lemma_ones_cleared(row, to);
                assert(self.slots() =~= slots_without(old(self).slots(), from, to));
            }
        }
    }
}

impl Storage for AdjacencyMatrix {
    open spec fn wf(&self) -> bool {
        &&& self.square()
        &&& self.rows().len() <= matrix_capacity()
    }

    open spec fn slots(&self) -> Slots {
        self.rows().map_values(slot_of_row())
    }

    open spec fn capacity() -> nat {
        matrix_capacity()
    }

    open spec fn entry_rule() -> EntryRule {
        |targets: Seq<usize>, to: usize| placed(targets, to)
    }

    proof fn lemma_entry_rule() {
        assert forall|targets: Seq<usize>, to: usize, x: usize|
            #[trigger] Self::entry_rule()(targets, to).contains(x) <==> (targets.contains(x) || x
                == to) by {
            let low = targets.filter(below(to));
            let high = targets.filter(above(to));
            lemma_filter_member(targets, below(to), x);
            lemma_filter_member(targets, above(to), x);
            lemma_push_member(low, to, x);
            lemma_concat_member(low.push(to), high, x);
        }
        assert forall|targets: Seq<usize>, to: usize| !targets.contains(to) implies (
        #[trigger] Self::entry_rule()(targets, to)).len() == targets.len() + 1 by {
            lemma_split_around(targets, to);
        }
    }

    proof fn lemma_slot_bounds(&self) {
        assert forall|from: usize, to: usize| #[trigger]
            stores_edge(self.slots(), from, to) implies to < self.slots().len() by {
            assert(self.rows()[from as int].len() == self.rows().len());
            lemma_ones_contains(self.rows()[from as int], to);
        }
    }

    fn max_labels() -> (n: usize) {
        if usize::MAX > 0xffff_ffff {
            0xb504_f333
        } else {
            0xb504
        }
    }

    fn empty(nv: usize) -> (s: Self) {
        proof {
            lemma_matrix_capacity(nv as nat);
        }
        let s = Self { matrix: cells_filled(nv, 0) };
        proof {
            assert forall|i: int| 0 <= i < nv implies #[trigger] s.slots()[i] == Some(
                Seq::<usize>::empty(),
            ) by {
                lemma_ones_padded(Seq::empty(), s.rows()[i]);
            }
            assert(s.slots() =~= Seq::new(nv as nat, |i: int| Some(Seq::<usize>::empty())));
        }
        s
    }

    fn num_v_labels(&self) -> (n: usize) {
        cells_order(&self.matrix)
    }

    fn add_vertex(&mut self) -> (label: usize) {
        let nv = cells_order(&self.matrix);
        self.add_vertices(1);
        proof {
            assert(Seq::new(1, |i: int| Some(Seq::<usize>::empty())) =~= seq![
                Some(Seq::<usize>::empty()),
            ]);
            assert(old(self).slots() + seq![Some(Seq::<usize>::empty())] =~= old(self).slots().push(
                Some(Seq::<usize>::empty()),
            ));
        }
        nv
    }

    fn add_vertices(&mut self, count: usize) {
        let nv = cells_order(&self.matrix);
        proof {
            lemma_matrix_capacity((nv + count) as nat);
        }
        cells_resize(&mut self.matrix, nv + count, 0);
        proof {
            let before = old(self).rows();
            let after = self.rows();
            let grown = old(self).slots() + Seq::new(
                count as nat,
                |i: int| Some(Seq::<usize>::empty()),
            );
            assert forall|i: int| 0 <= i < after.len() implies #[trigger] self.slots()[i]
                == grown[i] by {
                if i < nv {
                    assert(before[i].len() == before.len());
                    lemma_ones_padded(before[i], after[i]);
                } else {
                    lemma_ones_padded(Seq::empty(), after[i]);
                }
            }
            assert(self.slots() =~= grown);
        }
    }

    fn add_edge(&mut self, from: usize, to: usize) {
        self.mark(from, to, 1);
    }

    fn rem_edge(&mut self, from: usize, to: usize) {
        self.mark(from, to, 0);
    }

    fn rem_undirected_edge(&mut self, u: usize, v: usize) {
        self.mark(u, v, 0);
        proof {
            lemma_slots_without(old(self).slots(), u, v);
        }
        self.mark(v, u, 0);
    }

    fn has_vertex(&self, label: usize) -> (present: bool) {
        label < cells_order(&self.matrix)
    }

    fn has_edge(&self, from: usize, to: usize) -> (present: bool) {
        proof {
            assert(self.rows()[from as int].len() == self.rows().len());
            lemma_ones_contains(self.rows()[from as int], to);
        }
        cells_get(&self.matrix, from, to) == 1
    }

    fn vertex_iterator(&self) -> (out: Vec<usize>) {
        let n = cells_order(&self.matrix);
        let mut out: Vec<usize> = Vec::with_capacity(n);
        let mut i: usize = 0;
        while i < n
            invariant
                n == self.slots().len(),
                i <= n,
                out@ == live_labels(self.slots().take(i as int)),
            decreases n - i,
        {
            proof {
                lemma_take_push(self.slots(), i as int);
            }
            out.push(i);
            i += 1;
        }
        proof {
            lemma_take_all(self.slots());
        }
        out
    }

    fn edge_iterator(&self) -> (out: Vec<(usize, usize)>) {
        let n = cells_order(&self.matrix);
        let mut out: Vec<(usize, usize)> = Vec::new();
        let mut u: usize = 0;
        while u < n
            invariant
                self.wf(),
                n == self.slots().len(),
                u <= n,
                out@ == stored_edges(self.slots().take(u as int)),
            decreases n - u,
        {
            let ghost base = out@;
            let ghost row = self.rows()[u as int];
            let mut v: usize = 0;
            proof {
                lemma_take_push(self.slots(), u as int);
                assert(row.len() == n);
                assert(base + row_edges(u, ones(row.take(0))) =~= base);
            }
            while v < n
                invariant
                    self.wf(),
                    n == self.rows().len(),
                    u < n,
                    row == self.rows()[u as int],
                    row.len() == n,
                    v <= n,
                    out@ == base + row_edges(u, ones(row.take(v as int))),
                decreases n - v,
            {
                proof {
                    lemma_take_push(row, v as int);
                }
                if cells_get(&self.matrix, u, v) == 1 {
                    out.push((u, v));
                    proof {
                        assert(out@ =~= base + row_edges(u, ones(row.take(v + 1))));
                    }
                }
                v += 1;
            }
            proof {
                lemma_take_all(row);
            }
            u += 1;
        }
        proof {
            lemma_take_all(self.slots());
        }
        out
    }

    fn neighbor_iterator(&self, vertex: usize) -> (out: Option<Vec<usize>>) {
        Some(self.ones_of(vertex))
    }
}

} // verus!
