use vstd::prelude::*;
use crate::counter::{sat_inc, saturating_inc};
use crate::grid::{GridModel, MyGrid};
use crate::merge::zeros;
use crate::model::{apply_hit, apply_hits, in_bounds, lemma_apply_hits_closed_form, lemma_hit_index_range};

verus! {

/// A sparse matrix of counters, kept in sprs's compressed-row `CsMat<u8>`.
#[verifier::external_body]
pub struct SparseCounts {
    m: sprs::CsMat<u8>,
}

/// The elements a sparse matrix stores, by `(row, column)`.
pub uninterp spec fn sparse_entries(m: SparseCounts) -> Map<(int, int), u8>;

/// The number of rows and columns of a sparse matrix.
pub uninterp spec fn sparse_shape(m: SparseCounts) -> (nat, nat);

/// A sparse matrix that stores nothing.
pub open spec fn no_entries() -> Map<(int, int), u8> {
    Map::empty()
}

/// Relies on sprs's `CsMatBase::zero`: a matrix of the given shape storing nothing.
#[verifier::external_body]
fn sparse_zero(rows: usize, cols: usize) -> (r: SparseCounts)
    ensures
        sparse_entries(r) == no_entries(),
        sparse_shape(r) == (rows as nat, cols as nat),
{
    SparseCounts { m: sprs::CsMatBase::zero((rows, cols)) }
}

/// Relies on sprs's `CsMatBase::get`: the element stored at `(row, col)`, if any.
#[verifier::external_body]
fn sparse_get(m: &SparseCounts, row: usize, col: usize) -> (r: Option<u8>)
    ensures
        r == if sparse_entries(*m).contains_key((row as int, col as int)) {
            Some(sparse_entries(*m)[(row as int, col as int)])
        } else {
            None
        },
{
    m.m.get(row, col).copied()
}

/// Relies on sprs's `CsMatBase::insert`: stores `val` at `(row, col)`, replacing
/// what was there; inside the shape, the shape is kept.
#[verifier::external_body]
fn sparse_insert(m: &mut SparseCounts, row: usize, col: usize, val: u8)
    requires
        row < sparse_shape(*old(m)).0,
        col < sparse_shape(*old(m)).1,
    ensures
        sparse_entries(*final(m)) == sparse_entries(*old(m)).insert((row as int, col as int), val),
        sparse_shape(*final(m)) == sparse_shape(*old(m)),
{
    m.m.insert(row, col, val)
}

/// Relies on sprs's `CsMatBase::iter`: every stored element, once, as
/// `(row, column, value)`.
#[verifier::external_body]
fn sparse_triplets(m: &SparseCounts) -> (r: Vec<(usize, usize, u8)>)
    ensures
        forall|k: int|
            0 <= k < r@.len() ==> sparse_entries(*m).contains_key((r@[k].0 as int, r@[k].1 as int))
                && sparse_entries(*m)[(r@[k].0 as int, r@[k].1 as int)] == r@[k].2,
        forall|key: (int, int)|
            sparse_entries(*m).contains_key(key) ==> exists|k: int|
                0 <= k < r@.len() && key == (r@[k].0 as int, r@[k].1 as int),
{
    m.m.iter().map(|(v, (row, col))| (row, col, *v)).collect()
}

/// The counter a sparse matrix holds at `(row, col)`: what it stores there, or zero.
pub open spec fn entry_or_zero(entries: Map<(int, int), u8>, row: int, col: int) -> u8 {
    if entries.contains_key((row, col)) {
        entries[(row, col)]
    } else {
        0
    }
}

/// The dense counters, row-major, of `rows` by `cols` sparse entries.
pub open spec fn dense_of(rows: nat, cols: nat, entries: Map<(int, int), u8>) -> Seq<u8> {
    Seq::new(rows * cols, |i: int| entry_or_zero(entries, i / cols as int, i % cols as int))
}

/// What a sparse grid holds: its shape and the counters it stores.
pub struct SparseModel {
    pub rows: nat,
    pub cols: nat,
    pub entries: Map<(int, int), u8>,
}

/// A histogram that stores only the cells that were hit, owned by one worker.
pub struct SparseGrid {
    rows: usize,
    cols: usize,
    m: SparseCounts,
}

impl View for SparseGrid {
    type V = SparseModel;

    closed spec fn view(&self) -> SparseModel {
        SparseModel { rows: self.rows as nat, cols: self.cols as nat, entries: sparse_entries(self.m) }
    }
}

/// The stored counters after one hit: the addressed cell gains one (saturating,
/// from zero when nothing is stored); a hit outside the grid changes nothing.
pub open spec fn sparse_hit(rows: nat, cols: nat, entries: Map<(int, int), u8>, h: (i64, i64)) -> Map<
    (int, int),
    u8,
> {
    if in_bounds(rows, cols, h.0 as int, h.1 as int) {
        entries.insert((h.0 as int, h.1 as int), sat_inc(entry_or_zero(entries, h.0 as int, h.1 as int)))
    } else {
        entries
    }
}

/// The stored counters after a sequence of hits, taken in order.
pub open spec fn sparse_hits(rows: nat, cols: nat, entries: Map<(int, int), u8>, hits: Seq<(i64, i64)>) -> Map<
    (int, int),
    u8,
>
    decreases hits.len(),
{
    if hits.len() == 0 {
        entries
    } else {
        sparse_hit(rows, cols, sparse_hits(rows, cols, entries, hits.drop_last()), hits.last())
    }
}

impl SparseGrid {
    /// The shape of the grid is that of its matrix.
    pub closed spec fn inv(&self) -> bool {
        sparse_shape(self.m) == (self.rows as nat, self.cols as nat)
    }

    /// A blank sparse grid of `rows` by `cols`.
    pub fn new(rows: usize, cols: usize) -> (r: SparseGrid)
        ensures
            r.inv(),
            r@ == (SparseModel { rows: rows as nat, cols: cols as nat, entries: Map::empty() }),
    {
        SparseGrid { rows, cols, m: sparse_zero(rows, cols) }
    }

    /// Number of rows.
    pub fn rows(&self) -> (r: usize)
        ensures
            r == self@.rows,
    {
        self.rows
    }

    /// Number of columns.
    pub fn cols(&self) -> (r: usize)
        ensures
            r == self@.cols,
    {
        self.cols
    }

    /// Records one hit at `(row, col)`; a request outside the grid changes nothing.
    pub fn record_hit(&mut self, row: i64, col: i64)
        requires
            old(self).inv(),
        ensures
            final(self).inv(),
            final(self)@.rows == old(self)@.rows,
            final(self)@.cols == old(self)@.cols,
            final(self)@.entries == sparse_hit(old(self)@.rows, old(self)@.cols, old(self)@.entries, (row, col)),
    {
        if 0 <= row && 0 <= col && (row as u64) < (self.rows as u64) && (col as u64) < (self.cols as u64) {
            let r = row as usize;
            let c = col as usize;
            let v = match sparse_get(&self.m, r, c) {
                Some(x) => saturating_inc(x),
                None => 1u8,
            };
            sparse_insert(&mut self.m, r, c, v);
        }
    }

    /// Records every hit of `hits`, in order.
    pub fn accumulate(&mut self, hits: &Vec<(i64, i64)>)
        requires
            old(self).inv(),
        ensures
            final(self).inv(),
            final(self)@.rows == old(self)@.rows,
            final(self)@.cols == old(self)@.cols,
            final(self)@.entries == sparse_hits(old(self)@.rows, old(self)@.cols, old(self)@.entries, hits@),
    {
        let ghost start = self@;
        let mut k: usize = 0;
        while k < hits.len()
            invariant
                self.inv(),
                0 <= k <= hits.len(),
                self@.rows == start.rows,
                self@.cols == start.cols,
                self@.entries == sparse_hits(start.rows, start.cols, start.entries, hits@.take(k as int)),
            decreases hits.len() - k,
        {
            let h = hits[k];
            self.record_hit(h.0, h.1);
            proof {
                assert(hits@.take(k + 1).drop_last() =~= hits@.take(k as int));
            }
            k = k + 1;
        }
        proof {
            assert(hits@.take(k as int) =~= hits@);
        }
    }

    /// The same counters as a dense grid: stored values in place, zero elsewhere.
    pub fn to_dense(&self) -> (r: MyGrid)
        requires
            self.inv(),
            self@.rows * self@.cols <= usize::MAX,
        ensures
            r.inv(),
            r@ == (GridModel {
                rows: self@.rows,
                cols: self@.cols,
                cells: dense_of(self@.rows, self@.cols, self@.entries),
            }),
    {
        let triplets = sparse_triplets(&self.m);
        let r = dense_from_triplets(self.rows, self.cols, &triplets);
        proof {
            let entries = self@.entries;
            assert forall|i: int| 0 <= i < r@.cells.len() implies r@.cells[i] == dense_of(self@.rows, self@.cols, entries)[i] by {
                lemma_split_index(i, self.rows as int, self.cols as int);
                lemma_triplet_value_is_entry(triplets@, entries, i / self.cols as int, i % self.cols as int);
            }
            assert(r@.cells =~= dense_of(self@.rows, self@.cols, entries));
        }
        r
    }
}

/// The value the last triplet at `(row, col)` gives, or zero when none does.
pub open spec fn triplet_value(ts: Seq<(usize, usize, u8)>, row: int, col: int) -> u8
    decreases ts.len(),
{
    if ts.len() == 0 {
        0
    } else if ts.last().0 == row && ts.last().1 == col {
        ts.last().2
    } else {
        triplet_value(ts.drop_last(), row, col)
    }
}

/// A dense grid of `rows` by `cols` from `(row, column, value)` triplets: each
/// cell takes the value of the last triplet that names it, or zero; triplets
/// outside the grid are ignored.
pub fn dense_from_triplets(rows: usize, cols: usize, triplets: &Vec<(usize, usize, u8)>) -> (r: MyGrid)
    requires
        rows * cols <= usize::MAX,
    ensures
        r.inv(),
        r@ == (GridModel {
            rows: rows as nat,
            cols: cols as nat,
            cells: Seq::new(rows as nat * cols as nat, |i: int| triplet_value(triplets@, i / cols as int, i % cols as int)),
        }),
{
    let n: usize = rows * cols;
    let mut cells: Vec<u8> = vec![0u8; n];
    let mut k: usize = 0;
    proof {
        assert(triplets@.take(0) =~= Seq::<(usize, usize, u8)>::empty());
    }
    while k < triplets.len()
        invariant
            n == rows * cols,
            0 <= k <= triplets@.len(),
            cells@ =~= Seq::new(n as nat, |i: int| triplet_value(triplets@.take(k as int), i / cols as int, i % cols as int)),
        decreases triplets@.len() - k,
    {
        let (r, c, v) = triplets[k];
        let ghost before = cells@;
        proof {
            assert(triplets@.take(k + 1).drop_last() =~= triplets@.take(k as int));
            assert(triplets@.take(k + 1).last() == triplets@[k as int]);
        }
        if r < rows && c < cols {
            let i = crate::grid::flat_index(rows, cols, r, c);
            proof {
                lemma_row_col_of(r as int, c as int, cols as int);
            }
            cells.set(i, v);
            proof {
                assert forall|j: int| 0 <= j < n implies #[trigger] cells@[j] == triplet_value(
                    triplets@.take(k + 1),
                    j / cols as int,
                    j % cols as int,
                ) by {
                    lemma_split_index(j, rows as int, cols as int);
                    if j != i as int {
                        assert(j / cols as int != r || j % cols as int != c);
                    }
                }
            }
        } else {
            proof {
                assert forall|j: int| 0 <= j < n implies #[trigger] cells@[j] == triplet_value(
                    triplets@.take(k + 1),
                    j / cols as int,
                    j % cols as int,
                ) by {
                    lemma_split_index(j, rows as int, cols as int);
                }
            }
        }
        k = k + 1;
    }
    proof {
        assert(triplets@.take(k as int) =~= triplets@);
    }
    MyGrid::from_cells(rows, cols, cells).unwrap()
}

/// Triplets that list every stored element, each with its stored value, give
/// the stored value (or zero) at every position.
proof fn lemma_triplet_value_is_entry(ts: Seq<(usize, usize, u8)>, entries: Map<(int, int), u8>, row: int, col: int)
    requires
        forall|k: int|
            0 <= k < ts.len() ==> entries.contains_key((ts[k].0 as int, ts[k].1 as int))
                && entries[(ts[k].0 as int, ts[k].1 as int)] == ts[k].2,
        forall|key: (int, int)|
            entries.contains_key(key) ==> exists|k: int| 0 <= k < ts.len() && key == (ts[k].0 as int, ts[k].1 as int),
    ensures
        triplet_value(ts, row, col) == entry_or_zero(entries, row, col),
{
    lemma_triplet_value_found(ts, entries, row, col);
}

proof fn lemma_triplet_value_found(ts: Seq<(usize, usize, u8)>, entries: Map<(int, int), u8>, row: int, col: int)
    requires
        forall|k: int|
            0 <= k < ts.len() ==> entries.contains_key((ts[k].0 as int, ts[k].1 as int))
                && entries[(ts[k].0 as int, ts[k].1 as int)] == ts[k].2,
    ensures
        (exists|k: int| 0 <= k < ts.len() && (row, col) == (ts[k].0 as int, ts[k].1 as int)) ==> triplet_value(ts, row, col) == entries[(row, col)],
        !(exists|k: int| 0 <= k < ts.len() && (row, col) == (ts[k].0 as int, ts[k].1 as int)) ==> triplet_value(ts, row, col) == 0,
    decreases ts.len(),
{
    if ts.len() > 0 {
        let prev = ts.drop_last();
        assert forall|k: int| 0 <= k < prev.len() implies entries.contains_key((prev[k].0 as int, prev[k].1 as int))
            && entries[(prev[k].0 as int, prev[k].1 as int)] == prev[k].2 by {
            assert(prev[k] == ts[k]);
        }
        lemma_triplet_value_found(prev, entries, row, col);
        if !(ts.last().0 == row && ts.last().1 == col) {
            if exists|k: int| 0 <= k < ts.len() && (row, col) == (ts[k].0 as int, ts[k].1 as int) {
                let k = choose|k: int| 0 <= k < ts.len() && (row, col) == (ts[k].0 as int, ts[k].1 as int);
                assert(k < ts.len() - 1);
                assert(prev[k] == ts[k]);
            }
            if exists|k: int| 0 <= k < prev.len() && (row, col) == (prev[k].0 as int, prev[k].1 as int) {
                let k = choose|k: int| 0 <= k < prev.len() && (row, col) == (prev[k].0 as int, prev[k].1 as int);
                assert(ts[k] == prev[k]);
            }
        } else {
            assert((row, col) == (ts[ts.len() - 1].0 as int, ts[ts.len() - 1].1 as int));
        }
    }
}

/// A sparse grid that took a run of hits from blank holds, cell by cell, what a
/// dense grid that took the same run holds.
pub proof fn lemma_sparse_matches_dense(rows: nat, cols: nat, hits: Seq<(i64, i64)>)
    ensures
        dense_of(rows, cols, sparse_hits(rows, cols, no_entries(), hits)) == apply_hits(
            rows,
            cols,
            zeros(rows * cols),
            hits,
        ),
    decreases hits.len(),
{
    let z = zeros(rows * cols);
    if hits.len() == 0 {
        assert(dense_of(rows, cols, no_entries()) =~= z);
    } else {
        let prev = hits.drop_last();
        let h = hits.last();
        lemma_sparse_matches_dense(rows, cols, prev);
        lemma_apply_hits_closed_form(rows, cols, z, prev);
        let sp = sparse_hits(rows, cols, no_entries(), prev);
        let a = apply_hits(rows, cols, z, prev);
        let lhs = dense_of(rows, cols, sparse_hit(rows, cols, sp, h));
        let rhs = apply_hit(rows, cols, a, h);
        lemma_hit_index_range(rows, cols, h);
        assert forall|j: int| 0 <= j < lhs.len() implies lhs[j] == rhs[j] by {
            lemma_split_index(j, rows as int, cols as int);
            if in_bounds(rows, cols, h.0 as int, h.1 as int) {
                lemma_row_col_of(h.0 as int, h.1 as int, cols as int);
                let i = h.0 * cols + h.1;
                if j == i {
                    assert(a[j] == dense_of(rows, cols, sp)[j]);
                } else {
                    assert(j / cols as int != h.0 || j % cols as int != h.1);
                    assert(a[j] == dense_of(rows, cols, sp)[j]);
                }
            } else {
                assert(a[j] == dense_of(rows, cols, sp)[j]);
            }
        }
        assert(lhs =~= rhs);
    }
}

/// Row and column of an in-row position.
proof fn lemma_row_col_of(r: int, c: int, cols: int)
    requires
        0 <= r,
        0 <= c < cols,
    ensures
        (r * cols + c) / cols == r,
        (r * cols + c) % cols == c,
{
    vstd::arithmetic::div_mod::lemma_fundamental_div_mod_converse(r * cols + c, cols, r, c);
}

/// A position inside the grid splits into an in-bounds row and column.
proof fn lemma_split_index(i: int, rows: int, cols: int)
    requires
        0 <= rows,
        0 <= cols,
        0 <= i < rows * cols,
    ensures
        cols > 0,
        0 <= i / cols < rows,
        0 <= i % cols < cols,
        i == (i / cols) * cols + i % cols,
{
    if cols == 0 {
        assert(rows * cols == 0);
    }
    vstd::arithmetic::div_mod::lemma_fundamental_div_mod(i, cols);
    vstd::arithmetic::div_mod::lemma_mod_bound(i, cols);
    vstd::arithmetic::div_mod::lemma_div_pos_is_pos(i, cols);
    let q = i / cols;
    assert(cols * q == q * cols) by (nonlinear_arith);
    if q >= rows {
        assert(q * cols >= rows * cols) by (nonlinear_arith)
            requires
                q >= rows,
                cols > 0,
        ;
    }
}

} // verus!
