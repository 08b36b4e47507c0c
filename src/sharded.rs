use vstd::prelude::*;
use vstd::arithmetic::div_mod::{lemma_fundamental_div_mod, lemma_div_pos_is_pos, lemma_mod_bound};
use crate::counter::{saturating_inc, sat_inc};
use crate::grid::GridModel;
use crate::model::{
    apply_hit, apply_hit_window, apply_hits, apply_hits_window, lemma_hit_index_range,
};

verus! {

/// Number of consecutive counters guarded together as one shard.
pub const MUTEX_CELL_LENGTH: u32 = 1024;

/// What one shard holds: its position among the shards and its counters.
pub struct ShardModel {
    pub index: nat,
    pub cells: Seq<u8>,
}

/// A run of `MUTEX_CELL_LENGTH` consecutive counters of a sharded grid.
pub struct MutexCell {
    sub_grid: Vec<u8>,
    index: u32,
}

impl View for MutexCell {
    type V = ShardModel;

    closed spec fn view(&self) -> ShardModel {
        ShardModel { index: self.index as nat, cells: self.sub_grid@ }
    }
}

/// A blank shard at position zero.
impl Default for MutexCell {
    fn default() -> (r: MutexCell)
        ensures
            r@.index == 0,
            r@.cells == Seq::new(MUTEX_CELL_LENGTH as nat, |i: int| 0u8),
    {
        let sub_grid = vec![0u8; MUTEX_CELL_LENGTH as usize];
        proof {
            assert(sub_grid@ =~= Seq::new(MUTEX_CELL_LENGTH as nat, |i: int| 0u8));
        }
        MutexCell { sub_grid, index: 0 }
    }
}

impl MutexCell {
    /// A blank shard at position `index`.
    pub fn new(index: u32) -> (r: MutexCell)
        ensures
            r@.index == index,
            r@.cells == Seq::new(MUTEX_CELL_LENGTH as nat, |i: int| 0u8),
    {
        MutexCell::default().with_index(index)
    }

    /// The same counters, placed at position `index`.
    pub fn with_index(self, index: u32) -> (r: MutexCell)
        ensures
            r@.index == index,
            r@.cells == self@.cells,
    {
        MutexCell { index, ..self }
    }

    /// Position of the shard among the grid's shards.
    pub fn index(&self) -> (r: u32)
        ensures
            r == self@.index,
    {
        self.index
    }

    /// The shard's counters.
    pub fn counters(&self) -> (r: Vec<u8>)
        ensures
            r@ == self@.cells,
    {
        self.sub_grid.clone()
    }

    /// Records one hit at `offset` within the shard.
    fn bump(&mut self, offset: usize)
        requires
            offset < old(self)@.cells.len(),
        ensures
            final(self)@.index == old(self)@.index,
            final(self)@.cells == old(self)@.cells.update(offset as int, sat_inc(old(self)@.cells[offset as int])),
    {
        let v = saturating_inc(self.sub_grid[offset]);
        self.sub_grid.set(offset, v);
    }
}

/// The shards as values.
pub open spec fn views(shards: Seq<MutexCell>) -> Seq<ShardModel> {
    shards.map_values(|m: MutexCell| m@)
}

/// The counters of a run of shards, one after the other.
pub open spec fn flatten(shards: Seq<ShardModel>) -> Seq<u8> {
    Seq::new(
        shards.len() * (MUTEX_CELL_LENGTH as nat),
        |i: int| shards[i / (MUTEX_CELL_LENGTH as int)].cells[i % (MUTEX_CELL_LENGTH as int)],
    )
}

/// Each shard has full length and knows its position, counting from `first`.
pub open spec fn shards_wf(shards: Seq<ShardModel>, first: nat) -> bool {
    forall|s: int|
        0 <= s < shards.len() ==> #[trigger] shards[s].cells.len() == MUTEX_CELL_LENGTH && shards[s].index
            == first + s
}

/// A histogram whose counters are split into shards of `MUTEX_CELL_LENGTH`.
pub struct AtomicGrid {
    grid: Vec<MutexCell>,
    rows: u32,
    cols: u32,
    num_mutex_cells: u32,
}

impl AtomicGrid {
    /// The shards as values.
    pub closed spec fn shards(&self) -> Seq<ShardModel> {
        views(self.grid@)
    }

    /// The grid seen as one row-major run of counters.
    pub closed spec fn model(&self) -> GridModel {
        GridModel { rows: self.rows as nat, cols: self.cols as nat, cells: flatten(self.shards()) }
    }

    /// Number of shards.
    pub closed spec fn shard_count(&self) -> nat {
        self.num_mutex_cells as nat
    }

    /// Shape, shard count and shards agree.
    pub closed spec fn inv(&self) -> bool {
        &&& self.rows * self.cols <= u32::MAX
        &&& self.rows * self.cols == self.num_mutex_cells * MUTEX_CELL_LENGTH
        &&& self.grid@.len() == self.num_mutex_cells
        &&& shards_wf(self.shards(), 0)
    }

    /// Whether a grid of this shape can be split into whole shards.
    pub open spec fn shape_ok(rows: u32, cols: u32) -> bool {
        rows * cols <= u32::MAX && (rows * cols) % (MUTEX_CELL_LENGTH as int) == 0
    }

    /// A blank grid of `rows` by `cols` counters; the number of counters must be a
    /// multiple of the shard length.
    pub fn new(rows: u32, cols: u32) -> (r: AtomicGrid)
        requires
            AtomicGrid::shape_ok(rows, cols),
        ensures
            r.inv(),
            r.model().rows == rows,
            r.model().cols == cols,
            r.model().wf(),
            r.model().blank(),
    {
        let n: u32 = rows * cols;
        let num_mutex_cells: u32 = n / MUTEX_CELL_LENGTH;
        let mut grid: Vec<MutexCell> = Vec::new();
        let mut c: u32 = 0;
        while c < num_mutex_cells
            invariant
                0 <= c <= num_mutex_cells,
                grid@.len() == c,
                forall|s: int|
                    0 <= s < c ==> #[trigger] grid@[s]@ == (ShardModel {
                        index: s as nat,
                        cells: Seq::new(MUTEX_CELL_LENGTH as nat, |i: int| 0u8),
                    }),
            decreases num_mutex_cells - c,
        {
            grid.push(MutexCell::new(c));
            c = c + 1;
        }
        let r = AtomicGrid { grid, rows, cols, num_mutex_cells };
        proof {
            assert(r.shards().len() == num_mutex_cells);
            assert forall|s: int| 0 <= s < r.shards().len() implies #[trigger] r.shards()[s].cells.len()
                == MUTEX_CELL_LENGTH && r.shards()[s].index == s by {
                assert(r.shards()[s] == r.grid@[s]@);
            }
            assert forall|i: int| 0 <= i < r.model().cells.len() implies r.model().cells[i] == 0 by {
                lemma_shard_position(i, num_mutex_cells as nat);
                assert(r.shards()[i / (MUTEX_CELL_LENGTH as int)] == r.grid@[i / (MUTEX_CELL_LENGTH as int)]@);
            }
        }
        r
    }

    /// As `new`, or `None` when the shape cannot be split into whole shards.
    pub fn try_new(rows: u32, cols: u32) -> (r: Option<AtomicGrid>)
        ensures
            r.is_some() <==> AtomicGrid::shape_ok(rows, cols),
            r.is_some() ==> {
                let g = r.unwrap();
                &&& g.inv()
                &&& g.model().rows == rows
                &&& g.model().cols == cols
                &&& g.model().wf()
                &&& g.model().blank()
            },
    {
        match rows.checked_mul(cols) {
            Some(n) => {
                if n % MUTEX_CELL_LENGTH == 0 {
                    Some(AtomicGrid::new(rows, cols))
                } else {
                    None
                }
            },
            None => None,
        }
    }

    /// Number of rows.
    pub fn rows(&self) -> (r: u32)
        ensures
            r == self.model().rows,
    {
        self.rows
    }

    /// Number of columns.
    pub fn cols(&self) -> (r: u32)
        ensures
            r == self.model().cols,
    {
        self.cols
    }

    /// Records one hit at `(row, col)` in the shard that owns that cell: the cell
    /// gains one, held at the counter's maximum; a request outside the grid
    /// changes nothing.
    pub fn increment(&mut self, row: i64, col: i64)
        requires
            old(self).inv(),
        ensures
            final(self).inv(),
            final(self).model().rows == old(self).model().rows,
            final(self).model().cols == old(self).model().cols,
            final(self).model().cells == apply_hit(
                old(self).model().rows,
                old(self).model().cols,
                old(self).model().cells,
                (row, col),
            ),
    {
        proof {
            lemma_hit_index_range(self.rows as nat, self.cols as nat, (row, col));
        }
        if 0 <= row && 0 <= col && (row as u64) < (self.rows as u64) && (col as u64) < (self.cols as u64) {
            let r = row as u32;
            let c = col as u32;
            proof {
                assert(r * self.cols + c < self.rows * self.cols) by (nonlinear_arith)
                    requires
                        r < self.rows,
                        c < self.cols,
                ;
                assert(r * self.cols <= self.rows * self.cols) by (nonlinear_arith)
                    requires
                        r < self.rows,
                ;
            }
            let index: u32 = r * self.cols + c;
            let s: usize = (index / MUTEX_CELL_LENGTH) as usize;
            let off: usize = (index % MUTEX_CELL_LENGTH) as usize;
            let ghost old_shards = self.shards();
            proof {
                lemma_shard_position(index as int, self.num_mutex_cells as nat);
                assert(old_shards[s as int] == self.grid@[s as int]@);
            }
            self.grid[s].bump(off);
            proof {
                let new_shard = ShardModel {
                    index: old_shards[s as int].index,
                    cells: old_shards[s as int].cells.update(off as int, sat_inc(old_shards[s as int].cells[off as int])),
                };
                assert(self.shards() =~= old_shards.update(s as int, new_shard));
                lemma_flatten_update(old_shards, s as int, off as int, sat_inc(old_shards[s as int].cells[off as int]));
                assert(flatten(old_shards)[index as int] == old_shards[s as int].cells[off as int]);
                assert forall|t: int| 0 <= t < self.shards().len() implies #[trigger] self.shards()[t].cells.len()
                    == MUTEX_CELL_LENGTH && self.shards()[t].index == t by {
                    assert(old_shards[t].cells.len() == MUTEX_CELL_LENGTH);
                }
            }
        }
    }

    /// Records every hit of `hits`, in order.
    pub fn accumulate(&mut self, hits: &Vec<(i64, i64)>)
        requires
            old(self).inv(),
        ensures
            final(self).inv(),
            final(self).model().rows == old(self).model().rows,
            final(self).model().cols == old(self).model().cols,
            final(self).model().cells == apply_hits(
                old(self).model().rows,
                old(self).model().cols,
                old(self).model().cells,
                hits@,
            ),
    {
        let ghost start = self.model();
        let mut k: usize = 0;
        while k < hits.len()
            invariant
                self.inv(),
                0 <= k <= hits.len(),
                self.model().rows == start.rows,
                self.model().cols == start.cols,
                self.model().cells == apply_hits(start.rows, start.cols, start.cells, hits@.take(k as int)),
            decreases hits.len() - k,
        {
            let h = hits[k];
            self.increment(h.0, h.1);
            proof {
                assert(hits@.take(k + 1).drop_last() =~= hits@.take(k as int));
            }
            k = k + 1;
        }
        proof {
            assert(hits@.take(k as int) =~= hits@);
        }
    }

    /// The counters in row-major order, shard after shard.
    pub fn snapshot(&self) -> (r: Vec<u8>)
        requires
            self.inv(),
        ensures
            r@ == self.model().cells,
    {
        let mut out: Vec<u8> = Vec::new();
        let mut s: usize = 0;
        while s < self.grid.len()
            invariant
                self.inv(),
                0 <= s <= self.grid@.len(),
                out@ =~= flatten(self.shards().take(s as int)),
            decreases self.grid@.len() - s,
        {
            let shard = &self.grid[s];
            let mut j: usize = 0;
            let ghost base = out@;
            proof {
                assert(self.shards()[s as int] == self.grid@[s as int]@);
                assert(self.shards()[s as int].cells.len() == MUTEX_CELL_LENGTH);
            }
            while j < shard.sub_grid.len()
                invariant
                    shard == &self.grid@[s as int],
                    shard.sub_grid@.len() == MUTEX_CELL_LENGTH,
                    0 <= j <= MUTEX_CELL_LENGTH,
                    out@ =~= base + shard.sub_grid@.take(j as int),
                decreases MUTEX_CELL_LENGTH - j,
            {
                out.push(shard.sub_grid[j]);
                proof {
                    assert(shard.sub_grid@.take(j + 1) =~= shard.sub_grid@.take(j as int).push(shard.sub_grid@[j as int]));
                }
                j = j + 1;
            }
            proof {
                assert(shard.sub_grid@.take(j as int) =~= shard.sub_grid@);
                lemma_flatten_push(self.shards().take(s as int), self.shards()[s as int]);
                assert(self.shards().take(s + 1) =~= self.shards().take(s as int).push(self.shards()[s as int]));
            }
            s = s + 1;
        }
        proof {
            assert(self.shards().take(s as int) =~= self.shards());
        }
        out
    }
}

/// Where flat position `i` sits: in shard `i / L`, at offset `i % L`.
pub proof fn lemma_shard_position(i: int, n: nat)
    requires
        0 <= i < n * MUTEX_CELL_LENGTH,
    ensures
        0 <= i / (MUTEX_CELL_LENGTH as int) < n,
        0 <= i % (MUTEX_CELL_LENGTH as int) < MUTEX_CELL_LENGTH,
        i == (i / (MUTEX_CELL_LENGTH as int)) * MUTEX_CELL_LENGTH + i % (MUTEX_CELL_LENGTH as int),
{
    let l = (MUTEX_CELL_LENGTH as int);
    lemma_fundamental_div_mod(i, l);
    lemma_mod_bound(i, l);
    lemma_div_pos_is_pos(i, l);
    let q = i / l;
    if q >= n {
        assert(q * l >= n * l) by (nonlinear_arith)
            requires
                q >= n,
                l > 0,
        ;
    }
}

} // verus!

verus! {

/// Replacing one counter inside one shard replaces that counter in the flat run.
pub proof fn lemma_flatten_update(shards: Seq<ShardModel>, s: int, off: int, v: u8)
    requires
        0 <= s < shards.len(),
        0 <= off < MUTEX_CELL_LENGTH,
        forall|t: int| 0 <= t < shards.len() ==> (#[trigger] shards[t]).cells.len() == MUTEX_CELL_LENGTH,
    ensures
        flatten(
            shards.update(s, ShardModel { index: shards[s].index, cells: shards[s].cells.update(off, v) }),
        ) =~= flatten(shards).update(s * MUTEX_CELL_LENGTH + off, v),
{
    let l = MUTEX_CELL_LENGTH as int;
    let n = shards.len();
    let i = s * l + off;
    assert(s * l + off < n * l) by (nonlinear_arith)
        requires
            0 <= s < n,
            0 <= off < l,
    ;
    assert(s * l >= 0) by (nonlinear_arith)
        requires
            0 <= s,
            l > 0,
    ;
    lemma_shard_position(i, n as nat);
    assert(i / l == s && i % l == off) by {
        vstd::arithmetic::div_mod::lemma_fundamental_div_mod_converse(i, l, s, off);
    }
    let lhs = flatten(
        shards.update(s, ShardModel { index: shards[s].index, cells: shards[s].cells.update(off, v) }),
    );
    let rhs = flatten(shards).update(i, v);
    assert forall|j: int| 0 <= j < lhs.len() implies lhs[j] == rhs[j] by {
        lemma_shard_position(j, n as nat);
        if j / l == s && j % l == off {
            assert(j == i);
        }
    }
}

/// The flat run of shards grows by one shard's counters.
pub proof fn lemma_flatten_push(shards: Seq<ShardModel>, last: ShardModel)
    requires
        last.cells.len() == MUTEX_CELL_LENGTH,
        forall|t: int| 0 <= t < shards.len() ==> (#[trigger] shards[t]).cells.len() == MUTEX_CELL_LENGTH,
    ensures
        flatten(shards.push(last)) =~= flatten(shards) + last.cells,
{
    let l = MUTEX_CELL_LENGTH as int;
    let n = shards.len();
    let lhs = flatten(shards.push(last));
    let rhs = flatten(shards) + last.cells;
    assert((n + 1) * l == n * l + l) by (nonlinear_arith);
    assert forall|j: int| 0 <= j < lhs.len() implies lhs[j] == rhs[j] by {
        lemma_shard_position(j, (n + 1) as nat);
        if j < n * l {
            lemma_shard_position(j, n as nat);
        } else {
            vstd::arithmetic::div_mod::lemma_fundamental_div_mod_converse(j, l, n as int, j - n * l);
        }
    }
}

} // verus!

verus! {

/// What a worker's run of shards holds: the grid's shape, the flat position of
/// its first counter, and its counters.
pub struct RangeModel {
    pub rows: nat,
    pub cols: nat,
    pub start: nat,
    pub cells: Seq<u8>,
}

/// The counters of a sequence of runs, one after the other.
pub open spec fn joined(parts: Seq<RangeModel>) -> Seq<u8>
    decreases parts.len(),
{
    if parts.len() == 0 {
        Seq::empty()
    } else {
        joined(parts.drop_last()) + parts.last().cells
    }
}

/// Each run belongs to a grid of the given shape and starts where the runs
/// before it end.
pub open spec fn placed(parts: Seq<RangeModel>, rows: nat, cols: nat) -> bool {
    forall|k: int|
        0 <= k < parts.len() ==> (#[trigger] parts[k]).rows == rows && parts[k].cols == cols
            && parts[k].start == joined(parts.take(k)).len()
}

/// Each run after it has taken every hit of `hits`, keeping those in its window.
pub open spec fn runs_after(parts: Seq<RangeModel>, hits: Seq<(i64, i64)>) -> Seq<RangeModel> {
    parts.map_values(
        |p: RangeModel|
            RangeModel {
                rows: p.rows,
                cols: p.cols,
                start: p.start,
                cells: apply_hits_window(p.rows, p.cols, p.start as int, p.cells, hits),
            },
    )
}

/// The shards `first ..` of a sharded grid, owned by one worker, which commits
/// only the hits that land in them.
pub struct ShardRange {
    rows: u32,
    cols: u32,
    first: u32,
    shards: Vec<MutexCell>,
}

impl ShardRange {
    /// The shards as values.
    pub closed spec fn shards(&self) -> Seq<ShardModel> {
        views(self.shards@)
    }

    /// The run seen as a window of row-major counters.
    pub closed spec fn model(&self) -> RangeModel {
        RangeModel {
            rows: self.rows as nat,
            cols: self.cols as nat,
            start: (self.first * MUTEX_CELL_LENGTH) as nat,
            cells: flatten(self.shards()),
        }
    }

    /// The shards fit inside the grid and know their positions.
    pub closed spec fn inv(&self) -> bool {
        &&& self.rows * self.cols <= u32::MAX
        &&& (self.first + self.shards@.len()) * MUTEX_CELL_LENGTH <= self.rows * self.cols
        &&& shards_wf(self.shards(), self.first as nat)
    }

    /// Records one hit at `(row, col)` if it lands in one of this worker's shards;
    /// any other request changes nothing.
    pub fn increment(&mut self, row: i64, col: i64)
        requires
            old(self).inv(),
        ensures
            final(self).inv(),
            final(self).model().rows == old(self).model().rows,
            final(self).model().cols == old(self).model().cols,
            final(self).model().start == old(self).model().start,
            final(self).model().cells == apply_hit_window(
                old(self).model().rows,
                old(self).model().cols,
                old(self).model().start as int,
                old(self).model().cells,
                (row, col),
            ),
    {
        proof {
            lemma_hit_index_range(self.rows as nat, self.cols as nat, (row, col));
        }
        if 0 <= row && 0 <= col && (row as u64) < (self.rows as u64) && (col as u64) < (self.cols as u64) {
            let r = row as u32;
            let c = col as u32;
            proof {
                assert(r * self.cols + c < self.rows * self.cols) by (nonlinear_arith)
                    requires
                        r < self.rows,
                        c < self.cols,
                ;
                assert(r * self.cols <= self.rows * self.cols) by (nonlinear_arith)
                    requires
                        r < self.rows,
                ;
            }
            let index: u32 = r * self.cols + c;
            let s: u32 = index / MUTEX_CELL_LENGTH;
            let off: usize = (index % MUTEX_CELL_LENGTH) as usize;
            proof {
                lemma_fundamental_div_mod(index as int, MUTEX_CELL_LENGTH as int);
                lemma_mod_bound(index as int, MUTEX_CELL_LENGTH as int);
            }
            if s >= self.first && ((s - self.first) as usize) < self.shards.len() {
                let t: usize = (s - self.first) as usize;
                let ghost old_shards = self.shards();
                proof {
                    assert(old_shards[t as int] == self.shards@[t as int]@);
                }
                self.shards[t].bump(off);
                proof {
                    let new_shard = ShardModel {
                        index: old_shards[t as int].index,
                        cells: old_shards[t as int].cells.update(off as int, sat_inc(old_shards[t as int].cells[off as int])),
                    };
                    assert(self.shards() =~= old_shards.update(t as int, new_shard));
                    lemma_flatten_update(old_shards, t as int, off as int, sat_inc(old_shards[t as int].cells[off as int]));
                    lemma_shard_position(t * MUTEX_CELL_LENGTH + off, old_shards.len());
                    assert(t * MUTEX_CELL_LENGTH + off < old_shards.len() * MUTEX_CELL_LENGTH);
                    assert(flatten(old_shards)[t * MUTEX_CELL_LENGTH + off] == old_shards[t as int].cells[off as int]);
                    assert forall|u: int| 0 <= u < self.shards().len() implies #[trigger] self.shards()[u].cells.len()
                        == MUTEX_CELL_LENGTH && self.shards()[u].index == self.first + u by {
                        assert(old_shards[u].cells.len() == MUTEX_CELL_LENGTH);
                    }
                }
            }
        }
    }

    /// Takes every hit of `hits`, in order, committing those that land in this
    /// worker's shards.
    pub fn accumulate(&mut self, hits: &Vec<(i64, i64)>)
        requires
            old(self).inv(),
        ensures
            final(self).inv(),
            final(self).model() == (RangeModel {
                cells: apply_hits_window(
                    old(self).model().rows,
                    old(self).model().cols,
                    old(self).model().start as int,
                    old(self).model().cells,
                    hits@,
                ),
                ..old(self).model()
            }),
    {
        let ghost start = self.model();
        let mut k: usize = 0;
        while k < hits.len()
            invariant
                self.inv(),
                0 <= k <= hits.len(),
                self.model().rows == start.rows,
                self.model().cols == start.cols,
                self.model().start == start.start,
                self.model().cells == apply_hits_window(
                    start.rows,
                    start.cols,
                    start.start as int,
                    start.cells,
                    hits@.take(k as int),
                ),
            decreases hits.len() - k,
        {
            let h = hits[k];
            self.increment(h.0, h.1);
            proof {
                assert(hits@.take(k + 1).drop_last() =~= hits@.take(k as int));
            }
            k = k + 1;
        }
        proof {
            assert(hits@.take(k as int) =~= hits@);
        }
    }
}

/// Workers that each see every hit, keep only those landing in their own runs
/// of shards and are then joined hold exactly what one grid taking every hit
/// holds.
pub proof fn lemma_workers_match_whole(
    rows: nat,
    cols: nat,
    cells: Seq<u8>,
    parts: Seq<RangeModel>,
    hits: Seq<(i64, i64)>,
)
    requires
        placed(parts, rows, cols),
        joined(parts) == cells,
    ensures
        joined(runs_after(parts, hits)) == apply_hits(rows, cols, cells, hits),
{
    assert(cells.subrange(0, cells.len() as int) =~= cells);
    lemma_workers_match_prefix(rows, cols, cells, parts, hits);
    crate::model::lemma_apply_hits_closed_form(rows, cols, cells, hits);
    assert(apply_hits(rows, cols, cells, hits).subrange(0, cells.len() as int) =~= apply_hits(rows, cols, cells, hits));
}

proof fn lemma_workers_match_prefix(
    rows: nat,
    cols: nat,
    cells: Seq<u8>,
    parts: Seq<RangeModel>,
    hits: Seq<(i64, i64)>,
)
    requires
        placed(parts, rows, cols),
        joined(parts).len() <= cells.len(),
        joined(parts) == cells.subrange(0, joined(parts).len() as int),
    ensures
        joined(runs_after(parts, hits)) == apply_hits(rows, cols, cells, hits).subrange(0, joined(parts).len() as int),
    decreases parts.len(),
{
    if parts.len() == 0 {
        crate::model::lemma_apply_hits_closed_form(rows, cols, cells, hits);
        assert(apply_hits(rows, cols, cells, hits).subrange(0, 0) =~= Seq::<u8>::empty());
    } else {
        let prev = parts.drop_last();
        let last = parts.last();
        let m = joined(prev).len() as int;
        let n = joined(parts).len() as int;
        assert(placed(prev, rows, cols)) by {
            assert forall|k: int| 0 <= k < prev.len() implies (#[trigger] prev[k]).rows == rows && prev[k].cols == cols
                && prev[k].start == joined(prev.take(k)).len() by {
                assert(prev.take(k) =~= parts.take(k));
                assert(prev[k] == parts[k]);
            }
        }
        assert(joined(parts) == joined(prev) + last.cells);
        assert(joined(prev) =~= cells.subrange(0, m)) by {
            assert forall|j: int| 0 <= j < m implies joined(prev)[j] == cells[j] by {
                assert(joined(parts)[j] == joined(prev)[j]);
            }
        }
        assert(last.cells =~= cells.subrange(m, n)) by {
            assert forall|j: int| 0 <= j < n - m implies last.cells[j] == cells[m + j] by {
                assert(joined(parts)[m + j] == last.cells[j]);
            }
        }
        assert(parts.take(parts.len() - 1) =~= prev);
        assert(last.start == m);
        lemma_workers_match_prefix(rows, cols, cells, prev, hits);
        crate::model::lemma_window_matches_whole(rows, cols, cells, m, n, hits);
        assert(runs_after(parts, hits).drop_last() =~= runs_after(prev, hits));
        crate::model::lemma_apply_hits_closed_form(rows, cols, cells, hits);
        assert(joined(runs_after(parts, hits)) =~= apply_hits(rows, cols, cells, hits).subrange(0, n));
    }
}

} // verus!

verus! {

/// The flat run of two runs of shards is the one followed by the other.
pub proof fn lemma_flatten_append(a: Seq<ShardModel>, b: Seq<ShardModel>)
    requires
        forall|t: int| 0 <= t < a.len() ==> (#[trigger] a[t]).cells.len() == MUTEX_CELL_LENGTH,
        forall|t: int| 0 <= t < b.len() ==> (#[trigger] b[t]).cells.len() == MUTEX_CELL_LENGTH,
    ensures
        flatten(a + b) =~= flatten(a) + flatten(b),
{
    let l = MUTEX_CELL_LENGTH as int;
    let n = a.len();
    let m = b.len();
    assert((n + m) * l == n * l + m * l) by (nonlinear_arith);
    let lhs = flatten(a + b);
    let rhs = flatten(a) + flatten(b);
    assert forall|j: int| 0 <= j < lhs.len() implies lhs[j] == rhs[j] by {
        lemma_shard_position(j, (n + m) as nat);
        if j < n * l {
            lemma_shard_position(j, n as nat);
        } else {
            let k = j - n * l;
            lemma_shard_position(k, m as nat);
            vstd::arithmetic::div_mod::lemma_fundamental_div_mod_converse(
                j,
                l,
                n + k / l,
                k % l,
            );
        }
    }
}

/// The window of each worker's run.
pub open spec fn part_models(parts: Seq<ShardRange>) -> Seq<RangeModel> {
    parts.map_values(|p: ShardRange| p.model())
}

impl AtomicGrid {
    /// Hands the shards out to at most `workers` workers, as consecutive runs of
    /// at most `ceil(shards / workers)` shards each, in order.
    pub fn split(self, workers: u32) -> (parts: Vec<ShardRange>)
        requires
            self.inv(),
            workers > 0,
        ensures
            forall|k: int| 0 <= k < parts@.len() ==> (#[trigger] parts@[k]).inv(),
            placed(part_models(parts@), self.model().rows, self.model().cols),
            joined(part_models(parts@)) == self.model().cells,
            forall|k: int|
                0 <= k < parts@.len() ==> (#[trigger] parts@[k]).model().cells.len() <= ((self.shard_count()
                    + workers - 1) / (workers as int)) * MUTEX_CELL_LENGTH,
    {
        let ghost orig = self.shards();
        let ghost cells = self.model().cells;
        let num = self.num_mutex_cells;
        let rows = self.rows;
        let cols = self.cols;
        let per32: u32 = num / workers + if num % workers == 0 { 0 } else { 1 };
        proof {
            lemma_fundamental_div_mod(num as int, workers as int);
            assert(num / workers <= num) by (nonlinear_arith)
                requires
                    workers > 0,
            ;
            assert(per32 == (num + workers - 1) / (workers as int)) by {
                lemma_fundamental_div_mod(num as int, workers as int);
                lemma_mod_bound(num as int, workers as int);
                let q = (num as int) / (workers as int);
                let m = (num as int) % (workers as int);
                assert(num == workers * q + m);
                if m == 0 {
                    assert(num + workers - 1 == q * workers + (workers - 1)) by (nonlinear_arith)
                        requires
                            num == workers * q + m,
                            m == 0,
                    ;
                    vstd::arithmetic::div_mod::lemma_fundamental_div_mod_converse(
                        num + workers - 1, workers as int, q, workers - 1 as int);
                } else {
                    assert(num + workers - 1 == (q + 1) * workers + (m - 1)) by (nonlinear_arith)
                        requires
                            num == workers * q + m,
                    ;
                    vstd::arithmetic::div_mod::lemma_fundamental_div_mod_converse(
                        num + workers - 1, workers as int, q + 1, m - 1);
                }
            }
        }
        proof {
            if per32 == 0 {
                assert(num / workers == 0);
                assert(num % workers == 0);
                assert(num == workers * (num / workers) + num % workers);
                assert(workers * 0 == 0);
            }
        }
        let per: usize = if per32 == 0 { 1 } else { per32 as usize };
        let mut rest = self.grid;
        let mut first: u32 = 0;
        let mut parts: Vec<ShardRange> = Vec::new();
        while rest.len() > 0
            invariant
                rows * cols <= u32::MAX,
                rows * cols == num * MUTEX_CELL_LENGTH,
                orig.len() == num,
                shards_wf(orig, 0),
                cells == flatten(orig),
                0 <= first <= num,
                per > 0,
                per <= per32 || per32 == 0,
                per32 == 0 ==> num == 0,
                per32 == (self.shard_count() + workers - 1) / (workers as int),
                views(rest@) =~= orig.subrange(first as int, num as int),
                forall|k: int| 0 <= k < parts@.len() ==> (#[trigger] parts@[k]).inv(),
                forall|k: int|
                    0 <= k < parts@.len() ==> (#[trigger] parts@[k]).model().cells.len() <= per32 * MUTEX_CELL_LENGTH,
                placed(part_models(parts@), rows as nat, cols as nat),
                joined(part_models(parts@)) == flatten(orig.take(first as int)),
            decreases rest@.len(),
        {
            let take: usize = if per < rest.len() { per } else { rest.len() };
            let ghost rest_before = rest@;
            let tail = rest.split_off(take);
            let part_shards = rest;
            rest = tail;
            let part = ShardRange { rows, cols, first, shards: part_shards };
            let ghost old_parts = part_models(parts@);
            proof {
                assert(views(rest_before).len() == rest_before.len());
                assert(views(rest_before) =~= orig.subrange(first as int, num as int));
                assert(rest_before.len() == num - first);
                let sub = orig.subrange(first as int, first + take);
                assert forall|t: int| 0 <= t < take implies #[trigger] part.shards()[t] == sub[t] by {
                    assert(part.shards()[t] == rest_before[t]@);
                    assert(views(rest_before)[t] == orig[first + t]);
                }
                assert(part.shards() =~= sub);
                assert(shards_wf(part.shards(), first as nat)) by {
                    assert forall|t: int| 0 <= t < part.shards().len() implies #[trigger] part.shards()[t].cells.len()
                        == MUTEX_CELL_LENGTH && part.shards()[t].index == first + t by {
                        assert(part.shards()[t] == sub[t]);
                        assert(orig[first + t].cells.len() == MUTEX_CELL_LENGTH);
                    }
                }
                assert(part.inv());
                assert(per32 > 0 ==> take <= per32);
                assert forall|t: int| 0 <= t < orig.len() implies (#[trigger] orig[t]).cells.len() == MUTEX_CELL_LENGTH by {}
                lemma_flatten_append(orig.take(first as int), sub);
                assert(orig.take(first as int) + sub =~= orig.take(first + take));
                assert(flatten(orig.take(first as int)).len() == first * MUTEX_CELL_LENGTH);
            }
            parts.push(part);
            proof {
                assert(part_models(parts@) =~= old_parts.push(part.model()));
                assert(part_models(parts@).drop_last() =~= old_parts);
                assert forall|k: int| 0 <= k < part_models(parts@).len() implies (#[trigger] part_models(parts@)[k]).rows
                    == rows && part_models(parts@)[k].cols == cols && part_models(parts@)[k].start == joined(
                    part_models(parts@).take(k),
                ).len() by {
                    if k < old_parts.len() {
                        assert(part_models(parts@).take(k) =~= old_parts.take(k));
                        assert(part_models(parts@)[k] == old_parts[k]);
                    } else {
                        assert(part_models(parts@).take(k) =~= old_parts);
                    }
                }
            }
            first = first + take as u32;
            proof {
                assert forall|t: int| 0 <= t < views(rest@).len() implies #[trigger] views(rest@)[t] == orig.subrange(first as int, num as int)[t] by {
                    assert(rest@[t] == rest_before[take + t]);
                    assert(views(rest_before)[take + t] == orig[first + t]);
                }
                assert(views(rest@) =~= orig.subrange(first as int, num as int));
            }
        }
        proof {
            assert(orig.take(first as int) =~= orig);

        }
        parts
    }

    /// Puts the workers' runs back together into one grid of `rows` by `cols`.
    /// `None` unless the runs belong to a grid of that shape, which can be split
    /// into whole shards, and cover it in order.
    pub fn join(rows: u32, cols: u32, parts: Vec<ShardRange>) -> (r: Option<AtomicGrid>)
        requires
            forall|k: int| 0 <= k < parts@.len() ==> (#[trigger] parts@[k]).inv(),
        ensures
            r.is_some() <==> (AtomicGrid::shape_ok(rows, cols) && placed(part_models(parts@), rows as nat, cols as nat)
                && joined(part_models(parts@)).len() == rows * cols),
            r.is_some() ==> r.unwrap().inv() && r.unwrap().model() == (GridModel {
                rows: rows as nat,
                cols: cols as nat,
                cells: joined(part_models(parts@)),
            }),
    {
        let ghost orig = parts@;
        let ghost models = part_models(parts@);
        let n = match rows.checked_mul(cols) {
            Some(n) => n,
            None => {
                return None;
            },
        };
        if n % MUTEX_CELL_LENGTH != 0 {
            return None;
        }
        let num: u32 = n / MUTEX_CELL_LENGTH;
        let total = parts.len();
        let mut pending = parts;
        let mut rev: Vec<ShardRange> = Vec::new();
        while pending.len() > 0
            invariant
                orig == parts@,
                total == orig.len(),
                pending@ =~= orig.take(pending@.len() as int),
                rev@.len() == total - pending@.len(),
                forall|j: int| 0 <= j < rev@.len() ==> #[trigger] rev@[j] == orig[total - 1 - j],
            decreases pending@.len(),
        {
            let p = pending.pop().unwrap();
            rev.push(p);
        }
        let mut grid: Vec<MutexCell> = Vec::new();
        let mut k: usize = 0;
        proof {
            assert(models.take(0) =~= Seq::<RangeModel>::empty());
            assert(views(grid@) =~= Seq::<ShardModel>::empty());
            assert(flatten(Seq::<ShardModel>::empty()) =~= Seq::<u8>::empty());
        }
        while rev.len() > 0
            invariant
                orig == parts@,
                total == orig.len(),
                models == part_models(orig),
                forall|j: int| 0 <= j < orig.len() ==> (#[trigger] orig[j]).inv(),
                n == rows * cols,
                n == num * MUTEX_CELL_LENGTH,
                k + rev@.len() == total,
                forall|j: int| 0 <= j < rev@.len() ==> #[trigger] rev@[j] == orig[total - 1 - j],
                shards_wf(views(grid@), 0),
                grid@.len() <= num,
                flatten(views(grid@)) == joined(models.take(k as int)),
                placed(models.take(k as int), rows as nat, cols as nat),
            decreases rev@.len(),
        {
            let mut p = rev.pop().unwrap();
            proof {
                assert(p == orig[k as int]);
                assert(models[k as int] == p.model());
                assert(models.take(k + 1).drop_last() =~= models.take(k as int));
            }
            if p.rows != rows || p.cols != cols || p.first as usize != grid.len() {
                proof {
                    assert(models.take(k + 1)[k as int] == models[k as int]);
                    assert(flatten(views(grid@)).len() == grid@.len() * MUTEX_CELL_LENGTH);
                    assert(joined(models.take(k as int)).len() == grid@.len() * MUTEX_CELL_LENGTH);
                    assert(models[k as int].rows != rows || models[k as int].cols != cols
                        || models[k as int].start != grid@.len() * MUTEX_CELL_LENGTH);
                    assert(!placed(models, rows as nat, cols as nat)) by {
                        if placed(models, rows as nat, cols as nat) {
                            assert(models[k as int].start == joined(models.take(k as int)).len());
                        }
                    }
                }
                return None;
            }
            let ghost before = views(grid@);
            let ghost added = p.shards();
            proof {
                assert(p.first + p.shards@.len() <= num) by {
                    assert((p.first + p.shards@.len()) * MUTEX_CELL_LENGTH <= num * MUTEX_CELL_LENGTH);
                }
            }
            grid.append(&mut p.shards);
            proof {
                assert(views(grid@) =~= before + added);
                assert forall|t: int| 0 <= t < before.len() implies (#[trigger] before[t]).cells.len() == MUTEX_CELL_LENGTH by {}
                assert forall|t: int| 0 <= t < added.len() implies (#[trigger] added[t]).cells.len() == MUTEX_CELL_LENGTH by {}
                lemma_flatten_append(before, added);
                assert(joined(models.take(k + 1)) == joined(models.take(k as int)) + models[k as int].cells);
                assert(shards_wf(before + added, 0)) by {
                    assert forall|t: int| 0 <= t < (before + added).len() implies #[trigger] (before + added)[t].cells.len()
                        == MUTEX_CELL_LENGTH && (before + added)[t].index == t by {
                        if t >= before.len() {
                            assert((before + added)[t] == added[t - before.len()]);
                        }
                    }
                }
                assert(flatten(before).len() == before.len() * MUTEX_CELL_LENGTH);
                assert forall|j: int| 0 <= j < k + 1 implies (#[trigger] models.take(k + 1)[j]).rows == rows
                    && models.take(k + 1)[j].cols == cols && models.take(k + 1)[j].start == joined(
                    models.take(k + 1).take(j),
                ).len() by {
                    if j < k {
                        assert(models.take(k + 1).take(j) =~= models.take(k as int).take(j));
                        assert(models.take(k + 1)[j] == models.take(k as int)[j]);
                    } else {
                        assert(models.take(k + 1).take(j) =~= models.take(k as int));
                    }
                }
            }
            k = k + 1;
        }
        proof {
            assert(models.take(k as int) =~= models);
            assert(flatten(views(grid@)).len() == grid@.len() * MUTEX_CELL_LENGTH);
        }
        if grid.len() != num as usize {
            proof {
                assert(joined(models).len() == grid@.len() * MUTEX_CELL_LENGTH);
                assert(joined(models).len() != rows * cols);
            }
            return None;
        }
        Some(AtomicGrid { grid, rows, cols, num_mutex_cells: num })
    }
}

} // verus!
