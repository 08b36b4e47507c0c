use vstd::prelude::*;
use crate::counter::{clamp, saturating_add, saturating_inc};
use crate::merge::merge_two;
use crate::model::{apply_hit, apply_hits, hit_index, in_bounds, lemma_hit_index_range};
use crate::random::uniform_below;

verus! {

/// What a grid holds: its shape and its counters in row-major order.
pub struct GridModel {
    pub rows: nat,
    pub cols: nat,
    pub cells: Seq<u8>,
}

impl GridModel {
    /// The counter storage matches the shape.
    pub open spec fn wf(&self) -> bool {
        self.cells.len() == self.rows * self.cols
    }

    /// Every counter is zero.
    pub open spec fn blank(&self) -> bool {
        forall|i: int| 0 <= i < self.cells.len() ==> self.cells[i] == 0
    }
}

/// A dense histogram of 8-bit saturating counters, owned by one worker.
pub struct MyGrid {
    rows: usize,
    cols: usize,
    grid: Vec<u8>,
}

impl View for MyGrid {
    type V = GridModel;

    closed spec fn view(&self) -> GridModel {
        GridModel { rows: self.rows as nat, cols: self.cols as nat, cells: self.grid@ }
    }
}

impl MyGrid {
    /// Shape and storage agree.
    pub open spec fn inv(&self) -> bool {
        self@.wf()
    }

    /// A grid of `rows` by `cols` counters, all zero.
    pub fn new(rows: usize, cols: usize) -> (r: MyGrid)
        requires
            rows * cols <= usize::MAX,
        ensures
            r.inv(),
            r@.rows == rows,
            r@.cols == cols,
            r@.blank(),
    {
        let n: usize = rows * cols;
        let grid = vec![0u8; n];
        MyGrid { rows, cols, grid }
    }

    /// Number of rows.
    pub fn rows(&self) -> (r: usize)
        ensures
            r == self@.rows,
    {
        self.rows
    }

    /// Number of columns.
    pub fn cols(&self) -> (r: usize)
        ensures
            r == self@.cols,
    {
        self.cols
    }

    /// Counter at `(row, col)`, or `None` outside the grid.
    pub fn get(&self, row: usize, col: usize) -> (r: Option<u8>)
        requires
            self.inv(),
        ensures
            in_bounds(self@.rows, self@.cols, row as int, col as int) ==> r == Some(
                self@.cells[row * self@.cols + col],
            ),
            !in_bounds(self@.rows, self@.cols, row as int, col as int) ==> r.is_none(),
    {
        let _n: usize = self.grid.len();
        if row < self.rows && col < self.cols {
            let i = flat_index(self.rows, self.cols, row, col);
            Some(self.grid[i])
        } else {
            None
        }
    }

    /// Records one hit at `(row, col)`: the cell gains one, held at the counter's
    /// maximum; a request outside the grid changes nothing.
    pub fn increment(&mut self, row: i64, col: i64)
        requires
            old(self).inv(),
        ensures
            final(self).inv(),
            final(self)@.rows == old(self)@.rows,
            final(self)@.cols == old(self)@.cols,
            final(self)@.cells == apply_hit(old(self)@.rows, old(self)@.cols, old(self)@.cells, (row, col)),
    {
        let _n: usize = self.grid.len();
        match cell_index(self.rows, self.cols, row, col) {
            Some(i) => {
                let v = saturating_inc(self.grid[i]);
                self.grid.set(i, v);
            },
            None => {},
        }
    }

    /// Records every hit of `hits`, in order.
    pub fn accumulate(&mut self, hits: &Vec<(i64, i64)>)
        requires
            old(self).inv(),
        ensures
            final(self).inv(),
            final(self)@.rows == old(self)@.rows,
            final(self)@.cols == old(self)@.cols,
            final(self)@.cells == apply_hits(old(self)@.rows, old(self)@.cols, old(self)@.cells, hits@),
    {
        let ghost start = self@;
        let mut k: usize = 0;
        while k < hits.len()
            invariant
                self.inv(),
                0 <= k <= hits.len(),
                self@.rows == start.rows,
                self@.cols == start.cols,
                self@.cells == apply_hits(start.rows, start.cols, start.cells, hits@.take(k as int)),
            decreases hits.len() - k,
        {
            let h = hits[k];
            self.increment(h.0, h.1);
            proof {
                assert(hits@.take(k + 1).drop_last() =~= hits@.take(k as int));
            }
            k = k + 1;
        }
        proof {
            assert(hits@.take(k as int) =~= hits@);
        }
    }

    /// Scatters a million hits uniformly over the first `rows * rows` counters
    /// (the whole grid when it is square): whatever is drawn, the grid ends as
    /// after a million saturating hits at positions in that range.
    pub fn static_noise(&mut self)
        requires
            old(self).inv(),
            0 < old(self)@.rows <= old(self)@.cols,
        ensures
            final(self).inv(),
            final(self)@.rows == old(self)@.rows,
            final(self)@.cols == old(self)@.cols,
            exists|ps: Seq<int>|
                ps.len() == 1_000_000 && (forall|k: int|
                    0 <= k < ps.len() ==> 0 <= #[trigger] ps[k] < old(self)@.rows * old(self)@.rows)
                    && final(self)@.cells == apply_positions(old(self)@.cells, ps),
    {
        let ghost start = self@;
        let ghost mut ps: Seq<int> = Seq::empty();
        let _n: usize = self.grid.len();
        let rows = self.rows;
        proof {
            assert(rows * rows <= rows * self.cols) by (nonlinear_arith)
                requires
                    rows <= self.cols,
            ;
        }
        let mut k: u32 = 0;
        while k < 1_000_000
            invariant
                self.inv(),
                self@.rows == start.rows,
                self@.cols == start.cols,
                rows == self.rows,
                rows > 0,
                rows * rows <= self.grid@.len(),
                self.grid@.len() <= usize::MAX,
                k <= 1_000_000,
                ps.len() == k,
                forall|j: int| 0 <= j < ps.len() ==> 0 <= #[trigger] ps[j] < start.rows * start.rows,
                self@.cells == apply_positions(start.cells, ps),
            decreases 1_000_000 - k,
        {
            let x = uniform_below(rows);
            let y = uniform_below(rows);
            proof {
                assert(y * rows + x < rows * rows) by (nonlinear_arith)
                    requires
                        x < rows,
                        y < rows,
                ;
                assert(y * rows <= rows * rows) by (nonlinear_arith)
                    requires
                        y < rows,
                ;
            }
            let i: usize = y * rows + x;
            let v = saturating_inc(self.grid[i]);
            self.grid.set(i, v);
            proof {
                let ps2 = ps.push(i as int);
                assert(ps2.drop_last() =~= ps);
                ps = ps2;
            }
            k = k + 1;
        }
        proof {
            assert(ps.len() == 1_000_000 && (forall|j: int| 0 <= j < ps.len() ==> 0 <= #[trigger] ps[j] < start.rows
                * start.rows) && self@.cells == apply_positions(start.cells, ps));
        }
    }

    /// Adds the counters of `other` into this grid, cell by cell, each sum held at
    /// the counter's maximum.
    pub fn merge_from(&mut self, other: &MyGrid)
        requires
            old(self).inv(),
            other.inv(),
            other@.rows == old(self)@.rows,
            other@.cols == old(self)@.cols,
        ensures
            final(self).inv(),
            final(self)@.rows == old(self)@.rows,
            final(self)@.cols == old(self)@.cols,
            final(self)@.cells == merge_two(old(self)@.cells, other@.cells),
    {
        let ghost start = self.grid@;
        let n: usize = self.grid.len();
        let mut i: usize = 0;
        while i < n
            invariant
                n == start.len(),
                self.grid@.len() == n,
                other.grid@.len() == n,
                self.rows == old(self).rows,
                self.cols == old(self).cols,
                0 <= i <= n,
                forall|j: int| 0 <= j < i ==> #[trigger] self.grid@[j] == clamp(start[j] + other.grid@[j]),
                forall|j: int| i <= j < n ==> #[trigger] self.grid@[j] == start[j],
            decreases n - i,
        {
            let v = saturating_add(self.grid[i], other.grid[i]);
            self.grid.set(i, v);
            i = i + 1;
        }
        proof {
            assert(self.grid@ =~= merge_two(start, other.grid@));
        }
    }

    /// The counters in row-major order.
    pub fn snapshot(&self) -> (r: Vec<u8>)
        ensures
            r@ == self@.cells,
    {
        self.grid.clone()
    }

    /// Gives up the grid, returning its counters in row-major order.
    pub fn into_cells(self) -> (r: Vec<u8>)
        ensures
            r@ == self@.cells,
    {
        self.grid
    }

    /// A grid of the given shape over existing counters, or `None` when their
    /// number is not `rows * cols`.
    pub fn from_cells(rows: usize, cols: usize, cells: Vec<u8>) -> (r: Option<MyGrid>)
        ensures
            r.is_some() <==> cells@.len() == rows * cols,
            r.is_some() ==> r.unwrap().inv() && r.unwrap()@ == (GridModel {
                rows: rows as nat,
                cols: cols as nat,
                cells: cells@,
            }),
    {
        let len: usize = cells.len();
        match rows.checked_mul(cols) {
            Some(n) => {
                if len == n {
                    Some(MyGrid { rows, cols, grid: cells })
                } else {
                    None
                }
            },
            None => None,
        }
    }
}

/// The counters after a saturating hit at each flat position of `ps`, in order;
/// a position outside the counters changes nothing.
pub open spec fn apply_positions(cells: Seq<u8>, ps: Seq<int>) -> Seq<u8>
    decreases ps.len(),
{
    if ps.len() == 0 {
        cells
    } else {
        let before = apply_positions(cells, ps.drop_last());
        let i = ps.last();
        if 0 <= i < before.len() {
            before.update(i, crate::counter::sat_inc(before[i]))
        } else {
            before
        }
    }
}

/// Row-major position of the cell a request addresses, or `None` when the
/// request lies outside a grid of `rows` by `cols`.
pub fn cell_index(rows: usize, cols: usize, row: i64, col: i64) -> (r: Option<usize>)
    requires
        rows * cols <= usize::MAX,
    ensures
        r.is_some() <==> in_bounds(rows as nat, cols as nat, row as int, col as int),
        r.is_some() ==> r.unwrap() == hit_index(rows as nat, cols as nat, (row, col)) && r.unwrap() < rows * cols,
{
    if 0 <= row && 0 <= col && (row as u64) < (rows as u64) && (col as u64) < (cols as u64) {
        Some(flat_index(rows, cols, row as usize, col as usize))
    } else {
        None
    }
}

/// Row-major position of an in-bounds cell.
pub fn flat_index(rows: usize, cols: usize, row: usize, col: usize) -> (r: usize)
    requires
        row < rows,
        col < cols,
        rows * cols <= usize::MAX,
    ensures
        r == row * cols + col,
        r < rows * cols,
{
    proof {
        assert(row * cols + col < rows * cols) by (nonlinear_arith)
            requires
                row < rows,
                col < cols,
        ;
        assert(row * cols <= rows * cols) by (nonlinear_arith)
            requires
                row < rows,
        ;
    }
    row * cols + col
}

} // verus!
