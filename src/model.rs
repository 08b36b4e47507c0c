use vstd::prelude::*;
use crate::counter::{clamp, sat_inc};

verus! {

/// Whether a requested cell lies inside a grid of the given shape.
pub open spec fn in_bounds(rows: nat, cols: nat, r: int, c: int) -> bool {
    0 <= r < rows && 0 <= c < cols
}

/// Row-major position of a cell request, or -1 for a request outside the grid.
pub open spec fn hit_index(rows: nat, cols: nat, h: (i64, i64)) -> int {
    if in_bounds(rows, cols, h.0 as int, h.1 as int) {
        h.0 * cols + h.1
    } else {
        -1
    }
}

/// The counters after one hit: the addressed cell gains one (saturating), others stay.
pub open spec fn apply_hit(rows: nat, cols: nat, cells: Seq<u8>, h: (i64, i64)) -> Seq<u8> {
    let i = hit_index(rows, cols, h);
    if 0 <= i < cells.len() {
        cells.update(i, sat_inc(cells[i]))
    } else {
        cells
    }
}

/// The counters after a whole sequence of hits, taken in order.
pub open spec fn apply_hits(rows: nat, cols: nat, cells: Seq<u8>, hits: Seq<(i64, i64)>) -> Seq<u8>
    decreases hits.len(),
{
    if hits.len() == 0 {
        cells
    } else {
        apply_hit(rows, cols, apply_hits(rows, cols, cells, hits.drop_last()), hits.last())
    }
}

/// How many of the hits land on flat position `i`.
pub open spec fn hits_at(rows: nat, cols: nat, hits: Seq<(i64, i64)>, i: int) -> nat
    decreases hits.len(),
{
    if hits.len() == 0 {
        0
    } else {
        hits_at(rows, cols, hits.drop_last(), i) + if hit_index(rows, cols, hits.last()) == i {
            1nat
        } else {
            0nat
        }
    }
}

/// How many of the hits land inside the grid.
pub open spec fn hits_inside(rows: nat, cols: nat, hits: Seq<(i64, i64)>) -> nat
    decreases hits.len(),
{
    if hits.len() == 0 {
        0
    } else {
        hits_inside(rows, cols, hits.drop_last()) + if hit_index(rows, cols, hits.last()) >= 0 {
            1nat
        } else {
            0nat
        }
    }
}

/// The counters of flat positions `lo .. lo + cells.len()` after one hit: a hit
/// that lands elsewhere changes nothing.
pub open spec fn apply_hit_window(rows: nat, cols: nat, lo: int, cells: Seq<u8>, h: (i64, i64)) -> Seq<u8> {
    let i = hit_index(rows, cols, h) - lo;
    if hit_index(rows, cols, h) >= 0 && 0 <= i < cells.len() {
        cells.update(i, sat_inc(cells[i]))
    } else {
        cells
    }
}

/// The counters of a window after a whole sequence of hits, taken in order.
pub open spec fn apply_hits_window(rows: nat, cols: nat, lo: int, cells: Seq<u8>, hits: Seq<(i64, i64)>) -> Seq<u8>
    decreases hits.len(),
{
    if hits.len() == 0 {
        cells
    } else {
        apply_hit_window(rows, cols, lo, apply_hits_window(rows, cols, lo, cells, hits.drop_last()), hits.last())
    }
}

/// Sum of all counters.
pub open spec fn total(cells: Seq<u8>) -> int
    decreases cells.len(),
{
    if cells.len() == 0 {
        0
    } else {
        total(cells.drop_last()) + cells.last()
    }
}

/// An in-bounds request maps to a position inside the counter storage.
pub proof fn lemma_hit_index_range(rows: nat, cols: nat, h: (i64, i64))
    ensures
        hit_index(rows, cols, h) >= 0 ==> hit_index(rows, cols, h) < rows * cols,
        hit_index(rows, cols, h) >= -1,
{
    if in_bounds(rows, cols, h.0 as int, h.1 as int) {
        let r = h.0 as int;
        let c = h.1 as int;
        assert(r * cols + c < rows * cols) by (nonlinear_arith)
            requires
                0 <= r < rows,
                0 <= c < cols,
        ;
        assert(r * cols >= 0) by (nonlinear_arith)
            requires
                0 <= r,
                0 <= cols,
        ;
    }
}

/// Closed form of accumulation: each cell ends at its start value plus the
/// hits it received, held at the maximum.
pub proof fn lemma_apply_hits_closed_form(rows: nat, cols: nat, cells: Seq<u8>, hits: Seq<(i64, i64)>)
    ensures
        apply_hits(rows, cols, cells, hits).len() == cells.len(),
        forall|i: int|
            0 <= i < cells.len() ==> #[trigger] apply_hits(rows, cols, cells, hits)[i] == clamp(
                cells[i] + hits_at(rows, cols, hits, i),
            ),
    decreases hits.len(),
{
    if hits.len() > 0 {
        let prev = hits.drop_last();
        lemma_apply_hits_closed_form(rows, cols, cells, prev);
        let before = apply_hits(rows, cols, cells, prev);
        assert forall|i: int| 0 <= i < cells.len() implies #[trigger] apply_hits(
            rows,
            cols,
            cells,
            hits,
        )[i] == clamp(cells[i] + hits_at(rows, cols, hits, i)) by {
            assert(before[i] == clamp(cells[i] + hits_at(rows, cols, prev, i)));
        }
    }
}

/// Taking hits never changes the size of a window.
pub proof fn lemma_apply_hits_window_len(rows: nat, cols: nat, lo: int, cells: Seq<u8>, hits: Seq<(i64, i64)>)
    ensures
        apply_hits_window(rows, cols, lo, cells, hits).len() == cells.len(),
    decreases hits.len(),
{
    if hits.len() > 0 {
        lemma_apply_hits_window_len(rows, cols, lo, cells, hits.drop_last());
    }
}

/// A worker that sees every hit but keeps only those landing in its window ends
/// with exactly the counters the whole grid holds in that window.
pub proof fn lemma_window_matches_whole(
    rows: nat,
    cols: nat,
    cells: Seq<u8>,
    lo: int,
    hi: int,
    hits: Seq<(i64, i64)>,
)
    requires
        0 <= lo <= hi <= cells.len(),
    ensures
        apply_hits_window(rows, cols, lo, cells.subrange(lo, hi), hits) == apply_hits(
            rows,
            cols,
            cells,
            hits,
        ).subrange(lo, hi),
    decreases hits.len(),
{
    if hits.len() > 0 {
        let prev = hits.drop_last();
        lemma_window_matches_whole(rows, cols, cells, lo, hi, prev);
        lemma_apply_hits_closed_form(rows, cols, cells, prev);
        let a = apply_hits(rows, cols, cells, prev);
        let w = apply_hits_window(rows, cols, lo, cells.subrange(lo, hi), prev);
        let h = hits.last();
        let i = hit_index(rows, cols, h);
        if i >= 0 && lo <= i < hi {
            assert(w[i - lo] == a[i]);
            assert(apply_hit_window(rows, cols, lo, w, h) =~= apply_hit(rows, cols, a, h).subrange(lo, hi));
        } else {
            assert(apply_hit_window(rows, cols, lo, w, h) =~= apply_hit(rows, cols, a, h).subrange(lo, hi));
        }
    }
}

/// Sum after replacing one counter.
pub proof fn lemma_total_update(cells: Seq<u8>, i: int, v: u8)
    requires
        0 <= i < cells.len(),
    ensures
        total(cells.update(i, v)) == total(cells) - cells[i] + v,
    decreases cells.len(),
{
    let u = cells.update(i, v);
    if i == cells.len() - 1 {
        assert(u.drop_last() =~= cells.drop_last());
    } else {
        lemma_total_update(cells.drop_last(), i, v);
        assert(u.drop_last() =~= cells.drop_last().update(i, v));
    }
}

} // verus!
