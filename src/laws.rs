use vstd::prelude::*;
use crate::counter::{clamp, sat_inc, COUNTER_MAX};
use crate::merge::{merge_all, merge_two, zeros};
use crate::model::{
    apply_hit, apply_hits, hit_index, hits_at, hits_inside, in_bounds, lemma_apply_hits_closed_form,
    lemma_hit_index_range, lemma_total_update, total,
};

verus! {

/// A cell that receives at least as many hits as the counter's maximum ends
/// exactly at the maximum: it never wraps.
pub proof fn lemma_saturation(rows: nat, cols: nat, cells: Seq<u8>, hits: Seq<(i64, i64)>, i: int)
    requires
        0 <= i < cells.len(),
        hits_at(rows, cols, hits, i) >= COUNTER_MAX,
    ensures
        apply_hits(rows, cols, cells, hits)[i] == COUNTER_MAX,
{
    lemma_apply_hits_closed_form(rows, cols, cells, hits);
}

/// A hit that maps outside the grid changes no cell.
pub proof fn lemma_out_of_bounds_hit(rows: nat, cols: nat, cells: Seq<u8>, h: (i64, i64))
    requires
        !in_bounds(rows, cols, h.0 as int, h.1 as int),
    ensures
        apply_hit(rows, cols, cells, h) == cells,
{
}

/// A run of hits that all map outside the grid changes no cell.
pub proof fn lemma_out_of_bounds_hits(rows: nat, cols: nat, cells: Seq<u8>, hits: Seq<(i64, i64)>)
    requires
        forall|k: int| 0 <= k < hits.len() ==> !in_bounds(rows, cols, (#[trigger] hits[k]).0 as int, hits[k].1 as int),
    ensures
        apply_hits(rows, cols, cells, hits) == cells,
    decreases hits.len(),
{
    if hits.len() > 0 {
        let prev = hits.drop_last();
        assert forall|k: int| 0 <= k < prev.len() implies !in_bounds(rows, cols, (#[trigger] prev[k]).0 as int, prev[k].1 as int) by {
            assert(prev[k] == hits[k]);
        }
        lemma_out_of_bounds_hits(rows, cols, cells, prev);
        assert(!in_bounds(rows, cols, hits[hits.len() - 1].0 as int, hits[hits.len() - 1].1 as int));
    }
}

/// Starting from a blank grid, while no cell reaches the counter's maximum the
/// counters add up to the number of hits that landed inside the grid.
pub proof fn lemma_conservation(rows: nat, cols: nat, hits: Seq<(i64, i64)>)
    requires
        forall|i: int| 0 <= i < rows * cols ==> #[trigger] hits_at(rows, cols, hits, i) < COUNTER_MAX,
    ensures
        total(apply_hits(rows, cols, zeros(rows * cols), hits)) == hits_inside(rows, cols, hits),
    decreases hits.len(),
{
    let z = zeros(rows * cols);
    if hits.len() == 0 {
        lemma_total_zeros(rows * cols);
    } else {
        let prev = hits.drop_last();
        let h = hits.last();
        assert forall|i: int| 0 <= i < rows * cols implies #[trigger] hits_at(rows, cols, prev, i) < COUNTER_MAX by {
            assert(hits_at(rows, cols, hits, i) < COUNTER_MAX);
        }
        lemma_conservation(rows, cols, prev);
        let before = apply_hits(rows, cols, z, prev);
        lemma_apply_hits_closed_form(rows, cols, z, prev);
        lemma_hit_index_range(rows, cols, h);
        let i = hit_index(rows, cols, h);
        if i >= 0 {
            assert(hits_at(rows, cols, hits, i) < COUNTER_MAX);
            assert(before[i] == clamp(z[i] + hits_at(rows, cols, prev, i)));
            assert(before[i] < COUNTER_MAX);
            assert(sat_inc(before[i]) == before[i] + 1);
            lemma_total_update(before, i, sat_inc(before[i]));
        }
    }
}

/// Blank counters add up to zero.
proof fn lemma_total_zeros(n: nat)
    ensures
        total(zeros(n)) == 0,
    decreases n,
{
    if n > 0 {
        lemma_total_zeros((n - 1) as nat);
        assert(zeros(n).drop_last() =~= zeros((n - 1) as nat));
    }
}

/// Hits of two runs, one after the other, land where each run's hits land.
pub proof fn lemma_hits_at_append(rows: nat, cols: nat, h1: Seq<(i64, i64)>, h2: Seq<(i64, i64)>, i: int)
    ensures
        hits_at(rows, cols, h1 + h2, i) == hits_at(rows, cols, h1, i) + hits_at(rows, cols, h2, i),
    decreases h2.len(),
{
    if h2.len() == 0 {
        assert(h1 + h2 =~= h1);
    } else {
        lemma_hits_at_append(rows, cols, h1, h2.drop_last(), i);
        assert((h1 + h2).drop_last() =~= h1 + h2.drop_last());
        assert((h1 + h2).last() == h2.last());
    }
}

/// The runs of hits, one after the other.
pub open spec fn concat_runs(runs: Seq<Seq<(i64, i64)>>) -> Seq<(i64, i64)>
    decreases runs.len(),
{
    if runs.len() == 0 {
        Seq::empty()
    } else {
        concat_runs(runs.drop_last()) + runs.last()
    }
}

/// The grid each run of hits builds on its own, from blank counters.
pub open spec fn private_grids(rows: nat, cols: nat, runs: Seq<Seq<(i64, i64)>>) -> Seq<Seq<u8>> {
    runs.map_values(|h: Seq<(i64, i64)>| apply_hits(rows, cols, zeros(rows * cols), h))
}

/// Merging a grid built from a second run of hits into a grid gives what the
/// first grid would hold after taking that run itself.
pub proof fn lemma_merge_private_run(rows: nat, cols: nat, cells: Seq<u8>, h1: Seq<(i64, i64)>, h2: Seq<(i64, i64)>)
    requires
        cells.len() == rows * cols,
    ensures
        merge_two(apply_hits(rows, cols, cells, h1), apply_hits(rows, cols, zeros(rows * cols), h2))
            == apply_hits(rows, cols, cells, h1 + h2),
{
    let z = zeros(rows * cols);
    lemma_apply_hits_closed_form(rows, cols, cells, h1);
    lemma_apply_hits_closed_form(rows, cols, z, h2);
    lemma_apply_hits_closed_form(rows, cols, cells, h1 + h2);
    let lhs = merge_two(apply_hits(rows, cols, cells, h1), apply_hits(rows, cols, z, h2));
    let rhs = apply_hits(rows, cols, cells, h1 + h2);
    assert forall|i: int| 0 <= i < lhs.len() implies lhs[i] == rhs[i] by {
        lemma_hits_at_append(rows, cols, h1, h2, i);
    }
    assert(lhs =~= rhs);
}

/// Workers that each build a private grid from their own run of hits, merged
/// afterwards, give the same grid as one worker taking all the runs in turn.
pub proof fn lemma_private_grids_match_shared(rows: nat, cols: nat, runs: Seq<Seq<(i64, i64)>>)
    ensures
        merge_all(zeros(rows * cols), private_grids(rows, cols, runs)) == apply_hits(
            rows,
            cols,
            zeros(rows * cols),
            concat_runs(runs),
        ),
    decreases runs.len(),
{
    let z = zeros(rows * cols);
    if runs.len() > 0 {
        let prev = runs.drop_last();
        lemma_private_grids_match_shared(rows, cols, prev);
        assert(private_grids(rows, cols, runs).drop_last() =~= private_grids(rows, cols, prev));
        lemma_merge_private_run(rows, cols, z, concat_runs(prev), runs.last());
    }
}

/// The counters a run produces depend on nothing but the starting counters and
/// the hits: two runs that agree on both agree on every cell.
pub proof fn lemma_deterministic(
    rows: nat,
    cols: nat,
    cells1: Seq<u8>,
    cells2: Seq<u8>,
    hits1: Seq<(i64, i64)>,
    hits2: Seq<(i64, i64)>,
)
    requires
        cells1 == cells2,
        hits1 == hits2,
    ensures
        apply_hits(rows, cols, cells1, hits1) == apply_hits(rows, cols, cells2, hits2),
{
}

} // verus!
