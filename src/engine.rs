use vstd::prelude::*;
use crate::grid::MyGrid;
use crate::laws::{concat_runs, lemma_private_grids_match_shared, private_grids};
use crate::merge::{cells_of, merge, zeros};
use crate::model::{apply_hits, lemma_apply_hits_window_len};
use crate::sharded::{
    joined, lemma_workers_match_whole, part_models, placed, runs_after, AtomicGrid, RangeModel, ShardRange,
};
use crate::sparse::{lemma_sparse_matches_dense, no_entries, SparseGrid};

verus! {

/// How the counters of a run are accumulated.
#[derive(Clone, Copy, PartialEq, Eq, Debug)]
pub enum Strategy {
    /// One dense grid takes every hit.
    Dense,
    /// The shards are shared out among the workers; each worker sees every hit
    /// and commits those landing in its own shards.
    Sharded,
    /// Each worker takes its own part of the hits into a private sparse grid;
    /// the partial grids are merged at the end.
    Private,
}

/// The histogram of `hits` on a blank grid of `rows` by `cols`, built with the
/// given strategy and number of workers, in row-major order. Every strategy
/// gives the same counters. `None` when there are no workers, or when the
/// sharded strategy is asked for a shape that does not split into whole shards,
/// or when the grid would not fit in memory.
pub fn histogram(strategy: Strategy, workers: u32, rows: u32, cols: u32, hits: &Vec<(i64, i64)>) -> (r: Option<
    Vec<u8>,
>)
    ensures
        r.is_some() <==> workers > 0 && rows * cols <= usize::MAX && (strategy == Strategy::Sharded
            ==> AtomicGrid::shape_ok(rows, cols)),
        r.is_some() ==> r.unwrap()@ == apply_hits(rows as nat, cols as nat, zeros(rows as nat * cols as nat), hits@),
{
    if workers == 0 {
        return None;
    }
    if (rows as usize).checked_mul(cols as usize).is_none() {
        return None;
    }
    match strategy {
        Strategy::Dense => {
            let mut g = MyGrid::new(rows as usize, cols as usize);
            proof {
                assert(g@.cells =~= zeros(rows as nat * cols as nat));
            }
            g.accumulate(hits);
            Some(g.into_cells())
        },
        Strategy::Sharded => {
            match AtomicGrid::try_new(rows, cols) {
                Some(g) => Some(sharded_histogram(g, rows, cols, workers, hits)),
                None => None,
            }
        },
        Strategy::Private => Some(private_histogram(workers, rows as usize, cols as usize, hits)),
    }
}

/// Shares the shards of a blank grid out among `workers` workers, lets each
/// take every hit, and joins them again.
fn sharded_histogram(g: AtomicGrid, rows: u32, cols: u32, workers: u32, hits: &Vec<(i64, i64)>) -> (r: Vec<u8>)
    requires
        g.inv(),
        AtomicGrid::shape_ok(rows, cols),
        g.model().rows == rows,
        g.model().cols == cols,
        g.model().wf(),
        g.model().blank(),
        workers > 0,
    ensures
        r@ == apply_hits(g.model().rows, g.model().cols, zeros(g.model().rows * g.model().cols), hits@),
{
    let ghost model = g.model();
    let mut parts = g.split(workers);
    let ghost orig = part_models(parts@);
    let mut k: usize = 0;
    while k < parts.len()
        invariant
            rows == model.rows,
            cols == model.cols,
            parts@.len() == orig.len(),
            0 <= k <= parts@.len(),
            forall|j: int| 0 <= j < parts@.len() ==> (#[trigger] parts@[j]).inv(),
            forall|j: int|
                0 <= j < parts@.len() ==> (#[trigger] part_models(parts@)[j]) == if j < k {
                    runs_after(orig, hits@)[j]
                } else {
                    orig[j]
                },
        decreases parts@.len() - k,
    {
        let ghost before = parts@;
        proof {
            assert(part_models(before)[k as int] == orig[k as int]);
            assert(before[k as int].model() == orig[k as int]);
        }
        parts[k].accumulate(hits);
        proof {
            assert(parts@[k as int].model() == runs_after(orig, hits@)[k as int]);
            assert forall|j: int| 0 <= j < parts@.len() implies (#[trigger] part_models(parts@)[j]) == if j < k + 1 {
                runs_after(orig, hits@)[j]
            } else {
                orig[j]
            } by {
                if j != k as int {
                    assert(parts@[j] == before[j]);
                    assert(part_models(before)[j] == part_models(parts@)[j]);
                }
            }
        }
        k = k + 1;
    }
    let ghost after = runs_after(orig, hits@);
    proof {
        assert(part_models(parts@) =~= after);
        assert(placed(after, model.rows, model.cols)) by {
            lemma_runs_after_keeps_placement(orig, hits@, model.rows, model.cols);
        }
        lemma_workers_match_whole(model.rows, model.cols, model.cells, orig, hits@);
        crate::model::lemma_apply_hits_closed_form(model.rows, model.cols, model.cells, hits@);
        assert(model.cells =~= zeros(model.rows * model.cols));
    }
    let joined_grid = AtomicGrid::join(rows, cols, parts);
    joined_grid.unwrap().snapshot()
}

/// Runs that each took every hit still sit where they sat, with as many counters.
proof fn lemma_runs_after_keeps_placement(parts: Seq<RangeModel>, hits: Seq<(i64, i64)>, rows: nat, cols: nat)
    requires
        placed(parts, rows, cols),
    ensures
        placed(runs_after(parts, hits), rows, cols),
        joined(runs_after(parts, hits)).len() == joined(parts).len(),
{
    lemma_joined_len_kept(parts, hits);
    let after = runs_after(parts, hits);
    assert forall|k: int| 0 <= k < after.len() implies (#[trigger] after[k]).rows == rows && after[k].cols == cols
        && after[k].start == joined(after.take(k)).len() by {
        assert(after.take(k) =~= runs_after(parts.take(k), hits));
        lemma_joined_len_kept(parts.take(k), hits);
        assert(parts[k].start == joined(parts.take(k)).len());
    }
}

proof fn lemma_joined_len_kept(parts: Seq<RangeModel>, hits: Seq<(i64, i64)>)
    ensures
        joined(runs_after(parts, hits)).len() == joined(parts).len(),
    decreases parts.len(),
{
    if parts.len() > 0 {
        lemma_joined_len_kept(parts.drop_last(), hits);
        assert(runs_after(parts, hits).drop_last() =~= runs_after(parts.drop_last(), hits));
        let p = parts.last();
        lemma_apply_hits_window_len(p.rows, p.cols, p.start as int, p.cells, hits);
    }
}

/// Gives each of `workers` workers its own consecutive part of the hits, lets
/// each fill a private sparse grid, and merges the partial grids.
fn private_histogram(workers: u32, rows: usize, cols: usize, hits: &Vec<(i64, i64)>) -> (r: Vec<u8>)
    requires
        workers > 0,
        rows * cols <= usize::MAX,
    ensures
        r@ == apply_hits(rows as nat, cols as nat, zeros(rows as nat * cols as nat), hits@),
{
    let n = hits.len();
    let q: usize = n / (workers as usize);
    let per: usize = if q < usize::MAX { q + 1 } else { q };
    let mut partials: Vec<MyGrid> = Vec::new();
    let ghost mut runs: Seq<Seq<(i64, i64)>> = Seq::empty();
    let mut lo: usize = 0;
    while lo < n
        invariant
            n == hits@.len(),
            rows * cols <= usize::MAX,
            per > 0,
            0 <= lo <= n,
            concat_runs(runs) == hits@.take(lo as int),
            partials@.len() == runs.len(),
            forall|j: int| 0 <= j < partials@.len() ==> (#[trigger] partials@[j]).inv(),
            forall|j: int| 0 <= j < partials@.len() ==> (#[trigger] partials@[j])@.rows == rows && partials@[j]@.cols == cols,
            cells_of(partials@) == private_grids(rows as nat, cols as nat, runs),
        decreases n - lo,
    {
        let hi: usize = if n - lo < per { n } else { lo + per };
        let mut run: Vec<(i64, i64)> = Vec::new();
        let mut i: usize = lo;
        while i < hi
            invariant
                n == hits@.len(),
                lo <= i <= hi <= n,
                run@ == hits@.subrange(lo as int, i as int),
            decreases hi - i,
        {
            run.push(hits[i]);
            proof {
                assert(hits@.subrange(lo as int, i + 1) =~= hits@.subrange(lo as int, i as int).push(hits@[i as int]));
            }
            i = i + 1;
        }
        let mut local = SparseGrid::new(rows, cols);
        local.accumulate(&run);
        let dense = local.to_dense();
        proof {
            lemma_sparse_matches_dense(rows as nat, cols as nat, run@);
        }
        let ghost before = partials@;
        partials.push(dense);
        proof {
            let runs2 = runs.push(run@);
            assert(runs2.drop_last() =~= runs);
            assert(concat_runs(runs2) =~= hits@.take(hi as int));
            assert(cells_of(partials@) =~= private_grids(rows as nat, cols as nat, runs2)) by {
                assert forall|j: int| 0 <= j < partials@.len() implies cells_of(partials@)[j] == private_grids(
                    rows as nat,
                    cols as nat,
                    runs2,
                )[j] by {
                    if j < before.len() {
                        assert(partials@[j] == before[j]);
                        assert(cells_of(before)[j] == private_grids(rows as nat, cols as nat, runs)[j]);
                    }
                }
            }
            runs = runs2;
        }
        lo = hi;
    }
    proof {
        assert(hits@.take(n as int) =~= hits@);
        lemma_private_grids_match_shared(rows as nat, cols as nat, runs);
    }
    let merged = merge(rows, cols, &partials);
    merged.unwrap().into_cells()
}

} // verus!
