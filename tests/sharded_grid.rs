use rust_fractal::grid::MyGrid;
use rust_fractal::merge::merge;
use rust_fractal::sharded::{AtomicGrid, MutexCell, MUTEX_CELL_LENGTH};

fn sample_hits(n: i64, rows: i64, cols: i64) -> Vec<(i64, i64)> {
    (0..n).map(|k| ((k * 37 + k / 3) % (rows + 2) - 1, (k * 101 + k / 7) % (cols + 2) - 1)).collect()
}

#[test]
fn mutex_cell_new_and_with_index() {
    let m = MutexCell::new(7);
    assert_eq!(m.index(), 7);
    assert_eq!(m.counters(), vec![0u8; MUTEX_CELL_LENGTH as usize]);
    let m = m.with_index(3);
    assert_eq!(m.index(), 3);
    let d = MutexCell::default();
    assert_eq!(d.index(), 0);
    assert_eq!(d.counters().len(), 1024);
}

#[test]
fn atomic_grid_new_is_blank() {
    let g = AtomicGrid::new(64, 32);
    assert_eq!(g.rows(), 64);
    assert_eq!(g.cols(), 32);
    assert_eq!(g.snapshot(), vec![0u8; 2048]);
}

#[test]
fn try_new_rejects_shapes_without_whole_shards() {
    assert!(AtomicGrid::try_new(100, 100).is_none());
    assert!(AtomicGrid::try_new(65536, 65536).is_none());
    assert!(AtomicGrid::try_new(32, 32).is_some());
    assert!(AtomicGrid::try_new(0, 5).is_some());
}

#[test]
fn atomic_increment_crosses_shards() {
    let mut g = AtomicGrid::new(64, 64);
    g.increment(40, 3);
    g.increment(40, 3);
    g.increment(0, 0);
    g.increment(-1, 3);
    g.increment(64, 3);
    let cells = g.snapshot();
    assert_eq!(cells[40 * 64 + 3], 2);
    assert_eq!(cells[0], 1);
    assert_eq!(cells.iter().map(|&c| c as u32).sum::<u32>(), 3);
}

#[test]
fn atomic_grid_saturates() {
    let mut g = AtomicGrid::new(32, 32);
    for _ in 0..400 {
        g.increment(31, 31);
    }
    assert_eq!(g.snapshot()[1023], 255);
}

#[test]
fn sharded_matches_dense() {
    let hits = sample_hits(20_000, 64, 64);
    let mut dense = MyGrid::new(64, 64);
    dense.accumulate(&hits);
    let mut sharded = AtomicGrid::new(64, 64);
    sharded.accumulate(&hits);
    assert_eq!(dense.snapshot(), sharded.snapshot());
}

#[test]
fn workers_on_own_shards_match_dense() {
    let hits = sample_hits(50_000, 64, 96);
    let mut dense = MyGrid::new(64, 96);
    dense.accumulate(&hits);
    for workers in [1u32, 2, 3, 4, 7, 12] {
        let mut parts = AtomicGrid::new(64, 96).split(workers);
        assert!(parts.len() <= workers as usize);
        for p in parts.iter_mut() {
            p.accumulate(&hits);
        }
        let joined = AtomicGrid::join(64, 96, parts).unwrap();
        assert_eq!(joined.snapshot(), dense.snapshot());
    }
}

#[test]
fn worker_keeps_only_its_own_hits() {
    let mut parts = AtomicGrid::new(32, 64).split(2);
    assert_eq!(parts.len(), 2);
    parts[0].increment(31, 0);
    parts[1].increment(31, 0);
    parts[0].increment(0, 0);
    parts[1].increment(0, 0);
    let g = AtomicGrid::join(32, 64, parts).unwrap();
    let cells = g.snapshot();
    assert_eq!(cells[0], 1);
    assert_eq!(cells[31 * 64], 1);
}

#[test]
fn join_rejects_misplaced_runs() {
    let mut parts = AtomicGrid::new(32, 64).split(2);
    parts.swap(0, 1);
    assert!(AtomicGrid::join(32, 64, parts).is_none());
    let parts = AtomicGrid::new(32, 64).split(2);
    assert!(AtomicGrid::join(64, 64, parts).is_none());
    let mut parts = AtomicGrid::new(32, 64).split(2);
    parts.pop();
    assert!(AtomicGrid::join(32, 64, parts).is_none());
    let parts = AtomicGrid::new(32, 64).split(2);
    assert!(AtomicGrid::join(100, 100, parts).is_none());
}

#[test]
fn private_grids_merged_match_one_stream() {
    let hits = sample_hits(30_000, 32, 32);
    let mut whole = MyGrid::new(32, 32);
    whole.accumulate(&hits);
    let mut partials = Vec::new();
    for chunk in hits.chunks(7_000) {
        let mut g = MyGrid::new(32, 32);
        g.accumulate(&chunk.to_vec());
        partials.push(g);
    }
    let merged = merge(32, 32, &partials).unwrap();
    assert_eq!(merged.snapshot(), whole.snapshot());
    let mut sharded = AtomicGrid::new(32, 32);
    sharded.accumulate(&hits);
    assert_eq!(merged.snapshot(), sharded.snapshot());
}
