use rust_fractal::engine::{histogram, Strategy};
use rust_fractal::grid::MyGrid;

fn stream(n: i64, rows: i64, cols: i64) -> Vec<(i64, i64)> {
    (0..n).map(|k| ((k * 31 + k / 5) % (rows + 3) - 1, (k * 17 + k / 11) % (cols + 3) - 2)).collect()
}

#[test]
fn all_strategies_give_the_same_grid() {
    let hits = stream(40_000, 32, 64);
    let mut dense = MyGrid::new(32, 64);
    dense.accumulate(&hits);
    let expected = dense.snapshot();
    for workers in [1u32, 2, 3, 5, 12] {
        for strategy in [Strategy::Dense, Strategy::Sharded, Strategy::Private] {
            assert_eq!(histogram(strategy, workers, 32, 64, &hits).unwrap(), expected);
        }
    }
}

#[test]
fn histogram_of_no_hits_is_blank() {
    for strategy in [Strategy::Dense, Strategy::Sharded, Strategy::Private] {
        assert_eq!(histogram(strategy, 4, 32, 32, &Vec::new()).unwrap(), vec![0u8; 1024]);
    }
}

#[test]
fn histogram_needs_workers() {
    assert!(histogram(Strategy::Dense, 0, 4, 4, &vec![(0, 0)]).is_none());
    assert!(histogram(Strategy::Private, 0, 4, 4, &vec![(0, 0)]).is_none());
}

#[test]
fn sharded_histogram_needs_whole_shards() {
    assert!(histogram(Strategy::Sharded, 4, 100, 100, &vec![(0, 0)]).is_none());
    let g = histogram(Strategy::Dense, 4, 100, 100, &vec![(0, 0), (99, 99), (100, 0)]).unwrap();
    assert_eq!(g.len(), 10_000);
    assert_eq!(g[0], 1);
    assert_eq!(g[9_999], 1);
}

#[test]
fn private_histogram_saturates_across_workers() {
    let hits = vec![(1i64, 1i64); 600];
    let g = histogram(Strategy::Private, 6, 2, 2, &hits).unwrap();
    assert_eq!(g, vec![0, 0, 0, 255]);
}
