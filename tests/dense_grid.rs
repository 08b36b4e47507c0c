use rust_fractal::counter::{saturating_add, saturating_inc, COUNTER_MAX};
use rust_fractal::grid::{flat_index, MyGrid};

fn total(cells: &[u8]) -> u64 {
    cells.iter().map(|&c| c as u64).sum()
}

#[test]
fn saturating_inc_holds_at_max() {
    assert_eq!(saturating_inc(0), 1);
    assert_eq!(saturating_inc(254), 255);
    assert_eq!(saturating_inc(255), 255);
    assert_eq!(COUNTER_MAX, 255);
}

#[test]
fn saturating_add_holds_at_max() {
    assert_eq!(saturating_add(100, 100), 200);
    assert_eq!(saturating_add(200, 100), 255);
    assert_eq!(saturating_add(0, 0), 0);
}

#[test]
fn new_grid_is_blank() {
    let g = MyGrid::new(3, 5);
    assert_eq!(g.rows(), 3);
    assert_eq!(g.cols(), 5);
    assert_eq!(g.snapshot(), vec![0u8; 15]);
}

#[test]
fn increment_hits_row_major_cell() {
    let mut g = MyGrid::new(3, 5);
    g.increment(1, 2);
    assert_eq!(g.get(1, 2), Some(1));
    assert_eq!(g.snapshot()[7], 1);
    assert_eq!(total(&g.snapshot()), 1);
    assert_eq!(flat_index(3, 5, 1, 2), 7);
}

#[test]
fn cell_saturates_after_more_hits_than_max() {
    let mut g = MyGrid::new(2, 2);
    for _ in 0..300 {
        g.increment(1, 0);
    }
    assert_eq!(g.get(1, 0), Some(255));
    assert_eq!(g.get(0, 0), Some(0));
    assert_eq!(g.get(0, 1), Some(0));
    assert_eq!(g.get(1, 1), Some(0));
}

#[test]
fn out_of_bounds_hits_change_nothing() {
    let mut g = MyGrid::new(4, 4);
    g.increment(1, 1);
    let before = g.snapshot();
    for &(r, c) in &[(-1i64, 0i64), (0, -1), (4, 0), (0, 4), (i64::MIN, i64::MAX), (100, 100)] {
        g.increment(r, c);
    }
    assert_eq!(g.snapshot(), before);
    assert_eq!(g.get(4, 0), None);
    assert_eq!(g.get(0, 4), None);
}

#[test]
fn counts_add_up_to_hits_inside_without_overflow() {
    let mut g = MyGrid::new(4, 6);
    let mut hits = Vec::new();
    let mut inside = 0u64;
    for k in 0..500i64 {
        let r = (k * 7) % 6 - 1;
        let c = (k * 5) % 8 - 1;
        if r >= 0 && r < 4 && c >= 0 && c < 6 {
            inside += 1;
        }
        hits.push((r, c));
    }
    g.accumulate(&hits);
    assert!(g.snapshot().iter().all(|&c| c < 255));
    assert_eq!(total(&g.snapshot()), inside);
}

#[test]
fn accumulate_is_reproducible() {
    let hits: Vec<(i64, i64)> = (0..2000i64).map(|k| ((k * 13) % 9 - 1, (k * 11) % 9 - 1)).collect();
    let mut a = MyGrid::new(8, 8);
    let mut b = MyGrid::new(8, 8);
    a.accumulate(&hits);
    b.accumulate(&hits);
    assert_eq!(a.snapshot(), b.snapshot());
}

#[test]
fn accumulate_equals_one_increment_per_hit() {
    let hits = vec![(0i64, 0i64), (2, 1), (2, 1), (5, 5), (1, 2)];
    let mut a = MyGrid::new(3, 3);
    a.accumulate(&hits);
    let mut b = MyGrid::new(3, 3);
    for &(r, c) in &hits {
        b.increment(r, c);
    }
    assert_eq!(a.snapshot(), b.snapshot());
    assert_eq!(a.snapshot(), vec![1, 0, 0, 0, 0, 1, 0, 2, 0]);
}

#[test]
fn from_cells_checks_length() {
    assert!(MyGrid::from_cells(2, 3, vec![0u8; 5]).is_none());
    let g = MyGrid::from_cells(2, 3, vec![1, 2, 3, 4, 5, 6]).unwrap();
    assert_eq!(g.get(1, 0), Some(4));
    assert_eq!(g.into_cells(), vec![1, 2, 3, 4, 5, 6]);
    assert!(MyGrid::from_cells(usize::MAX, 2, vec![]).is_none());
}

#[test]
fn single_rotation_step_lands_in_expected_cell() {
    // One rotation step by a quarter turn from (0, 0.5), then the cell mapping.
    let rot = std::f64::consts::PI / 2.0;
    let (x, y) = (0.0f64, 0.5f64);
    let (x, y) = (x * rot.cos() + y * rot.sin(), y * rot.cos() - x * rot.sin());
    let row = ((y / 2.0 + 0.5) * 4.0).floor() as i64;
    let col = ((x / 2.0 + 0.5) * 4.0).floor() as i64;
    assert_eq!((row, col), (2, 3));
    let mut g = MyGrid::new(4, 4);
    g.increment(row, col);
    let cells = g.snapshot();
    for (i, &c) in cells.iter().enumerate() {
        assert_eq!(c, if i == 2 * 4 + 3 { 1 } else { 0 });
    }
}

#[test]
fn static_noise_spreads_a_million_hits() {
    let mut g = MyGrid::new(256, 256);
    g.static_noise();
    let cells = g.snapshot();
    assert!(cells.iter().all(|&c| c < 255));
    assert_eq!(total(&cells), 1_000_000);
    assert!(cells.iter().filter(|&&c| c > 0).count() > 60_000);
}

#[test]
fn static_noise_on_wide_grid_stays_in_square() {
    let mut g = MyGrid::new(8, 16);
    g.static_noise();
    let cells = g.snapshot();
    assert!(cells[64..].iter().all(|&c| c == 0));
    assert!(cells[..64].iter().all(|&c| c == 255));
}
