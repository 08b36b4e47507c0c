use rust_fractal::grid::MyGrid;
use rust_fractal::sparse::{dense_from_triplets, SparseGrid};

fn chaos_hits(n: usize, rows: usize, cols: usize) -> Vec<(i64, i64)> {
    let rot: f64 = 1.724643921305295;
    let theta_offset: f64 = 3.0466792337230033;
    let (mut x, mut y) = (0.0f64, 0.5f64);
    let mut state: u64 = 0x9e37_79b9_7f4a_7c15;
    let mut out = Vec::with_capacity(n);
    for _ in 0..n {
        state ^= state << 13;
        state ^= state >> 7;
        state ^= state << 17;
        if state & 1 == 1 {
            (x, y) = (x * rot.cos() + y * rot.sin(), y * rot.cos() - x * rot.sin());
        } else {
            let rad = x * 0.5 + 0.5;
            let theta = y * std::f64::consts::PI + theta_offset;
            (x, y) = (rad * theta.cos(), rad * theta.sin());
        }
        let r = ((y / 2.0 + 0.5) * rows as f64).floor() as i64;
        let c = ((x / 2.0 + 0.5) * cols as f64).floor() as i64;
        out.push((r, c));
    }
    out
}

#[test]
fn sparse_records_and_saturates() {
    let mut s = SparseGrid::new(3, 4);
    for _ in 0..300 {
        s.record_hit(2, 3);
    }
    s.record_hit(0, 1);
    s.record_hit(3, 0);
    s.record_hit(0, -1);
    let d = s.to_dense();
    let mut expected = vec![0u8; 12];
    expected[11] = 255;
    expected[1] = 1;
    assert_eq!(d.snapshot(), expected);
}

#[test]
fn sparse_matches_dense_on_same_hits() {
    let hits = chaos_hits(100_000, 64, 64);
    let mut s = SparseGrid::new(64, 64);
    s.accumulate(&hits);
    let mut d = MyGrid::new(64, 64);
    d.accumulate(&hits);
    assert_eq!(s.to_dense().snapshot(), d.snapshot());
}

#[test]
fn triplets_fill_dense_grid() {
    let g = dense_from_triplets(2, 3, &vec![(0, 0, 5), (1, 2, 7), (1, 2, 9), (2, 0, 1), (0, 3, 1)]);
    assert_eq!(g.snapshot(), vec![5, 0, 0, 0, 0, 9]);
}

#[test]
fn sprs_grid_fractalize() {
    let mut s = SparseGrid::new(512, 512);
    s.accumulate(&chaos_hits(1_000_000, 512, 512));
    let s: MyGrid = s.to_dense();
    let s: Option<image::GrayImage> = image::ImageBuffer::from_raw(512, 512, s.into_cells());
    assert!(s.is_some());
}
