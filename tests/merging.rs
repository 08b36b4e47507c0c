use rust_fractal::grid::MyGrid;
use rust_fractal::merge::merge;

fn grid_with(rows: usize, cols: usize, cells: Vec<u8>) -> MyGrid {
    MyGrid::from_cells(rows, cols, cells).unwrap()
}

#[test]
fn merge_sums_cell_by_cell() {
    let a = grid_with(1, 3, vec![1, 2, 200]);
    let b = grid_with(1, 3, vec![10, 0, 100]);
    let m = merge(1, 3, &vec![a, b]).unwrap();
    assert_eq!(m.snapshot(), vec![11, 2, 255]);
}

#[test]
fn merge_of_nothing_is_blank() {
    let m = merge(2, 2, &Vec::new()).unwrap();
    assert_eq!(m.snapshot(), vec![0, 0, 0, 0]);
}

#[test]
fn merge_rejects_other_shapes() {
    let a = grid_with(2, 2, vec![1, 2, 3, 4]);
    let b = grid_with(1, 4, vec![1, 2, 3, 4]);
    assert!(merge(2, 2, &vec![a, b]).is_none());
}

#[test]
fn merge_order_does_not_matter() {
    let parts: Vec<Vec<u8>> = vec![
        vec![250, 3, 0, 17, 99, 1],
        vec![10, 200, 0, 17, 99, 2],
        vec![0, 100, 255, 1, 60, 3],
        vec![7, 7, 7, 7, 7, 7],
    ];
    let orders: Vec<Vec<usize>> = vec![
        vec![0, 1, 2, 3],
        vec![3, 2, 1, 0],
        vec![1, 3, 0, 2],
        vec![2, 0, 3, 1],
        vec![0, 2, 1, 3],
    ];
    let mut results = Vec::new();
    for order in &orders {
        let grids: Vec<MyGrid> = order.iter().map(|&i| grid_with(2, 3, parts[i].clone())).collect();
        results.push(merge(2, 3, &grids).unwrap().snapshot());
    }
    for r in &results {
        assert_eq!(r, &results[0]);
    }
    assert_eq!(results[0], vec![255, 255, 255, 42, 255, 13]);
}

#[test]
fn merge_from_adds_in_place() {
    let mut a = grid_with(1, 2, vec![5, 250]);
    let b = grid_with(1, 2, vec![6, 6]);
    a.merge_from(&b);
    assert_eq!(a.snapshot(), vec![11, 255]);
}
