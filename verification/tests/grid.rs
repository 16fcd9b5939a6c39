use mandlebrot::escape::iterations_at_point;
use mandlebrot::grid::generate_mandlebrot_set;
use num::complex::Complex;
use std::cell::RefCell;

/// An orbit of the quadratic map: where it is, and the point it belongs to.
type Orbit = (Complex<f64>, Complex<f64>);

fn advance(orbit: Orbit) -> (Orbit, bool) {
    let (z, c) = orbit;
    let z = z * z + c;
    ((z, c), z.norm() > 2.0)
}

/// Escape counts over the rectangle from `(x_min, y_min)` to `(x_max, y_max)`.
fn sample(
    max_iters: usize,
    x_min: f64,
    x_max: f64,
    y_min: f64,
    y_max: f64,
    n_cols: usize,
    n_rows: usize,
) -> Vec<Vec<usize>> {
    let x_range_size = x_max - x_min;
    let y_range_size = y_max - y_min;
    let place = |pos_x: usize, pos_y: usize| {
        let x_ratio = pos_x as f64 / n_cols as f64;
        let y_ratio = pos_y as f64 / n_rows as f64;
        let cx = x_min + x_range_size * x_ratio;
        let cy = y_min + y_range_size * y_ratio;
        (Complex::new(0.0, 0.0), Complex::new(cx, cy))
    };
    generate_mandlebrot_set(max_iters, n_cols, n_rows, place, advance)
}

/// A toy orbit: the state is the number of steps left before the escape.
fn countdown(state: usize) -> (usize, bool) {
    if state == 0 {
        (0, true)
    } else {
        (state - 1, false)
    }
}

#[test]
fn grid_has_the_requested_shape() {
    for (n_cols, n_rows) in [(1usize, 1usize), (1, 5), (5, 1), (3, 4), (100, 24), (17, 31)] {
        let grid = sample(20, -2.0, 1.0, -1.0, 1.0, n_cols, n_rows);
        assert_eq!(grid.len(), n_rows);
        for row in &grid {
            assert_eq!(row.len(), n_cols);
        }
    }
}

#[test]
fn grid_without_rows_or_columns() {
    let no_rows = sample(20, -2.0, 1.0, -1.0, 1.0, 5, 0);
    assert!(no_rows.is_empty());
    let no_cols = sample(20, -2.0, 1.0, -1.0, 1.0, 0, 4);
    assert_eq!(no_cols, vec![Vec::<usize>::new(); 4]);
    let nothing = sample(20, -2.0, 1.0, -1.0, 1.0, 0, 0);
    assert!(nothing.is_empty());
}

#[test]
fn every_cell_lies_within_the_budget() {
    for max_iters in [0usize, 1, 5, 50, 300] {
        let grid = sample(max_iters, -2.0, 1.0, -1.0, 1.0, 40, 12);
        for row in &grid {
            for &cell in row {
                assert!(cell <= max_iters);
            }
        }
    }
}

#[test]
fn zero_budget_gives_a_grid_of_zeros() {
    let grid = sample(0, -2.0, 1.0, -1.0, 1.0, 7, 3);
    assert_eq!(grid, vec![vec![0usize; 7]; 3]);
}

#[test]
fn same_arguments_give_the_same_grid() {
    let first = sample(200, -2.0, 1.0, -1.0, 1.0, 60, 20);
    let second = sample(200, -2.0, 1.0, -1.0, 1.0, 60, 20);
    assert_eq!(first, second);
}

#[test]
fn single_cell_is_evaluated_at_the_lower_corner() {
    // (x_min, y_min) = (-2, -1) lies outside the radius
    assert_eq!(sample(1000, -2.0, 1.0, -1.0, 1.0, 1, 1), vec![vec![0]]);
    // (x_min, y_min) = (-0.5, 0) never escapes
    assert_eq!(sample(1000, -0.5, 1.0, 0.0, 1.0, 1, 1), vec![vec![1000]]);
    // (x_min, y_min) = (-0.75, 0.1) escapes at step 32
    assert_eq!(sample(1000, -0.75, 3.0, 0.1, 7.0, 1, 1), vec![vec![32]]);
    // the far corner plays no part
    assert_eq!(sample(1000, 0.26, -5.0, 0.0, -9.0, 1, 1), vec![vec![29]]);
    let corner = (Complex::new(0.0, 0.0), Complex::new(0.4, 0.4));
    assert_eq!(
        sample(1000, 0.4, 1.0, 0.4, 1.0, 1, 1),
        vec![vec![iterations_at_point(1000, corner, advance)]]
    );
}

#[test]
fn cells_are_evaluated_at_evenly_spaced_points() {
    // columns at x = -2, -1, 0, 1 and rows at y = -1, 0
    let grid = sample(50, -2.0, 2.0, -1.0, 1.0, 4, 2);
    assert_eq!(grid, vec![vec![0, 2, 50, 1], vec![50, 50, 50, 2]]);
}

#[test]
fn mirrored_region_gives_the_mirrored_grid() {
    // x runs from 2 down towards -2: columns at x = 2, 1, 0, -1
    let grid = sample(50, 2.0, -2.0, 0.0, 1.0, 4, 1);
    assert_eq!(grid, vec![vec![1, 2, 50, 50]]);
}

#[test]
fn each_cell_holds_the_count_of_its_own_orbit() {
    let place = |pos_x: usize, pos_y: usize| pos_x + 10 * pos_y;
    let grid = generate_mandlebrot_set(1000, 4, 3, place, countdown);
    assert_eq!(grid, vec![vec![0, 1, 2, 3], vec![10, 11, 12, 13], vec![20, 21, 22, 23]]);
}

#[test]
fn cells_are_capped_by_the_budget() {
    let place = |pos_x: usize, pos_y: usize| pos_x + 10 * pos_y;
    let grid = generate_mandlebrot_set(11, 4, 3, place, countdown);
    assert_eq!(grid, vec![vec![0, 1, 2, 3], vec![10, 11, 11, 11], vec![11, 11, 11, 11]]);
}

#[test]
fn cells_are_visited_row_by_row_from_the_first() {
    let visited = RefCell::new(Vec::new());
    let place = |pos_x: usize, pos_y: usize| {
        visited.borrow_mut().push((pos_x, pos_y));
        0usize
    };
    let grid = generate_mandlebrot_set(5, 3, 2, place, countdown);
    assert_eq!(grid, vec![vec![0, 0, 0], vec![0, 0, 0]]);
    assert_eq!(*visited.borrow(), vec![(0, 0), (1, 0), (2, 0), (0, 1), (1, 1), (2, 1)]);
}
