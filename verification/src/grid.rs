//! Escape counts for every cell of a grid.
//!
//! A grid has `n_rows` rows of `n_cols` cells. A function `place` gives each
//! cell, named by its column and its row, the state in which its orbit
//! starts; the cell's value is the escape count of that orbit.

use crate::escape::{
    can_follow, escape_count, escapes_at, is_deterministic, is_escape_run, iterations_at_point,
    lemma_count_of_model, lemma_count_unique, step_computes,
};
use vstd::prelude::*;

verus! {

/// `count` is an escape count of the cell in column `x` of row `y`: of the
/// orbit of `step` from a state that `place` hands back for that cell.
pub open spec fn cell_escapes_at<S, P: Fn(usize, usize) -> S, F: Fn(S) -> (S, bool)>(
    place: P,
    step: F,
    max_iters: nat,
    x: usize,
    y: usize,
    count: nat,
) -> bool {
    exists|origin: S| #[trigger]
        call_ensures(place, (x, y), origin) && escapes_at(step, origin, max_iters, count)
}

/// `grid` holds `n_rows` rows of `n_cols` cells each, and every cell holds an
/// escape count of its orbit, which is at most `max_iters`.
pub open spec fn is_escape_grid<S, P: Fn(usize, usize) -> S, F: Fn(S) -> (S, bool)>(
    place: P,
    step: F,
    max_iters: nat,
    n_cols: nat,
    n_rows: nat,
    grid: Seq<Seq<usize>>,
) -> bool {
    &&& grid.len() == n_rows
    &&& forall|y: int| 0 <= y < n_rows ==> (#[trigger] grid[y]).len() == n_cols
    &&& forall|y: int, x: int|
        0 <= y < n_rows && 0 <= x < n_cols ==> (#[trigger] grid[y][x]) <= max_iters
            && cell_escapes_at(place, step, max_iters, x as usize, y as usize, grid[y][x] as nat)
}

/// `place` can be applied to every cell of the grid, and `step` can follow
/// the orbit from every state that `place` hands back.
pub open spec fn can_sample<S, P: Fn(usize, usize) -> S, F: Fn(S) -> (S, bool)>(
    place: P,
    step: F,
    n_cols: nat,
    n_rows: nat,
) -> bool {
    &&& forall|x: usize, y: usize| x < n_cols && y < n_rows ==> #[trigger] call_requires(place, (x, y))
    &&& forall|x: usize, y: usize, origin: S|
        x < n_cols && y < n_rows && #[trigger] call_ensures(place, (x, y), origin) ==> can_follow(
            step,
            origin,
        )
}

/// `place` hands back the same state whenever it is applied to the same cell.
pub open spec fn places_one_state<S, P: Fn(usize, usize) -> S>(place: P) -> bool {
    forall|x: usize, y: usize, a: S, b: S|
        #[trigger] call_ensures(place, (x, y), a) && #[trigger] call_ensures(place, (x, y), b) ==> a
            == b
}

/// `place` computes `spot`: the state it hands back for a cell is what `spot`
/// gives for that cell.
pub open spec fn place_computes<S, P: Fn(usize, usize) -> S>(
    place: P,
    spot: spec_fn(usize, usize) -> S,
) -> bool {
    forall|x: usize, y: usize, origin: S| #[trigger]
        call_ensures(place, (x, y), origin) ==> origin == spot(x, y)
}

/// Builds the grid of escape counts: row after row from the first, and in
/// each row cell after cell from the first. For each cell `place` is applied
/// to its column and row, and the orbit of `step` is followed from the state
/// that comes back, under the budget `max_iters`.
pub fn generate_mandlebrot_set<S, P, F>(
    max_iters: usize,
    n_cols: usize,
    n_rows: usize,
    place: P,
    step: F,
) -> (rows: Vec<Vec<usize>>) where P: Fn(usize, usize) -> S, F: Fn(S) -> (S, bool)
    requires
        can_sample(place, step, n_cols as nat, n_rows as nat),
    ensures
        rows.len() == n_rows,
        forall|y: int| 0 <= y < n_rows ==> (#[trigger] rows[y]).len() == n_cols,
        forall|y: int, x: int|
            0 <= y < n_rows && 0 <= x < n_cols ==> (#[trigger] rows[y][x]) <= max_iters,
        is_escape_grid(
            place,
            step,
            max_iters as nat,
            n_cols as nat,
            n_rows as nat,
            rows.deep_view(),
        ),
{
    let mut rows: Vec<Vec<usize>> = Vec::new();
    let mut pos_y: usize = 0;
    while pos_y < n_rows
        invariant
            pos_y <= n_rows,
            can_sample(place, step, n_cols as nat, n_rows as nat),
            is_escape_grid(
                place,
                step,
                max_iters as nat,
                n_cols as nat,
                pos_y as nat,
                rows.deep_view(),
            ),
        decreases n_rows - pos_y,
    {
        let mut row: Vec<usize> = Vec::new();
        let mut pos_x: usize = 0;
        while pos_x < n_cols
            invariant
                pos_x <= n_cols,
                pos_y < n_rows,
                can_sample(place, step, n_cols as nat, n_rows as nat),
                row.len() == pos_x,
                forall|x: int|
                    0 <= x < pos_x ==> (#[trigger] row[x]) <= max_iters && cell_escapes_at(
                        place,
                        step,
                        max_iters as nat,
                        x as usize,
                        pos_y,
                        row[x] as nat,
                    ),
            decreases n_cols - pos_x,
        {
            let origin = place(pos_x, pos_y);
            let ghost start = origin;
            let n_iters = iterations_at_point(max_iters, origin, &step);
            proof {
                // The orbit that was followed through `&step` is an orbit of `step`.
                let trail = choose|trail: Seq<(S, bool)>|
                    is_escape_run(&step, start, max_iters as nat, n_iters as nat, trail);
                assert(is_escape_run(step, start, max_iters as nat, n_iters as nat, trail));
                assert(call_ensures(place, (pos_x, pos_y), start));
            }
            row.push(n_iters);
            pos_x = pos_x + 1;
        }
        let ghost before = rows.deep_view();
        rows.push(row);
        proof {
            let grid = rows.deep_view();
            assert(grid =~= before.push(row.deep_view()));
            assert forall|y: int, x: int| 0 <= y < pos_y + 1 && 0 <= x < n_cols implies (
            #[trigger] grid[y][x]) <= max_iters && cell_escapes_at(
                place,
                step,
                max_iters as nat,
                x as usize,
                y as usize,
                grid[y][x] as nat,
            ) by {
                if y < pos_y {
                    assert(grid[y] == before[y]);
                } else {
                    assert(grid[y][x] == row[x]);
                }
            }
        }
        pos_y = pos_y + 1;
    }
    proof {
        let grid = rows.deep_view();
        assert forall|y: int| 0 <= y < n_rows implies (#[trigger] rows[y]).len() == n_cols by {
            assert(grid[y] == rows[y].deep_view());
        }
        assert forall|y: int, x: int| 0 <= y < n_rows && 0 <= x < n_cols implies (
        #[trigger] rows[y][x]) <= max_iters by {
            assert(grid[y][x] == rows[y][x]);
        }
    }
    rows
}

/// Where `place` gives every cell one state and `step` is deterministic, the
/// grid is determined by the arguments: building it again gives the same
/// grid.
pub proof fn lemma_grid_unique<S, P: Fn(usize, usize) -> S, F: Fn(S) -> (S, bool)>(
    place: P,
    step: F,
    max_iters: nat,
    n_cols: nat,
    n_rows: nat,
    grid: Seq<Seq<usize>>,
    again: Seq<Seq<usize>>,
)
    requires
        places_one_state(place),
        is_deterministic(step),
        is_escape_grid(place, step, max_iters, n_cols, n_rows, grid),
        is_escape_grid(place, step, max_iters, n_cols, n_rows, again),
    ensures
        grid == again,
{
    assert forall|y: int| 0 <= y < n_rows implies grid[y] == again[y] by {
        assert forall|x: int| 0 <= x < n_cols implies grid[y][x] == again[y][x] by {
            let one = choose|origin: S| #[trigger]
                call_ensures(place, (x as usize, y as usize), origin) && escapes_at(
                    step,
                    origin,
                    max_iters,
                    grid[y][x] as nat,
                );
            let other = choose|origin: S| #[trigger]
                call_ensures(place, (x as usize, y as usize), origin) && escapes_at(
                    step,
                    origin,
                    max_iters,
                    again[y][x] as nat,
                );
            lemma_count_unique(step, one, max_iters, grid[y][x] as nat, again[y][x] as nat);
        }
        assert(grid[y] =~= again[y]);
    }
    assert(grid =~= again);
}

/// Where `place` computes `spot` and `step` computes `model`, every cell of
/// the grid holds `escape_count` of the model, from the state that `spot`
/// gives for the cell.
pub proof fn lemma_cells_of_models<S, P: Fn(usize, usize) -> S, F: Fn(S) -> (S, bool)>(
    place: P,
    spot: spec_fn(usize, usize) -> S,
    step: F,
    model: spec_fn(S) -> (S, bool),
    max_iters: nat,
    n_cols: nat,
    n_rows: nat,
    grid: Seq<Seq<usize>>,
)
    requires
        place_computes(place, spot),
        step_computes(step, model),
        is_escape_grid(place, step, max_iters, n_cols, n_rows, grid),
    ensures
        forall|y: int, x: int|
            0 <= y < n_rows && 0 <= x < n_cols ==> (#[trigger] grid[y][x]) == escape_count(
                model,
                spot(x as usize, y as usize),
                max_iters,
            ),
{
    assert forall|y: int, x: int| 0 <= y < n_rows && 0 <= x < n_cols implies (
    #[trigger] grid[y][x]) == escape_count(model, spot(x as usize, y as usize), max_iters) by {
        let origin = choose|origin: S| #[trigger]
            call_ensures(place, (x as usize, y as usize), origin) && escapes_at(
                step,
                origin,
                max_iters,
                grid[y][x] as nat,
            );
        lemma_count_of_model(step, model, origin, max_iters, grid[y][x] as nat);
    }
}

} // verus!
