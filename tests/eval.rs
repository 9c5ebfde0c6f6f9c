use ai2048::grid::slide_line;
use ai2048::heuristic::{max_score, min_score, tile_log2, SCORE_UNIT, UNIT};
use ai2048::search::{BoardEval, NEG_INF, POS_INF};
use ai2048::{Direction, Grid};

fn make_grid(from_numbers: [u32; 16]) -> Grid {
    Grid::new(from_numbers)
}

#[test]
fn calculates_monotonicity() {
    let fully_monotonic = make_grid([
        8, 32, 64, 512,
        4, 8, 16, 256,
        2, 4, 8, 32,
        0, 0, 4, 8,
    ]);

    let perfect_grid_array = fully_monotonic.get_grid_as_array();
    let perfect_mono = fully_monotonic.monotonicity(&perfect_grid_array);
    assert_eq!(perfect_mono as f64 / UNIT as f64, 1.0);
    assert_eq!(perfect_mono, UNIT);
}

#[test]
fn calculates_smoothness() {
    let grid = make_grid([
        2, 8, 0, 0,
        0, 0, 0, 0,
        0, 0, 0, 0,
        0, 0, 0, 0,
    ]);
    let array = grid.get_grid_as_array();
    // |log2(2) - log2(8)| = 2, so smoothness is 1 - 2 / 72.
    assert_eq!(grid.smoothness(&array), UNIT - 19 * 2);
}

#[test]
fn selects_best_move() {
    // Sliding left gives 4, 4 against cell 0: smooth, monotone and cornered.
    // Right leaves the largest tiles off the corner cells; Up and Down keep
    // a rough 4, 2, 2 row.
    let grid = make_grid([
        4, 2, 2, 0,
        0, 0, 0, 0,
        0, 0, 0, 0,
        0, 0, 0, 0,
    ]);
    let engine = BoardEval::new(grid, 0);
    assert_eq!(engine.suggest_move(), Direction::Left);
}

#[test]
fn monotonicity_penalises_a_zigzag_row() {
    let grid = make_grid([
        8, 2, 32, 0,
        0, 0, 0, 0,
        0, 0, 0, 0,
        0, 0, 0, 0,
    ]);
    let array = grid.get_grid_as_array();
    // Logs 3, 1, 5: falls 2, rises 4; penalty 2, so 1 - 2 / 19.
    assert_eq!(grid.monotonicity(&array), UNIT - 72 * 2);
}

#[test]
fn monotonicity_of_descending_rows_and_columns_is_one() {
    let grid = make_grid([
        512, 64, 32, 8,
        256, 16, 8, 4,
        32, 8, 4, 2,
        8, 4, 0, 0,
    ]);
    let array = grid.get_grid_as_array();
    assert_eq!(grid.monotonicity(&array), UNIT);
}

#[test]
fn monotonicity_of_empty_board_is_one() {
    let grid = make_grid([0; 16]);
    let array = grid.get_grid_as_array();
    assert_eq!(grid.monotonicity(&array), UNIT);
}

#[test]
fn smoothness_of_single_tile_is_one() {
    let mut cells = [0u32; 16];
    cells[6] = 1024;
    let grid = make_grid(cells);
    let array = grid.get_grid_as_array();
    assert_eq!(grid.smoothness(&array), UNIT);
    let empty = make_grid([0; 16]);
    assert_eq!(empty.smoothness(&empty.get_grid_as_array()), UNIT);
}

#[test]
fn smoothness_scans_the_whole_column_below() {
    let grid = make_grid([
        2, 0, 0, 0,
        0, 0, 0, 0,
        8, 0, 0, 0,
        32, 0, 0, 0,
    ]);
    let array = grid.get_grid_as_array();
    // From the 2: |1-3| + |1-5| = 6; from the 8: |3-5| = 2; the last row adds nothing.
    assert_eq!(grid.smoothness(&array), UNIT - 19 * 8);
}

#[test]
fn corner_max_true_for_unique_max_on_corner_cells() {
    for corner in [0usize, 4, 8, 12] {
        let mut cells = [2u32; 16];
        cells[corner] = 64;
        let grid = make_grid(cells);
        assert!(grid.max_cornered(&grid.get_grid_as_array()));
    }
}

#[test]
fn corner_max_false_for_unique_max_elsewhere() {
    for pos in [1usize, 2, 3, 5, 6, 7, 9, 10, 11, 13, 14, 15] {
        let mut cells = [2u32; 16];
        cells[pos] = 64;
        let grid = make_grid(cells);
        assert!(!grid.max_cornered(&grid.get_grid_as_array()));
    }
}

#[test]
fn corner_max_counts_any_tied_maximum() {
    let mut cells = [0u32; 16];
    cells[5] = 16;
    cells[8] = 16;
    let grid = make_grid(cells);
    assert!(grid.max_cornered(&grid.get_grid_as_array()));
    let empty = make_grid([0; 16]);
    assert!(empty.max_cornered(&empty.get_grid_as_array()));
}

#[test]
fn evaluates_exact_scores() {
    assert_eq!(make_grid([0; 16]).evaluate(), SCORE_UNIT);
    let mut cells = [0u32; 16];
    cells[5] = 2;
    // No corner: 0.6 + 0.3.
    assert_eq!(make_grid(cells).evaluate(), 6 * UNIT + 3 * UNIT);
    let two = make_grid([
        2, 8, 0, 0,
        0, 0, 0, 0,
        0, 0, 0, 0,
        0, 0, 0, 0,
    ]);
    assert_eq!(two.evaluate(), 6 * UNIT + 3 * (UNIT - 38));
}

#[test]
fn tile_log2_of_powers_of_two() {
    assert_eq!(tile_log2(2), 1);
    assert_eq!(tile_log2(2048), 11);
    assert_eq!(tile_log2(1 << 31), 31);
}

#[test]
fn slide_line_packs_and_merges() {
    assert_eq!(slide_line([2, 2, 4, 0]), [4, 4, 0, 0]);
    assert_eq!(slide_line([2, 2, 2, 2]), [4, 4, 0, 0]);
    assert_eq!(slide_line([0, 2, 0, 2]), [4, 0, 0, 0]);
    assert_eq!(slide_line([4, 2, 2, 8]), [4, 4, 8, 0]);
    assert_eq!(slide_line([1 << 31, 1 << 31, 0, 0]), [1 << 31, 1 << 31, 0, 0]);
}

#[test]
fn moves_slide_every_line() {
    let cells = [
        2, 2, 0, 4,
        0, 0, 0, 0,
        2, 0, 0, 0,
        8, 0, 0, 4,
    ];
    let mut left = make_grid(cells);
    left.move_in(Direction::Left);
    assert_eq!(left.get_grid_as_array(), [
        4, 4, 0, 0,
        0, 0, 0, 0,
        2, 0, 0, 0,
        8, 4, 0, 0,
    ]);
    let mut right = make_grid(cells);
    right.move_in(Direction::Right);
    assert_eq!(right.get_grid_as_array(), [
        0, 0, 4, 4,
        0, 0, 0, 0,
        0, 0, 0, 2,
        0, 0, 8, 4,
    ]);
    let mut up = make_grid(cells);
    up.move_in(Direction::Up);
    assert_eq!(up.get_grid_as_array(), [
        4, 2, 0, 8,
        8, 0, 0, 0,
        0, 0, 0, 0,
        0, 0, 0, 0,
    ]);
    let mut down = make_grid(cells);
    down.move_in(Direction::Down);
    assert_eq!(down.get_grid_as_array(), [
        0, 0, 0, 0,
        0, 0, 0, 0,
        4, 0, 0, 0,
        8, 2, 0, 8,
    ]);
}

#[test]
fn empty_positions_and_add_tile() {
    let mut grid = make_grid([2; 16]);
    assert_eq!(grid.empty_positions(), None);
    let mut cells = [2u32; 16];
    cells[3] = 0;
    grid = make_grid(cells);
    let mut expected = [false; 16];
    expected[3] = true;
    assert_eq!(grid.empty_positions(), Some(expected));
    grid.add_tile(2, 3);
    assert_eq!(grid.get_grid_as_array(), [2; 16]);
}

#[test]
fn from_cells_needs_sixteen_cells() {
    assert!(Grid::from_cells(&vec![0; 15]).is_none());
    assert!(Grid::from_cells(&vec![0; 17]).is_none());
    let grid = Grid::from_cells(&vec![4; 16]).unwrap();
    assert_eq!(grid.get_grid_as_array(), [4; 16]);
}

fn alternating_board() -> Grid {
    let big: u32 = 1 << 31;
    make_grid([
        2, big, 2, big,
        big, 2, big, 2,
        2, big, 2, big,
        big, 2, big, 2,
    ])
}

#[test]
fn full_board_spawn_layer_is_static_score() {
    let grid = alternating_board();
    for max_depth in [1u8, 3, 5] {
        let engine = BoardEval::new(grid, max_depth);
        for depth in 0..max_depth {
            assert_eq!(
                engine.alphabeta(&grid, depth, NEG_INF, POS_INF, false),
                grid.evaluate()
            );
        }
    }
}

#[test]
fn suggest_move_is_deterministic() {
    let grid = make_grid([
        2, 4, 0, 0,
        0, 2, 0, 0,
        0, 0, 8, 0,
        0, 0, 0, 2,
    ]);
    let a = BoardEval::new(grid, 2).suggest_move();
    let b = BoardEval::new(grid, 2).suggest_move();
    assert_eq!(a, b);
}

#[test]
fn ties_go_to_the_last_move() {
    // Every move leaves the empty board empty, so all four scores are equal.
    let engine = BoardEval::new(make_grid([0; 16]), 0);
    assert_eq!(engine.suggest_move(), Direction::Up);
}

#[test]
fn negative_scores_fall_back_to_left() {
    let grid = alternating_board();
    assert!(grid.evaluate() < 0);
    let engine = BoardEval::new(grid, 1);
    assert_eq!(engine.suggest_move(), Direction::Left);
}

#[test]
fn pruned_search_matches_window_bounds() {
    let grid = make_grid([
        2, 4, 8, 0,
        0, 0, 0, 0,
        0, 0, 0, 0,
        0, 0, 0, 2,
    ]);
    let engine = BoardEval::new(grid, 2);
    let full = engine.alphabeta(&grid, 0, NEG_INF, POS_INF, true);
    // A window around the true value gives the same value back.
    assert_eq!(engine.alphabeta(&grid, 0, full - 1, full + 1, true), full);
    // A window above it answers at or below its lower edge with an upper bound.
    let low = engine.alphabeta(&grid, 0, full + 10, full + 20, true);
    assert!(low <= full + 10 && full <= low);
    // A window below it answers at or above its upper edge with a lower bound.
    let high = engine.alphabeta(&grid, 0, full - 20, full - 10, true);
    assert!(high >= full - 10 && full >= high);
}

#[test]
fn search_at_depth_bound_is_static_score() {
    let grid = make_grid([
        2, 4, 8, 16,
        0, 0, 0, 0,
        0, 0, 0, 0,
        0, 0, 0, 0,
    ]);
    let engine = BoardEval::new(grid, 3);
    assert_eq!(engine.alphabeta(&grid, 3, NEG_INF, POS_INF, true), grid.evaluate());
}

#[test]
fn score_helpers_pick_strictly() {
    assert_eq!(max_score(3, -5), 3);
    assert_eq!(max_score(-5, 3), 3);
    assert_eq!(min_score(3, -5), -5);
    assert_eq!(min_score(-5, 3), -5);
    assert_eq!(max_score(NEG_INF, 7), 7);
    assert_eq!(min_score(POS_INF, 7), 7);
}
