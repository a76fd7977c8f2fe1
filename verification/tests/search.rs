use tprime::grid::{chebyshev_distance, neighbour_positions, Grid};
use tprime::history::History;
use tprime::pathfinding::{
    AStarCellState, AStarPathfinder, Array2D, BuildError,
};
use tprime::square_grid::SquareGrid;
use tprime::walker::NodeInfo;
use tprime::Direction;

#[test]
fn test_main() {
    let mut pathfinder = AStarPathfinder::default();
    let path = pathfinder.get_path();

    println!("AStarPathfinder::default().find_path == {:?}", path);
}

#[test]
fn default_pathfinder_finds_diagonal_path() {
    let mut pathfinder = AStarPathfinder::default();
    let path = pathfinder.get_path().expect("open 64x64 grid must have a path");
    assert!(!pathfinder.working());
    // from (1, 1) to (62, 62): Chebyshev distance 61, plus the start cell
    assert_eq!(path.len(), 62);
    assert_eq!(path[0], (1, 1));
    assert_eq!(path[path.len() - 1], (62, 62));
}

#[test]
fn open_grid_path_length_is_chebyshev_plus_one() {
    // 5x5 grid, no obstacles, origin (0,0), target (4,4)
    let blocked: Vec<(usize, usize)> = Vec::new();
    let mut pathfinder =
        AStarPathfinder::new(5, 5, (0, 0), (4, 4), &blocked).expect("valid inputs");
    let path = pathfinder.get_path().expect("open grid must have a path");
    assert_eq!(path.len(), 5);
    assert_eq!(path[0], (0, 0));
    assert_eq!(path[4], (4, 4));
    // the heuristic decreases monotonically along each accepted step
    let mut last = chebyshev_distance(path[0], (4, 4));
    for p in path.iter().skip(1) {
        let h = chebyshev_distance(*p, (4, 4));
        assert!(h < last);
        last = h;
    }
}

#[test]
fn open_grid_paths_are_optimal_for_every_target() {
    // on an open grid, the path to each possible target has exactly the
    // Chebyshev distance in moves
    for tx in 0..6 {
        for ty in 0..6 {
            let blocked: Vec<(usize, usize)> = Vec::new();
            let mut pathfinder =
                AStarPathfinder::new(6, 6, (2, 1), (tx, ty), &blocked).expect("valid inputs");
            let path = pathfinder.get_path().expect("every cell is reachable");
            let expected = chebyshev_distance((2, 1), (tx, ty)) + 1;
            assert_eq!(path.len(), expected, "suboptimal path to ({}, {})", tx, ty);
        }
    }
}

#[test]
fn wall_with_gap_forces_path_through_gap() {
    // full-width wall at row 2 except one gap at column 3
    let mut blocked: Vec<(usize, usize)> = Vec::new();
    for x in 0..7 {
        if x != 3 {
            blocked.push((x, 2));
        }
    }
    let mut pathfinder =
        AStarPathfinder::new(7, 5, (0, 0), (6, 4), &blocked).expect("valid inputs");
    let path = pathfinder.get_path().expect("the gap keeps the target reachable");
    assert!(path.contains(&(3, 2)));
    assert_eq!(path[0], (0, 0));
    assert_eq!(path[path.len() - 1], (6, 4));
}

#[test]
fn walled_off_target_exhausts_search() {
    // full-width wall at row 2 with no gap: the target is unreachable
    let mut blocked: Vec<(usize, usize)> = Vec::new();
    for x in 0..5 {
        blocked.push((x, 2));
    }
    let mut pathfinder =
        AStarPathfinder::new(5, 5, (0, 0), (4, 4), &blocked).expect("valid inputs");
    let mut steps = 0;
    while pathfinder.working() {
        pathfinder.step();
        steps += 1;
        assert!(steps <= 25, "search must terminate within width*height steps");
    }
    assert!(!pathfinder.working());
    assert!(pathfinder.peek_path().is_none());
    assert!(pathfinder.get_path().is_none());
}

#[test]
fn peek_path_is_idempotent() {
    let blocked: Vec<(usize, usize)> = Vec::new();
    let mut pathfinder =
        AStarPathfinder::new(6, 6, (0, 0), (5, 5), &blocked).expect("valid inputs");
    // mid-search: a few steps in, peeking twice gives identical results
    pathfinder.step();
    pathfinder.step();
    let first = pathfinder.peek_path();
    let second = pathfinder.peek_path();
    assert_eq!(first, second);
    assert!(first.is_some());
    // after completion as well
    pathfinder.get_path();
    let first = pathfinder.peek_path();
    let second = pathfinder.peek_path();
    assert_eq!(first, second);
}

#[test]
fn origin_equals_target_is_immediate_success() {
    let blocked: Vec<(usize, usize)> = Vec::new();
    let mut pathfinder =
        AStarPathfinder::new(4, 4, (2, 2), (2, 2), &blocked).expect("valid inputs");
    assert!(pathfinder.working());
    let path = pathfinder.get_path().expect("origin is the target");
    assert_eq!(path, vec![(2, 2)]);
    assert!(!pathfinder.working());
}

#[test]
fn construction_rejects_out_of_bounds_positions() {
    let blocked: Vec<(usize, usize)> = Vec::new();
    let r = AStarPathfinder::new(4, 4, (4, 0), (1, 1), &blocked);
    assert_eq!(r.err(), Some(BuildError::PositionOutOfBounds));
    let r = AStarPathfinder::new(4, 4, (0, 0), (0, 4), &blocked);
    assert_eq!(r.err(), Some(BuildError::PositionOutOfBounds));
    let r = AStarPathfinder::new(4, 4, (0, 0), (1, 1), &vec![(7, 7)]);
    assert_eq!(r.err(), Some(BuildError::PositionOutOfBounds));
}

#[test]
fn construction_rejects_blocked_origin() {
    let r = AStarPathfinder::new(4, 4, (1, 1), (3, 3), &vec![(1, 1)]);
    assert_eq!(r.err(), Some(BuildError::OriginBlocked));
}

#[test]
fn blocked_target_is_unreachable_not_an_error() {
    let mut pathfinder = AStarPathfinder::new(4, 4, (0, 0), (3, 3), &vec![(3, 3)])
        .expect("a blocked target is a normal, unreachable layout");
    assert!(pathfinder.get_path().is_none());
    assert!(!pathfinder.working());
}

#[test]
fn demo_layout_blocks_the_stripe_pattern() {
    let pathfinder = AStarPathfinder::demo(0);
    assert!(pathfinder.working());
    // near the origin corner the margin guard keeps cells free
    assert_eq!(pathfinder.data().get((0, 0)).state(), AStarCellState::Free);
    assert_eq!(pathfinder.data().get((1, 1)).state(), AStarCellState::Free);
    // (5, 0): x/8 + (y*3)/8 == 0 and 0 % 5 == 0, so the stripe blocks it
    assert_eq!(pathfinder.data().get((5, 0)).state(), AStarCellState::Blocked);
}

#[test]
fn demo_search_terminates() {
    let mut pathfinder = AStarPathfinder::demo(1);
    let _ = pathfinder.get_path();
    assert!(!pathfinder.working());
}

#[test]
fn neighbour_positions_skip_self_and_out_of_bounds() {
    let centre = neighbour_positions(3, 3, (1, 1));
    assert_eq!(centre.len(), 8);
    assert!(!centre.contains(&(1, 1)));
    let corner = neighbour_positions(3, 3, (0, 0));
    assert_eq!(corner, vec![(0, 1), (1, 0), (1, 1)]);
    for p in corner.iter() {
        assert!(p.0 < 3 && p.1 < 3);
    }
    let edge = neighbour_positions(3, 3, (2, 1));
    assert_eq!(edge, vec![(1, 0), (1, 1), (1, 2), (2, 0), (2, 2)]);
}

#[test]
fn distances_are_chebyshev_and_manhattan() {
    assert_eq!(AStarPathfinder::min_distance((0, 0), (4, 2)), 4);
    assert_eq!(AStarPathfinder::min_distance((4, 2), (0, 0)), 4);
    assert_eq!(AStarPathfinder::min_distance((3, 3), (3, 3)), 0);
    assert_eq!(AStarPathfinder::diagonless_distance((0, 0), (4, 2)), 6);
    assert_eq!(AStarPathfinder::diagonless_distance((1, 5), (2, 1)), 5);
    assert_eq!(chebyshev_distance((0, 0), (2, 7)), 7);
}

#[test]
fn array2d_starts_with_default_cells() {
    let array: Array2D<AStarCellState> = Array2D::new(3, 2);
    assert_eq!(array.len(), (3, 2));
    let all = array.iter();
    assert_eq!(all.len(), 6);
    assert_eq!(all[0], ((0, 0), AStarCellState::Free));
    assert_eq!(all[5], ((2, 1), AStarCellState::Free));
    assert_eq!(*array.get((2, 1)), AStarCellState::Free);
}

#[test]
fn array2d_set_changes_one_cell() {
    let mut array: Array2D<AStarCellState> = Array2D::new(3, 3);
    array.set((1, 2), AStarCellState::Blocked);
    assert_eq!(*array.get((1, 2)), AStarCellState::Blocked);
    assert_eq!(*array.get((2, 1)), AStarCellState::Free);
}

#[test]
fn square_grid_basics() {
    let mut grid: SquareGrid<NodeInfo> = SquareGrid::new(4, 3);
    assert_eq!(grid.len(), (4, 3));
    assert_eq!(grid.iter().len(), 12);
    assert!(!grid.get((3, 2)).visited);
    grid.set((3, 2), NodeInfo { visited: true });
    assert!(grid.get((3, 2)).visited);
    assert!(!grid.get((2, 2)).visited);
    // through the Grid trait
    let ns = grid.neighbours((0, 2));
    assert_eq!(ns, vec![(0, 1), (1, 1), (1, 2)]);
    assert_eq!(grid.distance((0, 0), (3, 1)), 3);
    assert_eq!(grid.distance((2, 2), (2, 2)), 0);
}

#[test]
fn history_executes_and_undoes() {
    let mut history: History<usize> = History::new(10);
    assert_eq!(history.get(), 10);
    history.execute(|s: &usize| s + 5);
    history.execute(|s: &usize| s * 2);
    assert_eq!(history.get(), 30);
    assert_eq!(history.at_t(0), Some(10));
    assert_eq!(history.at_t(1), Some(15));
    assert_eq!(history.at_t(2), Some(30));
    assert_eq!(history.at_t(3), None);
    assert_eq!(history.undo(), Some(30));
    assert_eq!(history.get(), 15);
    assert_eq!(history.undo(), Some(15));
    assert_eq!(history.get(), 10);
    assert_eq!(history.undo(), None);
    assert_eq!(history.get(), 10);
}

#[test]
fn history_default_starts_at_default_state() {
    let history: History<usize> = History::default();
    assert_eq!(history.get(), 0);
}

#[test]
fn direction_defaults_to_still() {
    assert_eq!(Direction::default(), Direction::Still);
}
