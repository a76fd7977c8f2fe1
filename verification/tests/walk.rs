use rand::rngs::StdRng;
use rand::SeedableRng;

use tprime::square_grid::SquareGrid;
use tprime::walker::{
    FirstCandidateStrategy, GreedyStrategy, InertiaStrategy, NodeInfo, UniformStrategy, Walker,
};

fn rng(seed: u64) -> StdRng {
    StdRng::seed_from_u64(seed)
}

fn adjacent(a: (usize, usize), b: (usize, usize)) -> bool {
    let dx = a.0.max(b.0) - a.0.min(b.0);
    let dy = a.1.max(b.1) - a.1.min(b.1);
    dx.max(dy) == 1
}

#[test]
fn greedy_walker_goes_straight_for_the_target() {
    let grid: SquareGrid<NodeInfo> = SquareGrid::new(3, 3);
    let mut walker = Walker::new(grid, (0, 0), (2, 2), GreedyStrategy);
    let mut rng = rng(7);
    // the diagonal cell is the unique Chebyshev minimizer at every step
    assert!(walker.step(&mut rng));
    assert_eq!(walker.current_path(), vec![(0, 0), (1, 1)]);
    assert!(walker.step(&mut rng));
    assert_eq!(walker.current_path(), vec![(0, 0), (1, 1), (2, 2)]);
    // completion is signalled one call after arrival
    assert!(!walker.step(&mut rng));
    assert_eq!(walker.current_path(), vec![(0, 0), (1, 1), (2, 2)]);
}

#[test]
fn start_adjacent_to_target_completes_after_one_step() {
    let grid: SquareGrid<NodeInfo> = SquareGrid::new(4, 4);
    let mut walker = Walker::new(grid, (1, 1), (2, 2), GreedyStrategy);
    let mut rng = rng(3);
    // the first call moves onto the target and still reports "running"
    assert!(walker.step(&mut rng));
    let path = walker.current_path();
    assert_eq!(path[path.len() - 1], (2, 2));
    // the next call observes head == target and reports completion
    assert!(!walker.step(&mut rng));
}

#[test]
fn walker_path_has_no_revisits_and_only_neighbour_moves() {
    let grid: SquareGrid<NodeInfo> = SquareGrid::new(6, 6);
    let mut walker = Walker::new(grid, (0, 0), (5, 5), UniformStrategy);
    let mut rng = rng(12345);
    let mut guard = 0;
    while walker.step(&mut rng) {
        let path = walker.current_path();
        for i in 0..path.len() {
            for j in (i + 1)..path.len() {
                assert_ne!(path[i], path[j], "a cell was revisited");
            }
            if i > 0 {
                assert!(adjacent(path[i - 1], path[i]), "a non-neighbour move");
            }
        }
        guard += 1;
        assert!(guard < 1000, "the walk must exhaust or arrive");
    }
}

#[test]
fn exhausted_walker_reports_not_running() {
    // a 1x2 grid whose only other cell is already visited: the walk can only
    // backtrack off its start, then report that it stopped
    let mut grid: SquareGrid<NodeInfo> = SquareGrid::new(1, 2);
    grid.set((0, 1), NodeInfo { visited: true });
    let mut walker = Walker::new(grid, (0, 0), (0, 1), UniformStrategy);
    let mut rng = rng(9);
    // no unvisited neighbours: the head is popped, the call still returns true
    assert!(walker.step(&mut rng));
    assert_eq!(walker.current_path(), vec![]);
    // the path is empty now: the walk is over
    assert!(!walker.step(&mut rng));
}

#[test]
fn first_candidate_strategy_is_deterministic() {
    let grid: SquareGrid<NodeInfo> = SquareGrid::new(3, 3);
    let mut walker = Walker::new(grid, (1, 1), (2, 0), FirstCandidateStrategy);
    let mut rng = rng(42);
    // enumeration order starts with the north-west neighbour
    assert!(walker.step(&mut rng));
    assert_eq!(walker.current_path(), vec![(1, 1), (0, 0)]);
}

#[test]
fn inertia_strategy_prefers_straight_lines() {
    let grid: SquareGrid<NodeInfo> = SquareGrid::new(5, 1);
    let mut walker = Walker::new(grid, (0, 0), (4, 0), InertiaStrategy);
    let mut rng = rng(4);
    // with no previous direction, the only neighbour is (1, 0)
    assert!(walker.step(&mut rng));
    assert_eq!(walker.current_path(), vec![(0, 0), (1, 0)]);
    // from (1, 0) the only unvisited neighbour continues the line
    assert!(walker.step(&mut rng));
    assert!(walker.step(&mut rng));
    assert!(walker.step(&mut rng));
    assert_eq!(walker.current_path(), vec![(0, 0), (1, 0), (2, 0), (3, 0), (4, 0)]);
    assert!(!walker.step(&mut rng));
}

#[test]
fn inertia_strategy_keeps_direction_on_open_ground() {
    let grid: SquareGrid<NodeInfo> = SquareGrid::new(9, 9);
    let mut walker = Walker::new(grid, (4, 4), (0, 0), InertiaStrategy);
    let mut rng = rng(11);
    assert!(walker.step(&mut rng));
    let first = walker.current_path()[1];
    assert!(walker.step(&mut rng));
    let path = walker.current_path();
    let second = path[2];
    // the second move continues along both axes the first move changed
    let dx0 = first.0 as i64 - 4;
    let dy0 = first.1 as i64 - 4;
    let dx1 = second.0 as i64 - first.0 as i64;
    let dy1 = second.1 as i64 - first.1 as i64;
    if dx0 != 0 {
        assert_eq!(dx0, dx1);
    }
    if dy0 != 0 {
        assert_eq!(dy0, dy1);
    }
}

#[test]
fn shared_rng_drives_many_walkers_deterministically() {
    let mut rng1 = rng(2024);
    let mut rng2 = rng(2024);
    let grid1: SquareGrid<NodeInfo> = SquareGrid::new(8, 8);
    let grid2: SquareGrid<NodeInfo> = SquareGrid::new(8, 8);
    let mut w1 = Walker::new(grid1, (0, 0), (7, 7), UniformStrategy);
    let mut w2 = Walker::new(grid2, (0, 0), (7, 7), UniformStrategy);
    let mut guard = 0;
    loop {
        let r1 = w1.step(&mut rng1);
        let r2 = w2.step(&mut rng2);
        assert_eq!(r1, r2);
        assert_eq!(w1.current_path(), w2.current_path());
        if !r1 {
            break;
        }
        guard += 1;
        assert!(guard < 10000);
    }
}
