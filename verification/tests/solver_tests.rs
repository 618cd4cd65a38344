use hall_of_mirrors::board::Board;
use hall_of_mirrors::factors::FactorCache;
use hall_of_mirrors::geometry::Direction;
use hall_of_mirrors::solver::Solver;

#[test]
fn solve_on_empty_queue_returns_the_board_unchanged() {
    let b = Board::new(3);
    let mut solver = Solver::new(b);
    let sol = solver.solve().expect("an empty queue is already solved");
    assert_eq!(sol.size, 3);
    assert_eq!(sol.nodes.len(), 0);
    assert_eq!(sol.mirrors.len(), 0);
    assert_eq!(sol.grid, solver.board.grid);
}

#[test]
fn solve_on_unsolvable_board_returns_none() {
    // A lone beam of value 3 on a 1x1 interior: every branch strands the
    // beam with value 3 on the border, so the search exhausts.
    let mut cache = FactorCache::new();
    let b = Board::new(1).with_placed_node(1, 0, Direction::Down, 3, &mut cache);
    let mut solver = Solver::new(b);
    assert!(solver.solve().is_none());
}

#[test]
fn solve_one_by_one_board_with_unit_beam() {
    let mut cache = FactorCache::new();
    let b = Board::new(1).with_placed_node(1, 0, Direction::Down, 1, &mut cache);
    let mut solver = Solver::new(b);
    let sol = solver.solve().expect("the unit beam must resolve");
    assert_eq!(sol.nodes.len(), 0);
}

#[test]
fn solve_small_two_beam_board() {
    // Both beams can leave in one full-length step each, so the search is
    // obliged to find a solution.
    let mut cache = FactorCache::new();
    let b = Board::new(3)
        .with_placed_node(2, 0, Direction::Down, 4, &mut cache)
        .with_placed_node(0, 2, Direction::Right, 4, &mut cache);
    let mut solver = Solver::new(b);
    let sol = solver.solve().expect("a two-move solution exists");
    assert_eq!(sol.nodes.len(), 0);
}

#[test]
fn traverse_banned_entry_scores_zero() {
    let b = Board::new(5);
    let solver = Solver::new(Board::new(5));
    let banned = vec![(3usize, 0usize)];
    assert_eq!(solver.board_traverse(&b, 3, 0, banned), 0);
}

#[test]
fn traverse_single_mirror_multiplies_the_hop_distances() {
    // Build a board with one slash mirror at (3, 2), two steps from the
    // top entry at (3, 0).
    let mut cache = FactorCache::new();
    let b = Board::new(5)
        .with_placed_node(3, 0, Direction::Down, 12, &mut cache)
        .with_moved_node(0, 3, 2, &mut cache)
        .with_moved_node(0, 0, 2, &mut cache);
    let solver = Solver::new(Board::new(5));
    // Down two steps to the mirror, then left three steps off the board:
    // the product is 2 * 3 and in particular a multiple of the mirror
    // distance 2.
    let score = solver.board_traverse(&b, 3, 0, vec![]);
    assert_eq!(score, 6);
    assert_eq!(score % 2, 0);
}

#[test]
fn traverse_empty_row_walks_straight_through() {
    let b = Board::new(5);
    let solver = Solver::new(Board::new(5));
    // No mirror anywhere: the walk runs to the far border in one pass.
    let score = solver.board_traverse(&b, 0, 3, vec![]);
    assert_eq!(score, 6);
}
