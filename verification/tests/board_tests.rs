use hall_of_mirrors::board::{Board, Cell};
use hall_of_mirrors::factors::FactorCache;
use hall_of_mirrors::geometry::{Direction, MirrorDirection};

#[test]
fn new_board_is_empty() {
    let b = Board::new(5);
    assert_eq!(b.size, 5);
    assert_eq!(b.grid.len(), 49);
    assert_eq!(b.mirrors.len(), 0);
    assert_eq!(b.nodes.len(), 0);
    for x in 0..7usize {
        for y in 0..7usize {
            assert_eq!(b.cell_at(x, y), Cell::Empty);
            assert!(b.get_mirror(x, y).is_none());
        }
    }
}

#[test]
fn placed_node_carries_its_move_set() {
    let mut cache = FactorCache::new();
    let b = Board::new(5).with_placed_node(3, 0, Direction::Down, 9, &mut cache);
    assert_eq!(b.nodes.len(), 1);
    assert_eq!(b.nodes[0].x, 3);
    assert_eq!(b.nodes[0].y, 0);
    assert_eq!(b.nodes[0].value, 9);
    assert_eq!(b.nodes[0].move_set, vec![9, 3, 1]);
}

#[test]
fn straight_moves_follow_the_move_set() {
    // A beam of value 4 heading down an empty board may step 1, 2 or 4.
    let mut cache = FactorCache::new();
    let b = Board::new(5).with_placed_node(3, 0, Direction::Down, 4, &mut cache);
    let moves = b.find_possible_moves(0);
    assert_eq!(moves, vec![(3, 1), (3, 2), (3, 4)]);
}

#[test]
fn moving_into_the_interior_places_an_undecided_mirror() {
    let mut cache = FactorCache::new();
    let b = Board::new(5).with_placed_node(3, 0, Direction::Down, 4, &mut cache);
    let b2 = b.with_moved_node(0, 3, 2, &mut cache);
    // The beam: moved, turned, divided.
    assert_eq!((b2.nodes[0].x, b2.nodes[0].y), (3, 2));
    assert_eq!(b2.nodes[0].value, 2);
    assert_eq!(b2.nodes[0].move_set, vec![2, 1]);
    // A fresh undecided mirror on the destination.
    assert_eq!(b2.mirrors.len(), 1);
    assert_eq!(b2.mirrors[0].x, 3);
    assert_eq!(b2.mirrors[0].y, 2);
    assert_eq!(b2.mirrors[0].mirror_direction, MirrorDirection::Undecided);
    assert_eq!(b2.cell_at(3, 2), Cell::Mirror(0));
    // The swept path and the guarded neighbours.
    assert_eq!(b2.cell_at(3, 1), Cell::Beam);
    assert_eq!(b2.cell_at(2, 2), Cell::Beam);
    assert_eq!(b2.cell_at(4, 2), Cell::Beam);
    assert_eq!(b2.cell_at(3, 3), Cell::Beam);
    // Untouched elsewhere.
    assert_eq!(b2.cell_at(3, 4), Cell::Empty);
    assert_eq!(b2.cell_at(3, 0), Cell::Empty);
}

#[test]
fn swept_cells_block_landing_but_not_walking() {
    let mut cache = FactorCache::new();
    let b = Board::new(5).with_placed_node(3, 0, Direction::Down, 4, &mut cache);
    let b2 = b.with_moved_node(0, 3, 2, &mut cache);
    // From the undecided mirror the beam may leave left or right; the
    // neighbouring swept cells are no landing spots, the cells beyond are.
    let moves = b2.find_possible_moves(0);
    assert_eq!(moves, vec![(1, 2), (5, 2)]);
}

#[test]
fn crossing_commits_the_mirror_orientation() {
    let mut cache = FactorCache::new();
    let b = Board::new(5).with_placed_node(3, 0, Direction::Down, 4, &mut cache);
    let b2 = b.with_moved_node(0, 3, 2, &mut cache);
    // Leaving toward -x while having travelled down commits a slash.
    let b3 = b2.with_moved_node(0, 1, 2, &mut cache);
    assert_eq!(b3.mirrors[0].mirror_direction, MirrorDirection::Slash);
    // Once committed, a later move never rewrites it.
    let b4 = b3.with_moved_node(0, 1, 4, &mut cache);
    assert_eq!(b4.mirrors[0].mirror_direction, MirrorDirection::Slash);
}

#[test]
fn commits_backslash_when_leaving_the_other_way() {
    let mut cache = FactorCache::new();
    let b = Board::new(5).with_placed_node(3, 6, Direction::Up, 4, &mut cache);
    let b2 = b.with_moved_node(0, 3, 4, &mut cache);
    assert_eq!(b2.mirrors[0].mirror_direction, MirrorDirection::Undecided);
    // Leaving toward -x while having travelled up commits a backslash.
    let b3 = b2.with_moved_node(0, 1, 4, &mut cache);
    assert_eq!(b3.mirrors[0].mirror_direction, MirrorDirection::Backslash);
}

#[test]
fn reaching_the_border_with_value_one_resolves_the_beam() {
    let mut cache = FactorCache::new();
    let b = Board::new(5).with_placed_node(3, 0, Direction::Down, 6, &mut cache);
    let b2 = b.with_moved_node(0, 3, 6, &mut cache);
    // Step distance 6 divides the value down to 1 on the far border row.
    assert_eq!(b2.nodes.len(), 0);
    assert_eq!(b2.cell_at(3, 6), Cell::Beam);
}

#[test]
fn border_arrival_with_larger_value_keeps_the_beam() {
    let mut cache = FactorCache::new();
    let b = Board::new(5).with_placed_node(3, 0, Direction::Down, 12, &mut cache);
    let b2 = b.with_moved_node(0, 3, 6, &mut cache);
    assert_eq!(b2.nodes.len(), 1);
    assert_eq!(b2.nodes[0].value, 2);
    assert_eq!(b2.cell_at(3, 6), Cell::Empty);
}
