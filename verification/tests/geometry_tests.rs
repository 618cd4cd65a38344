use hall_of_mirrors::factors::FactorCache;
use hall_of_mirrors::geometry::{
    get_distance_to_bounds, mirror_bounce, Direction, Mirror, MirrorDirection,
};
use hall_of_mirrors::node::Node;

fn beam(direction: Direction) -> Node {
    let mut cache = FactorCache::new();
    Node::new(3, 3, direction, 4, &mut cache)
}

#[test]
fn unit_vectors() {
    assert_eq!(Direction::Up.to_vector(), (0, -1));
    assert_eq!(Direction::Down.to_vector(), (0, 1));
    assert_eq!(Direction::Left.to_vector(), (-1, 0));
    assert_eq!(Direction::Right.to_vector(), (1, 0));
}

#[test]
fn bounce_without_mirror_goes_straight() {
    let n = beam(Direction::Down);
    assert_eq!(mirror_bounce(&n, None), vec![Direction::Down]);
}

#[test]
fn bounce_at_undecided_mirror_gives_both_perpendiculars() {
    let m = Mirror::new(3, 3, MirrorDirection::Undecided);
    assert_eq!(
        mirror_bounce(&beam(Direction::Down), Some(m)),
        vec![Direction::Left, Direction::Right]
    );
    assert_eq!(
        mirror_bounce(&beam(Direction::Up), Some(m)),
        vec![Direction::Right, Direction::Left]
    );
    assert_eq!(
        mirror_bounce(&beam(Direction::Left), Some(m)),
        vec![Direction::Up, Direction::Down]
    );
    assert_eq!(
        mirror_bounce(&beam(Direction::Right), Some(m)),
        vec![Direction::Down, Direction::Up]
    );
}

#[test]
fn bounce_at_backslash() {
    let m = Mirror::new(3, 3, MirrorDirection::Backslash);
    assert_eq!(mirror_bounce(&beam(Direction::Up), Some(m)), vec![Direction::Left]);
    assert_eq!(mirror_bounce(&beam(Direction::Down), Some(m)), vec![Direction::Right]);
    assert_eq!(mirror_bounce(&beam(Direction::Left), Some(m)), vec![Direction::Up]);
    assert_eq!(mirror_bounce(&beam(Direction::Right), Some(m)), vec![Direction::Down]);
}

#[test]
fn bounce_at_slash() {
    let m = Mirror::new(3, 3, MirrorDirection::Slash);
    assert_eq!(mirror_bounce(&beam(Direction::Up), Some(m)), vec![Direction::Right]);
    assert_eq!(mirror_bounce(&beam(Direction::Down), Some(m)), vec![Direction::Left]);
    assert_eq!(mirror_bounce(&beam(Direction::Left), Some(m)), vec![Direction::Down]);
    assert_eq!(mirror_bounce(&beam(Direction::Right), Some(m)), vec![Direction::Up]);
}

#[test]
fn distances_to_bounds() {
    assert_eq!(get_distance_to_bounds(3, 0, 10, Direction::Down), 12);
    assert_eq!(get_distance_to_bounds(3, 5, 10, Direction::Up), 6);
    assert_eq!(get_distance_to_bounds(2, 4, 10, Direction::Right), 10);
    assert_eq!(get_distance_to_bounds(2, 4, 10, Direction::Left), 3);
}

#[test]
fn move_to_divides_value() {
    let mut cache = FactorCache::new();
    let mut n = Node::new(3, 0, Direction::Down, 12, &mut cache);
    assert_eq!(n.move_set, vec![12, 6, 4, 3, 2, 1]);
    n.move_to(3, 4, Direction::Down, &mut cache);
    assert_eq!(n.value, 3);
    assert_eq!((n.x, n.y), (3, 4));
    assert_eq!(n.move_set, vec![3, 1]);
}
