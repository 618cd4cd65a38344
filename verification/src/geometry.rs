//! Directions, mirrors, and the fixed geometry rules: unit vectors,
//! reflection at a mirror, and the distance from a cell to the border ring.

use vstd::prelude::*;

verus! {

use crate::node::Node;

/// A beam's travel direction, one of the four axis-aligned units.
#[derive(Clone, Copy, PartialEq, Eq, Structural, Debug)]
pub enum Direction {
    Up,
    Down,
    Left,
    Right,
}

impl Direction {
    /// Horizontal component of the unit vector.
    pub open spec fn dx(self) -> int {
        match self {
            Direction::Left => -1,
            Direction::Right => 1,
            _ => 0,
        }
    }

    /// Vertical component of the unit vector.
    pub open spec fn dy(self) -> int {
        match self {
            Direction::Up => -1,
            Direction::Down => 1,
            _ => 0,
        }
    }

    /// The unit vector of the direction: Up is (0,-1), Down (0,1),
    /// Left (-1,0), Right (1,0).
    pub fn to_vector(self) -> (v: (isize, isize))
        ensures
            v.0 == self.dx(),
            v.1 == self.dy(),
    {
        match self {
            Direction::Up => (0, -1),
            Direction::Down => (0, 1),
            Direction::Left => (-1, 0),
            Direction::Right => (1, 0),
        }
    }
}

/// The state of a mirror cell.  `NoMirror` stands for an empty cell and is
/// used only as the reflection rule for such cells; `Undecided` is a placed
/// mirror whose orientation has not yet been forced by a second crossing.
#[derive(Clone, Copy, PartialEq, Eq, Structural, Debug)]
pub enum MirrorDirection {
    NoMirror,
    Undecided,
    Slash,
    Backslash,
}

/// A mirror, identified by its cell and its current orientation.
#[derive(Clone, Copy, PartialEq, Eq, Structural, Debug)]
pub struct Mirror {
    pub x: usize,
    pub y: usize,
    pub mirror_direction: MirrorDirection,
}

impl Mirror {
    pub fn new(x: usize, y: usize, mirror_direction: MirrorDirection) -> (m: Mirror)
        ensures
            m == (Mirror { x, y, mirror_direction }),
    {
        Mirror { x, y, mirror_direction }
    }
}

/// The candidate travel directions out of a cell: straight on where no
/// mirror stands, both perpendiculars at an undecided mirror, and the fixed
/// lookup at a committed one.
pub open spec fn bounce_dirs(d: Direction, m: MirrorDirection) -> Seq<Direction> {
    match m {
        MirrorDirection::NoMirror => seq![d],
        MirrorDirection::Undecided => match d {
            Direction::Up => seq![Direction::Right, Direction::Left],
            Direction::Down => seq![Direction::Left, Direction::Right],
            Direction::Left => seq![Direction::Up, Direction::Down],
            Direction::Right => seq![Direction::Down, Direction::Up],
        },
        MirrorDirection::Backslash => match d {
            Direction::Up => seq![Direction::Left],
            Direction::Down => seq![Direction::Right],
            Direction::Left => seq![Direction::Up],
            Direction::Right => seq![Direction::Down],
        },
        MirrorDirection::Slash => match d {
            Direction::Up => seq![Direction::Right],
            Direction::Down => seq![Direction::Left],
            Direction::Left => seq![Direction::Down],
            Direction::Right => seq![Direction::Up],
        },
    }
}

/// The orientation at a beam's cell: the mirror's when one is there,
/// `NoMirror` otherwise.
pub open spec fn orientation_of(m: Option<Mirror>) -> MirrorDirection {
    match m {
        Some(mm) => mm.mirror_direction,
        None => MirrorDirection::NoMirror,
    }
}

/// The directions a beam may leave its current cell in, given the mirror
/// found there (if any).
pub fn mirror_bounce(node: &Node, mirror: Option<Mirror>) -> (dirs: Vec<Direction>)
    ensures
        dirs@ == bounce_dirs(node.direction, orientation_of(mirror)),
{
    let md = match mirror {
        Some(m) => m.mirror_direction,
        None => MirrorDirection::NoMirror,
    };
    let mut dirs: Vec<Direction> = Vec::new();
    match md {
        MirrorDirection::NoMirror => {
            dirs.push(node.direction);
        },
        MirrorDirection::Undecided => {
            match node.direction {
                Direction::Up => {
                    dirs.push(Direction::Right);
                    dirs.push(Direction::Left);
                },
                Direction::Down => {
                    dirs.push(Direction::Left);
                    dirs.push(Direction::Right);
                },
                Direction::Left => {
                    dirs.push(Direction::Up);
                    dirs.push(Direction::Down);
                },
                Direction::Right => {
                    dirs.push(Direction::Down);
                    dirs.push(Direction::Up);
                },
            }
        },
        MirrorDirection::Backslash => {
            match node.direction {
                Direction::Up => dirs.push(Direction::Left),
                Direction::Down => dirs.push(Direction::Right),
                Direction::Left => dirs.push(Direction::Up),
                Direction::Right => dirs.push(Direction::Down),
            }
        },
        MirrorDirection::Slash => {
            match node.direction {
                Direction::Up => dirs.push(Direction::Right),
                Direction::Down => dirs.push(Direction::Left),
                Direction::Left => dirs.push(Direction::Down),
                Direction::Right => dirs.push(Direction::Up),
            }
        },
    }
    proof {
        assert(dirs@ =~= bounce_dirs(node.direction, orientation_of(mirror)));
    }
    dirs
}

/// Cells from `(x, y)` to the border ring of a board with interior side
/// `n`, walking in direction `d`: the count is one past the last interior
/// step, so walking `1 .. dist` sweeps up to and including the ring.
pub open spec fn dist_to_bounds(x: int, y: int, n: int, d: Direction) -> int {
    match d {
        Direction::Down => (n + 2) - y,
        Direction::Up => y + 1,
        Direction::Right => (n + 2) - x,
        Direction::Left => x + 1,
    }
}

/// The remaining cell count before the board's edge ring is passed.
pub fn get_distance_to_bounds(x: usize, y: usize, n: usize, d: Direction) -> (r: usize)
    requires
        n + 2 <= usize::MAX,
        x <= n + 1,
        y <= n + 1,
    ensures
        r == dist_to_bounds(x as int, y as int, n as int, d),
{
    match d {
        Direction::Down => (n + 2) - y,
        Direction::Up => y + 1,
        Direction::Right => (n + 2) - x,
        Direction::Left => x + 1,
    }
}

} // verus!
