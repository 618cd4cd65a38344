//! The board: occupancy grid, placed mirrors, and the queue of active
//! beams.  All state transitions live here; a "move" returns a fresh board
//! so the search can branch and backtrack by simply dropping snapshots.

use vstd::prelude::*;

verus! {

use crate::factors::{factor_result, FactorCache};
use crate::geometry::{
    bounce_dirs, dist_to_bounds, get_distance_to_bounds, mirror_bounce, orientation_of,
    Direction, Mirror, MirrorDirection,
};
use crate::node::{manhattan, same_node, Node};

/// One grid cell: untouched, swept by a beam (blocking landings and future
/// mirrors), or occupied by the mirror with the given index.
#[derive(Clone, Copy, PartialEq, Eq, Structural, Debug)]
pub enum Cell {
    Empty,
    Beam,
    Mirror(usize),
}

/// The board state.  The grid is `(size + 2) x (size + 2)`, flattened row
/// by row; the outer ring is the border through which beams enter and
/// leave.
#[derive(Debug)]
pub struct Board {
    pub size: usize,
    pub grid: Vec<Cell>,
    pub mirrors: Vec<Mirror>,
    pub nodes: Vec<Node>,
}

/// Field-for-field agreement of two boards.
pub open spec fn same_board(a: Board, b: Board) -> bool {
    &&& a.size == b.size
    &&& a.grid@ == b.grid@
    &&& a.mirrors@ == b.mirrors@
    &&& a.nodes@.len() == b.nodes@.len()
    &&& forall|i: int| 0 <= i < a.nodes@.len() ==> same_node(a.nodes@[i], #[trigger] b.nodes@[i])
}

/// A board that agrees field for field with a well-formed board is itself
/// well formed.
pub proof fn lemma_same_board_wf(a: Board, b: Board)
    requires
        same_board(a, b),
        a.wf(),
    ensures
        b.wf(),
{
    assert forall|x: int, y: int| b.in_grid(x, y) implies b.mirror_ok(x, y) by {
        assert(b.cell(x, y) == a.cell(x, y));
        assert(a.mirror_ok(x, y));
    }
    assert forall|i: int| 0 <= i < b.nodes@.len()
        implies (#[trigger] b.nodes@[i]).x <= b.size + 1 && b.nodes@[i].y <= b.size + 1
            && factor_result(b.nodes@[i].value, b.nodes@[i].move_set@) by {
        assert(same_node(a.nodes@[i], b.nodes@[i]));
        assert(a.nodes@[i].x <= a.size + 1 && a.nodes@[i].y <= a.size + 1
            && factor_result(a.nodes@[i].value, a.nodes@[i].move_set@));
    }
}

/// Flat grid offsets stay inside the grid.
proof fn lemma_flat_bound(s: int, x: int, y: int)
    requires
        0 <= s,
        0 <= x <= s + 1,
        0 <= y <= s + 1,
    ensures
        0 <= x * (s + 2) + y < (s + 2) * (s + 2),
{
    assert(0 <= x * (s + 2) + y < (s + 2) * (s + 2)) by (nonlinear_arith)
        requires 0 <= s, 0 <= x <= s + 1, 0 <= y <= s + 1;
}

/// Distinct cells have distinct flat offsets.
proof fn lemma_flat_inj(s: int, x1: int, y1: int, x2: int, y2: int)
    requires
        0 <= s,
        0 <= x1 <= s + 1,
        0 <= y1 <= s + 1,
        0 <= x2 <= s + 1,
        0 <= y2 <= s + 1,
        !(x1 == x2 && y1 == y2),
    ensures
        x1 * (s + 2) + y1 != x2 * (s + 2) + y2,
{
    assert(x1 * (s + 2) + y1 != x2 * (s + 2) + y2) by (nonlinear_arith)
        requires
            0 <= s,
            0 <= x1 <= s + 1,
            0 <= y1 <= s + 1,
            0 <= x2 <= s + 1,
            0 <= y2 <= s + 1,
            !(x1 == x2 && y1 == y2);
}

/// Every flat grid offset decomposes into one in-grid cell.
proof fn lemma_flat_split(s: int, idx: int)
    requires
        0 <= s,
        0 <= idx < (s + 2) * (s + 2),
    ensures
        0 <= idx / (s + 2) <= s + 1,
        0 <= idx % (s + 2) <= s + 1,
        (idx / (s + 2)) * (s + 2) + idx % (s + 2) == idx,
{
    vstd::arithmetic::div_mod::lemma_fundamental_div_mod(idx, s + 2);
    vstd::arithmetic::div_mod::lemma_mod_division_less_than_divisor(idx, s + 2);
    let q = idx / (s + 2);
    let r = idx % (s + 2);
    assert(idx == (s + 2) * q + r && 0 <= r < s + 2);
    assert(0 <= q <= s + 1) by (nonlinear_arith)
        requires
            idx == (s + 2) * q + r,
            0 <= r < s + 2,
            0 <= idx < (s + 2) * (s + 2),
            0 <= s;
    assert(q * (s + 2) + r == idx) by (nonlinear_arith)
        requires idx == (s + 2) * q + r;
}

/// The direction of an axis-aligned move from `(ox, oy)` to `(x, y)`.
pub open spec fn travel_direction(ox: int, oy: int, x: int, y: int) -> Direction {
    if x != ox {
        if x > ox {
            Direction::Right
        } else {
            Direction::Left
        }
    } else if y > oy {
        Direction::Down
    } else {
        Direction::Up
    }
}

/// The cells strictly between the old and the new position of an
/// axis-aligned move.
pub open spec fn on_path_between(ox: int, oy: int, x: int, y: int, i: int, j: int) -> bool {
    if x != ox {
        j == oy && (if x > ox {
            ox < i < x
        } else {
            x < i < ox
        })
    } else {
        i == ox && (if y > oy {
            oy < j < y
        } else {
            y < j < oy
        })
    }
}

/// The orthogonal neighbours swept when a mirror is created at `(x, y)`.
/// The edge guards are asymmetric on purpose: cells beside the low border
/// rows and columns are left unswept.
pub open spec fn adjacent_marked(size: int, x: int, y: int, i: int, j: int) -> bool {
    ||| (x > 2 && i == x - 1 && j == y)
    ||| (x + 1 < size && i == x + 1 && j == y)
    ||| (y > 2 && i == x && j == y - 1)
    ||| (y + 1 < size && i == x && j == y + 1)
}

/// The orientation a crossing commits an undecided mirror to, from the
/// beam's prior travel direction and which way it leaves.
pub open spec fn decide_orientation(nd: Direction, ox: int, oy: int, x: int, y: int)
    -> MirrorDirection {
    if x < ox {
        match nd {
            Direction::Down => MirrorDirection::Slash,
            Direction::Up => MirrorDirection::Backslash,
            _ => MirrorDirection::Undecided,
        }
    } else if x > ox {
        match nd {
            Direction::Up => MirrorDirection::Slash,
            Direction::Down => MirrorDirection::Backslash,
            _ => MirrorDirection::Undecided,
        }
    } else if y < oy {
        match nd {
            Direction::Right => MirrorDirection::Slash,
            Direction::Left => MirrorDirection::Backslash,
            _ => MirrorDirection::Undecided,
        }
    } else {
        match nd {
            Direction::Left => MirrorDirection::Slash,
            Direction::Right => MirrorDirection::Backslash,
            _ => MirrorDirection::Undecided,
        }
    }
}

/// Mirror `i` of board `b` after a beam that stood at `(ox, oy)` facing
/// `odir` has left for `(x, y)`: an undecided mirror under the beam
/// commits, everything else keeps its state.
pub open spec fn mirror_after_leaving(
    b: Board,
    ox: int,
    oy: int,
    odir: Direction,
    x: int,
    y: int,
    i: int,
) -> Mirror {
    let m0 = b.mirrors@[i];
    let under = match b.cell(ox, oy) {
        Cell::Mirror(mi) => mi == i,
        _ => false,
    };
    if under && m0.mirror_direction == MirrorDirection::Undecided {
        Mirror { x: m0.x, y: m0.y, mirror_direction: decide_orientation(odir, ox, oy, x, y) }
    } else {
        m0
    }
}

/// Once a mirror's orientation has left `Undecided`, no later board in the
/// lineage changes it.
pub open spec fn mirror_committed_preserved(pre: Board, post: Board) -> bool {
    forall|i: int| 0 <= i < pre.mirrors@.len()
        && (#[trigger] pre.mirrors@[i]).mirror_direction != MirrorDirection::Undecided
        ==> post.mirrors@[i] == pre.mirrors@[i]
}

/// The first position, scanning from `j`, holding a beam at `(x, y)` after
/// the beam at `moved` has been relocated there.
pub open spec fn first_node_at(nodes: Seq<Node>, moved: int, x: int, y: int, j: int) -> int
    decreases nodes.len() - j,
{
    if j < 0 || j >= nodes.len() {
        nodes.len() as int
    } else if j == moved || (nodes[j].x == x && nodes[j].y == y) {
        j
    } else {
        first_node_at(nodes, moved, x, y, j + 1)
    }
}

/// The scan finds the moved beam at the latest.
proof fn lemma_first_at_le(nodes: Seq<Node>, moved: int, x: int, y: int, j: int)
    requires
        0 <= j <= moved < nodes.len(),
    ensures
        j <= first_node_at(nodes, moved, x, y, j) <= moved,
    decreases nodes.len() - j,
{
    if !(j == moved || (nodes[j].x == x && nodes[j].y == y)) {
        lemma_first_at_le(nodes, moved, x, y, j + 1);
    }
}

/// A scan from `s` whose hits start exactly at `j` answers `j`.
proof fn lemma_first_at_eq(nodes: Seq<Node>, moved: int, x: int, y: int, s: int, j: int)
    requires
        0 <= s <= j < nodes.len(),
        j == moved || (nodes[j].x == x && nodes[j].y == y),
        forall|k: int| s <= k < j ==> !(k == moved || ((#[trigger] nodes[k]).x == x
            && nodes[k].y == y)),
    ensures
        first_node_at(nodes, moved, x, y, s) == j,
    decreases j - s,
{
    if s < j {
        assert(!(s == moved || (nodes[s].x == x && nodes[s].y == y)));
        lemma_first_at_eq(nodes, moved, x, y, s + 1, j);
    }
}

/// Two queues whose beams (apart from the relocated one) sit on the same
/// cells are scanned to the same position.
proof fn lemma_first_at_agree(a: Seq<Node>, b: Seq<Node>, moved: int, x: int, y: int, j: int)
    requires
        a.len() == b.len(),
        forall|k: int| 0 <= k < a.len() && k != moved
            ==> ((#[trigger] a[k]).x == b[k].x && a[k].y == b[k].y),
    ensures
        first_node_at(a, moved, x, y, j) == first_node_at(b, moved, x, y, j),
    decreases a.len() - j,
{
    if 0 <= j < a.len() {
        if !(j == moved || (a[j].x == x && a[j].y == y)) {
            lemma_first_at_agree(a, b, moved, x, y, j + 1);
        }
    }
}

/// A copy of a vector of copyable entries.
fn copy_plain<T: Copy>(v: &Vec<T>) -> (r: Vec<T>)
    ensures
        r@ == v@,
{
    let mut r: Vec<T> = Vec::new();
    let mut i: usize = 0;
    while i < v.len()
        invariant
            i <= v@.len(),
            r@ == v@.subrange(0, i as int),
        decreases v@.len() - i,
    {
        let x = v[i];
        r.push(x);
        proof {
            assert(r@ =~= v@.subrange(0, i + 1));
        }
        i = i + 1;
    }
    proof {
        assert(r@ =~= v@);
    }
    r
}

/// A copy of a beam queue.
fn copy_nodes(v: &Vec<Node>) -> (r: Vec<Node>)
    ensures
        r@.len() == v@.len(),
        forall|i: int| 0 <= i < v@.len() ==> same_node(v@[i], #[trigger] r@[i]),
{
    let mut r: Vec<Node> = Vec::new();
    let mut i: usize = 0;
    while i < v.len()
        invariant
            i <= v@.len(),
            r@.len() == i,
            forall|j: int| 0 <= j < i ==> same_node(v@[j], #[trigger] r@[j]),
        decreases v@.len() - i,
    {
        let x = v[i].duplicate();
        r.push(x);
        i = i + 1;
    }
    r
}

/// Whether a step length is in a move set.
fn set_contains(v: &Vec<usize>, t: usize) -> (b: bool)
    ensures
        b == v@.contains(t),
{
    let mut i: usize = 0;
    while i < v.len()
        invariant
            i <= v@.len(),
            forall|j: int| 0 <= j < i ==> v@[j] != t,
        decreases v@.len() - i,
    {
        if v[i] == t {
            return true;
        }
        i = i + 1;
    }
    false
}

impl Board {
    /// The grid's side length, interior plus the border ring.
    pub open spec fn side(self) -> int {
        self.size + 2
    }

    pub open spec fn in_grid(self, x: int, y: int) -> bool {
        0 <= x < self.side() && 0 <= y < self.side()
    }

    /// Strictly inside the border ring.
    pub open spec fn in_interior(self, x: int, y: int) -> bool {
        1 <= x <= self.size && 1 <= y <= self.size
    }

    pub open spec fn cell(self, x: int, y: int) -> Cell {
        self.grid@[x * self.side() + y]
    }

    pub open spec fn mirror_ok(self, x: int, y: int) -> bool {
        match self.cell(x, y) {
            Cell::Mirror(m) => m < self.mirrors@.len() && self.mirrors@[m as int].x == x
                && self.mirrors@[m as int].y == y,
            _ => true,
        }
    }

    /// Well-formedness: the grid has its full extent, every mirror index on
    /// it refers into the mirror list, and every queued beam sits on the
    /// board.
    pub open spec fn wf(self) -> bool {
        &&& self.size + 2 <= usize::MAX
        &&& (self.size + 2) * (self.size + 2) <= usize::MAX
        &&& self.grid@.len() == (self.size + 2) * (self.size + 2)
        &&& forall|x: int, y: int| self.in_grid(x, y) ==> #[trigger] self.mirror_ok(x, y)
        &&& forall|i: int| 0 <= i < self.nodes@.len()
            ==> (#[trigger] self.nodes@[i]).x <= self.size + 1
                && self.nodes@[i].y <= self.size + 1
                && factor_result(self.nodes@[i].value, self.nodes@[i].move_set@)
    }

    /// An empty board with the given interior side length.
    pub fn new(size: usize) -> (b: Board)
        requires
            size + 2 <= usize::MAX,
            (size + 2) * (size + 2) <= usize::MAX,
        ensures
            b.wf(),
            b.size == size,
            b.mirrors@.len() == 0,
            b.nodes@.len() == 0,
            forall|x: int, y: int| b.in_grid(x, y) ==> b.cell(x, y) == Cell::Empty,
    {
        let side = size + 2;
        let total = side * side;
        let mut grid: Vec<Cell> = Vec::new();
        let mut k: usize = 0;
        while k < total
            invariant
                k <= total,
                grid@.len() == k,
                forall|j: int| 0 <= j < k ==> grid@[j] == Cell::Empty,
            decreases total - k,
        {
            grid.push(Cell::Empty);
            k = k + 1;
        }
        let b = Board { size, grid, mirrors: Vec::new(), nodes: Vec::new() };
        proof {
            assert forall|x: int, y: int| b.in_grid(x, y)
                implies b.cell(x, y) == Cell::Empty && b.mirror_ok(x, y) by {
                lemma_flat_bound(size as int, x, y);
            }
        }
        b
    }

    /// An exact copy of the board.
    pub fn duplicate(&self) -> (b: Board)
        ensures
            same_board(*self, b),
    {
        Board {
            size: self.size,
            grid: copy_plain(&self.grid),
            mirrors: copy_plain(&self.mirrors),
            nodes: copy_nodes(&self.nodes),
        }
    }

    /// Reads one grid cell.
    pub fn cell_at(&self, x: usize, y: usize) -> (c: Cell)
        requires
            self.wf(),
            x <= self.size + 1,
            y <= self.size + 1,
        ensures
            c == self.cell(x as int, y as int),
    {
        proof {
            lemma_flat_bound(self.size as int, x as int, y as int);
        }
        self.grid[x * (self.size + 2) + y]
    }

    /// Writes one grid cell; every other cell keeps its state.
    fn set_cell(&mut self, x: usize, y: usize, c: Cell)
        requires
            old(self).wf(),
            x <= old(self).size + 1,
            y <= old(self).size + 1,
            match c {
                Cell::Mirror(m) => m < old(self).mirrors@.len()
                    && old(self).mirrors@[m as int].x == x && old(self).mirrors@[m as int].y == y,
                _ => true,
            },
        ensures
            final(self).wf(),
            final(self).size == old(self).size,
            final(self).mirrors == old(self).mirrors,
            final(self).nodes == old(self).nodes,
            forall|i: int, j: int| old(self).in_grid(i, j)
                ==> #[trigger] final(self).cell(i, j) == (if i == x && j == y {
                    c
                } else {
                    old(self).cell(i, j)
                }),
    {
        proof {
            lemma_flat_bound(self.size as int, x as int, y as int);
        }
        self.grid[x * (self.size + 2) + y] = c;
        proof {
            assert forall|i: int, j: int| old(self).in_grid(i, j)
                implies self.cell(i, j) == (if i == x as int && j == y as int {
                    c
                } else {
                    old(self).cell(i, j)
                }) by {
                lemma_flat_bound(old(self).size as int, i, j);
                if !(i == x as int && j == y as int) {
                    lemma_flat_inj(old(self).size as int, i, j, x as int, y as int);
                }
            }
            assert forall|i: int, j: int| self.in_grid(i, j) implies self.mirror_ok(i, j) by {
                assert(old(self).mirror_ok(i, j));
            }
        }
    }

    /// The mirror at `(x, y)`, if the cell holds one.
    pub fn get_mirror(&self, x: usize, y: usize) -> (m: Option<Mirror>)
        requires
            self.wf(),
            x <= self.size + 1,
            y <= self.size + 1,
        ensures
            m == (match self.cell(x as int, y as int) {
                Cell::Mirror(i) => Some(self.mirrors@[i as int]),
                _ => Option::<Mirror>::None,
            }),
            orientation_of(m) == self.mirror_dir_at(x as int, y as int),
            m matches Some(mm) ==> mm.x == x && mm.y == y,
    {
        proof {
            assert(self.mirror_ok(x as int, y as int));
        }
        match self.cell_at(x, y) {
            Cell::Mirror(i) => Some(self.mirrors[i]),
            _ => None,
        }
    }

    /// The reflection rule in force at a cell.
    pub open spec fn mirror_dir_at(self, x: int, y: int) -> MirrorDirection {
        match self.cell(x, y) {
            Cell::Mirror(i) => self.mirrors@[i as int].mirror_direction,
            _ => MirrorDirection::NoMirror,
        }
    }

    /// The legal landing cells for beam `n` along direction `d`, probing
    /// step lengths from `s` toward the border: a cell is listed when its
    /// distance is in the move set and it is not mid-beam-path; an actual
    /// mirror is a landing spot but ends the walk beyond it.
    pub open spec fn dir_moves(self, n: Node, d: Direction, s: int) -> Seq<(usize, usize)>
        decreases dist_to_bounds(n.x as int, n.y as int, self.size as int, d) - s,
    {
        let dist = dist_to_bounds(n.x as int, n.y as int, self.size as int, d);
        if s < 1 || s >= dist {
            Seq::empty()
        } else {
            let tx = n.x as int + s * d.dx();
            let ty = n.y as int + s * d.dy();
            let here: Seq<(usize, usize)> = if n.move_set@.contains(s as usize)
                && !(self.cell(tx, ty) is Beam) {
                seq![((tx as usize), (ty as usize))]
            } else {
                Seq::empty()
            };
            if self.cell(tx, ty) is Mirror {
                here
            } else {
                here + self.dir_moves(n, d, s + 1)
            }
        }
    }

    /// All legal moves of beam `n`: the walks along each candidate
    /// direction out of its cell, in order.
    pub open spec fn moves_for(self, n: Node) -> Seq<(usize, usize)> {
        let dirs = bounce_dirs(n.direction, self.mirror_dir_at(n.x as int, n.y as int));
        if dirs.len() == 1 {
            self.dir_moves(n, dirs[0], 1)
        } else {
            self.dir_moves(n, dirs[0], 1) + self.dir_moves(n, dirs[1], 1)
        }
    }

    /// Enumerates the legal moves of the beam at `node_index`, exactly as
    /// `moves_for` lists them.
    #[verifier::loop_isolation(false)]
    #[verifier::rlimit(60)]
    pub fn find_possible_moves(&self, node_index: usize) -> (moves: Vec<(usize, usize)>)
        requires
            self.wf(),
            node_index < self.nodes@.len(),
        ensures
            moves@ == self.moves_for(self.nodes@[node_index as int]),
            forall|k: int| 0 <= k < moves@.len()
                ==> (#[trigger] moves@[k]).0 <= self.size + 1 && moves@[k].1 <= self.size + 1
                    && ((moves@[k].0 == self.nodes@[node_index as int].x)
                        != (moves@[k].1 == self.nodes@[node_index as int].y)),
    {
        let node = &self.nodes[node_index];
        let ghost gn = self.nodes@[node_index as int];
        let mirror = self.get_mirror(node.x, node.y);
        let dirs = mirror_bounce(node, mirror);
        let ghost gdirs = bounce_dirs(gn.direction, self.mirror_dir_at(gn.x as int, gn.y as int));
        let mut moves: Vec<(usize, usize)> = Vec::new();
        let mut di: usize = 0;
        while di < dirs.len()
            invariant
                di <= dirs@.len(),
                di == 0 ==> moves@ == Seq::<(usize, usize)>::empty(),
                di >= 1 ==> moves@ == self.dir_moves(gn, gdirs[0], 1)
                    + (if di >= 2 { self.dir_moves(gn, gdirs[1], 1) } else {
                        Seq::<(usize, usize)>::empty()
                    }),
                forall|k: int| 0 <= k < moves@.len()
                    ==> (#[trigger] moves@[k]).0 <= self.size + 1 && moves@[k].1 <= self.size + 1
                        && ((moves@[k].0 == gn.x) != (moves@[k].1 == gn.y)),
            decreases dirs@.len() - di,
        {
            let d = dirs[di];
            let dist = get_distance_to_bounds(node.x, node.y, self.size, d);
            let ghost base = moves@;
            let ghost mut acc = Seq::<(usize, usize)>::empty();
            let mut blocked = false;
            let mut s: usize = 1;
            while s < dist && !blocked
                invariant
                    1 <= s,
                    s <= dist || (s == 1 && dist <= 1),
                    moves@ == base + acc,
                    !blocked ==> self.dir_moves(gn, d, 1) == acc + self.dir_moves(gn, d, s as int),
                    blocked ==> self.dir_moves(gn, d, 1) == acc,
                    forall|k: int| 0 <= k < moves@.len()
                        ==> (#[trigger] moves@[k]).0 <= self.size + 1
                            && moves@[k].1 <= self.size + 1
                            && ((moves@[k].0 == gn.x) != (moves@[k].1 == gn.y)),
                decreases dist - s,
            {
                let (tx, ty) = match d {
                    Direction::Up => (node.x, node.y - s),
                    Direction::Down => (node.x, node.y + s),
                    Direction::Left => (node.x - s, node.y),
                    Direction::Right => (node.x + s, node.y),
                };
                proof {
                    assert(tx as int == gn.x as int + s * d.dx()
                        && ty as int == gn.y as int + s * d.dy()) by {
                        assert(s * 1int == s && s * (-1int) == -(s as int) && s * 0int == 0);
                    }
                }
                let c = self.cell_at(tx, ty);
                let landable = match c {
                    Cell::Beam => false,
                    _ => true,
                };
                let in_set = set_contains(&node.move_set, s);
                let ghost acc0 = acc;
                if in_set && landable {
                    moves.push((tx, ty));
                    proof {
                        acc = acc0 + seq![(tx, ty)];
                        assert(moves@ =~= base + acc);
                    }
                }
                let stop = match c {
                    Cell::Mirror(_) => true,
                    _ => false,
                };
                if stop {
                    blocked = true;
                }
                proof {
                    let here: Seq<(usize, usize)> = if gn.move_set@.contains(s)
                        && !(self.cell(tx as int, ty as int) is Beam) {
                        seq![(tx, ty)]
                    } else {
                        Seq::empty()
                    };
                    assert(acc =~= acc0 + here);
                    if stop {
                        assert(self.dir_moves(gn, d, s as int) == here);
                        assert(self.dir_moves(gn, d, 1) =~= acc);
                    } else {
                        assert(self.dir_moves(gn, d, s as int)
                            == here + self.dir_moves(gn, d, s as int + 1));
                        assert(acc0 + (here + self.dir_moves(gn, d, s as int + 1))
                            =~= acc + self.dir_moves(gn, d, s as int + 1));
                        assert(self.dir_moves(gn, d, 1)
                            == acc + self.dir_moves(gn, d, s as int + 1));
                    }
                }
                s = s + 1;
            }
            proof {
                if !blocked {
                    assert(self.dir_moves(gn, d, s as int) == Seq::<(usize, usize)>::empty());
                }
                assert(self.dir_moves(gn, d, 1) == acc);
                assert(moves@ == base + self.dir_moves(gn, d, 1));
                assert(d == gdirs[di as int]);
                if di == 0 {
                    assert(moves@ =~= self.dir_moves(gn, gdirs[0], 1));
                } else {
                    assert(moves@ =~= self.dir_moves(gn, gdirs[0], 1)
                        + self.dir_moves(gn, gdirs[1], 1));
                }
            }
            di = di + 1;
        }
        proof {
            if dirs@.len() == 1 {
                assert(moves@ == self.moves_for(gn));
            } else {
                assert(dirs@.len() == 2);
                assert(moves@ == self.moves_for(gn));
            }
        }
        moves
    }

    /// A new board with one more beam queued.
    pub fn with_placed_node(
        &self,
        x: usize,
        y: usize,
        direction: Direction,
        value: usize,
        cache: &mut FactorCache,
    ) -> (b: Board)
        requires
            self.wf(),
            old(cache).wf(),
            x <= self.size + 1,
            y <= self.size + 1,
        ensures
            final(cache).wf(),
            b.wf(),
            b.size == self.size,
            b.grid@ == self.grid@,
            b.mirrors@ == self.mirrors@,
            b.nodes@.len() == self.nodes@.len() + 1,
            forall|i: int| 0 <= i < self.nodes@.len()
                ==> same_node(self.nodes@[i], #[trigger] b.nodes@[i]),
            b.nodes@.last().x == x,
            b.nodes@.last().y == y,
            b.nodes@.last().direction == direction,
            b.nodes@.last().value == value,
            factor_result(value, b.nodes@.last().move_set@),
    {
        let mut b = self.duplicate();
        let n = Node::new(x, y, direction, value, cache);
        b.nodes.push(n);
        proof {
            assert forall|i: int, j: int| b.in_grid(i, j) implies b.mirror_ok(i, j) by {
                assert(self.mirror_ok(i, j));
            }
        }
        b
    }

    /// Whether moving a beam to `(x, y)` creates a fresh undecided mirror
    /// there: the destination is interior and untouched.
    pub open spec fn move_places_mirror(self, x: int, y: int) -> bool {
        self.in_interior(x, y) && self.cell(x, y) == Cell::Empty
    }

    /// Whether moving beam `ni` to `(x, y)` resolves it: the destination is
    /// on the border ring and the divided value reaches exactly 1.
    pub open spec fn move_resolves(self, ni: int, x: int, y: int) -> bool {
        let n0 = self.nodes@[ni];
        !self.in_interior(x, y) && n0.value as int / manhattan(
            n0.x as int, n0.y as int, x, y) == 1
    }

    /// What the beam looks like after relocation: at the destination,
    /// turned to the travel direction, value divided by the step distance,
    /// move set rederived.
    pub open spec fn moved_node_ok(self, ni: int, x: int, y: int, nd: Node) -> bool {
        let n0 = self.nodes@[ni];
        let dist = manhattan(n0.x as int, n0.y as int, x, y);
        &&& nd.x == x
        &&& nd.y == y
        &&& nd.direction == travel_direction(n0.x as int, n0.y as int, x, y)
        &&& nd.value == n0.value as int / dist
        &&& factor_result(nd.value, nd.move_set@)
    }

    /// Mirror `i` after the move: committed by the crossing when the beam
    /// left an undecided mirror at its old cell, untouched otherwise.
    pub open spec fn decided_mirror(self, ni: int, x: int, y: int, i: int) -> Mirror {
        let n0 = self.nodes@[ni];
        let m0 = self.mirrors@[i];
        let under = match self.cell(n0.x as int, n0.y as int) {
            Cell::Mirror(mi) => mi == i,
            _ => false,
        };
        if under && m0.mirror_direction == MirrorDirection::Undecided {
            Mirror {
                x: m0.x,
                y: m0.y,
                mirror_direction: decide_orientation(
                    n0.direction, n0.x as int, n0.y as int, x, y),
            }
        } else {
            m0
        }
    }

    /// Grid cell `(i, j)` after the move: the fresh mirror at the
    /// destination, swept neighbours around it, a swept destination when
    /// the beam resolved, swept cells along the travelled path, and
    /// everything else untouched.
    pub open spec fn moved_cell(self, ni: int, x: int, y: int, i: int, j: int) -> Cell {
        let n0 = self.nodes@[ni];
        if self.move_places_mirror(x, y) && i == x && j == y {
            Cell::Mirror(self.mirrors@.len() as usize)
        } else if self.move_places_mirror(x, y) && adjacent_marked(self.size as int, x, y, i, j) {
            Cell::Beam
        } else if self.move_resolves(ni, x, y) && i == x && j == y {
            Cell::Beam
        } else if on_path_between(n0.x as int, n0.y as int, x, y, i, j) {
            Cell::Beam
        } else {
            self.cell(i, j)
        }
    }


    /// Commits the orientation of an undecided mirror at the cell the beam
    /// leaves; every other mirror keeps its state.
    fn commit_leaving_mirror(&mut self, ox: usize, oy: usize, odir: Direction, x: usize, y: usize)
        requires
            old(self).wf(),
            ox <= old(self).size + 1,
            oy <= old(self).size + 1,
        ensures
            final(self).wf(),
            final(self).size == old(self).size,
            final(self).grid == old(self).grid,
            final(self).nodes == old(self).nodes,
            final(self).mirrors@.len() == old(self).mirrors@.len(),
            forall|i: int| 0 <= i < old(self).mirrors@.len()
                ==> final(self).mirrors@[i] == mirror_after_leaving(
                    *old(self), ox as int, oy as int, odir, x as int, y as int, i),
    {
        match self.cell_at(ox, oy) {
            Cell::Mirror(mi) => {
                proof {
                    assert(self.mirror_ok(ox as int, oy as int));
                }
                let m = self.mirrors[mi];
                let und = match m.mirror_direction {
                    MirrorDirection::Undecided => true,
                    _ => false,
                };
                if und {
                    let nd2 = if x < ox {
                        match odir {
                            Direction::Down => MirrorDirection::Slash,
                            Direction::Up => MirrorDirection::Backslash,
                            _ => MirrorDirection::Undecided,
                        }
                    } else if x > ox {
                        match odir {
                            Direction::Up => MirrorDirection::Slash,
                            Direction::Down => MirrorDirection::Backslash,
                            _ => MirrorDirection::Undecided,
                        }
                    } else if y < oy {
                        match odir {
                            Direction::Right => MirrorDirection::Slash,
                            Direction::Left => MirrorDirection::Backslash,
                            _ => MirrorDirection::Undecided,
                        }
                    } else {
                        match odir {
                            Direction::Left => MirrorDirection::Slash,
                            Direction::Right => MirrorDirection::Backslash,
                            _ => MirrorDirection::Undecided,
                        }
                    };
                    proof {
                        assert(nd2 == decide_orientation(
                            odir, ox as int, oy as int, x as int, y as int));
                    }
                    self.mirrors[mi] = Mirror { x: m.x, y: m.y, mirror_direction: nd2 };
                    proof {
                        assert forall|i2: int, j2: int| self.in_grid(i2, j2)
                            implies self.mirror_ok(i2, j2) by {
                            assert(old(self).mirror_ok(i2, j2));
                        }
                    }
                }
            },
            _ => {},
        }
        proof {
            assert forall|i: int| 0 <= i < old(self).mirrors@.len()
                implies self.mirrors@[i] == mirror_after_leaving(
                    *old(self), ox as int, oy as int, odir, x as int, y as int, i) by {
                let under = match old(self).cell(ox as int, oy as int) {
                    Cell::Mirror(mi2) => mi2 == i,
                    _ => false,
                };
                if under
                    && old(self).mirrors@[i].mirror_direction == MirrorDirection::Undecided {
                    assert(self.mirrors@[i] == (Mirror {
                        x: old(self).mirrors@[i].x,
                        y: old(self).mirrors@[i].y,
                        mirror_direction: decide_orientation(
                            odir, ox as int, oy as int, x as int, y as int),
                    }));
                } else {
                    assert(self.mirrors@[i] == old(self).mirrors@[i]);
                }
            }
        }
    }

    /// Sweeps the cells strictly between the old and the new position of an
    /// axis-aligned move.
    #[verifier::loop_isolation(false)]
    fn mark_path(&mut self, ox: usize, oy: usize, x: usize, y: usize)
        requires
            old(self).wf(),
            ox <= old(self).size + 1,
            oy <= old(self).size + 1,
            x <= old(self).size + 1,
            y <= old(self).size + 1,
            (x == ox) != (y == oy),
        ensures
            final(self).wf(),
            final(self).size == old(self).size,
            final(self).mirrors == old(self).mirrors,
            final(self).nodes == old(self).nodes,
            forall|i: int, j: int| old(self).in_grid(i, j)
                ==> #[trigger] final(self).cell(i, j) == (if on_path_between(
                        ox as int, oy as int, x as int, y as int, i, j) {
                    Cell::Beam
                } else {
                    old(self).cell(i, j)
                }),
    {
        if x != ox {
            let lo = if x > ox { ox } else { x };
            let hi = if x > ox { x } else { ox };
            let mut px = lo + 1;
            while px < hi
                invariant
                    lo + 1 <= px,
                    px <= hi,
                    self.wf(),
                    self.size == old(self).size,
                    self.mirrors == old(self).mirrors,
                    self.nodes == old(self).nodes,
                    forall|i2: int, j2: int| old(self).in_grid(i2, j2)
                        ==> #[trigger] self.cell(i2, j2) == (if j2 == oy && lo < i2 < px {
                            Cell::Beam
                        } else {
                            old(self).cell(i2, j2)
                        }),
                decreases hi - px,
            {
                self.set_cell(px, oy, Cell::Beam);
                px = px + 1;
            }
        } else {
            let lo = if y > oy { oy } else { y };
            let hi = if y > oy { y } else { oy };
            let mut py = lo + 1;
            while py < hi
                invariant
                    lo + 1 <= py,
                    py <= hi,
                    self.wf(),
                    self.size == old(self).size,
                    self.mirrors == old(self).mirrors,
                    self.nodes == old(self).nodes,
                    forall|i2: int, j2: int| old(self).in_grid(i2, j2)
                        ==> #[trigger] self.cell(i2, j2) == (if i2 == ox && lo < j2 < py {
                            Cell::Beam
                        } else {
                            old(self).cell(i2, j2)
                        }),
                decreases hi - py,
            {
                self.set_cell(ox, py, Cell::Beam);
                py = py + 1;
            }
        }
    }

    /// Creates a fresh undecided mirror on an interior cell and sweeps its
    /// guarded neighbours.
    fn place_mirror_at(&mut self, x: usize, y: usize)
        requires
            old(self).wf(),
            1 <= x <= old(self).size,
            1 <= y <= old(self).size,
        ensures
            final(self).wf(),
            final(self).size == old(self).size,
            final(self).nodes == old(self).nodes,
            final(self).mirrors@ == old(self).mirrors@.push(
                Mirror { x, y, mirror_direction: MirrorDirection::Undecided }),
            forall|i: int, j: int| old(self).in_grid(i, j)
                ==> #[trigger] final(self).cell(i, j) == (if i == x && j == y {
                    Cell::Mirror(old(self).mirrors@.len() as usize)
                } else if adjacent_marked(old(self).size as int, x as int, y as int, i, j) {
                    Cell::Beam
                } else {
                    old(self).cell(i, j)
                }),
    {
        self.mirrors.push(Mirror::new(x, y, MirrorDirection::Undecided));
        proof {
            assert forall|i2: int, j2: int| self.in_grid(i2, j2)
                implies self.mirror_ok(i2, j2) by {
                assert(old(self).mirror_ok(i2, j2));
            }
        }
        let mirror_index = self.mirrors.len() - 1;
        self.set_cell(x, y, Cell::Mirror(mirror_index));
        if x > 2 {
            self.set_cell(x - 1, y, Cell::Beam);
        }
        if x + 1 < self.size {
            self.set_cell(x + 1, y, Cell::Beam);
        }
        if y > 2 {
            self.set_cell(x, y - 1, Cell::Beam);
        }
        if y + 1 < self.size {
            self.set_cell(x, y + 1, Cell::Beam);
        }
    }

    /// Marks the border cell of a resolved beam as swept and removes the
    /// first queued beam sitting there.
    #[verifier::loop_isolation(false)]
    fn remove_resolved_at(&mut self, node_index: usize, x: usize, y: usize)
        requires
            old(self).wf(),
            node_index < old(self).nodes@.len(),
            x <= old(self).size + 1,
            y <= old(self).size + 1,
            old(self).nodes@[node_index as int].x == x,
            old(self).nodes@[node_index as int].y == y,
        ensures
            final(self).wf(),
            final(self).size == old(self).size,
            final(self).mirrors == old(self).mirrors,
            forall|i: int, j: int| old(self).in_grid(i, j)
                ==> #[trigger] final(self).cell(i, j) == (if i == x && j == y {
                    Cell::Beam
                } else {
                    old(self).cell(i, j)
                }),
            final(self).nodes@ == old(self).nodes@.remove(
                first_node_at(old(self).nodes@, node_index as int, x as int, y as int, 0)),
    {
        self.set_cell(x, y, Cell::Beam);
        let ghost gmid = *self;
        let mut j: usize = 0;
        let mut found = false;
        while !found
            invariant
                j <= node_index,
                found ==> (self.nodes@[j as int].x == x && self.nodes@[j as int].y == y),
                forall|k: int| 0 <= k < j
                    ==> !((#[trigger] self.nodes@[k]).x == x && self.nodes@[k].y == y),
            decreases node_index - j + (if found { 0int } else { 1 }),
        {
            let nx = self.nodes[j].x;
            let nyy = self.nodes[j].y;
            if nx == x && nyy == y {
                found = true;
            } else {
                proof {
                    assert(j != node_index);
                }
                j = j + 1;
            }
        }
        proof {
            assert forall|k: int| 0 <= k < j
                implies !(k == node_index as int || ((#[trigger] self.nodes@[k]).x == x
                    && self.nodes@[k].y == y)) by {
                assert(k < node_index as int);
            }
            lemma_first_at_eq(self.nodes@, node_index as int, x as int, y as int, 0, j as int);
            lemma_first_at_le(self.nodes@, node_index as int, x as int, y as int, 0);
        }
        let ghost before = self.nodes@;
        self.nodes.remove(j);
        proof {
            assert forall|i2: int| 0 <= i2 < self.nodes@.len()
                implies (#[trigger] self.nodes@[i2]).x <= self.size + 1
                    && self.nodes@[i2].y <= self.size + 1 by {
                if i2 < j {
                    assert(self.nodes@[i2] == before[i2]);
                } else {
                    assert(self.nodes@[i2] == before[i2 + 1]);
                }
            }
            assert forall|i2: int, j2: int| old(self).in_grid(i2, j2)
                implies #[trigger] self.cell(i2, j2) == (if i2 == x && j2 == y {
                    Cell::Beam
                } else {
                    old(self).cell(i2, j2)
                }) by {
                assert(self.cell(i2, j2) == gmid.cell(i2, j2));
            }
            assert forall|i2: int, j2: int| self.in_grid(i2, j2)
                implies self.mirror_ok(i2, j2) by {
                assert(self.cell(i2, j2) == gmid.cell(i2, j2));
                assert(gmid.mirror_ok(i2, j2));
            }
            assert(self.wf());
        }
    }

    /// A new board with the beam at `node_index` moved to `(x, y)`: the
    /// undecided mirror it leaves (if any) commits its orientation, swept
    /// cells are marked, the beam's value divides by the step distance, a
    /// fresh mirror appears on an untouched interior destination, and a
    /// beam that reaches the border with value 1 is removed.
    #[verifier::loop_isolation(false)]
    #[verifier::rlimit(100)]
    pub fn with_moved_node(
        &self,
        node_index: usize,
        x: usize,
        y: usize,
        cache: &mut FactorCache,
    ) -> (b: Board)
        requires
            self.wf(),
            old(cache).wf(),
            node_index < self.nodes@.len(),
            x <= self.size + 1,
            y <= self.size + 1,
            (x == self.nodes@[node_index as int].x) != (y == self.nodes@[node_index as int].y),
        ensures
            final(cache).wf(),
            b.wf(),
            b.size == self.size,
            mirror_committed_preserved(*self, b),
            b.mirrors@.len() == self.mirrors@.len()
                + (if self.move_places_mirror(x as int, y as int) { 1int } else { 0 }),
            forall|i: int| 0 <= i < self.mirrors@.len()
                ==> b.mirrors@[i] == self.decided_mirror(node_index as int, x as int, y as int, i),
            self.move_places_mirror(x as int, y as int)
                ==> b.mirrors@.last() == (Mirror {
                    x, y, mirror_direction: MirrorDirection::Undecided }),
            forall|i: int, j: int| self.in_grid(i, j)
                ==> b.cell(i, j) == self.moved_cell(node_index as int, x as int, y as int, i, j),
            !self.move_resolves(node_index as int, x as int, y as int)
                ==> b.nodes@.len() == self.nodes@.len()
                    && (forall|i: int| 0 <= i < self.nodes@.len() && i != node_index
                        ==> same_node(self.nodes@[i], #[trigger] b.nodes@[i]))
                    && self.moved_node_ok(node_index as int, x as int, y as int,
                        b.nodes@[node_index as int]),
            self.move_resolves(node_index as int, x as int, y as int)
                ==> b.nodes@.len() + 1 == self.nodes@.len()
                    && (forall|i: int| 0 <= i < b.nodes@.len()
                        ==> {
                            let fj = first_node_at(
                                self.nodes@, node_index as int, x as int, y as int, 0);
                            let src: int = if i < fj { i } else { i + 1 };
                            if src == node_index {
                                self.moved_node_ok(node_index as int, x as int, y as int,
                                    #[trigger] b.nodes@[i])
                            } else {
                                same_node(self.nodes@[src], b.nodes@[i])
                            }
                        }),
            is_move_result(*self, node_index as int, x as int, y as int, b),
    {
        let ghost ni = node_index as int;
        let ghost fx = x as int;
        let ghost fy = y as int;
        let ox = self.nodes[node_index].x;
        let oy = self.nodes[node_index].y;
        let odir = self.nodes[node_index].direction;
        let mut b = self.duplicate();
        proof {
            assert forall|i2: int, j2: int| b.in_grid(i2, j2) implies b.mirror_ok(i2, j2) by {
                assert(self.mirror_ok(i2, j2));
            }
            assert(b.wf());
        }
        b.commit_leaving_mirror(ox, oy, odir, x, y);
        let ghost b1 = b;
        proof {
            assert forall|i: int| 0 <= i < self.mirrors@.len()
                implies b1.mirrors@[i] == self.decided_mirror(ni, fx, fy, i) by {
                assert(b1.mirrors@[i] == mirror_after_leaving(
                    *self, ox as int, oy as int, odir, fx, fy, i));
            }
            assert(forall|i2: int, j2: int| self.in_grid(i2, j2)
                ==> #[trigger] b1.cell(i2, j2) == self.cell(i2, j2));
        }
        b.mark_path(ox, oy, x, y);
        let ghost bp = b;
        proof {
            assert forall|i2: int, j2: int| self.in_grid(i2, j2)
                implies #[trigger] bp.cell(i2, j2) == (if on_path_between(
                        ox as int, oy as int, fx, fy, i2, j2) {
                    Cell::Beam
                } else {
                    self.cell(i2, j2)
                }) by {
                assert(b1.cell(i2, j2) == self.cell(i2, j2));
            }
        }
        let ndir = if x != ox {
            if x > ox {
                Direction::Right
            } else {
                Direction::Left
            }
        } else {
            if y > oy {
                Direction::Down
            } else {
                Direction::Up
            }
        };
        proof {
            assert(manhattan(ox as int, oy as int, fx, fy) <= 2 * (self.size as int) + 2);
            assert(2 * (self.size as int) + 2 <= usize::MAX) by (nonlinear_arith)
                requires
                    (self.size + 2) * (self.size + 2) <= usize::MAX;
        }
        let mut nd = b.nodes[node_index].duplicate();
        nd.move_to(x, y, ndir, cache);
        let newval = nd.value;
        b.nodes[node_index] = nd;
        let ghost b2 = b;
        proof {
            assert(self.moved_node_ok(ni, fx, fy, b.nodes@[ni]));
            assert forall|i2: int| 0 <= i2 < b.nodes@.len()
                implies (#[trigger] b.nodes@[i2]).x <= b.size + 1
                    && b.nodes@[i2].y <= b.size + 1 by {
                if i2 != ni {
                    assert(b.nodes@[i2] == bp.nodes@[i2]);
                }
            }
            assert forall|i2: int, j2: int| b.in_grid(i2, j2)
                implies b.mirror_ok(i2, j2) by {
                assert(b.cell(i2, j2) == bp.cell(i2, j2));
                assert(bp.mirror_ok(i2, j2));
            }
            assert(b.wf());
        }
        if x > 0 && x < b.size + 1 && y > 0 && y < b.size + 1 {
            let cxy = b.cell_at(x, y);
            let place = match cxy {
                Cell::Empty => true,
                _ => false,
            };
            proof {
                assert(!on_path_between(ox as int, oy as int, fx, fy, fx, fy));
                assert(bp.cell(fx, fy) == self.cell(fx, fy));
                assert(b.cell(fx, fy) == bp.cell(fx, fy));
                assert(place == self.move_places_mirror(fx, fy));
            }
            if place {
                b.place_mirror_at(x, y);
            }
        } else {
            proof {
                assert(newval == 1 <==> self.move_resolves(ni, fx, fy));
            }
            if newval == 1 {
                b.remove_resolved_at(node_index, x, y);
            }
        }
        proof {
            assert forall|i2: int, j2: int| self.in_grid(i2, j2)
                implies b.cell(i2, j2) == self.moved_cell(ni, fx, fy, i2, j2) by {
                assert(bp.cell(i2, j2) == (if on_path_between(
                        ox as int, oy as int, fx, fy, i2, j2) {
                    Cell::Beam
                } else {
                    self.cell(i2, j2)
                }));
                assert(b2.cell(i2, j2) == bp.cell(i2, j2));
            }
            assert forall|i2: int, j2: int| b.in_grid(i2, j2)
                implies b.mirror_ok(i2, j2) by {
                assert(b.cell(i2, j2) == self.moved_cell(ni, fx, fy, i2, j2));
                assert(b2.mirror_ok(i2, j2));
                assert(b2.cell(i2, j2) == bp.cell(i2, j2));
                assert(bp.mirror_ok(i2, j2));
            }
            assert(b.wf());
            if self.move_resolves(ni, fx, fy) {
                let fj0 = first_node_at(b2.nodes@, ni, fx, fy, 0);
                let fj = first_node_at(self.nodes@, ni, fx, fy, 0);
                lemma_first_at_le(self.nodes@, ni, fx, fy, 0);
                lemma_first_at_le(b2.nodes@, ni, fx, fy, 0);
                lemma_first_at_agree(b2.nodes@, self.nodes@, ni, fx, fy, 0);
                assert(fj0 == fj);
                assert(b.nodes@ == b2.nodes@.remove(fj));
                assert forall|i2: int| 0 <= i2 < b.nodes@.len()
                    implies ({
                        let src: int = if i2 < fj { i2 } else { i2 + 1 };
                        if src == ni {
                            self.moved_node_ok(ni, fx, fy, #[trigger] b.nodes@[i2])
                        } else {
                            same_node(self.nodes@[src], b.nodes@[i2])
                        }
                    }) by {
                    if i2 < fj {
                        assert(b.nodes@[i2] == b2.nodes@[i2]);
                    } else {
                        assert(b.nodes@[i2] == b2.nodes@[i2 + 1]);
                    }
                }
            }
        }
        b
    }

}

/// The whole effect of `with_moved_node` as one relation between the
/// board before and the board after: the committed mirror, the swept
/// cells, the relocated (or resolved and removed) beam.
pub open spec fn is_move_result(pre: Board, ni: int, x: int, y: int, b: Board) -> bool {
    &&& 0 <= ni < pre.nodes@.len()
    &&& b.wf()
    &&& 0 <= x <= pre.size + 1
    &&& 0 <= y <= pre.size + 1
    &&& ((x == pre.nodes@[ni].x) != (y == pre.nodes@[ni].y))
    &&& b.size == pre.size
    &&& mirror_committed_preserved(pre, b)
    &&& b.mirrors@.len() == pre.mirrors@.len()
        + (if pre.move_places_mirror(x, y) { 1int } else { 0int })
    &&& (forall|i: int| 0 <= i < pre.mirrors@.len()
        ==> b.mirrors@[i] == pre.decided_mirror(ni, x, y, i))
    &&& (pre.move_places_mirror(x, y) ==> b.mirrors@.last() == (Mirror {
        x: x as usize, y: y as usize, mirror_direction: MirrorDirection::Undecided }))
    &&& (forall|i: int, j: int| pre.in_grid(i, j)
        ==> b.cell(i, j) == pre.moved_cell(ni, x, y, i, j))
    &&& (!pre.move_resolves(ni, x, y) ==> b.nodes@.len() == pre.nodes@.len()
        && (forall|i: int| 0 <= i < pre.nodes@.len() && i != ni
            ==> same_node(pre.nodes@[i], #[trigger] b.nodes@[i]))
        && pre.moved_node_ok(ni, x, y, b.nodes@[ni]))
    &&& (pre.move_resolves(ni, x, y) ==> b.nodes@.len() + 1 == pre.nodes@.len()
        && (forall|i: int| 0 <= i < b.nodes@.len()
            ==> {
                let fj = first_node_at(pre.nodes@, ni, x, y, 0);
                let src: int = if i < fj { i } else { i + 1 };
                if src == ni {
                    pre.moved_node_ok(ni, x, y, #[trigger] b.nodes@[i])
                } else {
                    same_node(pre.nodes@[src], b.nodes@[i])
                }
            }))
}

/// Walks from equal positions over equal grids list the same moves.
proof fn lemma_dir_moves_congruent(a: Board, m: Board, na: Node, nm: Node, d: Direction, s: int)
    requires
        a.size == m.size,
        a.grid@ == m.grid@,
        a.mirrors@ == m.mirrors@,
        na.x == nm.x,
        na.y == nm.y,
        na.move_set@ == nm.move_set@,
    ensures
        a.dir_moves(na, d, s) == m.dir_moves(nm, d, s),
    decreases dist_to_bounds(na.x as int, na.y as int, a.size as int, d) - s,
{
    let dist = dist_to_bounds(na.x as int, na.y as int, a.size as int, d);
    if 1 <= s < dist {
        let tx = (na.x as int) + s * d.dx();
        let ty = (na.y as int) + s * d.dy();
        assert(a.cell(tx, ty) == m.cell(tx, ty));
        if !(a.cell(tx, ty) is Mirror) {
            lemma_dir_moves_congruent(a, m, na, nm, d, s + 1);
        }
    }
}

/// Boards that agree field for field generate the same moves for the same
/// beam.
pub proof fn lemma_moves_for_congruent(a: Board, m: Board, na: Node, nm: Node)
    requires
        a.size == m.size,
        a.grid@ == m.grid@,
        a.mirrors@ == m.mirrors@,
        same_node(na, nm),
    ensures
        a.moves_for(na) == m.moves_for(nm),
{
    assert(a.cell(na.x as int, na.y as int) == m.cell(nm.x as int, nm.y as int));
    assert(a.mirror_dir_at(na.x as int, na.y as int) == m.mirror_dir_at(nm.x as int, nm.y as int));
    let dirs = bounce_dirs(na.direction, a.mirror_dir_at(na.x as int, na.y as int));
    lemma_dir_moves_congruent(a, m, na, nm, dirs[0], 1);
    if dirs.len() != 1 {
        lemma_dir_moves_congruent(a, m, na, nm, dirs[1], 1);
    }
}

/// The move relation does not care which of two field-for-field equal
/// boards it starts from.
pub proof fn lemma_move_result_congruent(a: Board, m: Board, ni: int, x: int, y: int, post: Board)
    requires
        same_board(a, m),
        is_move_result(m, ni, x, y, post),
    ensures
        is_move_result(a, ni, x, y, post),
{
    assert(same_node(a.nodes@[ni], m.nodes@[ni]));
    assert(forall|i: int, j: int| a.in_grid(i, j) ==> a.cell(i, j) == m.cell(i, j));
    assert(a.cell(a.nodes@[ni].x as int, a.nodes@[ni].y as int)
        == m.cell(m.nodes@[ni].x as int, m.nodes@[ni].y as int));
    assert forall|i: int| 0 <= i < a.mirrors@.len()
        implies a.decided_mirror(ni, x, y, i) == m.decided_mirror(ni, x, y, i) by {
        assert(same_node(a.nodes@[ni], m.nodes@[ni]));
    }
    assert forall|i: int, j: int| a.in_grid(i, j)
        implies a.moved_cell(ni, x, y, i, j) == m.moved_cell(ni, x, y, i, j) by {
        assert(a.cell(i, j) == m.cell(i, j));
    }
    assert(a.move_places_mirror(x, y) == m.move_places_mirror(x, y));
    assert(a.move_resolves(ni, x, y) == m.move_resolves(ni, x, y));
    if m.move_resolves(ni, x, y) {
        lemma_first_at_agree(a.nodes@, m.nodes@, ni, x, y, 0);
        assert forall|i: int| 0 <= i < post.nodes@.len()
            implies ({
                let fj = first_node_at(a.nodes@, ni, x, y, 0);
                let src: int = if i < fj { i } else { i + 1 };
                if src == ni {
                    a.moved_node_ok(ni, x, y, #[trigger] post.nodes@[i])
                } else {
                    same_node(a.nodes@[src], post.nodes@[i])
                }
            }) by {
            let fj = first_node_at(a.nodes@, ni, x, y, 0);
            let src: int = if i < fj { i } else { i + 1 };
            if src != ni {
                assert(same_node(a.nodes@[src], m.nodes@[src]));
                assert(same_node(m.nodes@[src], post.nodes@[i]));
            }
        }
    }
}

/// For a given start, beam and destination, the move relation pins the
/// new board down to field-for-field agreement.
pub proof fn lemma_move_result_unique(
    pre: Board,
    ni: int,
    x: int,
    y: int,
    b1: Board,
    b2: Board,
)
    requires
        is_move_result(pre, ni, x, y, b1),
        is_move_result(pre, ni, x, y, b2),
    ensures
        same_board(b1, b2),
{
    let side = pre.size as int + 2;
    assert(b1.grid@.len() == b2.grid@.len());
    assert forall|idx: int| 0 <= idx < b1.grid@.len()
        implies b1.grid@[idx] == b2.grid@[idx] by {
        lemma_flat_split(pre.size as int, idx);
        let i = idx / side;
        let j = idx % side;
        assert(pre.in_grid(i, j));
        assert(b1.cell(i, j) == pre.moved_cell(ni, x, y, i, j));
        assert(b2.cell(i, j) == pre.moved_cell(ni, x, y, i, j));
    }
    assert(b1.grid@ =~= b2.grid@);
    assert(b1.mirrors@.len() == b2.mirrors@.len());
    assert forall|i: int| 0 <= i < b1.mirrors@.len()
        implies b1.mirrors@[i] == b2.mirrors@[i] by {
        if i < pre.mirrors@.len() {
            assert(b1.mirrors@[i] == pre.decided_mirror(ni, x, y, i));
            assert(b2.mirrors@[i] == pre.decided_mirror(ni, x, y, i));
        } else {
            assert(pre.move_places_mirror(x, y));
            assert(i == b1.mirrors@.len() - 1);
            assert(b1.mirrors@[i] == b1.mirrors@.last());
            assert(b2.mirrors@[i] == b2.mirrors@.last());
        }
    }
    assert(b1.mirrors@ =~= b2.mirrors@);
    if !pre.move_resolves(ni, x, y) {
        assert(b1.nodes@.len() == b2.nodes@.len());
        assert forall|i: int| 0 <= i < b1.nodes@.len()
            implies same_node(b1.nodes@[i], #[trigger] b2.nodes@[i]) by {
            if i == ni {
                assert(pre.moved_node_ok(ni, x, y, b1.nodes@[ni]));
                assert(pre.moved_node_ok(ni, x, y, b2.nodes@[ni]));
                assert(b1.nodes@[ni].value == b2.nodes@[ni].value);
                crate::factors::lemma_factor_result_unique(
                    b1.nodes@[ni].value, b1.nodes@[ni].move_set@, b2.nodes@[ni].move_set@);
            } else {
                assert(same_node(pre.nodes@[i], b1.nodes@[i]));
                assert(same_node(pre.nodes@[i], b2.nodes@[i]));
            }
        }
    } else {
        let fj = first_node_at(pre.nodes@, ni, x, y, 0);
        assert(b1.nodes@.len() == b2.nodes@.len());
        assert forall|i: int| 0 <= i < b1.nodes@.len()
            implies same_node(b1.nodes@[i], #[trigger] b2.nodes@[i]) by {
            let src: int = if i < fj { i } else { i + 1 };
            if src == ni {
                assert(pre.moved_node_ok(ni, x, y, b1.nodes@[i]));
                assert(pre.moved_node_ok(ni, x, y, b2.nodes@[i]));
                assert(b1.nodes@[i].value == b2.nodes@[i].value);
                crate::factors::lemma_factor_result_unique(
                    b1.nodes@[i].value, b1.nodes@[i].move_set@, b2.nodes@[i].move_set@);
            } else {
                assert(same_node(pre.nodes@[src], b1.nodes@[i]));
                assert(same_node(pre.nodes@[src], b2.nodes@[i]));
            }
        }
    }
}

/// The cell a beam at `n`'s position reaches after `t` steps along `d`.
pub open spec fn ray_target(n: Node, d: Direction, t: int) -> (usize, usize) {
    (((n.x as int) + t * d.dx()) as usize, ((n.y as int) + t * d.dy()) as usize)
}

/// Law (step-exact division): on a well-formed board, a move whose step
/// distance is drawn from the beam's move set divides the value exactly —
/// after the move, the relocated beam's value times the step distance
/// gives the old value back, with no remainder.
pub proof fn lemma_move_divides_exactly(
    pre: Board,
    ni: int,
    x: int,
    y: int,
    d: usize,
    nd: Node,
)
    requires
        pre.wf(),
        0 <= ni < pre.nodes@.len(),
        d as int == manhattan(pre.nodes@[ni].x as int, pre.nodes@[ni].y as int, x, y),
        pre.nodes@[ni].move_set@.contains(d),
        pre.moved_node_ok(ni, x, y, nd),
    ensures
        nd.value * d == pre.nodes@[ni].value,
        pre.nodes@[ni].value >= 1 ==> nd.value >= 1,
{
    let v = pre.nodes@[ni].value;
    let ms = pre.nodes@[ni].move_set@;
    assert(factor_result(v, ms));
    let i = choose|i: int| 0 <= i < ms.len() && ms[i] == d;
    if v == 0 {
        // The degenerate divisor list of 0 holds only the unit step.
        assert(ms[i] == 1 && nd.value == 0);
    } else {
        assert(1 <= ms[i] <= v && v as int % (ms[i] as int) == 0);
        vstd::arithmetic::div_mod::lemma_fundamental_div_mod(v as int, d as int);
        let q = v as int / d as int;
        assert(v == d * q);
        assert(nd.value == q);
        assert(q * d == v && q >= 1) by (nonlinear_arith)
            requires v == d * q, 1 <= d <= v;
    }
}

/// Every cell a mirror-free walk lists lies on the ray at a distance from
/// the move set, and conversely every such distance whose cell is not
/// swept is listed.
proof fn lemma_dir_moves_membership(b: Board, n: Node, d: Direction, s: int)
    requires
        b.wf(),
        n.x <= b.size + 1,
        n.y <= b.size + 1,
        1 <= s,
        forall|t: int| s <= t < dist_to_bounds(n.x as int, n.y as int, b.size as int, d)
            ==> !(#[trigger] b.cell((n.x as int) + t * d.dx(), (n.y as int) + t * d.dy())
                is Mirror),
    ensures
        forall|p: (usize, usize)| #[trigger] b.dir_moves(n, d, s).contains(p)
            ==> exists|t: int| s <= t < dist_to_bounds(
                    n.x as int, n.y as int, b.size as int, d)
                && p == ray_target(n, d, t)
                && n.move_set@.contains(t as usize)
                && !(b.cell((n.x as int) + t * d.dx(), (n.y as int) + t * d.dy()) is Beam),
        forall|t: int| s <= t < dist_to_bounds(n.x as int, n.y as int, b.size as int, d)
            && n.move_set@.contains(t as usize)
            && !(b.cell((n.x as int) + t * d.dx(), (n.y as int) + t * d.dy()) is Beam)
            ==> #[trigger] b.dir_moves(n, d, s).contains(ray_target(n, d, t)),
    decreases dist_to_bounds(n.x as int, n.y as int, b.size as int, d) - s,
{
    let dist = dist_to_bounds(n.x as int, n.y as int, b.size as int, d);
    if s < dist {
        let tx = (n.x as int) + s * d.dx();
        let ty = (n.y as int) + s * d.dy();
        assert(!(b.cell(tx, ty) is Mirror));
        let here: Seq<(usize, usize)> = if n.move_set@.contains(s as usize)
            && !(b.cell(tx, ty) is Beam) {
            seq![ray_target(n, d, s)]
        } else {
            Seq::empty()
        };
        assert(b.dir_moves(n, d, s) == here + b.dir_moves(n, d, s + 1));
        lemma_dir_moves_membership(b, n, d, s + 1);
        assert forall|p: (usize, usize)| #[trigger] b.dir_moves(n, d, s).contains(p)
            implies exists|t: int| s <= t < dist
                && p == ray_target(n, d, t)
                && n.move_set@.contains(t as usize)
                && !(b.cell((n.x as int) + t * d.dx(), (n.y as int) + t * d.dy()) is Beam) by {
            let j = choose|j: int| 0 <= j < b.dir_moves(n, d, s).len()
                && (#[trigger] b.dir_moves(n, d, s)[j]) == p;
            if j < here.len() {
                assert(p == ray_target(n, d, s));
                assert(s <= s < dist && p == ray_target(n, d, s)
                    && n.move_set@.contains(s as usize) && !(b.cell(tx, ty) is Beam));
            } else {
                assert(b.dir_moves(n, d, s + 1)[j - here.len()] == p);
                assert(b.dir_moves(n, d, s + 1).contains(p));
            }
        }
        assert forall|t: int| s <= t < dist
            && n.move_set@.contains(t as usize)
            && !(b.cell((n.x as int) + t * d.dx(), (n.y as int) + t * d.dy()) is Beam)
            implies #[trigger] b.dir_moves(n, d, s).contains(ray_target(n, d, t)) by {
            if t == s {
                assert(here[0] == ray_target(n, d, s));
                assert(b.dir_moves(n, d, s)[0] == ray_target(n, d, s));
            } else {
                assert(b.dir_moves(n, d, s + 1).contains(ray_target(n, d, t)));
                let j = choose|j: int| 0 <= j < b.dir_moves(n, d, s + 1).len()
                    && (#[trigger] b.dir_moves(n, d, s + 1)[j]) == ray_target(n, d, t);
                assert(b.dir_moves(n, d, s)[here.len() + j] == ray_target(n, d, t));
            }
        }
    }
}

/// A step along the ray stays on the grid, and the target's coordinates
/// read back as the exact offsets.
proof fn lemma_ray_bounds(b: Board, n: Node, d: Direction, t: int)
    requires
        b.size + 2 <= usize::MAX,
        n.x <= b.size + 1,
        n.y <= b.size + 1,
        1 <= t < dist_to_bounds(n.x as int, n.y as int, b.size as int, d),
    ensures
        0 <= (n.x as int) + t * d.dx() <= b.size + 1,
        0 <= (n.y as int) + t * d.dy() <= b.size + 1,
        ray_target(n, d, t).0 as int == (n.x as int) + t * d.dx(),
        ray_target(n, d, t).1 as int == (n.y as int) + t * d.dy(),
{
    match d {
        Direction::Up => {
            assert(t * (0int) == 0 && t * (-1int) == -t);
        },
        Direction::Down => {
            assert(t * (0int) == 0 && t * (1int) == t);
        },
        Direction::Left => {
            assert(t * (0int) == 0 && t * (-1int) == -t);
        },
        Direction::Right => {
            assert(t * (0int) == 0 && t * (1int) == t);
        },
    }
}

/// Distinct step distances along one ray land on distinct cells.
proof fn lemma_ray_inj(b: Board, n: Node, d: Direction, t: int, t2: int)
    requires
        b.size + 2 <= usize::MAX,
        n.x <= b.size + 1,
        n.y <= b.size + 1,
        1 <= t < dist_to_bounds(n.x as int, n.y as int, b.size as int, d),
        1 <= t2 < dist_to_bounds(n.x as int, n.y as int, b.size as int, d),
        ray_target(n, d, t) == ray_target(n, d, t2),
    ensures
        t == t2,
{
    lemma_ray_bounds(b, n, d, t);
    lemma_ray_bounds(b, n, d, t2);
    match d {
        Direction::Up => {
            assert(t * (-1int) == -t && t2 * (-1int) == -t2);
        },
        Direction::Down => {
            assert(t * (1int) == t && t2 * (1int) == t2);
        },
        Direction::Left => {
            assert(t * (-1int) == -t && t2 * (-1int) == -t2);
        },
        Direction::Right => {
            assert(t * (1int) == t && t2 * (1int) == t2);
        },
    }
}

/// Law (two-divisor walks): for a beam whose move set is exactly
/// `{big, 1}`, a walk along `d` that crosses no mirror lists exactly the
/// cells at step distances 1 and `big` — each present precisely when it is
/// in range and not blocked by a swept cell.
pub proof fn lemma_two_step_moves(b: Board, n: Node, d: Direction, big: usize)
    requires
        b.wf(),
        n.x <= b.size + 1,
        n.y <= b.size + 1,
        n.move_set@ == seq![big, 1usize],
        forall|t: int| 1 <= t < dist_to_bounds(n.x as int, n.y as int, b.size as int, d)
            ==> !(#[trigger] b.cell((n.x as int) + t * d.dx(), (n.y as int) + t * d.dy())
                is Mirror),
    ensures
        forall|t: int| 1 <= t < dist_to_bounds(n.x as int, n.y as int, b.size as int, d)
            ==> (#[trigger] b.dir_moves(n, d, 1).contains(ray_target(n, d, t))
                <==> ((t == big || t == 1)
                    && !(b.cell((n.x as int) + t * d.dx(), (n.y as int) + t * d.dy())
                        is Beam))),
{
    let dist = dist_to_bounds(n.x as int, n.y as int, b.size as int, d);
    lemma_dir_moves_membership(b, n, d, 1);
    assert forall|t: int| 1 <= t < dist
        implies (#[trigger] b.dir_moves(n, d, 1).contains(ray_target(n, d, t))
            <==> ((t == big || t == 1)
                && !(b.cell((n.x as int) + t * d.dx(), (n.y as int) + t * d.dy())
                    is Beam))) by {
        assert(dist <= b.size + 2);
        if b.dir_moves(n, d, 1).contains(ray_target(n, d, t)) {
            let t2 = choose|t2: int| 1 <= t2 < dist
                && ray_target(n, d, t) == ray_target(n, d, t2)
                && n.move_set@.contains(t2 as usize)
                && !(b.cell((n.x as int) + t2 * d.dx(), (n.y as int) + t2 * d.dy()) is Beam);
            // Distinct step distances land on distinct cells of the ray.
            lemma_ray_inj(b, n, d, t, t2);
            assert(t2 == t);
            assert(n.move_set@.contains(t as usize));
            assert(n.move_set@[0] == big && n.move_set@[1] == 1usize);
            let j = choose|j: int| 0 <= j < n.move_set@.len() && n.move_set@[j] == t as usize;
            assert(j == 0 || j == 1);
        }
        if (t == big || t == 1)
            && !(b.cell((n.x as int) + t * d.dx(), (n.y as int) + t * d.dy()) is Beam) {
            if t == 1 {
                assert(n.move_set@[1] == 1usize);
                assert(n.move_set@.contains(t as usize));
            } else {
                assert(n.move_set@[0] == big);
                assert(n.move_set@.contains(t as usize));
            }
            assert(b.dir_moves(n, d, 1).contains(ray_target(n, d, t)));
        }
    }
}

} // verus!
