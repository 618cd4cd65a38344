//! The depth-first search over board snapshots, and the post-solve scoring
//! walk along the border of a solved board.

use vstd::prelude::*;

verus! {

use crate::board::{
    is_move_result, lemma_move_result_congruent, lemma_move_result_unique,
    lemma_moves_for_congruent, mirror_committed_preserved, same_board, Board, Cell,
};
use crate::factors::FactorCache;
use crate::geometry::{
    dist_to_bounds, get_distance_to_bounds, mirror_bounce, Direction, MirrorDirection,
};
use crate::node::{same_node, Node};

/// The direction a scoring walk enters the board in, fixed by which border
/// edge the entry cell sits on.
pub open spec fn entry_direction(board: Board, x: int, y: int) -> Direction {
    if x == 0 {
        Direction::Right
    } else if x == board.size + 1 {
        Direction::Left
    } else if y == 0 {
        Direction::Down
    } else {
        Direction::Up
    }
}

/// No mirror stands on the entry cell or anywhere along its ray to the far
/// border.
pub open spec fn entry_ray_clear(board: Board, x: int, y: int) -> bool {
    let d = entry_direction(board, x, y);
    let dist = dist_to_bounds(x, y, board.size as int, d);
    &&& !(board.cell(x, y) is Mirror)
    &&& forall|t: int| 1 <= t < dist
        ==> !(#[trigger] board.cell(x + t * d.dx(), y + t * d.dy()) is Mirror)
}

/// The walk from `(x, y)` meets exactly one mirror, `k` steps in: the ray
/// up to it is clear, the mirror is committed (so it bounces one way), it
/// stands in the interior, and the ray it deflects onto runs clear to the
/// border.
pub open spec fn single_mirror_hop(board: Board, x: int, y: int, k: int) -> bool {
    let d = entry_direction(board, x, y);
    let dist = dist_to_bounds(x, y, board.size as int, d);
    let mx = x + k * d.dx();
    let my = y + k * d.dy();
    let d2 = crate::geometry::bounce_dirs(d, board.mirror_dir_at(mx, my))[0];
    let dist2 = dist_to_bounds(mx, my, board.size as int, d2);
    &&& 1 <= k < dist
    &&& !(board.cell(x, y) is Mirror)
    &&& (forall|t: int| 1 <= t < k
        ==> !(#[trigger] board.cell(x + t * d.dx(), y + t * d.dy()) is Mirror))
    &&& board.cell(mx, my) is Mirror
    &&& board.in_interior(mx, my)
    &&& (board.mirror_dir_at(mx, my) == MirrorDirection::Slash
        || board.mirror_dir_at(mx, my) == MirrorDirection::Backslash)
    &&& (forall|t: int| 1 <= t < dist2
        ==> !(#[trigger] board.cell(mx + t * d2.dx(), my + t * d2.dy()) is Mirror))
}

/// The score of such a walk: the mirror distance times the length of the
/// deflected leg.
pub open spec fn hop_score(board: Board, x: int, y: int, k: int) -> int {
    let d = entry_direction(board, x, y);
    let mx = x + k * d.dx();
    let my = y + k * d.dy();
    let d2 = crate::geometry::bounce_dirs(d, board.mirror_dir_at(mx, my))[0];
    let dist2 = dist_to_bounds(mx, my, board.size as int, d2);
    k * (dist2 - 1)
}

/// At most one mirror distance fits the single-mirror description.
proof fn lemma_hop_unique(board: Board, x: int, y: int, k: int, k2: int)
    requires
        single_mirror_hop(board, x, y, k),
        single_mirror_hop(board, x, y, k2),
    ensures
        k == k2,
{
    let d = entry_direction(board, x, y);
    if k < k2 {
        assert(!(board.cell(x + k * d.dx(), y + k * d.dy()) is Mirror));
    } else if k2 < k {
        assert(!(board.cell(x + k2 * d.dx(), y + k2 * d.dy()) is Mirror));
    }
}

/// One search expansion: the first queued beam takes one of its generated
/// legal moves.
pub open spec fn search_step(pre: Board, post: Board) -> bool {
    exists|x: int, y: int|
        pre.nodes@.len() > 0 && #[trigger] is_move_result(pre, 0, x, y, post)
            && pre.moves_for(pre.nodes@[0]).contains(((x as usize), (y as usize)))
}

/// `end` is reached from `start` by exactly `k` search expansions.
pub open spec fn search_reaches(start: Board, end: Board, k: nat) -> bool
    decreases k,
{
    if k == 0 {
        same_board(start, end)
    } else {
        exists|mid: Board| #[trigger] search_step(start, mid)
            && search_reaches(mid, end, (k - 1) as nat)
    }
}

/// `end` is reached from `start` by some chain of search expansions.
pub open spec fn reachable(start: Board, end: Board) -> bool {
    exists|k: nat| search_reaches(start, end, k)
}

/// Every board agrees with itself.
proof fn lemma_same_board_refl(a: Board)
    ensures
        same_board(a, a),
{
    assert forall|i: int| 0 <= i < a.nodes@.len()
        implies same_node(a.nodes@[i], #[trigger] a.nodes@[i]) by {
    }
}

/// Field-for-field agreement is symmetric.
proof fn lemma_same_board_sym(a: Board, b: Board)
    requires
        same_board(a, b),
    ensures
        same_board(b, a),
{
    assert forall|i: int| 0 <= i < b.nodes@.len()
        implies same_node(b.nodes@[i], #[trigger] a.nodes@[i]) by {
        assert(same_node(a.nodes@[i], b.nodes@[i]));
    }
}

/// Boards that agree field for field reach exactly the same ends.
proof fn lemma_reaches_congruent(a: Board, m: Board, e: Board, k: nat)
    requires
        same_board(a, m),
        search_reaches(m, e, k),
    ensures
        search_reaches(a, e, k),
    decreases k,
{
    if k == 0 {
        assert(same_board(m, e));
        assert forall|i: int| 0 <= i < a.nodes@.len()
            implies same_node(a.nodes@[i], #[trigger] e.nodes@[i]) by {
            assert(same_node(a.nodes@[i], m.nodes@[i]));
            assert(same_node(m.nodes@[i], e.nodes@[i]));
        }
        assert(same_board(a, e));
        assert(search_reaches(a, e, 0));
    } else {
        let mid = choose|mid: Board| search_step(m, mid)
            && search_reaches(mid, e, (k - 1) as nat);
        let (x, y) = choose|x: int, y: int| m.nodes@.len() > 0
            && is_move_result(m, 0, x, y, mid)
            && m.moves_for(m.nodes@[0]).contains(((x as usize), (y as usize)));
        lemma_move_result_congruent(a, m, 0, x, y, mid);
        assert(same_node(a.nodes@[0], m.nodes@[0]));
        lemma_moves_for_congruent(a, m, a.nodes@[0], m.nodes@[0]);
        assert(search_step(a, mid));
        assert(search_reaches(a, e, k));
    }
}

/// A solved board has no expansions, so it reaches only boards that agree
/// with it.
proof fn lemma_solved_reaches_only_itself(s: Board, e: Board, k: nat)
    requires
        s.nodes@.len() == 0,
        search_reaches(s, e, k),
    ensures
        same_board(s, e),
{
    if k != 0 {
        let mid = choose|mid: Board| search_step(s, mid)
            && search_reaches(mid, e, (k - 1) as nat);
        let (x, y) = choose|x: int, y: int| s.nodes@.len() > 0
            && is_move_result(s, 0, x, y, mid)
            && s.moves_for(s.nodes@[0]).contains(((x as usize), (y as usize)));
        assert(false);
    }
}

/// Law (orientation permanence): once a mirror's orientation has committed
/// away from `Undecided`, no board later in the search lineage changes it.
pub proof fn lemma_committed_mirrors_stable(s: Board, e: Board, k: nat)
    requires
        search_reaches(s, e, k),
    ensures
        mirror_committed_preserved(s, e),
    decreases k,
{
    if k == 0 {
        assert(same_board(s, e));
        assert forall|i: int| 0 <= i < s.mirrors@.len()
            && (#[trigger] s.mirrors@[i]).mirror_direction != MirrorDirection::Undecided
            implies e.mirrors@[i] == s.mirrors@[i] by {
        }
    } else {
        let mid = choose|mid: Board| search_step(s, mid)
            && search_reaches(mid, e, (k - 1) as nat);
        let (x, y) = choose|x: int, y: int| s.nodes@.len() > 0
            && is_move_result(s, 0, x, y, mid)
            && s.moves_for(s.nodes@[0]).contains(((x as usize), (y as usize)));
        lemma_committed_mirrors_stable(mid, e, (k - 1) as nat);
        assert forall|i: int| 0 <= i < s.mirrors@.len()
            && (#[trigger] s.mirrors@[i]).mirror_direction != MirrorDirection::Undecided
            implies e.mirrors@[i] == s.mirrors@[i] by {
            assert(mid.mirrors@[i] == s.mirrors@[i]);
            assert(mid.mirrors@[i].mirror_direction != MirrorDirection::Undecided);
        }
    }
}

/// The search driver.  It owns the starting board and the factor cache the
/// move generation draws from.
pub struct Solver {
    pub board: Board,
    pub cache: FactorCache,
}

/// Whether a position is in the exclusion list.
fn pos_banned(v: &Vec<(usize, usize)>, x: usize, y: usize) -> (b: bool)
    ensures
        b == v@.contains((x, y)),
{
    let mut i: usize = 0;
    while i < v.len()
        invariant
            i <= v@.len(),
            forall|j: int| 0 <= j < i ==> v@[j] != (x, y),
        decreases v@.len() - i,
    {
        let (px, py) = v[i];
        if px == x && py == y {
            return true;
        }
        i = i + 1;
    }
    false
}

/// Multiplication that pins at the top of the range instead of wrapping.
fn sat_mul(a: usize, b: usize) -> (r: usize)
    ensures
        a * b <= usize::MAX ==> r == a * b,
        a * b > usize::MAX ==> r == usize::MAX,
        a >= 1 && b >= 1 ==> r >= 1,
{
    proof {
        if a >= 1 && b >= 1 {
            assert(a * b >= 1) by (nonlinear_arith)
                requires a >= 1, b >= 1;
        }
    }
    match a.checked_mul(b) {
        Some(v) => v,
        None => usize::MAX,
    }
}

impl Solver {
    pub fn new(board: Board) -> (s: Solver)
        ensures
            s.board == board,
            s.cache.wf(),
    {
        Solver { board, cache: FactorCache::new() }
    }

    /// One depth-limited branch of the search: expand the first queued
    /// beam of `board` through each of its generated moves, in list order,
    /// and return the first solution a branch yields.  `None` is
    /// definitive for the whole subtree: no chain of at most `depth_left`
    /// expansions from `board` ends in a solved board.
    #[verifier::loop_isolation(false)]
    #[verifier::rlimit(100)]
    fn dfs(&mut self, board: &Board, depth_left: usize) -> (r: Option<Board>)
        requires
            old(self).cache.wf(),
            board.wf(),
        ensures
            final(self).board == old(self).board,
            final(self).cache.wf(),
            r matches Some(sol) ==> sol.wf() && sol.nodes@.len() == 0
                && sol.size == board.size && reachable(*board, sol),
            r is None ==> forall|sol: Board, k: nat| k <= depth_left
                && search_reaches(*board, sol, k) ==> sol.nodes@.len() > 0,
        decreases depth_left,
    {
        if board.nodes.len() == 0 {
            let sol = board.duplicate();
            proof {
                crate::board::lemma_same_board_wf(*board, sol);
                assert(search_reaches(*board, sol, 0));
            }
            return Some(sol);
        }
        if depth_left == 0 {
            proof {
                assert forall|sol: Board, k: nat| k <= 0 && search_reaches(*board, sol, k)
                    implies sol.nodes@.len() > 0 by {
                    assert(same_board(*board, sol));
                }
            }
            return None;
        }
        let moves = board.find_possible_moves(0);
        let ghost mut kids: Seq<Board> = Seq::empty();
        let mut i: usize = 0;
        while i < moves.len()
            invariant
                i <= moves@.len(),
                self.cache.wf(),
                self.board == old(self).board,
                kids.len() == i,
                forall|j: int| 0 <= j < i ==> is_move_result(
                    *board, 0, moves@[j].0 as int, moves@[j].1 as int, #[trigger] kids[j]),
                forall|j: int, sol: Board, k: nat| 0 <= j < i && k <= depth_left - 1
                    && #[trigger] search_reaches(kids[j], sol, k)
                    ==> sol.nodes@.len() > 0,
            decreases moves@.len() - i,
        {
            let (mx, my) = moves[i];
            let nb = board.with_moved_node(0, mx, my, &mut self.cache);
            let sub = self.dfs(&nb, depth_left - 1);
            match sub {
                Some(sol) => {
                    proof {
                        assert(is_move_result(*board, 0, mx as int, my as int, nb));
                        assert(board.moves_for(board.nodes@[0]).contains((mx, my)));
                        assert(search_step(*board, nb));
                        let k = choose|k: nat| search_reaches(nb, sol, k);
                        assert(search_reaches(*board, sol, (k + 1) as nat));
                    }
                    return Some(sol);
                },
                None => {
                    proof {
                        kids = kids.push(nb);
                    }
                },
            }
            i = i + 1;
        }
        proof {
            // Every branch came back empty, so no short chain out of this
            // board reaches a solved board: its first expansion would be
            // one of the generated moves, whose subtree was refuted.
            assert forall|sol: Board, k: nat| k <= depth_left
                && search_reaches(*board, sol, k) implies sol.nodes@.len() > 0 by {
                if sol.nodes@.len() == 0 {
                    if k == 0 {
                        assert(same_board(*board, sol));
                        assert(false);
                    } else {
                        let mid = choose|mid: Board| search_step(*board, mid)
                            && search_reaches(mid, sol, (k - 1) as nat);
                        let (xx, yy) = choose|xx: int, yy: int| board.nodes@.len() > 0
                            && is_move_result(*board, 0, xx, yy, mid)
                            && board.moves_for(board.nodes@[0]).contains(
                                ((xx as usize), (yy as usize)));
                        assert(moves@.contains(((xx as usize), (yy as usize))));
                        let j = choose|j: int| 0 <= j < moves@.len()
                            && moves@[j] == ((xx as usize), (yy as usize));
                        assert(moves@[j].0 as int == xx && moves@[j].1 as int == yy);
                        lemma_move_result_unique(*board, 0, xx, yy, kids[j], mid);
                        lemma_reaches_congruent(kids[j], mid, sol, (k - 1) as nat);
                        assert(search_reaches(kids[j], sol, (k - 1) as nat));
                        assert(false);
                    }
                }
            }
        }
        None
    }

    /// Depth-first search: repeatedly expand the first beam of the queue;
    /// a board with an empty queue is a solution and is returned at once.
    /// An already-solved board comes back unchanged; any solution returned
    /// is reached from the starting board by a chain of generated moves,
    /// and `None` settles the question: no chain of at most `usize::MAX`
    /// moves solves the board.  The depth bound only exists so the
    /// recursion has a measure; no feasible search can tell it from no
    /// bound at all.
    pub fn solve(&mut self) -> (r: Option<Board>)
        requires
            old(self).board.wf(),
            old(self).cache.wf(),
        ensures
            final(self).board == old(self).board,
            final(self).cache.wf(),
            r matches Some(sol) ==> sol.wf() && sol.nodes@.len() == 0
                && sol.size == old(self).board.size
                && reachable(old(self).board, sol),
            old(self).board.nodes@.len() == 0 ==> (r matches Some(sol)
                && same_board(sol, old(self).board)),
            r is None ==> old(self).board.nodes@.len() > 0,
            r is None ==> forall|sol: Board, k: nat| k <= usize::MAX
                && search_reaches(old(self).board, sol, k) ==> sol.nodes@.len() > 0,
    {
        let start = self.board.duplicate();
        proof {
            crate::board::lemma_same_board_wf(self.board, start);
        }
        let r = self.dfs(&start, usize::MAX);
        proof {
            lemma_same_board_sym(self.board, start);
            match &r {
                Some(sol) => {
                    let k = choose|k: nat| search_reaches(start, *sol, k);
                    lemma_reaches_congruent(self.board, start, *sol, k);
                    assert(reachable(self.board, *sol));
                    if self.board.nodes@.len() == 0 {
                        lemma_solved_reaches_only_itself(self.board, *sol, k);
                        lemma_same_board_sym(self.board, *sol);
                    }
                },
                None => {
                    assert forall|sol: Board, k: nat| k <= usize::MAX
                        && search_reaches(self.board, sol, k)
                        implies sol.nodes@.len() > 0 by {
                        lemma_reaches_congruent(start, self.board, sol, k);
                    }
                    lemma_same_board_refl(self.board);
                    assert(search_reaches(self.board, self.board, 0));
                    assert(self.board.nodes@.len() > 0);
                },
            }
        }
        r
    }

    /// Walks a fresh unit beam in from the border cell `(x, y)` of a
    /// solved board, multiplying up the step distance of every hop between
    /// mirrors, until the beam leaves through the border ring again.
    /// Excluded positions (the beams' own entry points) score 0 at once;
    /// every real walk scores at least 1.  A walk over a clear ray scores
    /// its exact length; a walk over a single committed mirror scores the
    /// product of its two legs.  The hop count is capped at the machine
    /// word, so a board with a closed mirror circuit stops scoring there
    /// instead of circling forever.
    #[verifier::loop_isolation(false)]
    #[verifier::rlimit(100)]
    pub fn board_traverse(
        &self,
        board: &Board,
        x: usize,
        y: usize,
        banned_positions: Vec<(usize, usize)>,
    ) -> (r: usize)
        requires
            board.wf(),
            x <= board.size + 1,
            y <= board.size + 1,
            x == 0 || x == board.size + 1 || y == 0 || y == board.size + 1,
        ensures
            r == 0 <==> banned_positions@.contains((x, y)),
            (!banned_positions@.contains((x, y)) && entry_ray_clear(*board, x as int, y as int)
                && dist_to_bounds(x as int, y as int, board.size as int,
                    entry_direction(*board, x as int, y as int)) >= 2)
                ==> r == dist_to_bounds(x as int, y as int, board.size as int,
                    entry_direction(*board, x as int, y as int)) - 1,
            forall|k: int| (!banned_positions@.contains((x, y))
                && single_mirror_hop(*board, x as int, y as int, k)
                && #[trigger] hop_score(*board, x as int, y as int, k) <= usize::MAX)
                ==> r == hop_score(*board, x as int, y as int, k),
    {
        if pos_banned(&banned_positions, x, y) {
            return 0;
        }
        let ghost gdir = entry_direction(*board, x as int, y as int);
        let ghost gdist = dist_to_bounds(x as int, y as int, board.size as int, gdir);
        let ghost prem = entry_ray_clear(*board, x as int, y as int) && gdist >= 2;
        let ghost hask = exists|k: int| single_mirror_hop(*board, x as int, y as int, k);
        let ghost k0: int = if hask {
            choose|k: int| single_mirror_hop(*board, x as int, y as int, k)
        } else {
            0
        };
        let ghost prem2 = hask && hop_score(*board, x as int, y as int, k0) <= usize::MAX;
        let ghost gmx: int = (x as int) + k0 * gdir.dx();
        let ghost gmy: int = (y as int) + k0 * gdir.dy();
        let ghost gd2 = crate::geometry::bounce_dirs(
            gdir, board.mirror_dir_at(gmx, gmy))[0];
        let ghost gdist2 = dist_to_bounds(gmx, gmy, board.size as int, gd2);
        proof {
            if prem2 {
                assert(single_mirror_hop(*board, x as int, y as int, k0));
                assert(gdist2 >= 2);
                assert(k0 <= usize::MAX);
            }
        }
        let mut result: usize = 1;
        let dir = if x == 0 {
            Direction::Right
        } else if x == board.size + 1 {
            Direction::Left
        } else if y == 0 {
            Direction::Down
        } else {
            Direction::Up
        };
        let mut unit_set: Vec<usize> = Vec::new();
        unit_set.push(1);
        let mut node = Node { x, y, direction: dir, value: 1, move_set: unit_set };
        proof {
            assert(dir == gdir);
        }
        let mut hops: usize = 0;
        let mut done = false;
        while hops < usize::MAX && !done
            invariant
                result >= 1,
                node.x <= board.size + 1,
                node.y <= board.size + 1,
                prem ==> hops == 0 && !done && node.x == x && node.y == y
                    && node.direction == gdir && result == 1,
                prem2 ==> !done && ((hops == 0 && node.x == x && node.y == y
                        && node.direction == gdir && result == 1)
                    || (hops == 1 && node.x as int == gmx && node.y as int == gmy
                        && node.direction == gdir && result == k0)),
            decreases usize::MAX - hops,
        {
            hops = hops + 1;
            let mirror = board.get_mirror(node.x, node.y);
            let dirs = mirror_bounce(&node, mirror);
            let mut di: usize = 0;
            proof {
                if prem {
                    assert(!(board.cell(x as int, y as int) is Mirror));
                    assert(mirror is None);
                    assert(dirs@ =~= seq![gdir]);
                }
                if prem2 {
                    assert(single_mirror_hop(*board, x as int, y as int, k0));
                    if hops == 1 {
                        assert(!(board.cell(x as int, y as int) is Mirror));
                        assert(mirror is None);
                        assert(dirs@ =~= seq![gdir]);
                    } else {
                        assert(board.cell(gmx, gmy) is Mirror);
                        assert(mirror is Some);
                        assert(crate::geometry::orientation_of(mirror)
                            == board.mirror_dir_at(gmx, gmy));
                        assert(dirs@ =~= seq![gd2]);
                    }
                }
            }
            while di < dirs.len()
                invariant
                    di <= dirs@.len(),
                    result >= 1,
                    node.x <= board.size + 1,
                    node.y <= board.size + 1,
                    prem ==> di == 0 && node.x == x && node.y == y && result == 1
                        && dirs@ =~= seq![gdir],
                    prem2 ==> 1 <= hops <= 2,
                    prem2 && hops == 1 ==> dirs@ =~= seq![gdir]
                        && ((di == 0 && node.x == x && node.y == y
                                && node.direction == gdir && result == 1)
                            || (di == 1 && node.x as int == gmx && node.y as int == gmy
                                && node.direction == gdir && result == k0)),
                    prem2 && hops == 2 ==> dirs@ =~= seq![gd2] && di == 0
                        && node.x as int == gmx && node.y as int == gmy
                        && node.direction == gdir && result == k0,
                decreases dirs@.len() - di,
            {
                let d = dirs[di];
                let dist = get_distance_to_bounds(node.x, node.y, board.size, d);
                let gx = node.x;
                let gy = node.y;
                let mut step: usize = 1;
                let mut hit = false;
                proof {
                    if prem {
                        assert(d == gdir && dist == gdist);
                    }
                    if prem2 && hops == 1 {
                        assert(d == gdir && dist == gdist);
                    }
                    if prem2 && hops == 2 {
                        assert(d == gd2 && dist == gdist2);
                    }
                }
                while step < dist && !hit
                    invariant
                        1 <= step,
                        result >= 1,
                        node.x <= board.size + 1,
                        node.y <= board.size + 1,
                        !hit ==> node.x == gx && node.y == gy,
                        dist == crate::geometry::dist_to_bounds(
                            gx as int, gy as int, board.size as int, d),
                        prem ==> step <= gdist - 1 && !hit && node.x == x && node.y == y
                            && result == 1 && d == gdir && dist == gdist,
                        prem2 ==> 1 <= hops <= 2,
                        prem2 && hops == 1 ==> d == gdir && dist == gdist
                            && ((!hit && step <= k0 && node.x == x && node.y == y
                                    && node.direction == gdir && result == 1)
                                || (hit && node.x as int == gmx && node.y as int == gmy
                                    && node.direction == gdir && result == k0)),
                        prem2 && hops == 2 ==> d == gd2 && dist == gdist2 && !hit
                            && step <= gdist2 - 1 && node.x as int == gmx
                            && node.y as int == gmy && node.direction == gdir
                            && result == k0,
                    decreases dist - step,
                {
                    let (tx, ty) = match d {
                        Direction::Up => (node.x, node.y - step),
                        Direction::Down => (node.x, node.y + step),
                        Direction::Left => (node.x - step, node.y),
                        Direction::Right => (node.x + step, node.y),
                    };
                    let c = board.cell_at(tx, ty);
                    proof {
                        assert(tx as int == (node.x as int) + step * d.dx()
                            && ty as int == (node.y as int) + step * d.dy()) by {
                            assert(step * 1int == step && step * (-1int) == -(step as int)
                                && step * 0int == 0);
                        }
                        if prem {
                            assert(!(board.cell(tx as int, ty as int) is Mirror));
                        }
                        if prem2 {
                            assert(single_mirror_hop(*board, x as int, y as int, k0));
                            if hops == 1 && step < k0 {
                                assert(!(board.cell(tx as int, ty as int) is Mirror));
                            }
                            if hops == 1 && step == k0 {
                                assert(tx as int == gmx && ty as int == gmy);
                                assert(board.cell(tx as int, ty as int) is Mirror);
                            }
                            if hops == 2 {
                                assert(!(board.cell(tx as int, ty as int) is Mirror));
                            }
                        }
                    }
                    let is_mirror = match c {
                        Cell::Mirror(_) => true,
                        _ => false,
                    };
                    if is_mirror {
                        let ndir = if tx < node.x {
                            Direction::Left
                        } else if tx > node.x {
                            Direction::Right
                        } else if ty < node.y {
                            Direction::Up
                        } else {
                            Direction::Down
                        };
                        node.x = tx;
                        node.y = ty;
                        node.direction = ndir;
                        result = sat_mul(result, step);
                        hit = true;
                    } else {
                        if step == dist - 1 {
                            let rr = sat_mul(result, step);
                            proof {
                                assert forall|k: int| (!banned_positions@.contains((x, y))
                                    && single_mirror_hop(*board, x as int, y as int, k)
                                    && #[trigger] hop_score(*board, x as int, y as int, k)
                                        <= usize::MAX)
                                    implies rr == hop_score(*board, x as int, y as int, k) by {
                                    assert(hask);
                                    assert(single_mirror_hop(*board, x as int, y as int, k0));
                                    lemma_hop_unique(*board, x as int, y as int, k, k0);
                                    assert(prem2);
                                    assert(hops == 2);
                                }
                            }
                            return rr;
                        }
                    }
                    step = step + 1;
                }
                di = di + 1;
            }
            if node.x == 0 || node.x == board.size + 1 || node.y == 0
                || node.y == board.size + 1 {
                done = true;
            }
        }
        result
    }
}

} // verus!
