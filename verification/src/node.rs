//! A beam ("node"): position, travel direction, remaining value, and the
//! derived move set — the divisors of the current value, largest first.

use vstd::prelude::*;

verus! {

use crate::factors::{factor_result, FactorCache};
use crate::geometry::Direction;

/// An active beam.  `move_set` caches the divisors of `value` and must be
/// recomputed whenever `value` changes.
#[derive(Debug)]
pub struct Node {
    pub x: usize,
    pub y: usize,
    pub direction: Direction,
    pub value: usize,
    pub move_set: Vec<usize>,
}

/// Field-for-field agreement of two beams.
pub open spec fn same_node(a: Node, b: Node) -> bool {
    a.x == b.x && a.y == b.y && a.direction == b.direction && a.value == b.value
        && a.move_set@ == b.move_set@
}

/// The Manhattan distance between two cells.
pub open spec fn manhattan(ax: int, ay: int, bx: int, by: int) -> int {
    let dx = if ax >= bx { ax - bx } else { bx - ax };
    let dy = if ay >= by { ay - by } else { by - ay };
    dx + dy
}

/// `|a - b|` on coordinates.
pub fn axis_distance(a: usize, b: usize) -> (r: usize)
    ensures
        r == if a >= b { a - b } else { b - a },
{
    if a >= b {
        a - b
    } else {
        b - a
    }
}

impl Node {
    /// A fresh beam with its move set derived from `value`.
    pub fn new(x: usize, y: usize, direction: Direction, value: usize, cache: &mut FactorCache)
        -> (n: Node)
        requires
            old(cache).wf(),
        ensures
            final(cache).wf(),
            n.x == x,
            n.y == y,
            n.direction == direction,
            n.value == value,
            factor_result(value, n.move_set@),
    {
        let move_set = Self::get_move_set(value, cache);
        Node { x, y, direction, value, move_set }
    }

    /// The legal step lengths for a beam of the given value.
    pub fn get_move_set(value: usize, cache: &mut FactorCache) -> (ms: Vec<usize>)
        requires
            old(cache).wf(),
        ensures
            final(cache).wf(),
            factor_result(value, ms@),
    {
        cache.get_factors(value)
    }

    /// Rederives the move set after a change of value.
    pub fn generate_move_set(&mut self, cache: &mut FactorCache)
        requires
            old(cache).wf(),
        ensures
            final(cache).wf(),
            final(self).x == old(self).x,
            final(self).y == old(self).y,
            final(self).direction == old(self).direction,
            final(self).value == old(self).value,
            factor_result(final(self).value, final(self).move_set@),
    {
        self.move_set = Self::get_move_set(self.value, cache);
    }

    /// Relocates the beam, dividing its value by the step distance and
    /// refreshing the move set.
    pub fn move_to(&mut self, x: usize, y: usize, dir: Direction, cache: &mut FactorCache)
        requires
            old(cache).wf(),
            x != old(self).x || y != old(self).y,
            manhattan(old(self).x as int, old(self).y as int, x as int, y as int) <= usize::MAX,
        ensures
            final(cache).wf(),
            final(self).x == x,
            final(self).y == y,
            final(self).direction == dir,
            final(self).value == old(self).value as int
                / manhattan(old(self).x as int, old(self).y as int, x as int, y as int),
            factor_result(final(self).value, final(self).move_set@),
    {
        let dist = axis_distance(self.x, x) + axis_distance(self.y, y);
        self.x = x;
        self.y = y;
        self.direction = dir;
        self.value = self.value / dist;
        self.generate_move_set(cache);
    }

    /// An exact copy of the beam.
    pub fn duplicate(&self) -> (n: Node)
        ensures
            same_node(*self, n),
    {
        let move_set = crate::factors::copy_list(&self.move_set);
        Node { x: self.x, y: self.y, direction: self.direction, value: self.value, move_set }
    }
}

} // verus!
