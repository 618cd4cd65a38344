//! A solver for a grid-based light-beam puzzle.
//!
//! Beams enter a square board from its border ring, travel in straight
//! lines, and are redirected by mirrors they run into.  Each beam carries a
//! numeric value; a step of length `d` is legal only when `d` divides the
//! value, and taking it divides the value by `d`.  The solver searches,
//! depth first over immutable board snapshots, for a sequence of moves that
//! drives every beam's value down to 1 and off the board.  A scoring pass
//! then walks the border of a solved board and recomputes path products.

pub mod board;
pub mod factors;
pub mod geometry;
pub mod node;
pub mod solver;
