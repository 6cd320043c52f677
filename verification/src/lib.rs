//! Nearest-neighbor tour construction over a set of 2D points.
//!
//! The heuristic itself is purely combinatorial: at every step it moves to
//! the unvisited point whose distance key is smallest, breaking ties in
//! favor of the lowest original index.  The core therefore works on a
//! square table of `u64` distance keys, one per ordered pair of points.
//! A caller that measures points with ordinary Euclidean distances obtains
//! such keys by encoding each non-negative distance in an order-preserving
//! way (for IEEE-754 doubles, the raw bit pattern already is one); the
//! tour and the accounted edges are then exactly those of the greedy
//! nearest-neighbor walk over those distances.
//!
//! `tour` builds the tour and accounts its edges; `parse` checks the
//! lines of a point source, which must each hold exactly two
//! floating-point tokens, and hands the coordinate tokens on.

pub mod parse;
pub mod tour;
