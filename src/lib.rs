//! Procedural packing of non-overlapping axis-aligned squares inside a
//! rectangle, in integer coordinates.
//!
//! A run places a random seed square, then grows outward from the free
//! boundary of the squares placed so far: free edges are pruned where facing
//! squares meet, candidate positions are found along them, cut down to the
//! rectangle and clipped against the placed squares, and one is drawn with
//! weight proportional to its length. Where no position is legal the size
//! ceiling drops by one step, until it falls below the minimum side.

/// Points, edges, squares and rectangles.
pub mod geometry;
/// Subtracting masks from an interval.
pub mod intervals;
/// Free parts of accumulated edges.
pub mod tracker;
/// Candidate positions along free edges.
pub mod finder;
/// Cutting candidate positions down to the bounding rectangle.
pub mod bounds;
/// The random draws of a run.
pub mod random;
/// Positions clear of the squares already placed.
pub mod placement;
/// How many squares a rectangle can hold.
pub mod capacity;
/// The packing run.
pub mod layout;
