//! Grid pathfinding over a caller-supplied maze, with a verified A*
//! search, and a deterministic bit stream drawn from the bytes of a
//! string seed.

pub mod pathfinding;
pub mod seed;
