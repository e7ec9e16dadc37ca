//! Barnes-Hut gravitational N-body simulation.
//!
//! Bodies live in a recursive spatial tree of regions: a region is a box that
//! is either a leaf holding at most one body or an internal node with `2^dims`
//! children and a summary (total mass at the centre of mass). Each time step
//! ingests queued bodies into their leaves (splitting crowded leaves, and
//! merging the bodies of a crowded leaf at the minimum size into one),
//! recomputes summaries bottom-up, gives every body the acceleration of the
//! tree under the opening-angle criterion, moves it by forward Euler, and
//! queues again at the root every body that left its leaf.
//!
//! All quantities are integers on a fixed-point lattice whose unit the caller
//! chooses: positions, velocities and masses are `i64`, the opening angle and
//! the time step are fractions. Every division rounds toward zero, so a pair
//! of bodies pulls on each other with exactly opposite accelerations. Sums of
//! accelerations and velocities saturate at `ACC_LIMIT` and `VEL_LIMIT`, and a
//! tree refuses a body that would take its total mass past `MASS_LIMIT`; these
//! bounds keep every product within 128 bits.

pub mod arith;
pub mod config;
pub mod body;
pub mod region;
pub mod summary;
pub mod ingest;
pub mod force;
pub mod integrate;
pub mod tree;
pub mod generate;
pub mod analysis;
