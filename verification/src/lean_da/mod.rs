//! The construction that commits to blobs: its tables, its trace and its census.
pub mod census;
pub mod descriptions;
pub mod places;
pub mod schedule;
pub mod shape;
pub mod tallies;
pub mod trace;
pub mod witness;
