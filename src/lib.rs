//! Incremental time-series merging for per-location gridded ocean data.
//!
//! The library keeps a shared, sorted time axis per location, computes where
//! newly observed instants land on it, splices sample columns accordingly and
//! classifies grid cells into basins.
pub mod align;
pub mod columns;
pub mod geo;
pub mod ident;
pub mod ingest;
pub mod timeaxis;
