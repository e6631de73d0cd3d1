//! Route synthesis over a road graph: finds a path that starts near a given
//! point and whose elevation profile matches a target curve.
//!
//! - `profile`: piecewise-linear elevation curves.
//! - `matcher`: the area between two curves, optionally after a calibrating
//!   vertical shift.
//! - `graph`: the road graph and its ingestion from typed records.
//! - `spatial`: segment projection and the range index over edges.
//! - `search`: the bounded beam search for a matching route.
//!
//! All quantities are integers: distances, coordinates and elevations in
//! millimetres, positions along an edge in parts of `spatial::FRAC_ONE`.
pub mod profile;
pub mod matcher;
pub mod graph;
pub mod spatial;
pub mod search;
