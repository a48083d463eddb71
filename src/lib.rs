//! Tracks tabular data sources as a chain of content-addressed blocks of
//! per-table deltas, and turns the net change since a known block into a
//! patch: merged deltas or a full snapshot, rendered as binary or as SQL.

use vstd::prelude::*;

pub mod block;
pub mod config;
pub mod delta;
pub mod digest;
pub mod error;
pub mod keyed_map;
pub mod patch;
pub mod row;
pub mod sql;
pub mod state;
pub mod text;
pub mod truncate;
pub mod utils;
pub mod wire;

verus! {

} // verus!
