//! Region-based set reconciliation for a DHT: a hash algebra over regions of
//! (time × location) space, a coverage tree of region aggregates, the
//! recursive comparison that finds the regions two peers disagree on, and an
//! evenly spread fixture generator.
use vstd::prelude::*;

pub mod coords;
pub mod fixtures;
pub mod idk;
pub mod reconcile;
pub mod region_data;
pub mod tree;
pub mod workflow;
pub mod zome;

verus! {

} // verus!
