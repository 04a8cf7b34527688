//! Per-player and per-weapon statistics of kill records.
//!
//! Records are folded into [`stats::Stats`]; statistics of disjoint groups of
//! records merge into the statistics of their union, whatever the grouping or
//! order; and the result is cut down to its highest-ranked players and weapons
//! by a capped selector with a fixed tie-break on names.
pub mod deaths;
pub mod keyorder;
pub mod player_stats;
pub mod selector;
pub mod sorting;
pub mod stats;
pub mod table;
pub mod weapon_stats;
