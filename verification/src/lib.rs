//! Streaming aggregation of tab-separated biodiversity observation logs into
//! a spatial-species summary: every accepted record is assigned to a coarse
//! geographic grid cell and folded into per-cell, per-species statistics
//! (observation count, individual total, year-diversity bitmask). A final
//! pass filters each cell's species by configurable thresholds, ranks them by
//! observation count, and renders one output row per cell.
//!
//! Coordinates and cell sizes are fixed-point decimals in micro-degrees, so
//! the gridding arithmetic is exact and fully specified. Two data feeds are
//! configuration instances (`engine::ebd_feed`, `engine::eod_feed`) of the
//! one engine.

pub mod agg;
pub mod bytes;
pub mod counts;
pub mod engine;
pub mod filter;
pub mod grid;
pub mod numeric;
pub mod parse;
pub mod render;
pub mod serialize;

pub use bytes::strip_newline;
pub use render::format_duration;
pub use serialize::counts_to_string;
