//! Streaming market statistics: a per-symbol engine that maintains the
//! minimum, maximum, running mean and a fixed-window simple moving average
//! of a price stream, together with the helpers around it (index bounding,
//! symbol extraction, configuration parsing, and the snapshot wire format).
//!
//! Prices are fixed-point values: an `i64` number of units, each unit being
//! `10^-8` of a whole price. Means are exact rationals (`Ratio`), so every
//! aggregate published by the engine is exact integer arithmetic.

pub mod config;
pub mod data_processor;
pub mod digits;
pub mod dto;
pub mod models;
pub mod routes;
pub mod rpc_manager;
pub mod utils;
