//! Market-ratio analysis and monitoring.
//!
//! The library derives an exchange ratio between two traded instruments,
//! walks order-book depth to turn a requested volume into an effective
//! execution price with slippage, and tracks a rolling ratio history per
//! instrument pair, raising debounced threshold alerts and periodic digests.
//!
//! All prices and quantities are fixed-point integers with eight decimal
//! places (see [`fixed`]); ratios are exact integer fractions. Network,
//! database and messaging transports live outside the library and hand it
//! plain values.

pub mod config;
pub mod engine;
pub mod errors;
pub mod fixed;
pub mod market;
pub mod monitor;
pub mod ratio;
pub mod text;
