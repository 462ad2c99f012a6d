//! Health checks for a small fleet of Linux hosts: reading the metrics a
//! host reports, holding them against thresholds (global ones with per-host
//! overrides), and summarising the fleet as a table and a one-line verdict.
//!
//! Temperatures, load averages and custom limits are binary floating-point
//! values, held exactly as their IEEE 754 bit patterns (see `float`).

pub mod float;
pub mod text;
pub mod metrics;
pub mod config;
pub mod check;
pub mod report;
pub mod cli;
pub mod laws;
