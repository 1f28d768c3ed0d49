//! Measurement helpers shared across the project.

pub mod experimental;
pub mod standard;
pub mod streams;
pub mod telemetry;
pub mod telemetry_sources;
