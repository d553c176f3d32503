//! Arcadia: a small artificial-life universe whose actors live on credits,
//! bill and feed each other, spawn children, and persist to a compact
//! little-endian binary format.
mod bytes;
pub mod storage;
pub mod depot;
pub mod dispatcher;
pub mod blueprint;
pub mod actors;
pub mod values;
pub mod control;
pub mod places;
pub mod universe;
pub mod telemetry;
