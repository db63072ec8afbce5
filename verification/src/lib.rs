//! Closed-loop GPU fan-speed controller core.
//!
//! The library holds the per-device decision logic: bounded sample windows,
//! bounce suppression, and the temperature/load-to-speed curve, together with
//! the endpoint path model. All file I/O stays outside the library; callers
//! hand each tick's sensor readings in as plain values.

pub mod card;
pub mod config;
pub mod parse;
