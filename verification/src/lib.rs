//! Decoder for a fixed-layout 512-byte block container format, together
//! with a tracker for the set of target-memory address ranges that the
//! decoded payloads cover.

pub mod block;
pub mod driver;
pub mod regions;
