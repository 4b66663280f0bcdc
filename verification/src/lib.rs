//! Verified runtime library for AGM (Agent Graph Memory) orchestration.

pub mod bench;
pub mod clock;
pub mod commands;
pub mod corpora;
pub mod keyed;
pub mod pattern;
pub mod runtime;
pub mod text;
