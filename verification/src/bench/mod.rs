//! LLM bench: cases, provider data, cassettes and report types.

pub mod case;
pub mod cassette;
pub mod provider;
pub mod report;
pub mod runner;
