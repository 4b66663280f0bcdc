//! `normalize` command arguments.

use vstd::prelude::*;

verus! {

/// Output format of the normalize report.
#[derive(Debug, Clone, Copy, PartialEq, Eq, Structural)]
pub enum ReportFormat {
    /// Human-readable text.
    Text,
    /// JSON.
    Json,
}

} // verus!
