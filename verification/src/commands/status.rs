//! `status` command: exit code from execution progress.
//!
//! Exit codes: 0 when every node is completed or skipped, 1 when any node
//! failed or is blocked, 2 while nodes are still to run.

use vstd::prelude::*;

use crate::runtime::state::ExecutionProgress;

verus! {

/// Exit code when every node is completed or skipped.
pub const EXIT_SUCCESS: i32 = 0;

/// Exit code when a node failed or is blocked.
pub const EXIT_FAILED: i32 = 1;

/// Exit code while nodes are still to run, or when no state exists.
pub const EXIT_IN_PROGRESS: i32 = 2;

/// The exit code of `status` for the given counts: 1 when any node failed
/// or is blocked, else 0 when completed and skipped nodes are all of them,
/// else 2.
pub open spec fn status_exit_spec(completed: nat, skipped: nat, failed: nat, blocked: nat, total: nat) -> i32 {
    if failed > 0 || blocked > 0 {
        EXIT_FAILED
    } else if completed + skipped == total {
        EXIT_SUCCESS
    } else {
        EXIT_IN_PROGRESS
    }
}

/// The exit code of `status` for the given counts.
pub fn status_exit_code(completed: usize, skipped: usize, failed: usize, blocked: usize, total: usize) -> (r: i32)
    ensures
        r == status_exit_spec(completed as nat, skipped as nat, failed as nat, blocked as nat, total as nat),
{
    if failed > 0 || blocked > 0 {
        EXIT_FAILED
    } else if completed as u128 + skipped as u128 == total as u128 {
        EXIT_SUCCESS
    } else {
        EXIT_IN_PROGRESS
    }
}

/// The exit code of `status` for a progress summary.
pub fn progress_exit_code(p: &ExecutionProgress) -> (r: i32)
    ensures
        r == status_exit_spec(p.completed as nat, p.skipped as nat, p.failed as nat, p.blocked as nat, p.total as nat),
{
    status_exit_code(p.completed, p.skipped, p.failed, p.blocked, p.total)
}

/// Percentage of completed nodes, rounded down (0 when there are none).
pub fn completed_percent(completed: usize, total: usize) -> (r: u128)
    ensures
        r == (if total == 0 {
            0
        } else {
            (completed as int * 100) / total as int
        }),
{
    if total == 0 {
        0
    } else {
        (completed as u128 * 100) / total as u128
    }
}

} // verus!
