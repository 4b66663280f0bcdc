//! `retry` command: which failed nodes to retry.

use vstd::prelude::*;

use crate::runtime::state::{ExecutionStatus, ExecutionTracker};
use crate::text::{owned, push_str, string_views};

verus! {

/// The nodes `retry` re-runs, or the error it reports: the named node when
/// it failed, or every failed node in id order with `--all-failed`.
pub open spec fn retry_targets_spec(
    t: ExecutionTracker,
    node: Option<Seq<char>>,
    all_failed: bool,
) -> Result<Seq<Seq<char>>, Seq<char>> {
    match node {
        Some(id) => if !t.nodes().dom().contains(id) {
            Err("error: node '"@ + id + "' not found"@)
        } else if t.nodes()[id].execution_status == ExecutionStatus::Failed {
            Ok(seq![id])
        } else {
            Err("error: node '"@ + id + "' is in state '"@ + t.nodes()[id].execution_status.spec_name()
                + "', not 'failed'"@)
        },
        None => if all_failed {
            Ok(t.order().filter(|k: Seq<char>| t.nodes()[k].execution_status == ExecutionStatus::Failed))
        } else {
            Err("error: specify --node <id> or --all-failed"@)
        },
    }
}

/// The nodes `retry` re-runs, or the error it reports.
pub fn retry_targets(t: &ExecutionTracker, node: Option<&str>, all_failed: bool) -> (r: Result<Vec<String>, String>)
    requires
        t.wf(),
    ensures
        match r {
            Ok(v) => retry_targets_spec(
                *t,
                match node {
                    Some(s) => Some(s@),
                    None => None,
                },
                all_failed,
            ) == Ok::<Seq<Seq<char>>, Seq<char>>(string_views(v@)),
            Err(m) => retry_targets_spec(
                *t,
                match node {
                    Some(s) => Some(s@),
                    None => None,
                },
                all_failed,
            ) == Err::<Seq<Seq<char>>, Seq<char>>(m@),
        },
{
    match node {
        Some(id) => match t.node_state(id) {
            None => {
                let mut m = owned("error: node '");
                push_str(&mut m, id);
                push_str(&mut m, "' not found");
                Err(m)
            },
            Some(ns) => {
                if ns.execution_status == ExecutionStatus::Failed {
                    let mut v: Vec<String> = Vec::new();
                    v.push(owned(id));
                    assert(string_views(v@) =~= seq![id@]);
                    Ok(v)
                } else {
                    let mut m = owned("error: node '");
                    push_str(&mut m, id);
                    push_str(&mut m, "' is in state '");
                    push_str(&mut m, ns.execution_status.as_str());
                    push_str(&mut m, "', not 'failed'");
                    Err(m)
                }
            },
        },
        None => {
            if all_failed {
                Ok(t.failed_nodes())
            } else {
                Err(owned("error: specify --node <id> or --all-failed"))
            }
        },
    }
}

} // verus!
