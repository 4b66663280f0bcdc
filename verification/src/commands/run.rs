//! `run` command: its exit code and the lines of its reports.

use vstd::prelude::*;

use crate::runtime::duration::{decimal, decimal_string};
use crate::runtime::scheduler::RunReport;
use crate::runtime::state::ExecutionStatus;
use crate::text::{owned, push_str};

verus! {

/// `run` exits with 0 when no node failed or is blocked, else 1.
pub fn run_exit_code(report: &RunReport) -> (r: i32)
    ensures
        r == (if report.failed == 0 && report.blocked == 0 {
            0i32
        } else {
            1i32
        }),
{
    if report.failed == 0 && report.blocked == 0 {
        0
    } else {
        1
    }
}

/// The mark of a node's result in the run report.
pub open spec fn status_icon_spec(s: ExecutionStatus) -> Seq<char> {
    match s {
        ExecutionStatus::Completed => "[ok]"@,
        ExecutionStatus::Failed => "[FAIL]"@,
        _ => "[--]"@,
    }
}

/// The mark of a node's result in the run report.
pub fn status_icon(s: ExecutionStatus) -> (r: &'static str)
    ensures
        r@ == status_icon_spec(s),
{
    match s {
        ExecutionStatus::Completed => "[ok]",
        ExecutionStatus::Failed => "[FAIL]",
        _ => "[--]",
    }
}

/// The lines of a dry-run report: a heading with the number of nodes,
/// then each node, numbered from 1.
pub open spec fn dry_run_lines_spec(report: RunReport) -> Seq<Seq<char>> {
    seq!["Dry run: would execute "@ + decimal(report.total_nodes as nat) + " nodes in order:"@] + Seq::new(
        report.node_results@.len(),
        |i: int| "  "@ + decimal((i + 1) as nat) + ". "@ + report.node_results@[i].node_id@,
    )
}

/// The lines of a dry-run report.
pub fn dry_run_lines(report: &RunReport) -> (r: Vec<String>)
    ensures
        crate::text::string_views(r@) == dry_run_lines_spec(*report),
{
    let mut out: Vec<String> = Vec::new();
    let mut head = owned("Dry run: would execute ");
    push_str(&mut head, decimal_string(report.total_nodes as u64).as_str());
    push_str(&mut head, " nodes in order:");
    proof {
        crate::text::lemma_views_push(out@, head);
    }
    out.push(head);
    let ghost f = |i: int| "  "@ + decimal((i + 1) as nat) + ". "@ + report.node_results@[i].node_id@;
    let mut i: usize = 0;
    while i < report.node_results.len()
        invariant
            i <= report.node_results@.len(),
            f == (|i: int| "  "@ + decimal((i + 1) as nat) + ". "@ + report.node_results@[i].node_id@),
            crate::text::string_views(out@) == seq!["Dry run: would execute "@ + decimal(report.total_nodes as nat)
                + " nodes in order:"@] + Seq::new(i as nat, f),
        decreases report.node_results@.len() - i,
    {
        let mut line = owned("  ");
        push_str(&mut line, decimal_string(i as u64 + 1).as_str());
        push_str(&mut line, ". ");
        push_str(&mut line, report.node_results[i].node_id.as_str());
        proof {
            crate::text::lemma_views_push(out@, line);
            assert(Seq::new((i + 1) as nat, f) =~= Seq::new(i as nat, f).push(f(i as int)));
        }
        out.push(line);
        i += 1;
    }
    proof {
        assert(crate::text::string_views(out@) =~= dry_run_lines_spec(*report));
    }
    out
}

} // verus!
