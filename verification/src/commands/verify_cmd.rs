//! `verify` command: which nodes to check and its exit code.

use vstd::prelude::*;

use crate::keyed::str_eq;
use crate::runtime::checks::VerifyResult;
use crate::runtime::model::Node;
use crate::text::{owned, push_str};

verus! {

/// Exit code when every checked node passed.
pub const EXIT_ALL_PASSED: i32 = 0;

/// Exit code when a checked node failed, or the arguments are unusable.
pub const EXIT_FAILED: i32 = 1;

/// Exit code when no node has checks.
pub const EXIT_NO_CHECKS: i32 = 2;

/// Position of the first node with id `id`.
pub open spec fn first_node_with_id(nodes: Seq<Node>, id: Seq<char>) -> Option<int>
    decreases nodes.len(),
{
    if nodes.len() == 0 {
        None
    } else {
        match first_node_with_id(nodes.drop_last(), id) {
            Some(i) => Some(i),
            None => if nodes.last().id@ == id {
                Some(nodes.len() - 1)
            } else {
                None
            },
        }
    }
}

/// Positions of the nodes that have checks, in order.
pub open spec fn nodes_with_checks(nodes: Seq<Node>) -> Seq<int>
    decreases nodes.len(),
{
    if nodes.len() == 0 {
        Seq::empty()
    } else {
        nodes_with_checks(nodes.drop_last()) + if nodes.last().verify is Some {
            seq![nodes.len() - 1]
        } else {
            Seq::empty()
        }
    }
}

/// The nodes `verify` checks (their positions), or the error it reports:
/// the named node, or with `--all` every node that has checks.
pub open spec fn verify_targets_spec(nodes: Seq<Node>, node: Option<Seq<char>>, all: bool) -> Result<
    Seq<int>,
    Seq<char>,
> {
    match node {
        Some(id) => match first_node_with_id(nodes, id) {
            Some(i) => Ok(seq![i]),
            None => Err("error: node '"@ + id + "' not found in file"@),
        },
        None => if all {
            Ok(nodes_with_checks(nodes))
        } else {
            Err("error: specify --node <id> or --all"@)
        },
    }
}

/// Views of positions.
pub open spec fn positions(v: Seq<usize>) -> Seq<int> {
    v.map_values(|i: usize| i as int)
}

/// The nodes `verify` checks (their positions), or the error it reports.
pub fn verify_targets(nodes: &Vec<Node>, node: Option<&str>, all: bool) -> (r: Result<Vec<usize>, String>)
    ensures
        match r {
            Ok(v) => verify_targets_spec(
                nodes@,
                match node {
                    Some(s) => Some(s@),
                    None => None,
                },
                all,
            ) == Ok::<Seq<int>, Seq<char>>(positions(v@)),
            Err(m) => verify_targets_spec(
                nodes@,
                match node {
                    Some(s) => Some(s@),
                    None => None,
                },
                all,
            ) == Err::<Seq<int>, Seq<char>>(m@),
        },
{
    let ghost ns = nodes@;
    match node {
        Some(id) => {
            let mut i: usize = 0;
            while i < nodes.len()
                invariant
                    ns == nodes@,
                    node == Some(id),
                    i <= ns.len(),
                    first_node_with_id(ns.take(i as int), id@) is None,
                decreases ns.len() - i,
            {
                assert(ns.take(i + 1).drop_last() =~= ns.take(i as int));
                if str_eq(nodes[i].id.as_str(), id) {
                    proof {
                        assert(ns.take(i + 1).last() == ns[i as int]);
                        assert(first_node_with_id(ns.take(i + 1), id@) == Some(i as int));
                        lemma_first_node_prefix(ns, id@, i + 1);
                    }
                    let mut v: Vec<usize> = Vec::new();
                    v.push(i);
                    assert(positions(v@) =~= seq![i as int]);
                    return Ok(v);
                }
                i += 1;
            }
            assert(ns.take(i as int) =~= ns);
            let mut m = owned("error: node '");
            push_str(&mut m, id);
            push_str(&mut m, "' not found in file");
            Err(m)
        },
        None => {
            if !all {
                return Err(owned("error: specify --node <id> or --all"));
            }
            let mut v: Vec<usize> = Vec::new();
            let mut i: usize = 0;
            while i < nodes.len()
                invariant
                    ns == nodes@,
                    i <= ns.len(),
                    positions(v@) == nodes_with_checks(ns.take(i as int)),
                decreases ns.len() - i,
            {
                assert(ns.take(i + 1).drop_last() =~= ns.take(i as int));
                if nodes[i].verify.is_some() {
                    v.push(i);
                    assert(positions(v@) =~= nodes_with_checks(ns.take(i + 1)));
                } else {
                    assert(positions(v@) =~= nodes_with_checks(ns.take(i + 1)));
                }
                i += 1;
            }
            assert(ns.take(i as int) =~= ns);
            Ok(v)
        },
    }
}

proof fn lemma_first_node_prefix(ns: Seq<Node>, id: Seq<char>, k: int)
    requires
        0 <= k <= ns.len(),
        first_node_with_id(ns.take(k), id) is Some,
    ensures
        first_node_with_id(ns, id) == first_node_with_id(ns.take(k), id),
    decreases ns.len() - k,
{
    if k < ns.len() {
        assert(ns.take(k + 1).drop_last() =~= ns.take(k));
        lemma_first_node_prefix(ns, id, k + 1);
    } else {
        assert(ns.take(k) =~= ns);
    }
}

/// The exit code of `verify` for its results: 2 when there are none, 1
/// when a node failed, else 0.
pub fn verify_exit_code(results: &Vec<VerifyResult>) -> (r: i32)
    ensures
        r == (if results@.len() == 0 {
            EXIT_NO_CHECKS
        } else if exists|i: int| 0 <= i < results@.len() && !(#[trigger] results@[i]).all_passed {
            EXIT_FAILED
        } else {
            EXIT_ALL_PASSED
        }),
{
    if results.len() == 0 {
        return EXIT_NO_CHECKS;
    }
    let mut i: usize = 0;
    while i < results.len()
        invariant
            i <= results@.len(),
            forall|j: int| 0 <= j < i ==> (#[trigger] results@[j]).all_passed,
        decreases results@.len() - i,
    {
        if !results[i].all_passed {
            return EXIT_FAILED;
        }
        i += 1;
    }
    EXIT_ALL_PASSED
}

} // verus!
