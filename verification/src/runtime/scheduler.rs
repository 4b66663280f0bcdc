//! Scheduling decisions: which nodes run next, how a node's run starts and
//! ends in the tracker and the memory, the order of orchestration groups,
//! and the run reports.
//!
//! Calling the agent, running verification commands, saving state and
//! waiting on threads happen outside the library, which is asked what to do
//! next and told what happened.

use vstd::prelude::*;

use crate::keyed::{lex_lt, str_eq, KeyedMap};
use crate::runtime::checks::{format_verify_log, verify_log_spec, VerifyResult};
use crate::runtime::graph::Direction;
use crate::runtime::memory::{
    action_scope, action_ttl, action_value, action_value_size, same_store, MemFileEntry, MemoryAction, MemoryEntry,
    MemoryRuntime, MemoryScope, MAX_MEMORY_VALUE_BYTES,
};
use crate::runtime::model::{CodeBlock, Node};
use crate::runtime::state::{ExecutionStatus, ExecutionTracker, TrackerError};
use crate::text::{clone_strings, concat2, owned, push_str, string_views};

verus! {

/// Configuration of a run.
pub struct RunConfig {
    /// Nodes executed at once (1: serial).
    pub max_concurrency: usize,
    /// Per-node timeout, in seconds.
    pub timeout_secs: u64,
    /// Only report the plan.
    pub dry_run: bool,
    /// Only these nodes (and their unfinished dependencies).
    pub target_nodes: Option<Vec<String>>,
    /// Only this orchestration group.
    pub target_group: Option<String>,
    /// Working directory of file operations and commands.
    pub working_dir: String,
    /// Stop the run at the first failure.
    pub fail_fast: bool,
}

impl Default for RunConfig {
    fn default() -> (r: RunConfig)
        ensures
            r.max_concurrency == 1,
            r.timeout_secs == 300,
            !r.dry_run,
            r.target_nodes is None,
            r.target_group is None,
            r.working_dir@ == "."@,
            !r.fail_fast,
    {
        RunConfig {
            max_concurrency: 1,
            timeout_secs: 300,
            dry_run: false,
            target_nodes: None,
            target_group: None,
            working_dir: owned("."),
            fail_fast: false,
        }
    }
}

/// Result of executing one node.
pub struct NodeResult {
    /// The node.
    pub node_id: String,
    /// Status after execution.
    pub status: ExecutionStatus,
    /// Agent that executed it.
    pub agent: String,
    /// Time spent, in milliseconds.
    pub duration_ms: u64,
    /// Agent output or verification log.
    pub output: Option<String>,
}

/// Summary of a run.
pub struct RunReport {
    /// Nodes in scope.
    pub total_nodes: usize,
    /// Nodes executed.
    pub executed: usize,
    /// Nodes that completed.
    pub succeeded: usize,
    /// Nodes that failed.
    pub failed: usize,
    /// Nodes skipped: outside the target set, or only planned in a dry
    /// run.
    pub skipped: usize,
    /// Nodes blocked by failures upstream.
    pub blocked: usize,
    /// Duration of the run, in milliseconds.
    pub duration_ms: u64,
    /// Per-node results, in execution order.
    pub node_results: Vec<NodeResult>,
}

// ---------------------------------------------------------------------------
// Choosing nodes
// ---------------------------------------------------------------------------

/// The first id of `topo` that `candidates` holds, else the first
/// candidate.
pub open spec fn topo_first(candidates: Seq<Seq<char>>, topo: Seq<Seq<char>>) -> Seq<char>
    decreases topo.len(),
{
    if topo.len() == 0 {
        candidates[0]
    } else if candidates.contains(topo[0]) {
        topo[0]
    } else {
        topo_first(candidates, topo.drop_first())
    }
}

/// The first candidate in topological order.
pub fn pick_topo_first(candidates: &Vec<String>, topo_order: &Vec<String>) -> (r: String)
    requires
        candidates@.len() > 0,
    ensures
        r@ == topo_first(string_views(candidates@), string_views(topo_order@)),
{
    let ghost c = string_views(candidates@);
    let ghost t = string_views(topo_order@);
    let mut i: usize = 0;
    assert(t.skip(0) =~= t);
    while i < topo_order.len()
        invariant
            i <= topo_order@.len(),
            c == string_views(candidates@),
            t == string_views(topo_order@),
            c.len() > 0,
            topo_first(c, t) == topo_first(c, t.skip(i as int)),
        decreases topo_order@.len() - i,
    {
        assert(t.skip(i as int)[0] == topo_order@[i as int]@);
        if crate::runtime::context::contains_string(candidates, topo_order[i].as_str()) {
            return topo_order[i].clone();
        }
        assert(t.skip(i as int).drop_first() =~= t.skip(i + 1));
        i += 1;
    }
    assert(t.skip(i as int).len() == 0);
    candidates[0].clone()
}

/// The ready nodes that a run may execute: all of them, or those of the
/// execution set when one is given.
pub fn select_candidates(ready: &Vec<String>, execution_set: &Option<Vec<String>>) -> (r: Vec<String>)
    ensures
        string_views(r@) == match execution_set {
            None => string_views(ready@),
            Some(set) => string_views(ready@).filter(|x: Seq<char>| string_views(set@).contains(x)),
        },
{
    match execution_set {
        None => clone_strings(ready),
        Some(set) => {
            let ghost keep = |x: Seq<char>| string_views(set@).contains(x);
            let mut out: Vec<String> = Vec::new();
            let mut i: usize = 0;
            while i < ready.len()
                invariant
                    i <= ready@.len(),
                    keep == (|x: Seq<char>| string_views(set@).contains(x)),
                    string_views(out@) == string_views(ready@).take(i as int).filter(keep),
                decreases ready@.len() - i,
            {
                let ghost rv = string_views(ready@);
                proof {
                    reveal_with_fuel(Seq::<_>::filter, 1);
                }
                assert(rv.take(i + 1).drop_last() =~= rv.take(i as int));
                if crate::runtime::context::contains_string(set, ready[i].as_str()) {
                    let c = ready[i].clone();
                    proof {
                        crate::text::lemma_views_push(out@, c);
                    }
                    out.push(c);
                }
                i += 1;
            }
            assert(string_views(ready@).take(i as int) =~= string_views(ready@));
            out
        },
    }
}

/// The nodes to execute next: the first in topological order when running
/// serially, else the first `max_concurrency` candidates.
pub fn next_batch(candidates: &Vec<String>, topo_order: &Vec<String>, max_concurrency: usize) -> (r: Vec<String>)
    requires
        candidates@.len() > 0,
    ensures
        max_concurrency <= 1 ==> string_views(r@) == seq![topo_first(string_views(candidates@), string_views(topo_order@))],
        max_concurrency > 1 ==> string_views(r@) == string_views(candidates@).take(
            if max_concurrency < candidates@.len() {
                max_concurrency as int
            } else {
                candidates@.len() as int
            },
        ),
{
    if max_concurrency <= 1 {
        let first = pick_topo_first(candidates, topo_order);
        let mut r: Vec<String> = Vec::new();
        proof {
            crate::text::lemma_views_push(r@, first);
        }
        r.push(first);
        assert(string_views(r@) =~= seq![topo_first(string_views(candidates@), string_views(topo_order@))]);
        r
    } else {
        let n = if max_concurrency < candidates.len() {
            max_concurrency
        } else {
            candidates.len()
        };
        let mut r: Vec<String> = Vec::new();
        let mut i: usize = 0;
        while i < n
            invariant
                i <= n <= candidates@.len(),
                string_views(r@) == string_views(candidates@).take(i as int),
            decreases n - i,
        {
            let c = candidates[i].clone();
            proof {
                crate::text::lemma_views_push(r@, c);
                assert(string_views(candidates@).take(i + 1) =~= string_views(candidates@).take(i as int).push(
                    candidates@[i as int]@,
                ));
            }
            r.push(c);
            i += 1;
        }
        r
    }
}

/// A node is unfinished: neither completed nor skipped.
pub open spec fn unfinished(s: ExecutionStatus) -> bool {
    s != ExecutionStatus::Completed && s != ExecutionStatus::Skipped
}

/// The nodes a run with `targets` may execute: the targets, and the nodes
/// they transitively depend on that the tracker has and that are not yet
/// completed or skipped.
pub open spec fn in_execution_set(tracker: ExecutionTracker, targets: Seq<Seq<char>>, x: Seq<char>) -> bool {
    targets.contains(x) || exists|t: Seq<char>|
        #![trigger targets.contains(t), tracker.dep_graph().reaches(Direction::Dependencies, t, x)]
        targets.contains(t) && tracker.dep_graph().reaches(Direction::Dependencies, t, x)
            && tracker.nodes().dom().contains(x) && unfinished(tracker.nodes()[x].execution_status)
}

/// The execution set of a run with `targets`, without repetitions.
pub fn execution_set(targets: &Vec<String>, tracker: &ExecutionTracker) -> (r: Vec<String>)
    requires
        tracker.wf(),
    ensures
        string_views(r@).no_duplicates(),
        forall|x: Seq<char>| #[trigger] string_views(r@).contains(x) <==> in_execution_set(*tracker, string_views(targets@), x),
{
    let mut set: KeyedMap<bool> = KeyedMap::new();
    let ghost tv = string_views(targets@);
    let mut i: usize = 0;
    while i < targets.len()
        invariant
            i <= targets@.len(),
            tracker.wf(),
            set.wf(),
            tv == string_views(targets@),
            forall|x: Seq<char>| #[trigger] set@.dom().contains(x) <==> in_execution_set(*tracker, tv.take(i as int), x),
        decreases targets@.len() - i,
    {
        let t = &targets[i];
        set.insert(t.clone(), true);
        let deps = tracker.transitive_deps(t.as_str());
        let ghost dv = string_views(deps@);
        let ghost ti = tv.take(i as int);
        let mut k: usize = 0;
        while k < deps.len()
            invariant
                k <= deps@.len(),
                tracker.wf(),
                set.wf(),
                dv == string_views(deps@),
                forall|x: Seq<char>| #[trigger] set@.dom().contains(x) <==> (in_execution_set(*tracker, ti, x) || x == t@ || (
                dv.take(k as int).contains(x) && tracker.nodes().dom().contains(x) && unfinished(
                    tracker.nodes()[x].execution_status,
                ))),
            decreases deps@.len() - k,
        {
            let d = &deps[k];
            proof {
                assert(dv[k as int] == d@);
                assert(dv.take(k + 1) =~= dv.take(k as int).push(d@));
            }
            let ghost before = set@;
            assert(forall|x: Seq<char>| #[trigger] before.dom().contains(x) <==> (in_execution_set(*tracker, ti, x) || x == t@ || (
                dv.take(k as int).contains(x) && tracker.nodes().dom().contains(x) && unfinished(
                    tracker.nodes()[x].execution_status,
                ))));
            let keep = match tracker.node_state(d.as_str()) {
                Some(ns) => ns.execution_status != ExecutionStatus::Completed && ns.execution_status
                    != ExecutionStatus::Skipped,
                None => false,
            };
            if keep {
                set.insert(d.clone(), true);
            }
            assert(keep == (tracker.nodes().dom().contains(d@) && unfinished(tracker.nodes()[d@].execution_status)));
            if keep {
                assert(set@.dom() =~= before.dom().insert(d@));
            } else {
                assert(set@.dom() =~= before.dom());
            }
            proof {
                assert forall|x: Seq<char>| dv.take(k + 1).contains(x) <==> (dv.take(k as int).contains(x) || x == d@) by {
                    if dv.take(k + 1).contains(x) {
                        let j = dv.take(k + 1).index_of(x);
                        if j < k {
                            assert(dv.take(k as int)[j] == x);
                        }
                    }
                    if dv.take(k as int).contains(x) {
                        let j = dv.take(k as int).index_of(x);
                        assert(dv.take(k + 1)[j] == x);
                    }
                    if x == d@ {
                        assert(dv.take(k + 1)[k as int] == x);
                    }
                }
                assert forall|x: Seq<char>| #[trigger] set@.dom().contains(x) <==> (in_execution_set(*tracker, ti, x) || x == t@ || (
                dv.take(k + 1).contains(x) && tracker.nodes().dom().contains(x) && unfinished(
                    tracker.nodes()[x].execution_status,
                ))) by {
                    assert(set@.dom().contains(x) <==> (before.dom().contains(x) || (keep && x == d@)));
                    if x == d@ {
                        assert(dv.take(k + 1)[k as int] == x);
                        assert(dv.take(k + 1).contains(x));
                    }
                }
            }
            k += 1;
        }
        proof {
            assert(dv.take(k as int) =~= dv);
            assert(tv.take(i + 1) =~= ti.push(t@));
            assert forall|x: Seq<char>| #[trigger] set@.dom().contains(x) <==> in_execution_set(*tracker, tv.take(i + 1), x) by {
                lemma_exec_set_push(*tracker, ti, t@, x);
            }
        }
        i += 1;
    }
    proof {
        assert(tv.take(i as int) =~= tv);
        set.lemma_wf_unique();
        set.lemma_dom_len();
    }
    let mut out: Vec<String> = Vec::new();
    let n = set.len();
    let mut k: usize = 0;
    while k < n
        invariant
            k <= n,
            set.wf(),
            n == set.keys().len(),
            string_views(out@) == set.keys().take(k as int),
        decreases n - k,
    {
        let key = set.key_at(k).clone();
        proof {
            crate::text::lemma_views_push(out@, key);
            assert(set.keys().take(k + 1) =~= set.keys().take(k as int).push(set.keys()[k as int]));
        }
        out.push(key);
        k += 1;
    }
    proof {
        assert(set.keys().take(k as int) =~= set.keys());
        set.lemma_wf_unique();
        set.lemma_dom_len();
        assert forall|x: Seq<char>| #[trigger] string_views(out@).contains(x) <==> set@.dom().contains(x) by {
            assert(set@.dom() == set.keys().to_set());
        }
        assert(string_views(out@).no_duplicates()) by {
            assert forall|a: int, b: int| 0 <= a < b < set.keys().len() implies set.keys()[a] != set.keys()[b] by {
                crate::keyed::lemma_lex_irrefl(set.keys()[a]);
            }
        }
    }
    out
}

proof fn lemma_exec_set_push(tr: ExecutionTracker, ts: Seq<Seq<char>>, t: Seq<char>, x: Seq<char>)
    ensures
        in_execution_set(tr, ts.push(t), x) <==> (in_execution_set(tr, ts, x) || x == t || (
        tr.dep_graph().reaches(Direction::Dependencies, t, x) && tr.nodes().dom().contains(x) && unfinished(
            tr.nodes()[x].execution_status,
        ))),
{
    let tn = ts.push(t);
    assert(tn[ts.len() as int] == t);
    assert(tn.contains(t));
    if ts.contains(x) {
        let j = ts.index_of(x);
        assert(tn[j] == x);
    }
    if tn.contains(x) && x != t {
        let j = tn.index_of(x);
        assert(ts[j] == x);
    }
    if in_execution_set(tr, ts, x) && !ts.contains(x) {
        let w = choose|w: Seq<char>| ts.contains(w) && tr.dep_graph().reaches(Direction::Dependencies, w, x)
            && tr.nodes().dom().contains(x) && unfinished(tr.nodes()[x].execution_status);
        let j = ts.index_of(w);
        assert(tn[j] == w);
        assert(tn.contains(w));
    }
    if in_execution_set(tr, tn, x) && !tn.contains(x) {
        let w = choose|w: Seq<char>| tn.contains(w) && tr.dep_graph().reaches(Direction::Dependencies, w, x)
            && tr.nodes().dom().contains(x) && unfinished(tr.nodes()[x].execution_status);
        let j = tn.index_of(w);
        if j < ts.len() {
            assert(ts[j] == w);
            assert(ts.contains(w));
        }
    }
}

// ---------------------------------------------------------------------------
// Executing one node
// ---------------------------------------------------------------------------

/// Starts the execution of a node: a pending node is first made ready,
/// then the node moves to in-progress.
pub fn begin_node(tracker: &mut ExecutionTracker, node_id: &str) -> (r: Result<(), TrackerError>)
    requires
        old(tracker).wf(),
    ensures
        final(tracker).wf(),
        final(tracker).dep_graph() == old(tracker).dep_graph(),
        final(tracker).order() == old(tracker).order(),
        final(tracker).path() == old(tracker).path(),
        r is Ok <==> (old(tracker).nodes().dom().contains(node_id@) && (old(tracker).nodes()[node_id@].execution_status
            == ExecutionStatus::Pending || old(tracker).nodes()[node_id@].execution_status == ExecutionStatus::Ready)),
        r is Ok ==> final(tracker).nodes() == old(tracker).nodes().insert(
            node_id@,
            crate::runtime::state::with_status(old(tracker).nodes()[node_id@], ExecutionStatus::InProgress),
        ),
        r is Err ==> final(tracker).nodes() == old(tracker).nodes(),
        run_keeps(*old(tracker), *final(tracker)),
{
    let pending = match tracker.node_state(node_id) {
        Some(ns) => ns.execution_status == ExecutionStatus::Pending,
        None => false,
    };
    if pending {
        tracker.transition(node_id, ExecutionStatus::Ready)?;
    }
    let r = tracker.transition(node_id, ExecutionStatus::InProgress);
    proof {
        if pending {
            assert(crate::runtime::state::with_status(
                crate::runtime::state::with_status(old(tracker).nodes()[node_id@], ExecutionStatus::Ready),
                ExecutionStatus::InProgress,
            ) == crate::runtime::state::with_status(old(tracker).nodes()[node_id@], ExecutionStatus::InProgress));
            assert(old(tracker).nodes().insert(
                node_id@,
                crate::runtime::state::with_status(old(tracker).nodes()[node_id@], ExecutionStatus::Ready),
            ).insert(
                node_id@,
                crate::runtime::state::with_status(old(tracker).nodes()[node_id@], ExecutionStatus::InProgress),
            ) =~= old(tracker).nodes().insert(
                node_id@,
                crate::runtime::state::with_status(old(tracker).nodes()[node_id@], ExecutionStatus::InProgress),
            ));
        }
    }
    r
}

/// Runs the node's `get` memory actions (before the agent is called);
/// reads leave the memory as it is.
pub fn memory_pre_reads(memory: &mut MemoryRuntime, node: &Node)
    requires
        old(memory).wf(),
    ensures
        *final(memory) == *old(memory),
{
    if let Some(entries) = &node.memory {
        let mut i: usize = 0;
        while i < entries.len()
            invariant
                i <= entries@.len(),
                memory.wf(),
                *memory == *old(memory),
            decreases entries@.len() - i,
        {
            if entries[i].action == MemoryAction::Get {
                let _ = memory.execute_action(node.id.as_str(), &entries[i]);
            }
            i += 1;
        }
    }
}

/// The memory entries of a node that `memory_post_writes` applies.
pub open spec fn upsert_entries(node: Node) -> Seq<MemoryEntry> {
    match node.memory {
        Some(v) => v@.filter(|e: MemoryEntry| e.action == MemoryAction::Upsert),
        None => Seq::empty(),
    }
}

/// Some upsert entry of the node writes store `(s, n)`.
pub open spec fn written_by_upserts(node: Node, s: MemoryScope, n: Seq<char>) -> bool {
    exists|i: int|
        0 <= i < upsert_entries(node).len() && same_store(action_scope(#[trigger] upsert_entries(node)[i]), node.id@, s, n)
}

/// The memory declarations of a node.
pub open spec fn node_entries(node: Node) -> Seq<MemoryEntry> {
    match node.memory {
        Some(v) => v@,
        None => Seq::empty(),
    }
}

/// Index of the last upsert in `entries` that writes key `k` of store
/// `(s, n)` (for node `node_id`) with a value that fits, or -1.
pub open spec fn last_write(entries: Seq<MemoryEntry>, node_id: Seq<char>, s: MemoryScope, n: Seq<char>, k: Seq<char>) -> int
    decreases entries.len(),
{
    if entries.len() == 0 {
        -1
    } else {
        let e = entries.last();
        if e.action == MemoryAction::Upsert && action_value_size(e) <= MAX_MEMORY_VALUE_BYTES && same_store(
            action_scope(e),
            node_id,
            s,
            n,
        ) && e.key@ == k {
            entries.len() - 1
        } else {
            last_write(entries.drop_last(), node_id, s, n, k)
        }
    }
}

/// A stored entry carries what declaration `e` writes.
pub open spec fn written_as(fe: MemFileEntry, e: MemoryEntry) -> bool {
    &&& fe.value@ == action_value(e)
    &&& fe.topic@ == e.topic@
    &&& fe.ttl == action_ttl(e)
    &&& fe.scope == action_scope(e)
}

/// Key `k` of a store, `before` and `after` the upserts of `entries` ran:
/// it holds what the last upsert that wrote it gave, or is as it was when
/// none did.
pub open spec fn key_after_upserts(
    before: Map<Seq<char>, MemFileEntry>,
    after: Map<Seq<char>, MemFileEntry>,
    entries: Seq<MemoryEntry>,
    node_id: Seq<char>,
    s: MemoryScope,
    n: Seq<char>,
    k: Seq<char>,
) -> bool {
    let w = last_write(entries, node_id, s, n, k);
    if w >= 0 {
        after.dom().contains(k) && written_as(after[k], entries[w])
    } else {
        (after.dom().contains(k) <==> before.dom().contains(k)) && (before.dom().contains(k) ==> after[k] == before[k])
    }
}

proof fn lemma_last_write_bound(entries: Seq<MemoryEntry>, node_id: Seq<char>, s: MemoryScope, n: Seq<char>, k: Seq<char>)
    ensures
        -1 <= last_write(entries, node_id, s, n, k) < entries.len(),
    decreases entries.len(),
{
    if entries.len() > 0 {
        lemma_last_write_bound(entries.drop_last(), node_id, s, n, k);
    }
}

/// Runs the node's `upsert` memory actions, in order (after the agent
/// succeeded): each key ends up with what the last upsert that wrote it
/// gave (an upsert whose value is too large writes nothing), and stores
/// that no upsert writes are left as they were.
pub fn memory_post_writes(memory: &mut MemoryRuntime, node: &Node)
    requires
        old(memory).wf(),
    ensures
        final(memory).wf(),
        final(memory).config() == old(memory).config(),
        forall|s: MemoryScope, n: Seq<char>| !written_by_upserts(*node, s, n) ==> #[trigger] final(memory).store(s, n)
            == old(memory).store(s, n),
        forall|s: MemoryScope, n: Seq<char>, k: Seq<char>|
            #[trigger] key_after_upserts(
                old(memory).store(s, n),
                final(memory).store(s, n),
                node_entries(*node),
                node.id@,
                s,
                n,
                k,
            ),
{
    if let Some(entries) = &node.memory {
        let ghost ups = |e: MemoryEntry| e.action == MemoryAction::Upsert;
        let mut i: usize = 0;
        proof {
            assert forall|s: MemoryScope, n: Seq<char>, k: Seq<char>| #[trigger] key_after_upserts(
                old(memory).store(s, n),
                memory.store(s, n),
                entries@.take(0),
                node.id@,
                s,
                n,
                k,
            ) by {}
        }
        while i < entries.len()
            invariant
                i <= entries@.len(),
                memory.wf(),
                memory.config() == old(memory).config(),
                node.memory == Some(*entries),
                ups == (|e: MemoryEntry| e.action == MemoryAction::Upsert),
                forall|s: MemoryScope, n: Seq<char>| !(exists|j: int|
                    0 <= j < entries@.take(i as int).filter(ups).len() && same_store(
                        action_scope(#[trigger] entries@.take(i as int).filter(ups)[j]),
                        node.id@,
                        s,
                        n,
                    )) ==> #[trigger] memory.store(s, n) == old(memory).store(s, n),
                forall|s: MemoryScope, n: Seq<char>, k: Seq<char>|
                    #[trigger] key_after_upserts(
                        old(memory).store(s, n),
                        memory.store(s, n),
                        entries@.take(i as int),
                        node.id@,
                        s,
                        n,
                        k,
                    ),
            decreases entries@.len() - i,
        {
            proof {
                reveal_with_fuel(Seq::<_>::filter, 1);
                assert(entries@.take(i + 1).drop_last() =~= entries@.take(i as int));
            }
            let ghost before = *memory;
            let ghost prev_f = entries@.take(i as int).filter(ups);
            let ghost es0 = entries@.take(i as int);
            let ghost es1 = entries@.take(i + 1);
            if entries[i].action == MemoryAction::Upsert {
                let _ = memory.execute_action(node.id.as_str(), &entries[i]);
                proof {
                    let now_f = entries@.take(i + 1).filter(ups);
                    assert(now_f == prev_f.push(entries@[i as int]));
                    assert forall|s: MemoryScope, n: Seq<char>| !(exists|j: int|
                        0 <= j < now_f.len() && same_store(action_scope(#[trigger] now_f[j]), node.id@, s, n)) implies #[trigger] memory.store(s, n)
                        == old(memory).store(s, n) by {
                        assert(now_f[prev_f.len() as int] == entries@[i as int]);
                        assert(!same_store(action_scope(entries@[i as int]), node.id@, s, n));
                        assert forall|j: int| 0 <= j < prev_f.len() implies !same_store(action_scope(#[trigger] prev_f[j]), node.id@, s, n) by {
                            assert(now_f[j] == prev_f[j]);
                        }
                        assert(memory.store(s, n) == before.store(s, n)) by {
                            assert(memory.stores()(s, n) == before.stores()(s, n));
                        }
                    }
                    let e = entries@[i as int];
                    assert(es1.last() == e);
                    assert forall|s: MemoryScope, n: Seq<char>, k: Seq<char>| #[trigger] key_after_upserts(
                        old(memory).store(s, n),
                        memory.store(s, n),
                        es1,
                        node.id@,
                        s,
                        n,
                        k,
                    ) by {
                        assert(key_after_upserts(old(memory).store(s, n), before.store(s, n), es0, node.id@, s, n, k));
                        lemma_last_write_bound(es0, node.id@, s, n, k);
                        let hits = action_value_size(e) <= MAX_MEMORY_VALUE_BYTES && same_store(
                            action_scope(e),
                            node.id@,
                            s,
                            n,
                        ) && e.key@ == k;
                        if hits {
                            assert(last_write(es1, node.id@, s, n, k) == i);
                            assert(memory.store(s, n) == memory.stores()(s, n));
                        } else {
                            assert(last_write(es1, node.id@, s, n, k) == last_write(es0, node.id@, s, n, k));
                            let w = last_write(es0, node.id@, s, n, k);
                            if w >= 0 {
                                assert(es1[w] == es0[w]);
                            }
                            assert(memory.store(s, n).dom().contains(k) == before.store(s, n).dom().contains(k)
                                && (before.store(s, n).dom().contains(k) ==> memory.store(s, n)[k] == before.store(
                                s,
                                n,
                            )[k])) by {
                                assert(memory.stores()(s, n) == memory.store(s, n));
                                assert(before.stores()(s, n) == before.store(s, n));
                                if same_store(action_scope(e), node.id@, s, n) {
                                    before.lemma_same_store(action_scope(e), node.id@, s, n);
                                }
                            }
                        }
                    }
                }
            } else {
                assert(entries@.take(i + 1).filter(ups) == prev_f);
                proof {
                    assert forall|s: MemoryScope, n: Seq<char>, k: Seq<char>| #[trigger] key_after_upserts(
                        old(memory).store(s, n),
                        memory.store(s, n),
                        es1,
                        node.id@,
                        s,
                        n,
                        k,
                    ) by {
                        assert(key_after_upserts(old(memory).store(s, n), memory.store(s, n), es0, node.id@, s, n, k));
                        assert(last_write(es1, node.id@, s, n, k) == last_write(es0, node.id@, s, n, k));
                        lemma_last_write_bound(es0, node.id@, s, n, k);
                        let w = last_write(es0, node.id@, s, n, k);
                        if w >= 0 {
                            assert(es1[w] == es0[w]);
                        }
                    }
                }
            }
            i += 1;
        }
        proof {
            assert(entries@.take(i as int) =~= entries@);
        }
    } else {
        proof {
            assert forall|s: MemoryScope, n: Seq<char>, k: Seq<char>| #[trigger] key_after_upserts(
                old(memory).store(s, n),
                memory.store(s, n),
                node_entries(*node),
                node.id@,
                s,
                n,
                k,
            ) by {}
        }
    }
}

/// The code blocks of a node: `code`, then `code_blocks`.
pub open spec fn code_blocks_spec(node: Node) -> Seq<CodeBlock> {
    (match node.code {
        Some(c) => seq![c],
        None => Seq::empty(),
    }) + match node.code_blocks {
        Some(v) => v@,
        None => Seq::empty(),
    }
}

impl CodeBlock {
    /// A copy of the block.
    pub fn copy(&self) -> (r: CodeBlock)
        ensures
            r == *self,
    {
        CodeBlock {
            lang: crate::runtime::state::clone_opt(&self.lang),
            target: crate::runtime::state::clone_opt(&self.target),
            action: self.action,
            body: self.body.clone(),
            old: crate::runtime::state::clone_opt(&self.old),
            anchor: crate::runtime::state::clone_opt(&self.anchor),
        }
    }
}

/// The code blocks of a node.
pub fn node_code_blocks(node: &Node) -> (r: Vec<CodeBlock>)
    ensures
        r@ == code_blocks_spec(*node),
{
    let mut out: Vec<CodeBlock> = Vec::new();
    if let Some(c) = &node.code {
        out.push(c.copy());
    }
    let ghost first = out@;
    if let Some(v) = &node.code_blocks {
        let mut i: usize = 0;
        while i < v.len()
            invariant
                i <= v@.len(),
                out@ == first + v@.take(i as int),
            decreases v@.len() - i,
        {
            out.push(v[i].copy());
            assert(v@.take(i + 1) =~= v@.take(i as int).push(v@[i as int]));
            i += 1;
        }
        assert(v@.take(i as int) =~= v@);
    }
    assert(out@ =~= code_blocks_spec(*node));
    out
}

/// Final success and output of a node: without verification, the agent's;
/// with it, whether all checks passed, and the agent's output followed by
/// `---` and the verification log.
pub fn combine_verification(agent_output: String, verify: Option<&VerifyResult>) -> (r: (bool, String))
    ensures
        match verify {
            None => r.0 && r.1@ == agent_output@,
            Some(v) => r.0 == v.all_passed && r.1@ == agent_output@ + "\n---\n"@ + verify_log_spec(*v),
        },
{
    match verify {
        None => (true, agent_output),
        Some(v) => {
            let log = format_verify_log(v);
            let mut out = agent_output;
            push_str(&mut out, "\n---\n");
            push_str(&mut out, log.as_str());
            (v.all_passed, out)
        },
    }
}

/// Final success and output of a node from the agent's response: a failed
/// agent fails the node with its output; else as `combine_verification`.
pub fn node_outcome(agent_success: bool, agent_output: String, verify: Option<&VerifyResult>) -> (r: (bool, String))
    ensures
        !agent_success ==> !r.0 && r.1@ == agent_output@,
        agent_success ==> match verify {
            None => r.0 && r.1@ == agent_output@,
            Some(v) => r.0 == v.all_passed && r.1@ == agent_output@ + "\n---\n"@ + verify_log_spec(*v),
        },
{
    if agent_success {
        combine_verification(agent_output, verify)
    } else {
        (false, agent_output)
    }
}

/// Ends the execution of a node: it is marked completed, or marked failed
/// and its dependents blocked; its node-scoped memory is cleared.
pub fn finish_node(
    tracker: &mut ExecutionTracker,
    memory: &mut MemoryRuntime,
    node_id: &str,
    agent: &str,
    success: bool,
    output: String,
    duration_ms: u64,
) -> (r: Result<NodeResult, TrackerError>)
    requires
        old(tracker).wf(),
        old(memory).wf(),
    ensures
        final(tracker).wf(),
        final(memory).wf(),
        final(tracker).dep_graph() == old(tracker).dep_graph(),
        final(tracker).order() == old(tracker).order(),
        r is Ok <==> (old(tracker).nodes().dom().contains(node_id@) && old(tracker).nodes()[node_id@].execution_status
            == ExecutionStatus::InProgress),
        r is Err ==> final(tracker).nodes() == old(tracker).nodes() && *final(memory) == *old(memory),
        r matches Ok(res) ==> {
            &&& res.node_id@ == node_id@
            &&& res.status == (if success {
                ExecutionStatus::Completed
            } else {
                ExecutionStatus::Failed
            })
            &&& res.agent@ == agent@
            &&& res.duration_ms == duration_ms
            &&& res.output == Some(output)
            &&& final(tracker).nodes()[node_id@].execution_status == res.status
            &&& final(tracker).nodes()[node_id@].executed_by matches Some(a) && a@ == agent@
            &&& final(tracker).nodes()[node_id@].execution_log == Some(output)
            &&& final(tracker).nodes()[node_id@].retry_count == old(tracker).nodes()[node_id@].retry_count
            &&& success ==> final(tracker).nodes() == old(tracker).nodes().insert(
                node_id@,
                final(tracker).nodes()[node_id@],
            )
            &&& !success ==> final(tracker).nodes() == crate::runtime::state::propagated(
                old(tracker).nodes().insert(node_id@, final(tracker).nodes()[node_id@]),
                old(tracker).dep_graph(),
                node_id@,
            )
            &&& final(memory).config() == old(memory).config()
            &&& final(memory).stores() == crate::runtime::memory::with_store(
                old(memory).stores(),
                MemoryScope::Node,
                node_id@,
                Map::empty(),
            )
        },
        run_keeps(*old(tracker), *final(tracker)),
{
    let log = Some(output.clone());
    if success {
        tracker.mark_completed(node_id, agent, log)?;
    } else {
        tracker.mark_failed(node_id, agent, log)?;
        let ghost mid = tracker.nodes();
        let _ = tracker.propagate_blocked(node_id);
        proof {
            crate::runtime::state::lemma_propagate_spares_settled(mid, old(tracker).dep_graph(), node_id@, node_id@);
        }
    }
    memory.clear_node_scope(node_id);
    let status = if success {
        ExecutionStatus::Completed
    } else {
        ExecutionStatus::Failed
    };
    Ok(NodeResult { node_id: owned(node_id), status, agent: owned(agent), duration_ms, output: Some(output) })
}

// ---------------------------------------------------------------------------
// Reports
// ---------------------------------------------------------------------------

/// Number of results with status `s`.
pub open spec fn results_with(rs: Seq<NodeResult>, s: ExecutionStatus) -> nat
    decreases rs.len(),
{
    if rs.len() == 0 {
        0
    } else {
        results_with(rs.drop_last(), s) + if rs.last().status == s {
            1nat
        } else {
            0nat
        }
    }
}

fn count_results(rs: &Vec<NodeResult>, s: ExecutionStatus) -> (r: usize)
    ensures
        r == results_with(rs@, s),
{
    let mut c: usize = 0;
    let mut i: usize = 0;
    while i < rs.len()
        invariant
            i <= rs@.len(),
            c == results_with(rs@.take(i as int), s),
            c <= i,
        decreases rs@.len() - i,
    {
        assert(rs@.take(i + 1).drop_last() =~= rs@.take(i as int));
        if rs[i].status == s {
            c = c + 1;
        }
        i += 1;
    }
    assert(rs@.take(i as int) =~= rs@);
    c
}

/// The nodes a run leaves aside: with an execution set, the nodes outside
/// it; without one, the nodes marked skipped.
pub open spec fn skipped_count(tracker: ExecutionTracker, execution_set: Option<Seq<Seq<char>>>) -> nat {
    match execution_set {
        Some(v) => tracker.nodes().dom().filter(|x: Seq<char>| !v.contains(x)).len(),
        None => tracker.status_count(ExecutionStatus::Skipped),
    }
}

/// The report of a run: totals from the tracker, counts from the node
/// results, and as skipped the nodes outside the execution set (the nodes
/// marked skipped when the run had no targets).
pub fn build_report(
    tracker: &ExecutionTracker,
    execution_set: &Option<Vec<String>>,
    node_results: Vec<NodeResult>,
    duration_ms: u64,
) -> (r: RunReport)
    requires
        tracker.wf(),
    ensures
        r.total_nodes == tracker.nodes().dom().len(),
        r.executed == node_results@.len(),
        r.succeeded == results_with(node_results@, ExecutionStatus::Completed),
        r.failed == results_with(node_results@, ExecutionStatus::Failed),
        r.skipped == skipped_count(
            *tracker,
            match execution_set {
                Some(v) => Some(string_views(v@)),
                None => None,
            },
        ),
        r.blocked == tracker.status_count(ExecutionStatus::Blocked),
        r.duration_ms == duration_ms,
        r.node_results@ == node_results@,
{
    let progress = tracker.progress();
    let succeeded = count_results(&node_results, ExecutionStatus::Completed);
    let failed = count_results(&node_results, ExecutionStatus::Failed);
    let skipped = match execution_set {
        Some(set) => tracker.count_outside(set),
        None => progress.skipped,
    };
    RunReport {
        total_nodes: progress.total,
        executed: node_results.len(),
        succeeded,
        failed,
        skipped,
        blocked: progress.blocked,
        duration_ms,
        node_results,
    }
}

/// A planned (not executed) node in a dry-run report.
pub open spec fn planned(r: NodeResult, id: Seq<char>, output: Seq<char>) -> bool {
    &&& r.node_id@ == id
    &&& r.status == ExecutionStatus::Pending
    &&& r.agent@ == "(dry-run)"@
    &&& r.duration_ms == 0
    &&& r.output matches Some(o) && o@ == output
}

/// The nodes a dry run lists: those of the topological order, restricted
/// to the execution set when there is one.
pub open spec fn dry_run_nodes(topo: Seq<Seq<char>>, set: Option<Seq<Seq<char>>>) -> Seq<Seq<char>> {
    match set {
        None => topo,
        Some(s) => topo.filter(|x: Seq<char>| s.contains(x)),
    }
}

/// The report of a dry run of a topological run.
pub fn build_dry_run_report(topo_order: &Vec<String>, execution_set: &Option<Vec<String>>) -> (r: RunReport)
    ensures
        ({
            let ids = dry_run_nodes(
                string_views(topo_order@),
                match execution_set {
                    Some(v) => Some(string_views(v@)),
                    None => None,
                },
            );
            &&& r.node_results@.len() == ids.len()
            &&& forall|i: int| 0 <= i < ids.len() ==> planned(#[trigger] r.node_results@[i], ids[i], "Dry-run: would execute"@)
            &&& r.total_nodes == ids.len()
            &&& r.skipped == ids.len()
            &&& r.executed == 0 && r.succeeded == 0 && r.failed == 0 && r.blocked == 0
            &&& r.duration_ms == 0
        }),
{
    let nodes = select_candidates(topo_order, execution_set);
    let mut results: Vec<NodeResult> = Vec::new();
    let mut i: usize = 0;
    while i < nodes.len()
        invariant
            i <= nodes@.len(),
            results@.len() == i,
            forall|j: int| 0 <= j < i ==> planned(#[trigger] results@[j], string_views(nodes@)[j], "Dry-run: would execute"@),
        decreases nodes@.len() - i,
    {
        results.push(
            NodeResult {
                node_id: nodes[i].clone(),
                status: ExecutionStatus::Pending,
                agent: owned("(dry-run)"),
                duration_ms: 0,
                output: Some(owned("Dry-run: would execute")),
            },
        );
        i += 1;
    }
    let n = results.len();
    RunReport {
        total_nodes: n,
        executed: 0,
        succeeded: 0,
        failed: 0,
        skipped: n,
        blocked: 0,
        duration_ms: 0,
        node_results: results,
    }
}

/// A run stops after a failure when it is to fail fast.
pub fn should_stop(had_failure: bool, config: &RunConfig) -> (r: bool)
    ensures
        r == (had_failure && config.fail_fast),
{
    had_failure && config.fail_fast
}

// ---------------------------------------------------------------------------
// Stepping a topological run
// ---------------------------------------------------------------------------

/// What a topological run does next.
pub enum RunStep {
    /// The run is over.
    Stop,
    /// Execute these nodes (one when serial), then ask again.
    Run(Vec<String>),
}

/// An optional list of ids as plain values.
pub open spec fn opt_views(o: Option<Vec<String>>) -> Option<Seq<Seq<char>>> {
    match o {
        Some(v) => Some(string_views(v@)),
        None => None,
    }
}

/// The nodes a run may execute now: the ready ones, in ascending id order,
/// restricted to the execution set when there is one.
pub open spec fn run_candidates(t: ExecutionTracker, set: Option<Seq<Seq<char>>>) -> Seq<Seq<char>> {
    let ready = t.order().filter(|k: Seq<char>| t.is_ready(k));
    match set {
        None => ready,
        Some(s) => ready.filter(|x: Seq<char>| s.contains(x)),
    }
}

/// The batch a run takes from `cands`: the first in topological order when
/// serial, else the first `max_concurrency` of them.
pub open spec fn batch_of(cands: Seq<Seq<char>>, topo: Seq<Seq<char>>, max_concurrency: usize) -> Seq<Seq<char>> {
    if max_concurrency <= 1 {
        seq![topo_first(cands, topo)]
    } else {
        cands.take(
            if max_concurrency < cands.len() {
                max_concurrency as int
            } else {
                cands.len() as int
            },
        )
    }
}

/// The node `topo_first` picks is one of the candidates.
pub proof fn lemma_topo_first_is_candidate(cands: Seq<Seq<char>>, topo: Seq<Seq<char>>)
    requires
        cands.len() > 0,
    ensures
        cands.contains(topo_first(cands, topo)),
    decreases topo.len(),
{
    if topo.len() > 0 && !cands.contains(topo[0]) {
        lemma_topo_first_is_candidate(cands, topo.drop_first());
    } else if topo.len() == 0 {
        assert(cands[0] == cands[0]);
    }
}

/// Every candidate of a run is ready in the tracker and in the execution
/// set, when there is one.
pub proof fn lemma_candidates_ready(t: ExecutionTracker, set: Option<Seq<Seq<char>>>, x: Seq<char>)
    requires
        run_candidates(t, set).contains(x),
    ensures
        t.is_ready(x),
        set matches Some(s) ==> s.contains(x),
{
    broadcast use vstd::seq_lib::group_filter_ensures;
    let p = |k: Seq<char>| t.is_ready(k);
    let ready = t.order().filter(p);
    let c = run_candidates(t, set);
    let i = choose|i: int| 0 <= i < c.len() && c[i] == x;
    match set {
        None => {
            assert(p(ready[i]));
        },
        Some(s) => {
            let q = |y: Seq<char>| s.contains(y);
            assert(q(ready.filter(q)[i]));
            ready.lemma_filter_contains_rev(q, x);
            let j = choose|j: int| 0 <= j < ready.len() && ready[j] == x;
            assert(p(ready[j]));
        },
    }
}

/// The next step of a topological run: stop after a failure when failing
/// fast, or when no candidate is left; else run the next batch of
/// candidates. Every node of a batch is ready and, for a targeted run, in
/// the execution set.
pub fn next_step(
    tracker: &ExecutionTracker,
    execution_set: &Option<Vec<String>>,
    topo_order: &Vec<String>,
    config: &RunConfig,
    had_failure: bool,
) -> (r: RunStep)
    requires
        tracker.wf(),
    ensures
        ({
            let cands = run_candidates(*tracker, opt_views(*execution_set));
            &&& ((had_failure && config.fail_fast) || cands.len() == 0) <==> r is Stop
            &&& r matches RunStep::Run(b) ==> string_views(b@) == batch_of(
                cands,
                string_views(topo_order@),
                config.max_concurrency,
            )
        }),
        r matches RunStep::Run(b) ==> b@.len() > 0 && forall|i: int|
            0 <= i < b@.len() ==> {
                &&& tracker.is_ready(#[trigger] b@[i]@)
                &&& execution_set matches Some(v) ==> string_views(v@).contains(b@[i]@)
            },
{
    if should_stop(had_failure, config) {
        return RunStep::Stop;
    }
    let ready = tracker.ready_nodes();
    let cands = select_candidates(&ready, execution_set);
    if cands.len() == 0 {
        return RunStep::Stop;
    }
    let batch = next_batch(&cands, topo_order, config.max_concurrency);
    proof {
        let cv = string_views(cands@);
        let bv = string_views(batch@);
        assert(cv == run_candidates(*tracker, opt_views(*execution_set)));
        assert(bv.len() == batch@.len());
        if config.max_concurrency <= 1 {
            lemma_topo_first_is_candidate(cv, string_views(topo_order@));
            assert(bv.len() == 1);
        } else {
            assert(bv.len() > 0);
        }
        assert forall|i: int| 0 <= i < batch@.len() implies {
            &&& tracker.is_ready(#[trigger] batch@[i]@)
            &&& execution_set matches Some(v) ==> string_views(v@).contains(batch@[i]@)
        } by {
            assert(bv[i] == batch@[i]@);
            if config.max_concurrency > 1 {
                let m: int = if config.max_concurrency < cv.len() {
                    config.max_concurrency as int
                } else {
                    cv.len() as int
                };
                assert(bv == cv.take(m));
                assert(cv.take(m)[i] == cv[i]);
                assert(cv.contains(bv[i]));
            } else {
                assert(bv == seq![topo_first(cv, string_views(topo_order@))]);
                assert(i == 0);
                assert(bv[0] == topo_first(cv, string_views(topo_order@)));
                assert(cv.contains(bv[i]));
            }
            lemma_candidates_ready(*tracker, opt_views(*execution_set), bv[i]);
        }
    }
    RunStep::Run(batch)
}

/// A node a run has taken up: started, and perhaps finished.
pub open spec fn taken_up(s: ExecutionStatus) -> bool {
    s == ExecutionStatus::InProgress || s == ExecutionStatus::Completed || s == ExecutionStatus::Failed
}

/// From one tracker to the next within a run: no node is lost, a node
/// taken up stays taken up, a blocked node stays blocked.
pub open spec fn run_keeps(before: ExecutionTracker, after: ExecutionTracker) -> bool {
    forall|x: Seq<char>|
        #[trigger] before.nodes().dom().contains(x) ==> {
            &&& after.nodes().dom().contains(x)
            &&& taken_up(before.nodes()[x].execution_status) ==> taken_up(after.nodes()[x].execution_status)
            &&& before.nodes()[x].execution_status == ExecutionStatus::Blocked ==> after.nodes()[x].execution_status
                == ExecutionStatus::Blocked
        }
}

/// A node that a run has taken up, or that a failure has blocked, is not
/// ready: no later step of the run picks it again.
pub proof fn lemma_taken_or_blocked_not_ready(t: ExecutionTracker, x: Seq<char>)
    requires
        t.nodes().dom().contains(x),
        taken_up(t.nodes()[x].execution_status) || t.nodes()[x].execution_status == ExecutionStatus::Blocked,
    ensures
        !t.is_ready(x),
{
}

/// Across a run, a node once taken up, or blocked by a failure, is never
/// ready again: `next_step` never hands it out a second time.
pub proof fn lemma_never_again(before: ExecutionTracker, after: ExecutionTracker, x: Seq<char>)
    requires
        run_keeps(before, after),
        before.nodes().dom().contains(x),
        taken_up(before.nodes()[x].execution_status) || before.nodes()[x].execution_status
            == ExecutionStatus::Blocked,
    ensures
        !after.is_ready(x),
{
    assert(after.nodes().dom().contains(x));
    lemma_taken_or_blocked_not_ready(after, x);
}

/// Steps of a run compose: what the first keeps and the second keeps, the
/// two together keep.
pub proof fn lemma_run_keeps_trans(a: ExecutionTracker, b: ExecutionTracker, c: ExecutionTracker)
    requires
        run_keeps(a, b),
        run_keeps(b, c),
    ensures
        run_keeps(a, c),
{
    assert forall|x: Seq<char>| #[trigger] a.nodes().dom().contains(x) implies {
        &&& c.nodes().dom().contains(x)
        &&& taken_up(a.nodes()[x].execution_status) ==> taken_up(c.nodes()[x].execution_status)
        &&& a.nodes()[x].execution_status == ExecutionStatus::Blocked ==> c.nodes()[x].execution_status
            == ExecutionStatus::Blocked
    } by {
        assert(b.nodes().dom().contains(x));
    }
}

// ---------------------------------------------------------------------------
// Orchestration groups
// ---------------------------------------------------------------------------

/// How the nodes of a group run.
#[derive(Debug, Clone, Copy, PartialEq, Eq, Structural)]
pub enum Strategy {
    /// One after the other.
    Sequential,
    /// At once, up to the group's concurrency.
    Parallel,
}

impl Strategy {
    /// The strategy's name.
    pub open spec fn spec_name(self) -> Seq<char> {
        match self {
            Strategy::Sequential => "sequential"@,
            Strategy::Parallel => "parallel"@,
        }
    }

    /// The strategy's name.
    pub fn as_str(&self) -> (r: &'static str)
        ensures
            r@ == self.spec_name(),
    {
        match self {
            Strategy::Sequential => "sequential",
            Strategy::Parallel => "parallel",
        }
    }
}

/// A group of an orchestration node.
pub struct ParallelGroup {
    /// Group name.
    pub group: String,
    /// Nodes of the group, in order.
    pub nodes: Vec<String>,
    /// How the nodes run.
    pub strategy: Strategy,
    /// Groups that must run before.
    pub requires: Option<Vec<String>>,
    /// Concurrency of a parallel group.
    pub max_concurrency: Option<u32>,
}

/// Concurrency of a group: 1 when sequential; its own limit, else the
/// run's, when parallel.
pub fn effective_concurrency(g: &ParallelGroup, config_max: usize) -> (r: usize)
    ensures
        r == match g.strategy {
            Strategy::Sequential => 1,
            Strategy::Parallel => match g.max_concurrency {
                Some(m) => m as usize,
                None => config_max,
            },
        },
{
    match g.strategy {
        Strategy::Sequential => 1,
        Strategy::Parallel => match g.max_concurrency {
            Some(m) => m as usize,
            None => config_max,
        },
    }
}

/// The first required group of `reqs` that `done` does not hold.
pub open spec fn first_unmet(reqs: Seq<Seq<char>>, done: Seq<Seq<char>>) -> Option<Seq<char>>
    decreases reqs.len(),
{
    if reqs.len() == 0 {
        None
    } else if !done.contains(reqs[0]) {
        Some(reqs[0])
    } else {
        first_unmet(reqs.drop_first(), done)
    }
}

/// A group's gate opens exactly when every group it requires is done; when
/// it stays shut, it names the first required group that is not done.
pub proof fn lemma_gate_names_first_unmet(reqs: Seq<Seq<char>>, done: Seq<Seq<char>>)
    ensures
        first_unmet(reqs, done) is None <==> (forall|i: int| 0 <= i < reqs.len() ==> done.contains(#[trigger] reqs[i])),
        first_unmet(reqs, done) matches Some(q) ==> exists|k: int|
            0 <= k < reqs.len() && #[trigger] reqs[k] == q && !done.contains(q) && forall|i: int|
                0 <= i < k ==> done.contains(#[trigger] reqs[i]),
    decreases reqs.len(),
{
    if reqs.len() > 0 {
        let t = reqs.drop_first();
        lemma_gate_names_first_unmet(t, done);
        if done.contains(reqs[0]) {
            assert forall|i: int| 0 <= i < reqs.len() && (forall|j: int| 0 <= j < t.len() ==> done.contains(#[trigger] t[j]))
                implies done.contains(#[trigger] reqs[i]) by {
                if i > 0 {
                    assert(reqs[i] == t[i - 1]);
                }
            }
            if first_unmet(t, done) is None {
                assert forall|i: int| 0 <= i < t.len() implies done.contains(#[trigger] t[i]) by {
                }
            } else {
                let q = first_unmet(t, done)->0;
                let k = choose|k: int|
                    0 <= k < t.len() && #[trigger] t[k] == q && !done.contains(q) && forall|i: int|
                        0 <= i < k ==> done.contains(#[trigger] t[i]);
                assert(reqs[k + 1] == q);
                assert forall|i: int| 0 <= i < k + 1 implies done.contains(#[trigger] reqs[i]) by {
                    if i > 0 {
                        assert(reqs[i] == t[i - 1]);
                    }
                }
                assert(!(forall|i: int| 0 <= i < reqs.len() ==> done.contains(#[trigger] reqs[i])));
            }
            if forall|i: int| 0 <= i < reqs.len() ==> done.contains(#[trigger] reqs[i]) {
                assert forall|j: int| 0 <= j < t.len() implies done.contains(#[trigger] t[j]) by {
                    assert(t[j] == reqs[j + 1]);
                }
            }
        } else {
            assert(reqs[0] == first_unmet(reqs, done)->0);
        }
    }
}

/// The groups a group requires.
pub open spec fn group_reqs(g: ParallelGroup) -> Seq<Seq<char>> {
    match g.requires {
        Some(v) => string_views(v@),
        None => Seq::empty(),
    }
}

/// Checks that every group `g` requires is completed; the error names the
/// first that is not.
pub fn group_gate(g: &ParallelGroup, completed: &Vec<String>) -> (r: Result<(), String>)
    ensures
        match first_unmet(group_reqs(*g), string_views(completed@)) {
            None => r is Ok,
            Some(q) => r matches Err(m) && m@ == "Group '"@ + g.group@ + "' requires '"@ + q + "' which is not completed"@,
        },
{
    if let Some(reqs) = &g.requires {
        let ghost rv = string_views(reqs@);
        let mut i: usize = 0;
        assert(rv.skip(0) =~= rv);
        while i < reqs.len()
            invariant
                i <= reqs@.len(),
                rv == string_views(reqs@),
                g.requires == Some(*reqs),
                first_unmet(rv, string_views(completed@)) == first_unmet(rv.skip(i as int), string_views(completed@)),
            decreases reqs@.len() - i,
        {
            assert(rv.skip(i as int)[0] == reqs@[i as int]@);
            assert(rv.skip(i as int).drop_first() =~= rv.skip(i + 1));
            if !crate::runtime::context::contains_string(completed, reqs[i].as_str()) {
                let mut m = owned("Group '");
                push_str(&mut m, g.group.as_str());
                push_str(&mut m, "' requires '");
                push_str(&mut m, reqs[i].as_str());
                push_str(&mut m, "' which is not completed");
                return Err(m);
            }
            i += 1;
        }
    }
    Ok(())
}

/// A node of a sequential group is run unless it is already completed,
/// skipped, blocked or failed (or has no state).
pub open spec fn runs_in_sequence(s: Option<ExecutionStatus>) -> bool {
    match s {
        Some(st) => st != ExecutionStatus::Completed && st != ExecutionStatus::Skipped && st
            != ExecutionStatus::Blocked && st != ExecutionStatus::Failed,
        None => true,
    }
}

/// A node of a sequential group runs exactly when it has no state or is
/// pending, ready or in progress: a completed, skipped, blocked or failed
/// node is never run again.
pub proof fn lemma_sequential_runs_only_unsettled(t: ExecutionTracker, id: Seq<char>)
    ensures
        ({
            let st = if t.nodes().dom().contains(id) {
                Some(t.nodes()[id].execution_status)
            } else {
                None
            };
            &&& runs_in_sequence(st) <==> (st is None || st == Some(ExecutionStatus::Pending) || st == Some(
                ExecutionStatus::Ready,
            ) || st == Some(ExecutionStatus::InProgress))
            &&& (st == Some(ExecutionStatus::Completed) || st == Some(ExecutionStatus::Skipped) || st == Some(
                ExecutionStatus::Blocked,
            ) || st == Some(ExecutionStatus::Failed)) ==> !runs_in_sequence(st)
        }),
{
}

/// Whether a node of a sequential group is run.
pub fn sequential_eligible(tracker: &ExecutionTracker, node_id: &str) -> (r: bool)
    requires
        tracker.wf(),
    ensures
        r == runs_in_sequence(
            if tracker.nodes().dom().contains(node_id@) {
                Some(tracker.nodes()[node_id@].execution_status)
            } else {
                None
            },
        ),
{
    match tracker.node_state(node_id) {
        Some(ns) => {
            let st = ns.execution_status;
            st != ExecutionStatus::Completed && st != ExecutionStatus::Skipped && st != ExecutionStatus::Blocked
                && st != ExecutionStatus::Failed
        },
        None => true,
    }
}

/// The nodes of a parallel group that are dispatched: those ready or
/// pending, in the group's order.
pub open spec fn parallel_eligible_spec(tracker: ExecutionTracker, ids: Seq<Seq<char>>) -> Seq<Seq<char>> {
    ids.filter(
        |x: Seq<char>|
            tracker.nodes().dom().contains(x) && (tracker.nodes()[x].execution_status == ExecutionStatus::Ready
                || tracker.nodes()[x].execution_status == ExecutionStatus::Pending),
    )
}

/// A parallel group dispatches exactly its nodes that have a state and are
/// ready or pending: no completed, skipped, blocked, failed or running
/// node, and no node outside the group.
pub proof fn lemma_parallel_dispatches_only_waiting(t: ExecutionTracker, ids: Seq<Seq<char>>, x: Seq<char>)
    ensures
        parallel_eligible_spec(t, ids).contains(x) <==> (ids.contains(x) && t.nodes().dom().contains(x) && (
        t.nodes()[x].execution_status == ExecutionStatus::Ready || t.nodes()[x].execution_status
            == ExecutionStatus::Pending)),
{
    broadcast use vstd::seq_lib::group_filter_ensures;
    let p = |y: Seq<char>|
        t.nodes().dom().contains(y) && (t.nodes()[y].execution_status == ExecutionStatus::Ready
            || t.nodes()[y].execution_status == ExecutionStatus::Pending);
    let f = ids.filter(p);
    assert(f == parallel_eligible_spec(t, ids));
    if f.contains(x) {
        let i = choose|i: int| 0 <= i < f.len() && f[i] == x;
        assert(p(f[i]));
        ids.lemma_filter_contains_rev(p, x);
    }
    if ids.contains(x) && p(x) {
        let j = choose|j: int| 0 <= j < ids.len() && ids[j] == x;
        ids.lemma_filter_contains(p, j);
    }
}

/// The nodes of a parallel group that are dispatched.
pub fn parallel_eligible(tracker: &ExecutionTracker, ids: &Vec<String>) -> (r: Vec<String>)
    requires
        tracker.wf(),
    ensures
        string_views(r@) == parallel_eligible_spec(*tracker, string_views(ids@)),
{
    let ghost pred = |x: Seq<char>|
        tracker.nodes().dom().contains(x) && (tracker.nodes()[x].execution_status == ExecutionStatus::Ready
            || tracker.nodes()[x].execution_status == ExecutionStatus::Pending);
    let mut out: Vec<String> = Vec::new();
    let mut i: usize = 0;
    while i < ids.len()
        invariant
            i <= ids@.len(),
            tracker.wf(),
            pred == (|x: Seq<char>|
                tracker.nodes().dom().contains(x) && (tracker.nodes()[x].execution_status == ExecutionStatus::Ready
                    || tracker.nodes()[x].execution_status == ExecutionStatus::Pending)),
            string_views(out@) == string_views(ids@).take(i as int).filter(pred),
        decreases ids@.len() - i,
    {
        proof {
            reveal_with_fuel(Seq::<_>::filter, 1);
            assert(string_views(ids@).take(i + 1).drop_last() =~= string_views(ids@).take(i as int));
        }
        let keep = match tracker.node_state(ids[i].as_str()) {
            Some(ns) => ns.execution_status == ExecutionStatus::Ready || ns.execution_status == ExecutionStatus::Pending,
            None => false,
        };
        if keep {
            let c = ids[i].clone();
            proof {
                crate::text::lemma_views_push(out@, c);
            }
            out.push(c);
        }
        i += 1;
    }
    assert(string_views(ids@).take(i as int) =~= string_views(ids@));
    out
}

/// The text of a planned node in an orchestrated dry run.
pub open spec fn group_plan_text(g: ParallelGroup) -> Seq<char> {
    "Dry-run: group '"@ + g.group@ + "', strategy: "@ + g.strategy.spec_name() + ", would execute"@
}

/// Index of the first group named `name`.
pub open spec fn group_index(gs: Seq<ParallelGroup>, name: Seq<char>) -> Option<int>
    decreases gs.len(),
{
    if gs.len() == 0 {
        None
    } else {
        match group_index(gs.drop_last(), name) {
            Some(i) => Some(i),
            None => if gs.last().group@ == name {
                Some(gs.len() - 1)
            } else {
                None
            },
        }
    }
}

/// The planned `(node, text)` pairs of an orchestrated dry run: for each
/// group name in order, the nodes of the first group with that name.
pub open spec fn orchestrated_plan(gs: Seq<ParallelGroup>, order: Seq<Seq<char>>) -> Seq<(Seq<char>, Seq<char>)>
    decreases order.len(),
{
    if order.len() == 0 {
        Seq::empty()
    } else {
        orchestrated_plan(gs, order.drop_last()) + match group_index(gs, order.last()) {
            Some(i) => string_views(gs[i].nodes@).map_values(|id: Seq<char>| (id, group_plan_text(gs[i]))),
            None => Seq::empty(),
        }
    }
}

fn find_group(groups: &Vec<ParallelGroup>, name: &str) -> (r: Option<usize>)
    ensures
        match r {
            Some(i) => group_index(groups@, name@) == Some(i as int) && i < groups@.len(),
            None => group_index(groups@, name@) is None,
        },
{
    let mut i: usize = 0;
    while i < groups.len()
        invariant
            i <= groups@.len(),
            group_index(groups@.take(i as int), name@) is None,
        decreases groups@.len() - i,
    {
        assert(groups@.take(i + 1).drop_last() =~= groups@.take(i as int));
        if str_eq(groups[i].group.as_str(), name) {
            proof {
                lemma_group_index_prefix(groups@, name@, i + 1);
            }
            return Some(i);
        }
        i += 1;
    }
    assert(groups@.take(i as int) =~= groups@);
    None
}

proof fn lemma_group_index_prefix(gs: Seq<ParallelGroup>, name: Seq<char>, k: int)
    requires
        0 <= k <= gs.len(),
        group_index(gs.take(k), name) is Some,
    ensures
        group_index(gs, name) == group_index(gs.take(k), name),
    decreases gs.len() - k,
{
    if k < gs.len() {
        assert(gs.take(k + 1).drop_last() =~= gs.take(k));
        lemma_group_index_prefix(gs, name, k + 1);
    } else {
        assert(gs.take(k) =~= gs);
    }
}

/// The report of a dry run of an orchestrated run.
pub fn build_orchestrated_dry_run_report(groups: &Vec<ParallelGroup>, group_order: &Vec<String>) -> (r: RunReport)
    ensures
        ({
            let plan = orchestrated_plan(groups@, string_views(group_order@));
            &&& r.node_results@.len() == plan.len()
            &&& forall|i: int| 0 <= i < plan.len() ==> planned(#[trigger] r.node_results@[i], plan[i].0, plan[i].1)
            &&& r.total_nodes == plan.len()
            &&& r.skipped == plan.len()
            &&& r.executed == 0 && r.succeeded == 0 && r.failed == 0 && r.blocked == 0
            &&& r.duration_ms == 0
        }),
{
    let mut results: Vec<NodeResult> = Vec::new();
    let ghost ov = string_views(group_order@);
    let mut k: usize = 0;
    while k < group_order.len()
        invariant
            k <= group_order@.len(),
            ov == string_views(group_order@),
            results@.len() == orchestrated_plan(groups@, ov.take(k as int)).len(),
            forall|i: int| 0 <= i < results@.len() ==> planned(
                #[trigger] results@[i],
                orchestrated_plan(groups@, ov.take(k as int))[i].0,
                orchestrated_plan(groups@, ov.take(k as int))[i].1,
            ),
        decreases group_order@.len() - k,
    {
        assert(ov.take(k + 1).drop_last() =~= ov.take(k as int));
        assert(ov.take(k + 1).last() == group_order@[k as int]@);
        let ghost prev = orchestrated_plan(groups@, ov.take(k as int));
        let ghost base = results@.len();
        match find_group(groups, group_order[k].as_str()) {
            Some(gi) => {
                let g = &groups[gi];
                let mut text = owned("Dry-run: group '");
                push_str(&mut text, g.group.as_str());
                push_str(&mut text, "', strategy: ");
                push_str(&mut text, g.strategy.as_str());
                push_str(&mut text, ", would execute");
                let ghost add = string_views(g.nodes@).map_values(|id: Seq<char>| (id, group_plan_text(*g)));
                let mut t: usize = 0;
                while t < g.nodes.len()
                    invariant
                        t <= g.nodes@.len(),
                        text@ == group_plan_text(*g),
                        add == string_views(g.nodes@).map_values(|id: Seq<char>| (id, group_plan_text(*g))),
                        results@.len() == base + t,
                        base == prev.len(),
                        forall|i: int| 0 <= i < base ==> planned(#[trigger] results@[i], prev[i].0, prev[i].1),
                        forall|i: int| 0 <= i < t ==> planned(#[trigger] results@[base + i], add[i].0, add[i].1),
                    decreases g.nodes@.len() - t,
                {
                    results.push(
                        NodeResult {
                            node_id: g.nodes[t].clone(),
                            status: ExecutionStatus::Pending,
                            agent: owned("(dry-run)"),
                            duration_ms: 0,
                            output: Some(text.clone()),
                        },
                    );
                    proof {
                        assert(add[t as int] == (g.nodes@[t as int]@, group_plan_text(*g)));
                    }
                    t += 1;
                }
                proof {
                    let now = orchestrated_plan(groups@, ov.take(k + 1));
                    assert(now == prev + add);
                    assert forall|i: int| 0 <= i < results@.len() implies planned(#[trigger] results@[i], now[i].0, now[i].1) by {
                        if i >= base {
                            assert(results@[base + (i - base)] == results@[i]);
                        }
                    }
                }
            },
            None => {
                proof {
                    assert(orchestrated_plan(groups@, ov.take(k + 1)) =~= prev);
                }
            },
        }
        k += 1;
    }
    assert(ov.take(k as int) =~= ov);
    let n = results.len();
    RunReport {
        total_nodes: n,
        executed: 0,
        succeeded: 0,
        failed: 0,
        skipped: n,
        blocked: 0,
        duration_ms: 0,
        node_results: results,
    }
}

} // verus!
