//! Execution state tracking: the per-node state machine, progress and
//! blocked propagation.

use vstd::prelude::*;

use crate::clock::{generate_session_id, now_iso8601};
use crate::keyed::{lex_lt, KeyedMap};
use crate::runtime::graph::{DepGraph, Direction};
use crate::text::string_views;
use crate::runtime::model::{AgmFile, Node};
use crate::text::{concat2, owned, push_str};

verus! {

/// Execution status of a node.
#[derive(Clone, Copy, Debug, PartialEq, Eq, Structural)]
pub enum ExecutionStatus {
    /// Waiting for dependencies.
    Pending,
    /// Ready to run.
    Ready,
    /// Running.
    InProgress,
    /// Finished successfully.
    Completed,
    /// Finished unsuccessfully.
    Failed,
    /// Blocked by a failed dependency.
    Blocked,
    /// Skipped.
    Skipped,
}

impl ExecutionStatus {
    /// The snake_case name of the status.
    pub open spec fn spec_name(self) -> Seq<char> {
        match self {
            ExecutionStatus::Pending => "pending"@,
            ExecutionStatus::Ready => "ready"@,
            ExecutionStatus::InProgress => "in_progress"@,
            ExecutionStatus::Completed => "completed"@,
            ExecutionStatus::Failed => "failed"@,
            ExecutionStatus::Blocked => "blocked"@,
            ExecutionStatus::Skipped => "skipped"@,
        }
    }

    /// The snake_case name of the status, as it is displayed.
    pub fn as_str(&self) -> (r: &'static str)
        ensures
            r@ == self.spec_name(),
    {
        match self {
            ExecutionStatus::Pending => "pending",
            ExecutionStatus::Ready => "ready",
            ExecutionStatus::InProgress => "in_progress",
            ExecutionStatus::Completed => "completed",
            ExecutionStatus::Failed => "failed",
            ExecutionStatus::Blocked => "blocked",
            ExecutionStatus::Skipped => "skipped",
        }
    }

    /// The name as an owned string (what `to_string` gives for the status).
    pub fn to_string(&self) -> (r: String)
        ensures
            r@ == self.spec_name(),
    {
        owned(self.as_str())
    }
}

/// The state machine's allowed transitions.
pub open spec fn transition_allowed(from: ExecutionStatus, to: ExecutionStatus) -> bool {
    match (from, to) {
        (ExecutionStatus::Pending, ExecutionStatus::Ready) => true,
        (ExecutionStatus::Pending, ExecutionStatus::Blocked) => true,
        (ExecutionStatus::Pending, ExecutionStatus::Skipped) => true,
        (ExecutionStatus::Ready, ExecutionStatus::InProgress) => true,
        (ExecutionStatus::InProgress, ExecutionStatus::Completed) => true,
        (ExecutionStatus::InProgress, ExecutionStatus::Failed) => true,
        (ExecutionStatus::Failed, ExecutionStatus::Ready) => true,
        (ExecutionStatus::Blocked, ExecutionStatus::Ready) => true,
        _ => false,
    }
}

/// The message that reports a refused transition.
pub open spec fn invalid_transition_message(from: ExecutionStatus, to: ExecutionStatus) -> Seq<char> {
    "Invalid state transition: "@ + from.spec_name() + " -> "@ + to.spec_name()
}

/// The message for a refused transition, as a string.
fn transition_message(from: ExecutionStatus, to: ExecutionStatus) -> (r: String)
    ensures
        r@ == invalid_transition_message(from, to),
{
    let mut m = owned("Invalid state transition: ");
    push_str(&mut m, from.as_str());
    push_str(&mut m, " -> ");
    push_str(&mut m, to.as_str());
    m
}

/// Checks a transition against the state machine.
///
/// `Ok(())` exactly when the transition is allowed; otherwise the error
/// text names both statuses.
pub fn validate_transition(from: &ExecutionStatus, to: &ExecutionStatus) -> (r: Result<(), String>)
    ensures
        r is Ok <==> transition_allowed(*from, *to),
        r matches Err(m) ==> m@ == invalid_transition_message(*from, *to),
{
    let valid = match (from, to) {
        (ExecutionStatus::Pending, ExecutionStatus::Ready) => true,
        (ExecutionStatus::Pending, ExecutionStatus::Blocked) => true,
        (ExecutionStatus::Pending, ExecutionStatus::Skipped) => true,
        (ExecutionStatus::Ready, ExecutionStatus::InProgress) => true,
        (ExecutionStatus::InProgress, ExecutionStatus::Completed) => true,
        (ExecutionStatus::InProgress, ExecutionStatus::Failed) => true,
        (ExecutionStatus::Failed, ExecutionStatus::Ready) => true,
        (ExecutionStatus::Blocked, ExecutionStatus::Ready) => true,
        _ => false,
    };
    if valid {
        Ok(())
    } else {
        Err(transition_message(*from, *to))
    }
}

/// The `.agm.state` sidecar path of an `.agm` file: the path with
/// `.state` appended.
pub fn state_path(agm_path: &str) -> (r: String)
    ensures
        r@ == agm_path@ + ".state"@,
{
    concat2(agm_path, ".state")
}

/// Execution state of one node.
pub struct NodeState {
    /// Current status.
    pub execution_status: ExecutionStatus,
    /// Agent that last executed the node.
    pub executed_by: Option<String>,
    /// When the node was last executed.
    pub executed_at: Option<String>,
    /// Output or log of the last execution.
    pub execution_log: Option<String>,
    /// Number of retries so far.
    pub retry_count: u32,
}

/// A node state with the given status and no execution metadata.
pub open spec fn fresh_state(status: ExecutionStatus) -> NodeState {
    NodeState {
        execution_status: status,
        executed_by: None,
        executed_at: None,
        execution_log: None,
        retry_count: 0,
    }
}

/// The same state with another status.
pub open spec fn with_status(ns: NodeState, status: ExecutionStatus) -> NodeState {
    NodeState { execution_status: status, ..ns }
}

/// A copy of an optional string.
pub fn clone_opt(o: &Option<String>) -> (r: Option<String>)
    ensures
        r == *o,
{
    match o {
        Some(s) => Some(s.clone()),
        None => None,
    }
}

impl NodeState {
    /// A pending state with no execution metadata and no retries.
    pub fn default() -> (r: NodeState)
        ensures
            r == fresh_state(ExecutionStatus::Pending),
    {
        NodeState {
            execution_status: ExecutionStatus::Pending,
            executed_by: None,
            executed_at: None,
            execution_log: None,
            retry_count: 0,
        }
    }

    /// A copy of this state with another status.
    pub fn copy_with_status(&self, status: ExecutionStatus) -> (r: NodeState)
        ensures
            r == with_status(*self, status),
    {
        NodeState {
            execution_status: status,
            executed_by: clone_opt(&self.executed_by),
            executed_at: clone_opt(&self.executed_at),
            execution_log: clone_opt(&self.execution_log),
            retry_count: self.retry_count,
        }
    }
}

/// Execution state of a whole file: the contents of its `.agm.state` sidecar.
pub struct StateFile {
    /// Sidecar format version.
    pub format_version: String,
    /// Package of the AGM file.
    pub package: String,
    /// Version of the AGM file.
    pub version: String,
    /// Identifier of the run that created the state.
    pub session_id: String,
    /// When the state was created.
    pub started_at: String,
    /// When the state was last changed.
    pub updated_at: String,
    /// Per-node state, by node id in ascending order.
    pub nodes: KeyedMap<NodeState>,
}

/// Status a node starts with: pending when it declares dependencies,
/// ready otherwise.
pub open spec fn initial_status(node: Node) -> ExecutionStatus {
    if node.depends matches Some(d) && d@.len() > 0 {
        ExecutionStatus::Pending
    } else {
        ExecutionStatus::Ready
    }
}

/// Initial node states for a list of nodes; a later node with the same id
/// replaces an earlier one.
pub open spec fn initial_nodes(nodes: Seq<Node>) -> Map<Seq<char>, NodeState>
    decreases nodes.len(),
{
    if nodes.len() == 0 {
        Map::empty()
    } else {
        initial_nodes(nodes.drop_last()).insert(
            nodes.last().id@,
            fresh_state(initial_status(nodes.last())),
        )
    }
}

/// Initial node states for a list of nodes; the first node with an id wins.
pub open spec fn first_initial_nodes(nodes: Seq<Node>) -> Map<Seq<char>, NodeState>
    decreases nodes.len(),
{
    if nodes.len() == 0 {
        Map::empty()
    } else {
        let m = first_initial_nodes(nodes.drop_last());
        if m.dom().contains(nodes.last().id@) {
            m
        } else {
            m.insert(nodes.last().id@, fresh_state(initial_status(nodes.last())))
        }
    }
}

/// The ids of a list of nodes.
pub open spec fn node_ids(nodes: Seq<Node>) -> Set<Seq<char>> {
    Set::new(|x: Seq<char>| exists|i: int| 0 <= i < nodes.len() && #[trigger] nodes[i].id@ == x)
}

/// The initial status of a node.
fn initial_status_exec(node: &Node) -> (r: ExecutionStatus)
    ensures
        r == initial_status(*node),
{
    match &node.depends {
        Some(d) => if d.len() > 0 {
            ExecutionStatus::Pending
        } else {
            ExecutionStatus::Ready
        },
        None => ExecutionStatus::Ready,
    }
}

/// Fresh state for a file: every node pending when it declares
/// dependencies and ready otherwise, stamped with `now`.
pub fn initialize_at(file: &AgmFile, session_id: &str, now: &str) -> (s: StateFile)
    ensures
        s.nodes.wf(),
        s.nodes@ == initial_nodes(file.nodes@),
        s.format_version@ == "1.0"@,
        s.package@ == file.header.package@,
        s.version@ == file.header.version@,
        s.session_id@ == session_id@,
        s.started_at@ == now@,
        s.updated_at@ == now@,
{
    let mut nodes: KeyedMap<NodeState> = KeyedMap::new();
    let mut i: usize = 0;
    while i < file.nodes.len()
        invariant
            i <= file.nodes@.len(),
            nodes.wf(),
            nodes@ == initial_nodes(file.nodes@.take(i as int)),
        decreases file.nodes@.len() - i,
    {
        let node = &file.nodes[i];
        let status = initial_status_exec(node);
        let ns = NodeState {
            execution_status: status,
            executed_by: None,
            executed_at: None,
            execution_log: None,
            retry_count: 0,
        };
        nodes.insert(node.id.clone(), ns);
        assert(file.nodes@.take(i + 1).drop_last() =~= file.nodes@.take(i as int));
        i += 1;
    }
    assert(file.nodes@.take(i as int) =~= file.nodes@);
    StateFile {
        format_version: owned("1.0"),
        package: file.header.package.clone(),
        version: file.header.version.clone(),
        session_id: owned(session_id),
        started_at: owned(now),
        updated_at: owned(now),
        nodes,
    }
}

/// Whether some node of the list has id `id`.
fn file_has_id(nodes: &Vec<Node>, id: &str) -> (r: bool)
    ensures
        r == node_ids(nodes@).contains(id@),
{
    let mut i: usize = 0;
    while i < nodes.len()
        invariant
            i <= nodes@.len(),
            forall|j: int| 0 <= j < i ==> nodes@[j].id@ != id@,
        decreases nodes@.len() - i,
    {
        if crate::keyed::str_eq(nodes[i].id.as_str(), id) {
            assert(nodes@[i as int].id@ == id@);
            return true;
        }
        i += 1;
    }
    false
}

/// Brings stored state in line with the current file: entries for ids the
/// file no longer has are dropped, nodes new to the file start from their
/// initial status, and every other entry is kept as it was.
pub fn reconcile_state(state: &mut StateFile, file: &AgmFile)
    requires
        old(state).nodes.wf(),
    ensures
        final(state).nodes.wf(),
        final(state).nodes@ == first_initial_nodes(file.nodes@).union_prefer_right(
            old(state).nodes@.restrict(node_ids(file.nodes@)),
        ),
        final(state).format_version == old(state).format_version,
        final(state).package == old(state).package,
        final(state).version == old(state).version,
        final(state).session_id == old(state).session_id,
        final(state).started_at == old(state).started_at,
        final(state).updated_at == old(state).updated_at,
{
    let ghost ids = node_ids(file.nodes@);
    // 1. drop stale entries
    let mut stale: Vec<String> = Vec::new();
    let mut i: usize = 0;
    while i < state.nodes.len()
        invariant
            state.nodes.wf(),
            *state == *old(state),
            ids == node_ids(file.nodes@),
            i <= state.nodes.keys().len(),
            forall|x: Seq<char>| #[trigger] string_views(stale@).contains(x) ==> state.nodes@.dom().contains(x) && !ids.contains(x),
            forall|j: int| 0 <= j < i && !ids.contains(#[trigger] state.nodes.keys()[j]) ==> string_views(stale@).contains(state.nodes.keys()[j]),
        decreases state.nodes.keys().len() - i,
    {
        let k = state.nodes.key_at(i);
        proof {
            state.nodes.lemma_index_of(i as int);
        }
        let present = file_has_id(&file.nodes, k.as_str());
        assert(present == ids.contains(state.nodes.keys()[i as int]));
        if !present {
            let ghost sb = stale@;
            let kc = k.clone();
            proof {
                crate::text::lemma_views_push(sb, kc);
            }
            stale.push(kc);
            proof {
                assert(string_views(stale@) == string_views(sb).push(k@));
                assert forall|x: Seq<char>| #[trigger] string_views(stale@).contains(x) implies state.nodes@.dom().contains(x) && !ids.contains(x) by {
                    if x != k@ {
                        let t = string_views(stale@).index_of(x);
                        assert(t < sb.len());
                        assert(string_views(sb)[t] == x);
                        assert(string_views(sb).contains(x));
                    } else {
                        assert(state.nodes.keys()[i as int] == x);
                    }
                }
                assert forall|j: int| 0 <= j < i + 1 && !ids.contains(#[trigger] state.nodes.keys()[j]) implies string_views(stale@).contains(state.nodes.keys()[j]) by {
                    if j < i {
                        let t = string_views(sb).index_of(state.nodes.keys()[j]);
                        assert(string_views(stale@)[t] == state.nodes.keys()[j]);
                    } else {
                        assert(string_views(stale@)[sb.len() as int] == state.nodes.keys()[j]);
                    }
                }
            }
        }
        i += 1;
    }
    let ghost kept = old(state).nodes@.restrict(ids);
    proof {
        state.nodes.lemma_dom_len();
        assert forall|x: Seq<char>| state.nodes@.dom().contains(x) && !ids.contains(x) implies #[trigger] string_views(stale@).contains(x) by {
            let j = state.nodes.keys().index_of(x);
        }
    }
    let mut t: usize = 0;
    while t < stale.len()
        invariant
            state.nodes.wf(),
            ids == node_ids(file.nodes@),
            t <= stale@.len(),
            forall|x: Seq<char>| #[trigger] string_views(stale@).contains(x) ==> old(state).nodes@.dom().contains(x) && !ids.contains(x),
            forall|x: Seq<char>| old(state).nodes@.dom().contains(x) && !ids.contains(x) ==> #[trigger] string_views(stale@).contains(x),
            state.nodes@ == old(state).nodes@.remove_keys(string_views(stale@).take(t as int).to_set()),
            state.format_version == old(state).format_version,
            state.package == old(state).package,
            state.version == old(state).version,
            state.session_id == old(state).session_id,
            state.started_at == old(state).started_at,
            state.updated_at == old(state).updated_at,
        decreases stale@.len() - t,
    {
        let _ = state.nodes.remove(stale[t].as_str());
        proof {
            assert(string_views(stale@).take(t + 1).to_set() =~= string_views(stale@).take(t as int).to_set().insert(stale@[t as int]@)) by {
                assert(string_views(stale@).take(t + 1) =~= string_views(stale@).take(t as int).push(stale@[t as int]@));
                assert forall|x: Seq<char>| string_views(stale@).take(t + 1).to_set().contains(x) <==> string_views(stale@).take(t as int).to_set().insert(stale@[t as int]@).contains(x) by {
                    if string_views(stale@).take(t + 1).contains(x) {
                        let a = string_views(stale@).take(t + 1).index_of(x);
                        if a < t {
                            assert(string_views(stale@).take(t as int)[a] == x);
                        }
                    }
                    if string_views(stale@).take(t as int).contains(x) {
                        let a = string_views(stale@).take(t as int).index_of(x);
                        assert(string_views(stale@).take(t + 1)[a] == x);
                    }
                    if x == stale@[t as int]@ {
                        assert(string_views(stale@).take(t + 1)[t as int] == x);
                    }
                }
            }
            assert(state.nodes@ =~= old(state).nodes@.remove_keys(string_views(stale@).take(t + 1).to_set()));
        }
        t += 1;
    }
    proof {
        assert(string_views(stale@).take(t as int) =~= string_views(stale@));
        assert forall|x: Seq<char>| string_views(stale@).to_set().contains(x) <==> string_views(stale@).contains(x) by {}
        assert(state.nodes@ =~= kept);
    }
    // 2. add nodes new to the file
    let mut i: usize = 0;
    while i < file.nodes.len()
        invariant
            state.nodes.wf(),
            ids == node_ids(file.nodes@),
            kept == old(state).nodes@.restrict(ids),
            i <= file.nodes@.len(),
            state.nodes@ == first_initial_nodes(file.nodes@.take(i as int)).union_prefer_right(kept),
            kept.dom().subset_of(ids),
            state.format_version == old(state).format_version,
            state.package == old(state).package,
            state.version == old(state).version,
            state.session_id == old(state).session_id,
            state.started_at == old(state).started_at,
            state.updated_at == old(state).updated_at,
        decreases file.nodes@.len() - i,
    {
        let node = &file.nodes[i];
        let ghost prev = first_initial_nodes(file.nodes@.take(i as int));
        assert(file.nodes@.take(i + 1).drop_last() =~= file.nodes@.take(i as int));
        assert(file.nodes@.take(i + 1).last() == file.nodes@[i as int]);
        match state.nodes.find(node.id.as_str()) {
            Some(j) => {
                proof {
                    state.nodes.lemma_index_of(j as int);
                    let next = first_initial_nodes(file.nodes@.take(i + 1));
                    if !prev.dom().contains(node.id@) {
                        // the entry is kept state; the initial one is shadowed
                        assert(kept.dom().contains(node.id@));
                        assert(next.union_prefer_right(kept) =~= prev.union_prefer_right(kept));
                    } else {
                        assert(next == prev);
                    }
                }
            },
            None => {
                let status = initial_status_exec(node);
                let ns = NodeState {
                    execution_status: status,
                    executed_by: None,
                    executed_at: None,
                    execution_log: None,
                    retry_count: 0,
                };
                proof {
                    assert(!prev.dom().contains(node.id@));
                    assert(!kept.dom().contains(node.id@));
                }
                state.nodes.insert(node.id.clone(), ns);
                proof {
                    let next = first_initial_nodes(file.nodes@.take(i + 1));
                    assert(next == prev.insert(node.id@, fresh_state(initial_status(*node))));
                    assert(state.nodes@ =~= next.union_prefer_right(kept));
                }
            },
        }
        i += 1;
    }
    proof {
        assert(file.nodes@.take(i as int) =~= file.nodes@);
    }
}

/// Number of states with status `s`.
pub open spec fn count_status(vals: Seq<NodeState>, s: ExecutionStatus) -> nat
    decreases vals.len(),
{
    if vals.len() == 0 {
        0
    } else {
        count_status(vals.drop_last(), s) + if vals.last().execution_status == s {
            1nat
        } else {
            0nat
        }
    }
}

/// The seven status counts add up to the number of states.
pub proof fn lemma_counts_sum(vals: Seq<NodeState>)
    ensures
        count_status(vals, ExecutionStatus::Pending) + count_status(vals, ExecutionStatus::Ready)
            + count_status(vals, ExecutionStatus::InProgress) + count_status(vals, ExecutionStatus::Completed)
            + count_status(vals, ExecutionStatus::Failed) + count_status(vals, ExecutionStatus::Blocked)
            + count_status(vals, ExecutionStatus::Skipped) == vals.len(),
    decreases vals.len(),
{
    if vals.len() > 0 {
        lemma_counts_sum(vals.drop_last());
    }
}

/// The ids of `m` whose state has status `s`.
pub open spec fn ids_with_status(m: Map<Seq<char>, NodeState>, s: ExecutionStatus) -> Set<Seq<char>> {
    m.dom().filter(|x: Seq<char>| m[x].execution_status == s)
}

/// The set of the first `n` keys is that of the first `n - 1` with the
/// `n`-th added, which it did not hold.
proof fn lemma_take_to_set_step(keys: Seq<Seq<char>>, n: int)
    requires
        keys.no_duplicates(),
        0 < n <= keys.len(),
    ensures
        keys.take(n).to_set() == keys.take(n - 1).to_set().insert(keys[n - 1]),
        !keys.take(n - 1).to_set().contains(keys[n - 1]),
{
    let k = keys[n - 1];
    let before = keys.take(n - 1).to_set();
    assert forall|x: Seq<char>| keys.take(n).to_set().contains(x) <==> before.insert(k).contains(x) by {
        if keys.take(n).contains(x) {
            let j = choose|j: int| 0 <= j < n && #[trigger] keys.take(n)[j] == x;
            if j < n - 1 {
                assert(keys.take(n - 1)[j] == x);
            }
        }
        if before.contains(x) {
            let j = choose|j: int| 0 <= j < n - 1 && #[trigger] keys.take(n - 1)[j] == x;
            assert(keys.take(n)[j] == x);
        }
        if x == k {
            assert(keys.take(n)[n - 1] == x);
        }
    }
    assert(keys.take(n).to_set() =~= before.insert(k));
    if before.contains(k) {
        let j = choose|j: int| 0 <= j < n - 1 && #[trigger] keys.take(n - 1)[j] == k;
        assert(keys[j] == keys[n - 1]);
    }
}

/// Counting a status along keys without repetitions, aligned with their
/// states in `m`, counts the keys of that status.
proof fn lemma_count_along_keys(
    keys: Seq<Seq<char>>,
    vals: Seq<NodeState>,
    m: Map<Seq<char>, NodeState>,
    s: ExecutionStatus,
    n: int,
)
    requires
        keys.no_duplicates(),
        keys.len() == vals.len(),
        0 <= n <= keys.len(),
        forall|i: int| 0 <= i < keys.len() ==> m.dom().contains(#[trigger] keys[i]) && m[keys[i]] == vals[i],
    ensures
        keys.take(n).to_set().filter(|x: Seq<char>| m[x].execution_status == s).finite(),
        count_status(vals.take(n), s) == keys.take(n).to_set().filter(|x: Seq<char>| m[x].execution_status == s).len(),
    decreases n,
{
    let p = |x: Seq<char>| m[x].execution_status == s;
    if n == 0 {
        assert(keys.take(0).to_set().filter(p) =~= Set::empty());
        assert(vals.take(0) =~= Seq::<NodeState>::empty());
    } else {
        lemma_count_along_keys(keys, vals, m, s, n - 1);
        lemma_take_to_set_step(keys, n);
        let k = keys[n - 1];
        let f0 = keys.take(n - 1).to_set().filter(p);
        assert(vals.take(n).drop_last() =~= vals.take(n - 1));
        assert(vals.take(n).last() == vals[n - 1]);
        if m[k].execution_status == s {
            assert(keys.take(n).to_set().filter(p) =~= f0.insert(k));
        } else {
            assert(keys.take(n).to_set().filter(p) =~= f0);
        }
    }
}

/// Propagation of a failure at `failed` blocks node `id`: `id` has a
/// state that is pending or ready and depends, directly or transitively,
/// on `failed`.
pub open spec fn blocked_by(nodes: Map<Seq<char>, NodeState>, g: DepGraph, failed: Seq<char>, id: Seq<char>) -> bool {
    &&& nodes.dom().contains(id)
    &&& g.reaches(Direction::Dependents, failed, id)
    &&& (nodes[id].execution_status == ExecutionStatus::Pending || nodes[id].execution_status
        == ExecutionStatus::Ready)
}

/// The node states after propagating a failure at `failed`.
pub open spec fn propagated(nodes: Map<Seq<char>, NodeState>, g: DepGraph, failed: Seq<char>) -> Map<
    Seq<char>,
    NodeState,
> {
    Map::new(
        |k: Seq<char>| nodes.dom().contains(k),
        |k: Seq<char>|
            if blocked_by(nodes, g, failed, k) {
                with_status(nodes[k], ExecutionStatus::Blocked)
            } else {
                nodes[k]
            },
    )
}

/// Blocking is idempotent: after the dependents of a failed node are
/// blocked, propagating the same failure again blocks nothing more and
/// changes nothing.
pub proof fn lemma_propagate_idempotent(nodes: Map<Seq<char>, NodeState>, g: DepGraph, failed: Seq<char>)
    ensures
        forall|k: Seq<char>| !blocked_by(propagated(nodes, g, failed), g, failed, k),
        propagated(propagated(nodes, g, failed), g, failed) == propagated(nodes, g, failed),
{
    let p = propagated(nodes, g, failed);
    assert(propagated(p, g, failed) =~= p);
}

/// Propagation leaves alone every node that is not pending or ready:
/// completed, skipped, in-progress, failed and blocked nodes keep their
/// state.
pub proof fn lemma_propagate_spares_settled(
    nodes: Map<Seq<char>, NodeState>,
    g: DepGraph,
    failed: Seq<char>,
    id: Seq<char>,
)
    requires
        nodes.dom().contains(id),
        nodes[id].execution_status != ExecutionStatus::Pending,
        nodes[id].execution_status != ExecutionStatus::Ready,
    ensures
        propagated(nodes, g, failed)[id] == nodes[id],
{
}

/// No transition leaves `completed` or `skipped`: they are final until a
/// reset.
pub proof fn lemma_final_statuses(to: ExecutionStatus)
    ensures
        !transition_allowed(ExecutionStatus::Completed, to),
        !transition_allowed(ExecutionStatus::Skipped, to),
{
}

/// Reconciliation keeps the state of every node that is still in the file,
/// drops the state of every node that is not, and gives every other node of
/// the file its initial state.
pub proof fn lemma_reconcile_shape(old_nodes: Map<Seq<char>, NodeState>, nodes: Seq<Node>, id: Seq<char>)
    ensures
        ({
            let r = first_initial_nodes(nodes).union_prefer_right(old_nodes.restrict(node_ids(nodes)));
            &&& (old_nodes.dom().contains(id) && node_ids(nodes).contains(id)) ==> r.dom().contains(id) && r[id]
                == old_nodes[id]
            &&& !node_ids(nodes).contains(id) ==> !r.dom().contains(id)
            &&& (node_ids(nodes).contains(id) && !old_nodes.dom().contains(id)) ==> r.dom().contains(id) && r[id]
                == first_initial_nodes(nodes)[id]
        }),
{
    lemma_first_initial_dom(nodes);
}

/// The initial states cover exactly the ids of the nodes.
pub proof fn lemma_first_initial_dom(nodes: Seq<Node>)
    ensures
        first_initial_nodes(nodes).dom() == node_ids(nodes),
    decreases nodes.len(),
{
    if nodes.len() > 0 {
        lemma_first_initial_dom(nodes.drop_last());
        assert forall|x: Seq<char>| node_ids(nodes).contains(x) <==> first_initial_nodes(nodes).dom().contains(x) by {
            if node_ids(nodes).contains(x) {
                let i = choose|i: int| 0 <= i < nodes.len() && #[trigger] nodes[i].id@ == x;
                if i < nodes.len() - 1 {
                    assert(nodes.drop_last()[i].id@ == x);
                    assert(node_ids(nodes.drop_last()).contains(x));
                }
            }
            if node_ids(nodes.drop_last()).contains(x) {
                let i = choose|i: int| 0 <= i < nodes.len() - 1 && #[trigger] nodes.drop_last()[i].id@ == x;
                assert(nodes[i].id@ == x);
            }
        }
        assert(first_initial_nodes(nodes).dom() =~= node_ids(nodes));
    } else {
        assert(node_ids(nodes) =~= Set::empty());
    }
}

/// Error of a tracker operation.
#[derive(Debug)]
pub enum TrackerError {
    /// The node has no entry in the state.
    NodeNotFound(String),
    /// The node's status does not allow the requested transition.
    InvalidTransition(ExecutionStatus, ExecutionStatus),
}

impl TrackerError {
    /// The message that describes the error.
    pub open spec fn spec_message(&self) -> Seq<char> {
        match self {
            TrackerError::NodeNotFound(id) => "Node '"@ + id@ + "' not found in state"@,
            TrackerError::InvalidTransition(from, to) => invalid_transition_message(*from, *to),
        }
    }

    /// The message that describes the error.
    pub fn message(&self) -> (r: String)
        ensures
            r@ == self.spec_message(),
    {
        match self {
            TrackerError::NodeNotFound(id) => {
                let mut m = owned("Node '");
                push_str(&mut m, id.as_str());
                push_str(&mut m, "' not found in state");
                m
            },
            TrackerError::InvalidTransition(from, to) => transition_message(*from, *to),
        }
    }
}

/// Counts of nodes per status.
pub struct ExecutionProgress {
    /// Number of nodes.
    pub total: usize,
    /// Nodes completed.
    pub completed: usize,
    /// Nodes failed.
    pub failed: usize,
    /// Nodes blocked.
    pub blocked: usize,
    /// Nodes skipped.
    pub skipped: usize,
    /// Nodes pending.
    pub pending: usize,
    /// Nodes ready.
    pub ready: usize,
    /// Nodes in progress.
    pub in_progress: usize,
}

/// Tracks the execution state of an AGM file against its dependency graph.
pub struct ExecutionTracker {
    agm_path: String,
    state: StateFile,
    graph: DepGraph,
}

impl ExecutionTracker {
    /// The state map is ordered and the graph well formed.
    pub closed spec fn wf(&self) -> bool {
        self.state.nodes.wf() && self.graph.wf()
    }

    /// Node states by id.
    pub closed spec fn nodes(&self) -> Map<Seq<char>, NodeState> {
        self.state.nodes@
    }

    /// Node ids in ascending order.
    pub closed spec fn order(&self) -> Seq<Seq<char>> {
        self.state.nodes.keys()
    }

    /// Node states, aligned with `order()`.
    pub closed spec fn states(&self) -> Seq<NodeState> {
        self.state.nodes.values()
    }

    /// The dependency graph.
    pub closed spec fn dep_graph(&self) -> DepGraph {
        self.graph
    }

    /// The whole state file.
    pub closed spec fn spec_state(&self) -> StateFile {
        self.state
    }

    /// Path of the tracked `.agm` file.
    pub closed spec fn path(&self) -> Seq<char> {
        self.agm_path@
    }

    /// The header fields of the state other than the node map.
    pub closed spec fn header_fields(&self) -> (Seq<char>, Seq<char>, Seq<char>, Seq<char>, Seq<char>) {
        (
            self.state.format_version@,
            self.state.package@,
            self.state.version@,
            self.state.session_id@,
            self.state.started_at@,
        )
    }

    /// Every dependency of `id` has completed or been skipped.
    pub open spec fn deps_satisfied(&self, id: Seq<char>) -> bool {
        forall|j: int|
            0 <= j < self.dep_graph().deps_of(id).len() ==> {
                let d = #[trigger] self.dep_graph().deps_of(id)[j];
                &&& self.nodes().dom().contains(d)
                &&& (self.nodes()[d].execution_status == ExecutionStatus::Completed
                    || self.nodes()[d].execution_status == ExecutionStatus::Skipped)
            }
    }

    /// A node can run: it is ready, or pending with every dependency done.
    pub open spec fn is_ready(&self, id: Seq<char>) -> bool {
        &&& self.nodes().dom().contains(id)
        &&& (self.nodes()[id].execution_status == ExecutionStatus::Ready || (
        self.nodes()[id].execution_status == ExecutionStatus::Pending && self.deps_satisfied(id)))
    }

    /// Number of nodes with status `s`.
    pub open spec fn status_count(&self, s: ExecutionStatus) -> nat {
        ids_with_status(self.nodes(), s).len()
    }

    /// `order()` lists every node id exactly once, in strictly ascending
    /// order, and `states()` gives their states in the same order.
    pub proof fn lemma_order(&self)
        requires
            self.wf(),
        ensures
            self.order().no_duplicates(),
            forall|i: int, j: int|
                0 <= i < j < self.order().len() ==> lex_lt(#[trigger] self.order()[i], #[trigger] self.order()[j]),
            self.order().to_set() == self.nodes().dom(),
            self.order().len() == self.nodes().dom().len(),
            self.states().len() == self.order().len(),
            forall|i: int| 0 <= i < self.order().len() ==> #[trigger] self.nodes()[self.order()[i]] == self.states()[i],
    {
        self.state.nodes.lemma_wf_unique();
        self.state.nodes.lemma_dom_len();
        assert forall|i: int| 0 <= i < self.order().len() implies #[trigger] self.nodes()[self.order()[i]]
            == self.states()[i] by {
            self.state.nodes.lemma_index_of(i);
        }
    }

    /// Counting a status over `states()` counts the nodes of that status.
    pub proof fn lemma_status_count(&self, s: ExecutionStatus)
        requires
            self.wf(),
        ensures
            count_status(self.states(), s) == self.status_count(s),
            ids_with_status(self.nodes(), s).finite(),
    {
        self.lemma_order();
        assert forall|i: int| 0 <= i < self.order().len() implies self.nodes().dom().contains(
            #[trigger] self.order()[i],
        ) && self.nodes()[self.order()[i]] == self.states()[i] by {
            assert(self.order().to_set().contains(self.order()[i]));
        }
        lemma_count_along_keys(self.order(), self.states(), self.nodes(), s, self.order().len() as int);
        assert(self.order().take(self.order().len() as int) =~= self.order());
        assert(self.states().take(self.order().len() as int) =~= self.states());
        assert(ids_with_status(self.nodes(), s) =~= self.order().to_set().filter(
            |x: Seq<char>| self.nodes()[x].execution_status == s,
        ));
    }

    /// Propagation from `failed` blocks node `id`.
    pub open spec fn blocks(&self, failed: Seq<char>, id: Seq<char>) -> bool {
        blocked_by(self.nodes(), self.dep_graph(), failed, id)
    }

    /// A tracker over given state.
    pub fn from_state(agm_path: &str, state: StateFile, graph: DepGraph) -> (t: ExecutionTracker)
        requires
            state.nodes.wf(),
            graph.wf(),
        ensures
            t.wf(),
            t.spec_state() == state,
            t.dep_graph() == graph,
            t.path() == agm_path@,
    {
        ExecutionTracker { agm_path: owned(agm_path), state, graph }
    }

    /// A tracker for `file`: stored state (if any) brought in line with
    /// the file and stamped with the current time, or fresh state under a
    /// new run id.
    pub fn new(agm_path: &str, existing: Option<StateFile>, file: &AgmFile, graph: &DepGraph) -> (t:
        ExecutionTracker)
        requires
            existing matches Some(s) ==> s.nodes.wf(),
            graph.wf(),
        ensures
            t.wf(),
            t.dep_graph().same_as(*graph),
            t.path() == agm_path@,
            match existing {
                Some(s) => t.nodes() == first_initial_nodes(file.nodes@).union_prefer_right(
                    s.nodes@.restrict(node_ids(file.nodes@)),
                ),
                None => t.nodes() == initial_nodes(file.nodes@),
            },
    {
        let state = match existing {
            Some(mut s) => {
                reconcile_state(&mut s, file);
                s.updated_at = now_iso8601();
                s
            },
            None => {
                let session_id = generate_session_id();
                Self::initialize(file, graph, session_id.as_str())
            },
        };
        ExecutionTracker { agm_path: owned(agm_path), state, graph: graph.copy() }
    }

    /// Fresh state for `file` under `session_id`, stamped with the current time.
    pub fn initialize(file: &AgmFile, graph: &DepGraph, session_id: &str) -> (s: StateFile)
        ensures
            s.nodes.wf(),
            s.nodes@ == initial_nodes(file.nodes@),
            s.format_version@ == "1.0"@,
            s.package@ == file.header.package@,
            s.version@ == file.header.version@,
            s.session_id@ == session_id@,
    {
        let now = now_iso8601();
        initialize_at(file, session_id, now.as_str())
    }

    /// Position of `id` when its status allows moving to `to`.
    fn check_transition(&self, node_id: &str, to: ExecutionStatus) -> (r: Result<usize, TrackerError>)
        requires
            self.wf(),
        ensures
            match r {
                Ok(i) => i < self.order().len() && self.order()[i as int] == node_id@
                    && self.nodes().dom().contains(node_id@)
                    && self.nodes()[node_id@] == self.states()[i as int]
                    && transition_allowed(self.nodes()[node_id@].execution_status, to),
                Err(TrackerError::NodeNotFound(s)) => s@ == node_id@ && !self.nodes().dom().contains(node_id@),
                Err(TrackerError::InvalidTransition(f, t)) => self.nodes().dom().contains(node_id@)
                    && f == self.nodes()[node_id@].execution_status && t == to
                    && !transition_allowed(f, t),
            },
    {
        match self.state.nodes.find(node_id) {
            None => Err(TrackerError::NodeNotFound(owned(node_id))),
            Some(i) => {
                proof {
                    self.state.nodes.lemma_index_of(i as int);
                }
                let from = self.state.nodes.value_at(i).execution_status;
                match validate_transition(&from, &to) {
                    Ok(()) => Ok(i),
                    Err(_) => Err(TrackerError::InvalidTransition(from, to)),
                }
            },
        }
    }

    /// Moves node `node_id` to status `to` when the state machine allows it.
    ///
    /// Fails, changing nothing, when the node has no state or the
    /// transition is not allowed; on success only that node's status (and
    /// the update time) change.
    pub fn transition(&mut self, node_id: &str, to: ExecutionStatus) -> (r: Result<(), TrackerError>)
        requires
            old(self).wf(),
        ensures
            final(self).wf(),
            final(self).dep_graph() == old(self).dep_graph(),
            final(self).path() == old(self).path(),
            final(self).order() == old(self).order(),
            final(self).header_fields() == old(self).header_fields(),
            r is Ok <==> (old(self).nodes().dom().contains(node_id@) && transition_allowed(
                old(self).nodes()[node_id@].execution_status,
                to,
            )),
            r is Ok ==> final(self).nodes() == old(self).nodes().insert(
                node_id@,
                with_status(old(self).nodes()[node_id@], to),
            ),
            r matches Err(e) ==> *final(self) == *old(self),
            r matches Err(TrackerError::NodeNotFound(s)) ==> s@ == node_id@,
            r matches Err(TrackerError::InvalidTransition(f, t)) ==> f == old(self).nodes()[node_id@].execution_status
                && t == to,
            r matches Err(e) ==> (e is NodeNotFound <==> !old(self).nodes().dom().contains(node_id@)),
    {
        let i = self.check_transition(node_id, to)?;
        let ns = self.state.nodes.value_at(i).copy_with_status(to);
        self.state.nodes.set_at(i, ns);
        self.state.updated_at = now_iso8601();
        Ok(())
    }

    /// Records a finished execution of `node_id`: it must be in progress;
    /// it moves to `status` with the agent, the current time and the log.
    fn finish(&mut self, node_id: &str, status: ExecutionStatus, agent: &str, log: Option<String>) -> (r: Result<(), TrackerError>)
        requires
            old(self).wf(),
            status == ExecutionStatus::Completed || status == ExecutionStatus::Failed,
        ensures
            final(self).wf(),
            final(self).dep_graph() == old(self).dep_graph(),
            final(self).path() == old(self).path(),
            final(self).order() == old(self).order(),
            final(self).header_fields() == old(self).header_fields(),
            r is Ok <==> (old(self).nodes().dom().contains(node_id@)
                && old(self).nodes()[node_id@].execution_status == ExecutionStatus::InProgress),
            r is Ok ==> {
                let n = final(self).nodes()[node_id@];
                &&& final(self).nodes() == old(self).nodes().insert(node_id@, n)
                &&& n.execution_status == status
                &&& n.executed_by matches Some(a) && a@ == agent@
                &&& n.executed_at is Some
                &&& n.execution_log == log
                &&& n.retry_count == old(self).nodes()[node_id@].retry_count
            },
            r matches Err(e) ==> *final(self) == *old(self),
            r matches Err(TrackerError::NodeNotFound(s)) ==> s@ == node_id@,
            r matches Err(TrackerError::InvalidTransition(f, t)) ==> f == old(self).nodes()[node_id@].execution_status
                && t == status,
            r matches Err(e) ==> (e is NodeNotFound <==> !old(self).nodes().dom().contains(node_id@)),
    {
        let i = self.check_transition(node_id, status)?;
        let retry_count = self.state.nodes.value_at(i).retry_count;
        let ns = NodeState {
            execution_status: status,
            executed_by: Some(owned(agent)),
            executed_at: Some(now_iso8601()),
            execution_log: log,
            retry_count,
        };
        self.state.nodes.set_at(i, ns);
        self.state.updated_at = now_iso8601();
        Ok(())
    }

    /// Marks an in-progress node completed, recording the agent, the
    /// current time and the log.
    pub fn mark_completed(&mut self, node_id: &str, agent: &str, log: Option<String>) -> (r: Result<(), TrackerError>)
        requires
            old(self).wf(),
        ensures
            final(self).wf(),
            final(self).dep_graph() == old(self).dep_graph(),
            final(self).path() == old(self).path(),
            final(self).order() == old(self).order(),
            final(self).header_fields() == old(self).header_fields(),
            r is Ok <==> (old(self).nodes().dom().contains(node_id@)
                && old(self).nodes()[node_id@].execution_status == ExecutionStatus::InProgress),
            r is Ok ==> {
                let n = final(self).nodes()[node_id@];
                &&& final(self).nodes() == old(self).nodes().insert(node_id@, n)
                &&& n.execution_status == ExecutionStatus::Completed
                &&& n.executed_by matches Some(a) && a@ == agent@
                &&& n.executed_at is Some
                &&& n.execution_log == log
                &&& n.retry_count == old(self).nodes()[node_id@].retry_count
            },
            r matches Err(e) ==> *final(self) == *old(self),
            r matches Err(TrackerError::NodeNotFound(s)) ==> s@ == node_id@,
            r matches Err(TrackerError::InvalidTransition(f, t)) ==> f == old(self).nodes()[node_id@].execution_status
                && t == ExecutionStatus::Completed,
            r matches Err(e) ==> (e is NodeNotFound <==> !old(self).nodes().dom().contains(node_id@)),
    {
        self.finish(node_id, ExecutionStatus::Completed, agent, log)
    }

    /// Marks an in-progress node failed, recording the agent, the current
    /// time and the log. Blocking its dependents is a separate step
    /// (`propagate_blocked`).
    pub fn mark_failed(&mut self, node_id: &str, agent: &str, log: Option<String>) -> (r: Result<(), TrackerError>)
        requires
            old(self).wf(),
        ensures
            final(self).wf(),
            final(self).dep_graph() == old(self).dep_graph(),
            final(self).path() == old(self).path(),
            final(self).order() == old(self).order(),
            final(self).header_fields() == old(self).header_fields(),
            r is Ok <==> (old(self).nodes().dom().contains(node_id@)
                && old(self).nodes()[node_id@].execution_status == ExecutionStatus::InProgress),
            r is Ok ==> {
                let n = final(self).nodes()[node_id@];
                &&& final(self).nodes() == old(self).nodes().insert(node_id@, n)
                &&& n.execution_status == ExecutionStatus::Failed
                &&& n.executed_by matches Some(a) && a@ == agent@
                &&& n.executed_at is Some
                &&& n.execution_log == log
                &&& n.retry_count == old(self).nodes()[node_id@].retry_count
            },
            r matches Err(e) ==> *final(self) == *old(self),
            r matches Err(TrackerError::NodeNotFound(s)) ==> s@ == node_id@,
            r matches Err(TrackerError::InvalidTransition(f, t)) ==> f == old(self).nodes()[node_id@].execution_status
                && t == ExecutionStatus::Failed,
            r matches Err(e) ==> (e is NodeNotFound <==> !old(self).nodes().dom().contains(node_id@)),
    {
        self.finish(node_id, ExecutionStatus::Failed, agent, log)
    }

    /// Retries a failed node: it becomes ready, its retry count grows by
    /// one and its execution metadata is cleared.
    pub fn retry(&mut self, node_id: &str) -> (r: Result<(), TrackerError>)
        requires
            old(self).wf(),
            old(self).nodes().dom().contains(node_id@) && old(self).nodes()[node_id@].execution_status
                == ExecutionStatus::Failed ==> old(self).nodes()[node_id@].retry_count < u32::MAX,
        ensures
            final(self).wf(),
            final(self).dep_graph() == old(self).dep_graph(),
            final(self).path() == old(self).path(),
            final(self).order() == old(self).order(),
            final(self).header_fields() == old(self).header_fields(),
            r is Ok <==> (old(self).nodes().dom().contains(node_id@)
                && old(self).nodes()[node_id@].execution_status == ExecutionStatus::Failed),
            r is Ok ==> final(self).nodes() == old(self).nodes().insert(
                node_id@,
                NodeState {
                    retry_count: (old(self).nodes()[node_id@].retry_count + 1) as u32,
                    ..fresh_state(ExecutionStatus::Ready)
                },
            ),
            r matches Err(e) ==> *final(self) == *old(self),
            r matches Err(TrackerError::NodeNotFound(s)) ==> s@ == node_id@,
            r matches Err(TrackerError::InvalidTransition(f, t)) ==> f == old(self).nodes()[node_id@].execution_status
                && t == ExecutionStatus::Ready,
            r matches Err(e) ==> (e is NodeNotFound <==> !old(self).nodes().dom().contains(node_id@)),
    {
        match self.state.nodes.find(node_id) {
            None => Err(TrackerError::NodeNotFound(owned(node_id))),
            Some(i) => {
                proof {
                    self.state.nodes.lemma_index_of(i as int);
                }
                let cur = self.state.nodes.value_at(i);
                let from = cur.execution_status;
                match from {
                    ExecutionStatus::Failed => {
                        let ns = NodeState {
                            execution_status: ExecutionStatus::Ready,
                            executed_by: None,
                            executed_at: None,
                            execution_log: None,
                            retry_count: cur.retry_count + 1,
                        };
                        self.state.nodes.set_at(i, ns);
                        self.state.updated_at = now_iso8601();
                        Ok(())
                    },
                    _ => Err(TrackerError::InvalidTransition(from, ExecutionStatus::Ready)),
                }
            },
        }
    }

    /// Resets every node to pending with no execution metadata and no
    /// retries.
    pub fn reset(&mut self) -> (r: Result<(), TrackerError>)
        requires
            old(self).wf(),
        ensures
            r is Ok,
            final(self).wf(),
            final(self).dep_graph() == old(self).dep_graph(),
            final(self).path() == old(self).path(),
            final(self).order() == old(self).order(),
            final(self).header_fields() == old(self).header_fields(),
            final(self).nodes().dom() == old(self).nodes().dom(),
            forall|k: Seq<char>| #[trigger] final(self).nodes().dom().contains(k) ==> final(self).nodes()[k]
                == fresh_state(ExecutionStatus::Pending),
    {
        let n = self.state.nodes.len();
        proof {
            self.state.nodes.lemma_wf_unique();
        }
        let mut i: usize = 0;
        while i < n
            invariant
                self.wf(),
                n == self.order().len(),
                n == self.states().len(),
                i <= n,
                self.dep_graph() == old(self).dep_graph(),
                self.path() == old(self).path(),
                self.order() == old(self).order(),
                self.header_fields() == old(self).header_fields(),
                self.state.updated_at == old(self).state.updated_at,
                forall|j: int| 0 <= j < i ==> #[trigger] self.states()[j] == fresh_state(ExecutionStatus::Pending),
            decreases n - i,
        {
            let ghost before = self.states();
            self.state.nodes.set_at(i, NodeState::default());
            proof {
                assert forall|j: int| 0 <= j < i + 1 implies #[trigger] self.states()[j] == fresh_state(ExecutionStatus::Pending) by {
                    if j < i {
                        assert(before[j] == fresh_state(ExecutionStatus::Pending));
                    }
                }
            }
            i += 1;
        }
        proof {
            self.state.nodes.lemma_dom_len();
            old(self).state.nodes.lemma_dom_len();
            assert forall|k: Seq<char>| #[trigger] self.nodes().dom().contains(k) implies self.nodes()[k]
                == fresh_state(ExecutionStatus::Pending) by {
                let j = self.order().index_of(k);
                assert(0 <= j < n);
                self.state.nodes.lemma_index_of(j);
                assert(self.states()[j] == fresh_state(ExecutionStatus::Pending));
            }
            assert(self.nodes().dom() =~= old(self).nodes().dom());
        }
        self.state.updated_at = now_iso8601();
        Ok(())
    }

    /// Resets every node that has not completed to pending with no
    /// execution metadata and no retries; completed nodes keep their
    /// state. Returns how many nodes were reset.
    pub fn reset_unfinished(&mut self) -> (r: usize)
        requires
            old(self).wf(),
        ensures
            final(self).wf(),
            final(self).dep_graph() == old(self).dep_graph(),
            final(self).path() == old(self).path(),
            final(self).order() == old(self).order(),
            final(self).header_fields() == old(self).header_fields(),
            final(self).nodes().dom() == old(self).nodes().dom(),
            forall|k: Seq<char>| #[trigger] final(self).nodes().dom().contains(k) ==> final(self).nodes()[k] == (
            if old(self).nodes()[k].execution_status == ExecutionStatus::Completed {
                old(self).nodes()[k]
            } else {
                fresh_state(ExecutionStatus::Pending)
            }),
            r + old(self).status_count(ExecutionStatus::Completed) == old(self).order().len(),
    {
        let n = self.state.nodes.len();
        proof {
            self.state.nodes.lemma_wf_unique();
        }
        let ghost olds = self.states();
        let mut count: usize = 0;
        let mut i: usize = 0;
        while i < n
            invariant
                self.wf(),
                n == self.order().len(),
                n == self.states().len(),
                olds.len() == n,
                olds == old(self).states(),
                i <= n,
                self.dep_graph() == old(self).dep_graph(),
                self.path() == old(self).path(),
                self.order() == old(self).order(),
                self.header_fields() == old(self).header_fields(),
                forall|j: int| 0 <= j < n ==> #[trigger] self.states()[j] == (if j < i && olds[j].execution_status
                    != ExecutionStatus::Completed {
                    fresh_state(ExecutionStatus::Pending)
                } else {
                    olds[j]
                }),
                count + count_status(olds.take(i as int), ExecutionStatus::Completed) == i,
            decreases n - i,
        {
            assert(olds.take(i + 1).drop_last() =~= olds.take(i as int));
            let st = self.state.nodes.value_at(i).execution_status;
            if st != ExecutionStatus::Completed {
                let ghost before = self.states();
                self.state.nodes.set_at(i, NodeState::default());
                count += 1;
                proof {
                    assert forall|j: int| 0 <= j < n implies #[trigger] self.states()[j] == (if j < i + 1
                        && olds[j].execution_status != ExecutionStatus::Completed {
                        fresh_state(ExecutionStatus::Pending)
                    } else {
                        olds[j]
                    }) by {
                        if j != i {
                            assert(self.states()[j] == before[j]);
                        }
                    }
                }
            }
            i += 1;
        }
        proof {
            assert(olds.take(n as int) =~= olds);
            old(self).lemma_status_count(ExecutionStatus::Completed);
            self.state.nodes.lemma_dom_len();
            old(self).state.nodes.lemma_dom_len();
            assert(self.nodes().dom() =~= old(self).nodes().dom());
            assert forall|k: Seq<char>| #[trigger] self.nodes().dom().contains(k) implies self.nodes()[k] == (
            if old(self).nodes()[k].execution_status == ExecutionStatus::Completed {
                old(self).nodes()[k]
            } else {
                fresh_state(ExecutionStatus::Pending)
            }) by {
                let j = self.order().index_of(k);
                assert(self.order().contains(k));
                assert(0 <= j < n);
                self.state.nodes.lemma_index_of(j);
                old(self).state.nodes.lemma_index_of(j);
            }
        }
        if count > 0 {
            self.state.updated_at = now_iso8601();
        }
        count
    }

    /// Resets one node to pending with no execution metadata and no
    /// retries.
    pub fn reset_node(&mut self, node_id: &str) -> (r: Result<(), TrackerError>)
        requires
            old(self).wf(),
        ensures
            final(self).wf(),
            final(self).dep_graph() == old(self).dep_graph(),
            final(self).path() == old(self).path(),
            final(self).order() == old(self).order(),
            final(self).header_fields() == old(self).header_fields(),
            r is Ok <==> old(self).nodes().dom().contains(node_id@),
            r is Ok ==> final(self).nodes() == old(self).nodes().insert(
                node_id@,
                fresh_state(ExecutionStatus::Pending),
            ),
            r matches Err(e) ==> *final(self) == *old(self),
            r matches Err(e) ==> (e matches TrackerError::NodeNotFound(s) && s@ == node_id@),
    {
        match self.state.nodes.find(node_id) {
            None => Err(TrackerError::NodeNotFound(owned(node_id))),
            Some(i) => {
                self.state.nodes.set_at(i, NodeState::default());
                self.state.updated_at = now_iso8601();
                Ok(())
            },
        }
    }

    /// Whether every dependency of `node_id` has completed or been skipped
    /// (a dependency without state is not satisfied).
    pub fn all_deps_satisfied(&self, node_id: &str) -> (r: bool)
        requires
            self.wf(),
        ensures
            r == self.deps_satisfied(node_id@),
    {
        let deps = self.graph.deps_of_exec(node_id);
        let mut j: usize = 0;
        while j < deps.len()
            invariant
                self.wf(),
                string_views(deps@) == self.dep_graph().deps_of(node_id@),
                j <= deps@.len(),
                forall|t: int| 0 <= t < j ==> {
                    let d = #[trigger] self.dep_graph().deps_of(node_id@)[t];
                    &&& self.nodes().dom().contains(d)
                    &&& (self.nodes()[d].execution_status == ExecutionStatus::Completed
                        || self.nodes()[d].execution_status == ExecutionStatus::Skipped)
                },
            decreases deps@.len() - j,
        {
            assert(string_views(deps@)[j as int] == deps@[j as int]@);
            match self.state.nodes.get(deps[j].as_str()) {
                None => {
                    return false;
                },
                Some(ns) => {
                    match ns.execution_status {
                        ExecutionStatus::Completed => {},
                        ExecutionStatus::Skipped => {},
                        _ => {
                            return false;
                        },
                    }
                },
            }
            j += 1;
        }
        true
    }

    /// Number of nodes whose id `set` does not hold.
    pub fn count_outside(&self, set: &Vec<String>) -> (r: usize)
        requires
            self.wf(),
        ensures
            r == self.nodes().dom().filter(|x: Seq<char>| !string_views(set@).contains(x)).len(),
    {
        proof {
            self.lemma_order();
        }
        let ghost sv = string_views(set@);
        let ghost p = |x: Seq<char>| !sv.contains(x);
        let n = self.state.nodes.len();
        let mut c: usize = 0;
        let mut i: usize = 0;
        assert(self.order().take(0).to_set().filter(p) =~= Set::empty());
        while i < n
            invariant
                self.wf(),
                n == self.order().len(),
                self.order().no_duplicates(),
                i <= n,
                sv == string_views(set@),
                p == (|x: Seq<char>| !sv.contains(x)),
                self.order().take(i as int).to_set().filter(p).finite(),
                c == self.order().take(i as int).to_set().filter(p).len(),
                c <= i,
            decreases n - i,
        {
            proof {
                lemma_take_to_set_step(self.order(), i + 1);
            }
            let ghost f0 = self.order().take(i as int).to_set().filter(p);
            let k = self.state.nodes.key_at(i);
            if !crate::runtime::context::contains_string(set, k.as_str()) {
                c = c + 1;
                proof {
                    assert(self.order().take(i + 1).to_set().filter(p) =~= f0.insert(k@));
                }
            } else {
                proof {
                    assert(self.order().take(i + 1).to_set().filter(p) =~= f0);
                }
            }
            i += 1;
        }
        proof {
            assert(self.order().take(n as int) =~= self.order());
            assert(self.nodes().dom().filter(|x: Seq<char>| !string_views(set@).contains(x)) =~= self.order().to_set().filter(p));
        }
        c
    }

    /// Ids of the nodes that can run now, in ascending id order: those
    /// ready, and those pending whose dependencies have all completed or
    /// been skipped.
    pub fn ready_nodes(&self) -> (r: Vec<String>)
        requires
            self.wf(),
        ensures
            string_views(r@) == self.order().filter(|k: Seq<char>| self.is_ready(k)),
    {
        let ghost pred = |k: Seq<char>| self.is_ready(k);
        let n = self.state.nodes.len();
        let mut out: Vec<String> = Vec::new();
        let mut i: usize = 0;
        while i < n
            invariant
                self.wf(),
                n == self.order().len(),
                i <= n,
                pred == (|k: Seq<char>| self.is_ready(k)),
                string_views(out@) == self.order().take(i as int).filter(pred),
            decreases n - i,
        {
            proof {
                self.state.nodes.lemma_index_of(i as int);
                reveal_with_fuel(Seq::<_>::filter, 1);
                assert(self.order().take(i + 1).drop_last() =~= self.order().take(i as int));
            }
            let k = self.state.nodes.key_at(i);
            let st = self.state.nodes.value_at(i).execution_status;
            let take = match st {
                ExecutionStatus::Ready => true,
                ExecutionStatus::Pending => self.all_deps_satisfied(k.as_str()),
                _ => false,
            };
            if take {
                let c = k.clone();
                proof {
                    crate::text::lemma_views_push(out@, c);
                }
                out.push(c);
            }
            i += 1;
        }
        proof {
            assert(self.order().take(n as int) =~= self.order());
        }
        out
    }

    /// The ids of the failed nodes, in ascending order.
    pub fn failed_nodes(&self) -> (r: Vec<String>)
        requires
            self.wf(),
        ensures
            string_views(r@) == self.order().filter(
                |k: Seq<char>| self.nodes()[k].execution_status == ExecutionStatus::Failed,
            ),
    {
        let ghost pred = |k: Seq<char>| self.nodes()[k].execution_status == ExecutionStatus::Failed;
        let n = self.state.nodes.len();
        let mut out: Vec<String> = Vec::new();
        let mut i: usize = 0;
        while i < n
            invariant
                self.wf(),
                n == self.order().len(),
                i <= n,
                pred == (|k: Seq<char>| self.nodes()[k].execution_status == ExecutionStatus::Failed),
                string_views(out@) == self.order().take(i as int).filter(pred),
            decreases n - i,
        {
            proof {
                self.state.nodes.lemma_index_of(i as int);
                reveal_with_fuel(Seq::<_>::filter, 1);
                assert(self.order().take(i + 1).drop_last() =~= self.order().take(i as int));
            }
            let k = self.state.nodes.key_at(i);
            if self.state.nodes.value_at(i).execution_status == ExecutionStatus::Failed {
                let c = k.clone();
                proof {
                    crate::text::lemma_views_push(out@, c);
                }
                out.push(c);
            }
            i += 1;
        }
        proof {
            assert(self.order().take(n as int) =~= self.order());
        }
        out
    }

    /// Counts of nodes per status.
    pub fn progress(&self) -> (p: ExecutionProgress)
        requires
            self.wf(),
        ensures
            p.total == self.order().len(),
            p.total == self.nodes().dom().len(),
            p.completed == self.status_count(ExecutionStatus::Completed),
            p.failed == self.status_count(ExecutionStatus::Failed),
            p.blocked == self.status_count(ExecutionStatus::Blocked),
            p.skipped == self.status_count(ExecutionStatus::Skipped),
            p.pending == self.status_count(ExecutionStatus::Pending),
            p.ready == self.status_count(ExecutionStatus::Ready),
            p.in_progress == self.status_count(ExecutionStatus::InProgress),
            p.completed + p.failed + p.blocked + p.skipped + p.pending + p.ready + p.in_progress == p.total,
    {
        let n = self.state.nodes.len();
        proof {
            self.state.nodes.lemma_wf_unique();
        }
        let mut completed: usize = 0;
        let mut failed: usize = 0;
        let mut blocked: usize = 0;
        let mut skipped: usize = 0;
        let mut pending: usize = 0;
        let mut ready: usize = 0;
        let mut in_progress: usize = 0;
        let mut i: usize = 0;
        while i < n
            invariant
                self.wf(),
                n == self.order().len(),
                n == self.states().len(),
                i <= n,
                completed == count_status(self.states().take(i as int), ExecutionStatus::Completed),
                failed == count_status(self.states().take(i as int), ExecutionStatus::Failed),
                blocked == count_status(self.states().take(i as int), ExecutionStatus::Blocked),
                skipped == count_status(self.states().take(i as int), ExecutionStatus::Skipped),
                pending == count_status(self.states().take(i as int), ExecutionStatus::Pending),
                ready == count_status(self.states().take(i as int), ExecutionStatus::Ready),
                in_progress == count_status(self.states().take(i as int), ExecutionStatus::InProgress),
            decreases n - i,
        {
            proof {
                self.state.nodes.lemma_wf_unique();
                lemma_counts_sum(self.states().take(i as int));
                assert(self.states().take(i + 1).drop_last() =~= self.states().take(i as int));
            }
            match self.state.nodes.value_at(i).execution_status {
                ExecutionStatus::Completed => completed += 1,
                ExecutionStatus::Failed => failed += 1,
                ExecutionStatus::Blocked => blocked += 1,
                ExecutionStatus::Skipped => skipped += 1,
                ExecutionStatus::Pending => pending += 1,
                ExecutionStatus::Ready => ready += 1,
                ExecutionStatus::InProgress => in_progress += 1,
            }
            i += 1;
        }
        proof {
            self.state.nodes.lemma_dom_len();
            assert(self.states().take(n as int) =~= self.states());
            lemma_counts_sum(self.states());
            self.lemma_status_count(ExecutionStatus::Completed);
            self.lemma_status_count(ExecutionStatus::Failed);
            self.lemma_status_count(ExecutionStatus::Blocked);
            self.lemma_status_count(ExecutionStatus::Skipped);
            self.lemma_status_count(ExecutionStatus::Pending);
            self.lemma_status_count(ExecutionStatus::Ready);
            self.lemma_status_count(ExecutionStatus::InProgress);
        }
        ExecutionProgress { total: n, completed, failed, blocked, skipped, pending, ready, in_progress }
    }

    /// Blocks every node that (transitively) depends on `failed_node` and
    /// is still pending or ready; other nodes keep their state. Returns the
    /// ids newly blocked, each once, in the breadth-first order of the
    /// dependents (`DepGraph::reach_order`).
    pub fn propagate_blocked(&mut self, failed_node: &str) -> (r: Vec<String>)
        requires
            old(self).wf(),
        ensures
            final(self).wf(),
            final(self).dep_graph() == old(self).dep_graph(),
            final(self).path() == old(self).path(),
            final(self).order() == old(self).order(),
            final(self).header_fields() == old(self).header_fields(),
            final(self).nodes() == propagated(old(self).nodes(), old(self).dep_graph(), failed_node@),
            string_views(r@).no_duplicates(),
            forall|k: Seq<char>| #[trigger] string_views(r@).contains(k) <==> old(self).blocks(failed_node@, k),
            string_views(r@) == old(self).dep_graph().reach_order(Direction::Dependents, failed_node@).filter(
                |k: Seq<char>|
                    old(self).nodes().dom().contains(k) && (old(self).nodes()[k].execution_status
                        == ExecutionStatus::Pending || old(self).nodes()[k].execution_status == ExecutionStatus::Ready),
            ),
            r@.len() == 0 ==> *final(self) == *old(self),
    {
        let dependents = self.graph.reachable(Direction::Dependents, failed_node);
        let ghost dv = string_views(dependents@);
        let ghost old_nodes = self.nodes();
        let ghost cond = |k: Seq<char>| old_nodes.dom().contains(k) && (old_nodes[k].execution_status
            == ExecutionStatus::Pending || old_nodes[k].execution_status == ExecutionStatus::Ready);
        let mut newly: Vec<String> = Vec::new();
        let mut t: usize = 0;
        while t < dependents.len()
            invariant
                self.wf(),
                dv == string_views(dependents@),
                dv.no_duplicates(),
                t <= dependents@.len(),
                old_nodes == old(self).nodes(),
                cond == (|k: Seq<char>| old_nodes.dom().contains(k) && (old_nodes[k].execution_status
                    == ExecutionStatus::Pending || old_nodes[k].execution_status == ExecutionStatus::Ready)),
                self.dep_graph() == old(self).dep_graph(),
                self.path() == old(self).path(),
                self.order() == old(self).order(),
                self.header_fields() == old(self).header_fields(),
                self.state.updated_at == old(self).state.updated_at,
                self.nodes().dom() == old_nodes.dom(),
                forall|k: Seq<char>| #[trigger] self.nodes().dom().contains(k) ==> self.nodes()[k] == (
                if dv.take(t as int).contains(k) && cond(k) {
                    with_status(old_nodes[k], ExecutionStatus::Blocked)
                } else {
                    old_nodes[k]
                }),
                string_views(newly@) == dv.take(t as int).filter(cond),
                newly@.len() == 0 ==> *self == *old(self),
            decreases dependents@.len() - t,
        {
            let d = &dependents[t];
            assert(dv[t as int] == d@);
            proof {
                reveal_with_fuel(Seq::<_>::filter, 1);
                assert(dv.take(t + 1).drop_last() =~= dv.take(t as int));
                assert(!dv.take(t as int).contains(d@)) by {
                    if dv.take(t as int).contains(d@) {
                        let a = dv.take(t as int).index_of(d@);
                        assert(dv[a] == dv[t as int]);
                    }
                }
            }
            match self.state.nodes.find(d.as_str()) {
                None => {
                    proof {
                        assert forall|k: Seq<char>| #[trigger] self.nodes().dom().contains(k) implies (dv.take(t
                            + 1).contains(k) && cond(k)) == (dv.take(t as int).contains(k) && cond(k)) by {
                            if dv.take(t + 1).contains(k) && !dv.take(t as int).contains(k) {
                                let a = dv.take(t + 1).index_of(k);
                                if a < t {
                                    assert(dv.take(t as int)[a] == k);
                                }
                            }
                            if dv.take(t as int).contains(k) {
                                let a = dv.take(t as int).index_of(k);
                                assert(dv.take(t + 1)[a] == k);
                            }
                        }
                    }
                },
                Some(i) => {
                    proof {
                        self.state.nodes.lemma_index_of(i as int);
                    }
                    let cur = self.state.nodes.value_at(i);
                    let hit = match cur.execution_status {
                        ExecutionStatus::Pending => true,
                        ExecutionStatus::Ready => true,
                        _ => false,
                    };
                    proof {
                        assert(cur == self.nodes()[d@]);
                        assert(self.nodes()[d@] == old_nodes[d@]);
                        assert(hit == cond(d@));
                    }
                    if hit {
                        let ns = cur.copy_with_status(ExecutionStatus::Blocked);
                        self.state.nodes.set_at(i, ns);
                        let c = d.clone();
                        proof {
                            crate::text::lemma_views_push(newly@, c);
                        }
                        newly.push(c);
                    }
                    proof {
                        assert forall|k: Seq<char>| #[trigger] self.nodes().dom().contains(k) implies self.nodes()[k] == (
                        if dv.take(t + 1).contains(k) && cond(k) {
                            with_status(old_nodes[k], ExecutionStatus::Blocked)
                        } else {
                            old_nodes[k]
                        }) by {
                            if k != d@ {
                                if dv.take(t + 1).contains(k) {
                                    let a = dv.take(t + 1).index_of(k);
                                    assert(a < t) by {
                                        if a == t {
                                            assert(dv[t as int] == k);
                                        }
                                    }
                                    assert(dv.take(t as int)[a] == k);
                                }
                                if dv.take(t as int).contains(k) {
                                    let a = dv.take(t as int).index_of(k);
                                    assert(dv.take(t + 1)[a] == k);
                                }
                            } else {
                                assert(dv.take(t + 1)[t as int] == k);
                            }
                        }
                    }
                },
            }
            t += 1;
        }
        proof {
            assert(dv.take(t as int) =~= dv);
            assert(self.nodes() =~= self.nodes());
            let r = string_views(newly@);
            // each newly blocked id comes once, from the dependents
            assert(r == dv.filter(cond));
            assert(r.no_duplicates()) by {
                assert forall|a: int, b: int| 0 <= a < r.len() && 0 <= b < r.len() && a != b implies r[a] != r[b] by {
                    lemma_filter_no_dup(dv, cond);
                }
            }
            assert forall|k: Seq<char>| #[trigger] r.contains(k) <==> old(self).blocks(failed_node@, k) by {
                if r.contains(k) {
                    let a = r.index_of(k);
                    dv.lemma_filter_contains_rev(cond, k);
                    dv.lemma_filter_pred(cond, a);
                    assert(cond(k));
                }
                if old(self).blocks(failed_node@, k) {
                    assert(dv.contains(k));
                    lemma_filter_contains(dv, cond, k);
                }
            }
            assert forall|k: Seq<char>| #[trigger] self.nodes().dom().contains(k) implies self.nodes()[k] == (
            if old(self).blocks(failed_node@, k) {
                with_status(old(self).nodes()[k], ExecutionStatus::Blocked)
            } else {
                old(self).nodes()[k]
            }) by {
                assert(dv.contains(k) == old(self).dep_graph().reaches(Direction::Dependents, failed_node@, k));
            }
            assert(self.nodes() =~= propagated(old(self).nodes(), old(self).dep_graph(), failed_node@));
        }
        if newly.len() > 0 {
            self.state.updated_at = now_iso8601();
        }
        newly
    }

    /// The whole state.
    pub fn state(&self) -> (r: &StateFile)
        ensures
            *r == self.spec_state(),
    {
        &self.state
    }

    /// The ids that node `id` depends on, directly or not, each once.
    pub fn transitive_deps(&self, id: &str) -> (r: Vec<String>)
        requires
            self.wf(),
        ensures
            string_views(r@).no_duplicates(),
            forall|x: Seq<char>| #[trigger] string_views(r@).contains(x) <==> self.dep_graph().reaches(
                Direction::Dependencies,
                id@,
                x,
            ),
    {
        self.graph.reachable(Direction::Dependencies, id)
    }

    /// The state of one node, if it has any.
    pub fn node_state(&self, node_id: &str) -> (r: Option<&NodeState>)
        requires
            self.wf(),
        ensures
            match r {
                Some(ns) => self.nodes().dom().contains(node_id@) && *ns == self.nodes()[node_id@],
                None => !self.nodes().dom().contains(node_id@),
            },
    {
        self.state.nodes.get(node_id)
    }

    /// Path of the tracked `.agm` file.
    pub fn agm_path(&self) -> (r: &String)
        ensures
            r@ == self.path(),
    {
        &self.agm_path
    }
}

/// A filtered sequence without duplicates comes from one without.
pub proof fn lemma_filter_no_dup(s: Seq<Seq<char>>, p: spec_fn(Seq<char>) -> bool)
    requires
        s.no_duplicates(),
    ensures
        s.filter(p).no_duplicates(),
    decreases s.len(),
{
    reveal_with_fuel(Seq::<_>::filter, 1);
    if s.len() > 0 {
        lemma_filter_no_dup(s.drop_last(), p);
        let f = s.drop_last().filter(p);
        if p(s.last()) {
            assert(!f.contains(s.last())) by {
                if f.contains(s.last()) {
                    s.drop_last().lemma_filter_contains_rev(p, s.last());
                    let b = s.drop_last().index_of(s.last());
                    assert(s[b] == s[s.len() - 1]);
                }
            }
            assert forall|a: int, b: int| 0 <= a < f.push(s.last()).len() && 0 <= b < f.push(s.last()).len() && a
                != b implies f.push(s.last())[a] != f.push(s.last())[b] by {
                if a == f.len() {
                    assert(f.contains(f[b]));
                } else if b == f.len() {
                    assert(f.contains(f[a]));
                }
            }
        }
    }
}

/// An element of a sequence that passes the filter is in the filtered sequence.
pub proof fn lemma_filter_contains(s: Seq<Seq<char>>, p: spec_fn(Seq<char>) -> bool, x: Seq<char>)
    requires
        s.contains(x),
        p(x),
    ensures
        s.filter(p).contains(x),
    decreases s.len(),
{
    reveal_with_fuel(Seq::<_>::filter, 1);
    if s.last() == x {
        assert(s.filter(p).last() == x);
    } else {
        let a = s.index_of(x);
        assert(s.drop_last()[a] == x);
        lemma_filter_contains(s.drop_last(), p, x);
        let f = s.drop_last().filter(p);
        let b = f.index_of(x);
        if p(s.last()) {
            assert(s.filter(p)[b] == x);
        }
    }
}

} // verus!
