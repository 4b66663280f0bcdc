//! Memory runtime: keyed entries in four scopes (node, session, project,
//! global) with topics and time-to-live.

use vstd::prelude::*;

use crate::clock::{now_iso8601, now_unix_nanos, parse_rfc3339_nanos, rfc3339_instant_nanos};
use crate::keyed::{lex_lt, str_eq, KeyedMap};
use crate::runtime::duration::{
    decimal, decimal_string, duration_overflows, parse_duration_spec, parse_iso8601_duration,
};
use crate::text::{concat2, owned, push_str};

verus! {

/// Largest accepted value, in bytes (32 KiB).
pub const MAX_MEMORY_VALUE_BYTES: usize = 32768;

/// Where a memory entry lives.
#[derive(Clone, Copy, Debug, PartialEq, Eq, Structural)]
pub enum MemoryScope {
    /// Private to one node's execution.
    Node,
    /// Shared by the nodes of one run.
    Session,
    /// Persisted with the project.
    Project,
    /// Persisted for the user.
    Global,
}

impl MemoryScope {
    /// The scope's name.
    pub open spec fn spec_name(self) -> Seq<char> {
        match self {
            MemoryScope::Node => "node"@,
            MemoryScope::Session => "session"@,
            MemoryScope::Project => "project"@,
            MemoryScope::Global => "global"@,
        }
    }

    /// The scope's name, as it is displayed.
    pub fn as_str(&self) -> (r: &'static str)
        ensures
            r@ == self.spec_name(),
    {
        match self {
            MemoryScope::Node => "node",
            MemoryScope::Session => "session",
            MemoryScope::Project => "project",
            MemoryScope::Global => "global",
        }
    }
}

/// How long a memory entry lives.
pub enum MemoryTtl {
    /// Never expires.
    Permanent,
    /// Lives for the session.
    Session,
    /// Expires an ISO 8601 duration after its last update.
    Duration(String),
}

impl MemoryTtl {
    /// A copy of the TTL.
    pub fn copy(&self) -> (r: MemoryTtl)
        ensures
            r == *self,
    {
        match self {
            MemoryTtl::Permanent => MemoryTtl::Permanent,
            MemoryTtl::Session => MemoryTtl::Session,
            MemoryTtl::Duration(d) => MemoryTtl::Duration(d.clone()),
        }
    }
}

/// What a memory declaration asks for.
#[derive(Clone, Copy, Debug, PartialEq, Eq, Structural)]
pub enum MemoryAction {
    /// Read an entry.
    Get,
    /// Write an entry.
    Upsert,
    /// Remove an entry.
    Delete,
    /// List entries of a topic.
    List,
    /// Search (not supported by this runtime).
    Search,
}

/// A memory declaration of a node.
pub struct MemoryEntry {
    /// Entry key.
    pub key: String,
    /// Topic of the entry.
    pub topic: String,
    /// Requested action.
    pub action: MemoryAction,
    /// Value to write.
    pub value: Option<String>,
    /// Scope (session when absent).
    pub scope: Option<MemoryScope>,
    /// TTL (session when absent).
    pub ttl: Option<MemoryTtl>,
    /// Search query.
    pub query: Option<String>,
    /// Search result limit.
    pub max_results: Option<u32>,
}

/// A stored memory entry.
pub struct MemFileEntry {
    /// Topic of the entry.
    pub topic: String,
    /// Scope the entry was written to.
    pub scope: MemoryScope,
    /// Time-to-live.
    pub ttl: MemoryTtl,
    /// The value.
    pub value: String,
    /// When the key was first written.
    pub created_at: String,
    /// When the key was last written.
    pub updated_at: String,
}

impl MemFileEntry {
    /// A copy of the entry.
    pub fn copy(&self) -> (r: MemFileEntry)
        ensures
            r == *self,
    {
        MemFileEntry {
            topic: self.topic.clone(),
            scope: self.scope,
            ttl: self.ttl.copy(),
            value: self.value.clone(),
            created_at: self.created_at.clone(),
            updated_at: self.updated_at.clone(),
        }
    }
}

/// A memory sidecar file: a package's persisted entries.
pub struct MemFile {
    /// Sidecar format version.
    pub format_version: String,
    /// Package the memory belongs to.
    pub package: String,
    /// When the file was last changed.
    pub updated_at: String,
    /// Entries by key, in ascending key order.
    pub entries: KeyedMap<MemFileEntry>,
}

/// An empty memory file for `package`.
pub fn empty_mem_file(package: &str) -> (m: MemFile)
    ensures
        m.entries.wf(),
        m.entries@ == Map::<Seq<char>, MemFileEntry>::empty(),
        m.format_version@ == "1.0"@,
        m.package@ == package@,
{
    MemFile {
        format_version: owned("1.0"),
        package: owned(package),
        updated_at: now_iso8601(),
        entries: KeyedMap::new(),
    }
}

/// Outcome of a memory operation.
pub enum MemoryResult {
    /// The entry read, if any.
    Value(Option<MemFileEntry>),
    /// The entry was written.
    Upserted,
    /// Whether an entry was removed.
    Deleted(bool),
    /// The listed `(key, entry)` pairs.
    List(Vec<(String, MemFileEntry)>),
    /// Search is not supported.
    SearchUnsupported,
}

/// Report of a garbage-collection pass.
pub struct GcReport {
    /// Entries removed because their TTL expired.
    pub expired_removed: usize,
    /// Entries removed because they were orphaned (always 0).
    pub orphan_removed: usize,
}

/// Error of a memory operation.
#[derive(Debug)]
pub enum MemoryError {
    /// The value to write is larger than `MAX_MEMORY_VALUE_BYTES`.
    ValueTooLarge {
        /// Key of the entry.
        key: String,
        /// Size of the value in bytes.
        size: usize,
    },
}

impl MemoryError {
    /// The message that describes the error.
    pub open spec fn spec_message(&self) -> Seq<char> {
        match self {
            MemoryError::ValueTooLarge { key, size } => "Memory value exceeds maximum size ("@ + decimal(
                *size as nat,
            ) + " bytes > "@ + decimal(MAX_MEMORY_VALUE_BYTES as nat) + " bytes) for key `"@ + key@ + "`"@,
        }
    }

    /// The message that describes the error.
    pub fn message(&self) -> (r: String)
        ensures
            r@ == self.spec_message(),
    {
        match self {
            MemoryError::ValueTooLarge { key, size } => {
                let mut m = owned("Memory value exceeds maximum size (");
                let a = decimal_string(*size as u64);
                push_str(&mut m, a.as_str());
                push_str(&mut m, " bytes > ");
                let b = decimal_string(MAX_MEMORY_VALUE_BYTES as u64);
                push_str(&mut m, b.as_str());
                push_str(&mut m, " bytes) for key `");
                push_str(&mut m, key.as_str());
                push_str(&mut m, "`");
                m
            },
        }
    }
}

/// The `.agm.mem` sidecar path of an `.agm` file: the path with `.mem`
/// appended.
pub fn mem_path(agm_path: &str) -> (r: String)
    ensures
        r@ == agm_path@ + ".mem"@,
{
    concat2(agm_path, ".mem")
}

/// The `.agm.mem` sidecar path of an `.agm` file (for the command line).
pub fn mem_path_from_agm(agm_path: &str) -> (r: String)
    ensures
        r@ == agm_path@ + ".mem"@,
{
    mem_path(agm_path)
}

/// Two (scope, node) pairs name the same store: node stores are per node,
/// the other scopes have one store each.
pub open spec fn same_store(s1: MemoryScope, n1: Seq<char>, s2: MemoryScope, n2: Seq<char>) -> bool {
    s1 == s2 && (s1 == MemoryScope::Node ==> n1 == n2)
}

/// The stores, with the one that `(s, n)` names replaced by `m`.
pub open spec fn with_store(
    stores: spec_fn(MemoryScope, Seq<char>) -> Map<Seq<char>, MemFileEntry>,
    s: MemoryScope,
    n: Seq<char>,
    m: Map<Seq<char>, MemFileEntry>,
) -> spec_fn(MemoryScope, Seq<char>) -> Map<Seq<char>, MemFileEntry> {
    |s2: MemoryScope, n2: Seq<char>|
        if same_store(s, n, s2, n2) {
            m
        } else {
            stores(s2, n2)
        }
}

/// Writing one store changes what that store reads and no other store:
/// scopes are isolated from each other and node stores from each other.
pub proof fn lemma_store_isolation(
    stores: spec_fn(MemoryScope, Seq<char>) -> Map<Seq<char>, MemFileEntry>,
    s: MemoryScope,
    n: Seq<char>,
    m: Map<Seq<char>, MemFileEntry>,
    s2: MemoryScope,
    n2: Seq<char>,
)
    ensures
        with_store(stores, s, n, m)(s, n) == m,
        !same_store(s, n, s2, n2) ==> with_store(stores, s, n, m)(s2, n2) == stores(s2, n2),
{
}

/// What a write leaves behind: after an upsert of `e` under `key` in the
/// store `(scope, node)` (as `execute_action` describes it), that key reads
/// `e`, the store's other keys read as before, and every other store reads
/// as before; after a delete of `key`, the key reads nothing and the rest
/// is unchanged.
pub proof fn lemma_write_then_read(
    before: MemoryRuntime,
    after: MemoryRuntime,
    scope: MemoryScope,
    node: Seq<char>,
    key: Seq<char>,
    e: Option<MemFileEntry>,
    s2: MemoryScope,
    n2: Seq<char>,
    other: Seq<char>,
)
    requires
        after.stores() == with_store(
            before.stores(),
            scope,
            node,
            match e {
                Some(x) => before.store(scope, node).insert(key, x),
                None => before.store(scope, node).remove(key),
            },
        ),
    ensures
        match e {
            Some(x) => after.store(scope, node).dom().contains(key) && after.store(scope, node)[key] == x,
            None => !after.store(scope, node).dom().contains(key),
        },
        other != key ==> after.store(scope, node).dom().contains(other) == before.store(scope, node).dom().contains(
            other,
        ),
        other != key && before.store(scope, node).dom().contains(other) ==> after.store(scope, node)[other]
            == before.store(scope, node)[other],
        !same_store(scope, node, s2, n2) ==> after.store(s2, n2) == before.store(s2, n2),
{
    assert(after.store(scope, node) == after.stores()(scope, node));
    assert(after.store(s2, n2) == after.stores()(s2, n2));
    assert(before.store(s2, n2) == before.stores()(s2, n2));
}

/// The entry an upsert writes: the new topic, scope, TTL and value,
/// stamped `now`, keeping the first write's `created_at`.
pub open spec fn upserted_entry(
    prev: Option<MemFileEntry>,
    topic: Seq<char>,
    scope: MemoryScope,
    ttl: MemoryTtl,
    value: Seq<char>,
    now: Seq<char>,
    e: MemFileEntry,
) -> bool {
    &&& e.topic@ == topic
    &&& e.scope == scope
    &&& e.ttl == ttl
    &&& e.value@ == value
    &&& e.updated_at@ == now
    &&& e.created_at@ == (match prev {
        Some(p) => p.created_at@,
        None => now,
    })
}

/// Which keys of store `m` a listing by `topic` keeps: those whose entry
/// has that topic, or every key when `empty_matches_all` and the topic is
/// empty.
pub open spec fn topic_filter(m: Map<Seq<char>, MemFileEntry>, topic: Seq<char>, empty_matches_all: bool) -> spec_fn(
    Seq<char>,
) -> bool {
    |k: Seq<char>| (empty_matches_all && topic.len() == 0) || m[k].topic@ == topic
}

/// Scope a declaration acts on (session when absent).
pub open spec fn action_scope(entry: MemoryEntry) -> MemoryScope {
    match entry.scope {
        Some(s) => s,
        None => MemoryScope::Session,
    }
}

/// TTL a declaration writes (session when absent).
pub open spec fn action_ttl(entry: MemoryEntry) -> MemoryTtl {
    match entry.ttl {
        Some(t) => t,
        None => MemoryTtl::Session,
    }
}

/// Value a declaration writes (empty when absent).
pub open spec fn action_value(entry: MemoryEntry) -> Seq<char> {
    match entry.value {
        Some(v) => v@,
        None => Seq::empty(),
    }
}

/// Size in bytes of the value a declaration writes (its UTF-8 length, as
/// `str::len` reports it).
pub open spec fn action_value_size(entry: MemoryEntry) -> nat {
    (vstd::utf8::encode_utf8(action_value(entry)).len() as usize) as nat
}

/// Views of `(key, value)` string pairs.
pub open spec fn pair_views(v: Seq<(String, String)>) -> Seq<(Seq<char>, Seq<char>)> {
    v.map_values(|p: (String, String)| (p.0@, p.1@))
}

/// The `(key, value)` pairs of `m` for the given keys, in their order.
pub open spec fn listing_of(keys: Seq<Seq<char>>, m: Map<Seq<char>, MemFileEntry>) -> Seq<(Seq<char>, Seq<char>)> {
    keys.map_values(|k: Seq<char>| (k, m[k].value@))
}

/// Runtime manager of the four memory scopes.
pub struct MemoryRuntime {
    node_store: KeyedMap<KeyedMap<MemFileEntry>>,
    session_store: KeyedMap<MemFileEntry>,
    project_path: String,
    project_store: MemFile,
    global_path: String,
    global_store: MemFile,
    package: String,
}

/// What carrying out declaration `entry` for node `node_id` does, taking
/// the runtime from `before` to `after` with result `r`: a get reads the
/// key and changes nothing; an upsert whose value is too large is refused
/// and changes nothing; another upsert writes the key (the other keys and
/// stores stay); a delete removes the key and says whether it was there; a
/// list gives the keys of the topic in order; a search is unsupported.
pub open spec fn action_outcome(
    before: MemoryRuntime,
    after: MemoryRuntime,
    node_id: Seq<char>,
    entry: MemoryEntry,
    r: Result<MemoryResult, MemoryError>,
) -> bool {
    &&& entry.action == MemoryAction::Get ==> (r matches Ok(MemoryResult::Value(v)) && after == before && match v {
        Some(e) => before.store(action_scope(entry), node_id).dom().contains(entry.key@) && e == before.store(
            action_scope(entry),
            node_id,
        )[entry.key@],
        None => !before.store(action_scope(entry), node_id).dom().contains(entry.key@),
    })
    &&& (entry.action == MemoryAction::Upsert && action_value_size(entry) > MAX_MEMORY_VALUE_BYTES) ==> (
    r matches Err(MemoryError::ValueTooLarge { key, size: sz }) && key@ == entry.key@ && sz == action_value_size(
        entry,
    ) && after == before)
    &&& (entry.action == MemoryAction::Upsert && action_value_size(entry) <= MAX_MEMORY_VALUE_BYTES) ==> ({
        let prev = before.store(action_scope(entry), node_id);
        let e = after.store(action_scope(entry), node_id)[entry.key@];
        &&& r matches Ok(MemoryResult::Upserted)
        &&& upserted_entry(
            if prev.dom().contains(entry.key@) {
                Some(prev[entry.key@])
            } else {
                None
            },
            entry.topic@,
            action_scope(entry),
            action_ttl(entry),
            action_value(entry),
            e.updated_at@,
            e,
        )
        &&& after.stores() == with_store(before.stores(), action_scope(entry), node_id, prev.insert(entry.key@, e))
    })
    &&& entry.action == MemoryAction::Delete ==> (r matches Ok(MemoryResult::Deleted(b)) && b == before.store(
        action_scope(entry),
        node_id,
    ).dom().contains(entry.key@) && after.stores() == with_store(
        before.stores(),
        action_scope(entry),
        node_id,
        before.store(action_scope(entry), node_id).remove(entry.key@),
    ))
    &&& entry.action == MemoryAction::List ==> (r matches Ok(MemoryResult::List(l)) && after == before
        && l@.map_values(|p: (String, MemFileEntry)| p.0@) == before.store_keys(action_scope(entry), node_id).filter(
        topic_filter(before.store(action_scope(entry), node_id), entry.topic@, true),
    ) && forall|i: int| 0 <= i < l@.len() ==> #[trigger] l@[i].1 == before.store(action_scope(entry), node_id)[l@[i].0@])
    &&& entry.action == MemoryAction::Search ==> (r matches Ok(MemoryResult::SearchUnsupported) && after == before)
}

/// A declaration with its scope and TTL written out: session where absent.
pub open spec fn with_defaults(e: MemoryEntry) -> MemoryEntry {
    MemoryEntry { scope: Some(action_scope(e)), ttl: Some(action_ttl(e)), ..e }
}

/// A declaration without a scope or TTL acts exactly as the same
/// declaration with both set to session: same result, same runtime after.
pub proof fn lemma_defaults_act_alike(
    before: MemoryRuntime,
    after: MemoryRuntime,
    node_id: Seq<char>,
    e: MemoryEntry,
    r: Result<MemoryResult, MemoryError>,
)
    ensures
        action_outcome(before, after, node_id, e, r) == action_outcome(before, after, node_id, with_defaults(e), r),
{
    let d = with_defaults(e);
    assert(action_scope(d) == action_scope(e));
    assert(action_ttl(d) == action_ttl(e));
    assert(action_value(d) == action_value(e));
    assert(action_value_size(d) == action_value_size(e));
}

/// Two entries agree on everything but their time stamps.
pub open spec fn same_but_stamps(a: MemFileEntry, b: MemFileEntry) -> bool {
    &&& a.topic@ == b.topic@
    &&& a.scope == b.scope
    &&& a.ttl == b.ttl
    &&& a.value@ == b.value@
}

/// Two runtimes hold the same keys in every store, with entries that agree
/// on everything but their time stamps.
pub open spec fn stores_alike(x: MemoryRuntime, y: MemoryRuntime) -> bool {
    forall|s: MemoryScope, n: Seq<char>|
        {
            &&& (#[trigger] x.store(s, n)).dom() == y.store(s, n).dom()
            &&& forall|k: Seq<char>|
                x.store(s, n).dom().contains(k) ==> same_but_stamps(#[trigger] x.store(s, n)[k], y.store(s, n)[k])
        }
}

/// Two results of a memory action say the same thing.
pub open spec fn same_result(r1: Result<MemoryResult, MemoryError>, r2: Result<MemoryResult, MemoryError>) -> bool {
    match (r1, r2) {
        (Ok(MemoryResult::Value(v1)), Ok(MemoryResult::Value(v2))) => v1 == v2,
        (Ok(MemoryResult::Upserted), Ok(MemoryResult::Upserted)) => true,
        (Ok(MemoryResult::Deleted(b1)), Ok(MemoryResult::Deleted(b2))) => b1 == b2,
        (Ok(MemoryResult::List(l1)), Ok(MemoryResult::List(l2))) => {
            &&& l1@.map_values(|p: (String, MemFileEntry)| p.0@) == l2@.map_values(|p: (String, MemFileEntry)| p.0@)
            &&& forall|i: int| 0 <= i < l1@.len() ==> #[trigger] l1@[i].1 == l2@[i].1
        },
        (Ok(MemoryResult::SearchUnsupported), Ok(MemoryResult::SearchUnsupported)) => true,
        (
            Err(MemoryError::ValueTooLarge { key: k1, size: s1 }),
            Err(MemoryError::ValueTooLarge { key: k2, size: s2 }),
        ) => k1@ == k2@ && s1 == s2,
        _ => false,
    }
}

/// Carrying out a declaration and carrying out the same declaration with
/// its scope and TTL defaults written out, from the same runtime, give the
/// same result and leave the same stores, time stamps aside; a get, a list,
/// a search and a refused upsert leave the runtime as it was.
pub proof fn lemma_defaults_same_outcome(
    before: MemoryRuntime,
    after1: MemoryRuntime,
    after2: MemoryRuntime,
    node_id: Seq<char>,
    e: MemoryEntry,
    r1: Result<MemoryResult, MemoryError>,
    r2: Result<MemoryResult, MemoryError>,
)
    requires
        action_outcome(before, after1, node_id, e, r1),
        action_outcome(before, after2, node_id, with_defaults(e), r2),
    ensures
        same_result(r1, r2),
        stores_alike(after1, after2),
        (r1 is Err || e.action == MemoryAction::Get || e.action == MemoryAction::List || e.action
            == MemoryAction::Search) ==> after1 == before && after2 == before,
{
    lemma_defaults_act_alike(before, after2, node_id, e, r2);
    let sc = action_scope(e);
    let k = e.key@;
    if e.action == MemoryAction::List {
        let l1 = r1->Ok_0->List_0;
        let l2 = r2->Ok_0->List_0;
        let f = |p: (String, MemFileEntry)| p.0@;
        assert(l1@.map_values(f).len() == l2@.map_values(f).len());
        assert forall|i: int| 0 <= i < l1@.len() implies #[trigger] l1@[i].1 == l2@[i].1 by {
            assert(l1@.map_values(f)[i] == l2@.map_values(f)[i]);
        }
    }
    if e.action == MemoryAction::Upsert && action_value_size(e) <= MAX_MEMORY_VALUE_BYTES {
        let prev = before.store(sc, node_id);
        let e1 = after1.store(sc, node_id)[k];
        let e2 = after2.store(sc, node_id)[k];
        assert forall|s: MemoryScope, n: Seq<char>| {
            &&& (#[trigger] after1.store(s, n)).dom() == after2.store(s, n).dom()
            &&& forall|kk: Seq<char>|
                after1.store(s, n).dom().contains(kk) ==> same_but_stamps(
                    #[trigger] after1.store(s, n)[kk],
                    after2.store(s, n)[kk],
                )
        } by {
            assert(after1.store(s, n) == (after1.stores())(s, n));
            assert(after2.store(s, n) == (after2.stores())(s, n));
            if same_store(sc, node_id, s, n) {
                assert(after1.store(s, n) == prev.insert(k, e1));
                assert(after2.store(s, n) == prev.insert(k, e2));
            } else {
                assert(after1.store(s, n) == before.store(s, n));
                assert(after2.store(s, n) == before.store(s, n));
            }
        }
    }
    if e.action == MemoryAction::Delete {
        assert forall|s: MemoryScope, n: Seq<char>| {
            &&& (#[trigger] after1.store(s, n)).dom() == after2.store(s, n).dom()
            &&& forall|kk: Seq<char>|
                after1.store(s, n).dom().contains(kk) ==> same_but_stamps(
                    #[trigger] after1.store(s, n)[kk],
                    after2.store(s, n)[kk],
                )
        } by {
            assert(after1.store(s, n) == (after1.stores())(s, n));
            assert(after2.store(s, n) == (after2.stores())(s, n));
        }
    }
}

impl MemoryRuntime {
    /// Every store is an ordered map.
    pub closed spec fn wf(&self) -> bool {
        &&& self.node_store.wf()
        &&& forall|k: Seq<char>| #[trigger] self.node_store@.dom().contains(k) ==> self.node_store@[k].wf()
        &&& self.session_store.wf()
        &&& self.project_store.entries.wf()
        &&& self.global_store.entries.wf()
    }

    /// The entries of the store that `(scope, node_id)` names; a node with
    /// no store reads as empty.
    pub closed spec fn store(&self, scope: MemoryScope, node_id: Seq<char>) -> Map<Seq<char>, MemFileEntry> {
        match scope {
            MemoryScope::Node => if self.node_store@.dom().contains(node_id) {
                self.node_store@[node_id]@
            } else {
                Map::empty()
            },
            MemoryScope::Session => self.session_store@,
            MemoryScope::Project => self.project_store.entries@,
            MemoryScope::Global => self.global_store.entries@,
        }
    }

    /// The keys of that store in ascending order.
    pub closed spec fn store_keys(&self, scope: MemoryScope, node_id: Seq<char>) -> Seq<Seq<char>> {
        match scope {
            MemoryScope::Node => if self.node_store@.dom().contains(node_id) {
                self.node_store@[node_id].keys()
            } else {
                Seq::empty()
            },
            MemoryScope::Session => self.session_store.keys(),
            MemoryScope::Project => self.project_store.entries.keys(),
            MemoryScope::Global => self.global_store.entries.keys(),
        }
    }

    /// `store_keys` lists every key of the store exactly once, in strictly
    /// ascending order.
    pub proof fn lemma_store_keys(&self, scope: MemoryScope, node_id: Seq<char>)
        requires
            self.wf(),
        ensures
            self.store_keys(scope, node_id).no_duplicates(),
            forall|i: int, j: int|
                0 <= i < j < self.store_keys(scope, node_id).len() ==> lex_lt(
                    #[trigger] self.store_keys(scope, node_id)[i],
                    #[trigger] self.store_keys(scope, node_id)[j],
                ),
            self.store_keys(scope, node_id).to_set() == self.store(scope, node_id).dom(),
            self.store_keys(scope, node_id).len() == self.store(scope, node_id).dom().len(),
    {
        match scope {
            MemoryScope::Node => {
                if self.node_store@.dom().contains(node_id) {
                    let m = self.node_store@[node_id];
                    m.lemma_wf_unique();
                    m.lemma_dom_len();
                } else {
                    assert(Seq::<Seq<char>>::empty().to_set() =~= Map::<Seq<char>, MemFileEntry>::empty().dom());
                }
            },
            MemoryScope::Session => {
                self.session_store.lemma_wf_unique();
                self.session_store.lemma_dom_len();
            },
            MemoryScope::Project => {
                self.project_store.entries.lemma_wf_unique();
                self.project_store.entries.lemma_dom_len();
            },
            MemoryScope::Global => {
                self.global_store.entries.lemma_wf_unique();
                self.global_store.entries.lemma_dom_len();
            },
        }
    }

    /// All stores at once.
    pub open spec fn stores(&self) -> spec_fn(MemoryScope, Seq<char>) -> Map<Seq<char>, MemFileEntry> {
        |s: MemoryScope, n: Seq<char>| self.store(s, n)
    }

    /// Paths and package of the runtime.
    pub closed spec fn config(&self) -> (Seq<char>, Seq<char>, Seq<char>) {
        (self.project_path@, self.global_path@, self.package@)
    }

    /// The project memory file (header and entries).
    pub closed spec fn spec_project_store(&self) -> MemFile {
        self.project_store
    }

    /// The global memory file (header and entries).
    pub closed spec fn spec_global_store(&self) -> MemFile {
        self.global_store
    }

    /// Names that denote one store denote the same entries: the session,
    /// project and global stores do not depend on the node.
    pub proof fn lemma_same_store(&self, s1: MemoryScope, n1: Seq<char>, s2: MemoryScope, n2: Seq<char>)
        requires
            same_store(s1, n1, s2, n2),
        ensures
            self.store(s1, n1) == self.store(s2, n2),
    {
    }

    /// A runtime over given project and global files, with empty node and
    /// session stores.
    pub fn with_stores(
        project_path: &str,
        project_store: MemFile,
        global_path: &str,
        global_store: MemFile,
        package: &str,
    ) -> (rt: MemoryRuntime)
        requires
            project_store.entries.wf(),
            global_store.entries.wf(),
        ensures
            rt.wf(),
            rt.config() == (project_path@, global_path@, package@),
            rt.spec_project_store() == project_store,
            rt.spec_global_store() == global_store,
            forall|n: Seq<char>| rt.store(MemoryScope::Node, n) == Map::<Seq<char>, MemFileEntry>::empty(),
            rt.store(MemoryScope::Session, Seq::empty()) == Map::<Seq<char>, MemFileEntry>::empty(),
    {
        let rt = MemoryRuntime {
            node_store: KeyedMap::new(),
            session_store: KeyedMap::new(),
            project_path: owned(project_path),
            project_store,
            global_path: owned(global_path),
            global_store,
            package: owned(package),
        };
        rt
    }

    /// A runtime whose stores are all empty (no sidecar files yet).
    pub fn new(project_path: &str, global_path: &str, package: &str) -> (rt: MemoryRuntime)
        ensures
            rt.wf(),
            rt.config() == (project_path@, global_path@, package@),
            forall|s: MemoryScope, n: Seq<char>| rt.store(s, n) == Map::<Seq<char>, MemFileEntry>::empty(),
    {
        let p = empty_mem_file(package);
        let g = empty_mem_file(package);
        Self::with_stores(project_path, p, global_path, g, package)
    }

    /// The entry stored under `key` in the store `(scope, node_id)`.
    pub fn get(&self, node_id: &str, scope: MemoryScope, key: &str) -> (r: Option<MemFileEntry>)
        requires
            self.wf(),
        ensures
            match r {
                Some(e) => self.store(scope, node_id@).dom().contains(key@) && e == self.store(scope, node_id@)[key@],
                None => !self.store(scope, node_id@).dom().contains(key@),
            },
    {
        let found = match scope {
            MemoryScope::Node => match self.node_store.get(node_id) {
                Some(m) => m.get(key),
                None => None,
            },
            MemoryScope::Session => self.session_store.get(key),
            MemoryScope::Project => self.project_store.entries.get(key),
            MemoryScope::Global => self.global_store.entries.get(key),
        };
        match found {
            Some(e) => Some(e.copy()),
            None => None,
        }
    }

    /// Writes `value` under `key` in the store `(scope, node_id)` with the
    /// given topic and TTL, keeping the first write's `created_at`; no
    /// other store changes.
    pub fn upsert(
        &mut self,
        node_id: &str,
        scope: MemoryScope,
        key: &str,
        topic: &str,
        ttl: &MemoryTtl,
        value: &str,
    )
        requires
            old(self).wf(),
        ensures
            final(self).wf(),
            final(self).config() == old(self).config(),
            final(self).store(scope, node_id@).dom().contains(key@),
            upserted_entry(
                if old(self).store(scope, node_id@).dom().contains(key@) {
                    Some(old(self).store(scope, node_id@)[key@])
                } else {
                    None
                },
                topic@,
                scope,
                *ttl,
                value@,
                final(self).store(scope, node_id@)[key@].updated_at@,
                final(self).store(scope, node_id@)[key@],
            ),
            final(self).stores() == with_store(
                old(self).stores(),
                scope,
                node_id@,
                old(self).store(scope, node_id@).insert(key@, final(self).store(scope, node_id@)[key@]),
            ),
    {
        let now = now_iso8601();
        let prev = self.get(node_id, scope, key);
        let created_at = match &prev {
            Some(e) => e.created_at.clone(),
            None => now.clone(),
        };
        let entry = MemFileEntry {
            topic: owned(topic),
            scope,
            ttl: ttl.copy(),
            value: owned(value),
            created_at,
            updated_at: now.clone(),
        };
        let ghost e = entry;
        match scope {
            MemoryScope::Node => {
                let mut inner = match self.node_store.remove(node_id) {
                    Some(m) => m,
                    None => KeyedMap::new(),
                };
                inner.insert(owned(key), entry);
                self.node_store.insert(owned(node_id), inner);
            },
            MemoryScope::Session => {
                self.session_store.insert(owned(key), entry);
            },
            MemoryScope::Project => {
                self.project_store.entries.insert(owned(key), entry);
                self.project_store.updated_at = now;
            },
            MemoryScope::Global => {
                self.global_store.entries.insert(owned(key), entry);
                self.global_store.updated_at = now;
            },
        }
        proof {
            assert(self.store(scope, node_id@)[key@] == e);
            assert(self.stores() =~= with_store(
                old(self).stores(),
                scope,
                node_id@,
                old(self).store(scope, node_id@).insert(key@, e),
            )) by {
                assert forall|s2: MemoryScope, n2: Seq<char>| #[trigger] self.stores()(s2, n2) == with_store(
                    old(self).stores(),
                    scope,
                    node_id@,
                    old(self).store(scope, node_id@).insert(key@, e),
                )(s2, n2) by {
                    if same_store(scope, node_id@, s2, n2) {
                        assert(self.store(s2, n2) =~= old(self).store(scope, node_id@).insert(key@, e));
                    }
                }
            }
        }
    }

    /// Removes `key` from the store `(scope, node_id)`; reports whether it
    /// was there. No other store changes.
    pub fn delete(&mut self, node_id: &str, scope: MemoryScope, key: &str) -> (r: bool)
        requires
            old(self).wf(),
        ensures
            final(self).wf(),
            final(self).config() == old(self).config(),
            r == old(self).store(scope, node_id@).dom().contains(key@),
            final(self).stores() == with_store(
                old(self).stores(),
                scope,
                node_id@,
                old(self).store(scope, node_id@).remove(key@),
            ),
    {
        let removed = match scope {
            MemoryScope::Node => {
                match self.node_store.remove(node_id) {
                    Some(mut inner) => {
                        let r = inner.remove(key);
                        self.node_store.insert(owned(node_id), inner);
                        r.is_some()
                    },
                    None => false,
                }
            },
            MemoryScope::Session => self.session_store.remove(key).is_some(),
            MemoryScope::Project => self.project_store.entries.remove(key).is_some(),
            MemoryScope::Global => self.global_store.entries.remove(key).is_some(),
        };
        proof {
            assert(self.stores() =~= with_store(
                old(self).stores(),
                scope,
                node_id@,
                old(self).store(scope, node_id@).remove(key@),
            )) by {
                assert forall|s2: MemoryScope, n2: Seq<char>| #[trigger] self.stores()(s2, n2) == with_store(
                    old(self).stores(),
                    scope,
                    node_id@,
                    old(self).store(scope, node_id@).remove(key@),
                )(s2, n2) by {
                    if same_store(scope, node_id@, s2, n2) {
                        assert(self.store(s2, n2) =~= old(self).store(scope, node_id@).remove(key@));
                    }
                }
            }
        }
        removed
    }

    /// The `(key, entry)` pairs of the store `(scope, node_id)` whose topic
    /// is `topic` (all of them when `topic` is empty), in ascending key order.
    pub fn list(&self, node_id: &str, scope: MemoryScope, topic: &str) -> (r: Vec<(String, MemFileEntry)>)
        requires
            self.wf(),
        ensures
            r@.map_values(|p: (String, MemFileEntry)| p.0@) == self.store_keys(scope, node_id@).filter(
                topic_filter(self.store(scope, node_id@), topic@, true),
            ),
            forall|i: int| 0 <= i < r@.len() ==> #[trigger] r@[i].1 == self.store(scope, node_id@)[r@[i].0@],
    {
        let empty: KeyedMap<MemFileEntry> = KeyedMap::new();
        let m: &KeyedMap<MemFileEntry> = match scope {
            MemoryScope::Node => match self.node_store.get(node_id) {
                Some(inner) => inner,
                None => &empty,
            },
            MemoryScope::Session => &self.session_store,
            MemoryScope::Project => &self.project_store.entries,
            MemoryScope::Global => &self.global_store.entries,
        };
        proof {
            assert(m.keys() == self.store_keys(scope, node_id@));
            assert(m@ == self.store(scope, node_id@));
        }
        list_matching(m, topic, true)
    }

    /// Clears the node store of `node_id`.
    pub fn clear_node_scope(&mut self, node_id: &str)
        requires
            old(self).wf(),
        ensures
            final(self).wf(),
            final(self).config() == old(self).config(),
            final(self).stores() == with_store(
                old(self).stores(),
                MemoryScope::Node,
                node_id@,
                Map::empty(),
            ),
    {
        let _ = self.node_store.remove(node_id);
        proof {
            assert forall|s2: MemoryScope, n2: Seq<char>| #[trigger] self.stores()(s2, n2) == with_store(
                old(self).stores(),
                MemoryScope::Node,
                node_id@,
                Map::empty(),
            )(s2, n2) by {
                if same_store(MemoryScope::Node, node_id@, s2, n2) {
                    assert(self.store(s2, n2) =~= Map::<Seq<char>, MemFileEntry>::empty());
                }
            }
            assert(self.stores() =~= with_store(old(self).stores(), MemoryScope::Node, node_id@, Map::empty()));
        }
    }

    /// Clears the session store.
    pub fn clear_session_scope(&mut self)
        requires
            old(self).wf(),
        ensures
            final(self).wf(),
            final(self).config() == old(self).config(),
            final(self).stores() == with_store(
                old(self).stores(),
                MemoryScope::Session,
                Seq::empty(),
                Map::empty(),
            ),
    {
        self.session_store.clear();
        proof {
            assert forall|s2: MemoryScope, n2: Seq<char>| #[trigger] self.stores()(s2, n2) == with_store(
                old(self).stores(),
                MemoryScope::Session,
                Seq::empty(),
                Map::empty(),
            )(s2, n2) by {}
            assert(self.stores() =~= with_store(
                old(self).stores(),
                MemoryScope::Session,
                Seq::empty(),
                Map::empty(),
            ));
        }
    }

    /// Clears the node store of a node that is being reset.
    pub fn clear_node_on_reset(&mut self, node_id: &str)
        requires
            old(self).wf(),
        ensures
            final(self).wf(),
            final(self).config() == old(self).config(),
            final(self).stores() == with_store(
                old(self).stores(),
                MemoryScope::Node,
                node_id@,
                Map::empty(),
            ),
    {
        self.clear_node_scope(node_id);
    }

    /// Carries out a node's memory declaration. The scope and the TTL
    /// default to session. A value over `MAX_MEMORY_VALUE_BYTES` bytes is
    /// refused and nothing is written; search is not supported.
    pub fn execute_action(&mut self, node_id: &str, entry: &MemoryEntry) -> (r: Result<MemoryResult, MemoryError>)
        requires
            old(self).wf(),
        ensures
            final(self).wf(),
            final(self).config() == old(self).config(),
            action_outcome(*old(self), *final(self), node_id@, *entry, r),

    {
        let scope = match entry.scope {
            Some(s) => s,
            None => MemoryScope::Session,
        };
        match entry.action {
            MemoryAction::Get => Ok(MemoryResult::Value(self.get(node_id, scope, entry.key.as_str()))),
            MemoryAction::Upsert => {
                let value: &str = match &entry.value {
                    Some(v) => v.as_str(),
                    None => "",
                };
                proof {
                    reveal_strlit("");
                    assert(""@ =~= Seq::<char>::empty());
                    assert(value@ == action_value(*entry));
                }
                if value.len() > MAX_MEMORY_VALUE_BYTES {
                    return Err(MemoryError::ValueTooLarge { key: entry.key.clone(), size: value.len() });
                }
                let session_ttl = MemoryTtl::Session;
                let ttl: &MemoryTtl = match &entry.ttl {
                    Some(t) => t,
                    None => &session_ttl,
                };
                self.upsert(node_id, scope, entry.key.as_str(), entry.topic.as_str(), ttl, value);
                Ok(MemoryResult::Upserted)
            },
            MemoryAction::Delete => Ok(MemoryResult::Deleted(self.delete(node_id, scope, entry.key.as_str()))),
            MemoryAction::List => Ok(MemoryResult::List(self.list(node_id, scope, entry.topic.as_str()))),
            MemoryAction::Search => Ok(MemoryResult::SearchUnsupported),
        }
    }

    /// The `(key, value)` pairs of topic `topic` in the session, project and
    /// global stores, in that order and each in ascending key order.
    pub open spec fn topic_listing(&self, topic: Seq<char>) -> Seq<(Seq<char>, Seq<char>)> {
        let ss = self.store(MemoryScope::Session, Seq::empty());
        let sp = self.store(MemoryScope::Project, Seq::empty());
        let sg = self.store(MemoryScope::Global, Seq::empty());
        listing_of(self.store_keys(MemoryScope::Session, Seq::empty()).filter(topic_filter(ss, topic, false)), ss)
            + listing_of(self.store_keys(MemoryScope::Project, Seq::empty()).filter(topic_filter(sp, topic, false)), sp)
            + listing_of(self.store_keys(MemoryScope::Global, Seq::empty()).filter(topic_filter(sg, topic, false)), sg)
    }

    /// The `(key, value)` pairs of topic `topic` in the session, project and
    /// global stores, in that order and each in ascending key order. Node
    /// stores are not included.
    pub fn list_topic(&self, topic: &str) -> (r: Vec<(String, String)>)
        requires
            self.wf(),
        ensures
            ({
                let fs = self.store_keys(MemoryScope::Session, Seq::empty()).filter(
                    topic_filter(self.store(MemoryScope::Session, Seq::empty()), topic@, false),
                );
                let fp = self.store_keys(MemoryScope::Project, Seq::empty()).filter(
                    topic_filter(self.store(MemoryScope::Project, Seq::empty()), topic@, false),
                );
                let fg = self.store_keys(MemoryScope::Global, Seq::empty()).filter(
                    topic_filter(self.store(MemoryScope::Global, Seq::empty()), topic@, false),
                );
                &&& r@.map_values(|p: (String, String)| p.0@) == fs + fp + fg
                &&& forall|i: int| 0 <= i < fs.len() ==> #[trigger] r@[i].1@ == self.store(
                    MemoryScope::Session,
                    Seq::empty(),
                )[r@[i].0@].value@
                &&& forall|i: int| fs.len() <= i < fs.len() + fp.len() ==> #[trigger] r@[i].1@ == self.store(
                    MemoryScope::Project,
                    Seq::empty(),
                )[r@[i].0@].value@
                &&& forall|i: int| fs.len() + fp.len() <= i < r@.len() ==> #[trigger] r@[i].1@ == self.store(
                    MemoryScope::Global,
                    Seq::empty(),
                )[r@[i].0@].value@
            }),
            pair_views(r@) == self.topic_listing(topic@),
    {
        let a = list_matching(&self.session_store, topic, false);
        let b = list_matching(&self.project_store.entries, topic, false);
        let c = list_matching(&self.global_store.entries, topic, false);
        let mut out: Vec<(String, String)> = Vec::new();
        let ghost ka = a@.map_values(|p: (String, MemFileEntry)| p.0@);
        let ghost kb = b@.map_values(|p: (String, MemFileEntry)| p.0@);
        let ghost kc = c@.map_values(|p: (String, MemFileEntry)| p.0@);
        append_values(&mut out, &a);
        let ghost out1 = out@;
        append_values(&mut out, &b);
        let ghost out2 = out@;
        append_values(&mut out, &c);
        proof {
            assert(ka.len() == a@.len());
            assert(kb.len() == b@.len());
            assert forall|i: int| 0 <= i < a@.len() implies #[trigger] out@[i] == out1[i] by {
                assert(out2[i] == out1[i]);
            }
            assert forall|i: int| 0 <= i < b@.len() implies #[trigger] out@[a@.len() + i] == out2[a@.len() + i] by {}
        }
        proof {
            assert(out@.map_values(|p: (String, String)| p.0@) =~= ka + kb + kc);
            assert forall|i: int| 0 <= i < out@.len() implies #[trigger] out@[i].0@ == (ka + kb + kc)[i] by {
                assert(out@.map_values(|p: (String, String)| p.0@)[i] == out@[i].0@);
            }
            assert forall|i: int| 0 <= i < a@.len() implies #[trigger] out@[i].1@ == self.store(MemoryScope::Session, Seq::empty())[out@[i].0@].value@ by {
                assert(out@[i] == out1[i]);
                assert(out1[0 + i].1@ == a@[i].1.value@);
                assert(out1[0 + i].0@ == a@[i].0@);
                assert(a@[i].1 == self.session_store@[a@[i].0@]);
            }
            assert forall|i: int| a@.len() <= i < a@.len() + b@.len() implies #[trigger] out@[i].1@ == self.store(MemoryScope::Project, Seq::empty())[out@[i].0@].value@ by {
                assert(out@[a@.len() + (i - a@.len())].1@ == b@[i - a@.len()].1.value@);
            }
            assert forall|i: int| a@.len() + b@.len() <= i < out@.len() implies #[trigger] out@[i].1@ == self.store(MemoryScope::Global, Seq::empty())[out@[i].0@].value@ by {
                assert(out@[a@.len() + b@.len() + (i - a@.len() - b@.len())].1@ == c@[i - a@.len() - b@.len()].1.value@);
            }
            let ss = self.store(MemoryScope::Session, Seq::empty());
            let sp = self.store(MemoryScope::Project, Seq::empty());
            let sg = self.store(MemoryScope::Global, Seq::empty());
            let fs = self.store_keys(MemoryScope::Session, Seq::empty()).filter(topic_filter(ss, topic@, false));
            let fp = self.store_keys(MemoryScope::Project, Seq::empty()).filter(topic_filter(sp, topic@, false));
            let fg = self.store_keys(MemoryScope::Global, Seq::empty()).filter(topic_filter(sg, topic@, false));
            let ks = ka + kb + kc;
            assert(ks == fs + fp + fg);
            let tl = self.topic_listing(topic@);
            assert forall|i: int| 0 <= i < out@.len() implies #[trigger] pair_views(out@)[i] == tl[i] by {
                assert(out@[i].0@ == ks[i]);
                if i < fs.len() {
                    assert(tl[i] == listing_of(fs, ss)[i]);
                } else if i < fs.len() + fp.len() {
                    assert(tl[i] == listing_of(fp, sp)[i - fs.len()]);
                } else {
                    assert(tl[i] == listing_of(fg, sg)[i - fs.len() - fp.len()]);
                }
            }
            assert(pair_views(out@) =~= tl);
        }
        out
    }

    /// The project memory file.
    pub fn project_store(&self) -> (r: &MemFile)
        ensures
            *r == self.spec_project_store(),
            self.wf() ==> r.entries.wf(),
    {
        &self.project_store
    }

    /// The global memory file.
    pub fn global_store(&self) -> (r: &MemFile)
        ensures
            *r == self.spec_global_store(),
            self.wf() ==> r.entries.wf(),
    {
        &self.global_store
    }
}

/// The `(key, entry)` pairs of `m` whose topic is `topic`; when
/// `empty_matches_all`, an empty topic matches every entry.
fn list_matching(m: &KeyedMap<MemFileEntry>, topic: &str, empty_matches_all: bool) -> (r: Vec<(String, MemFileEntry)>)
    requires
        m.wf(),
    ensures
        r@.map_values(|p: (String, MemFileEntry)| p.0@) == m.keys().filter(topic_filter(m@, topic@, empty_matches_all)),
        forall|i: int| 0 <= i < r@.len() ==> m@.dom().contains(#[trigger] r@[i].0@) && r@[i].1 == m@[r@[i].0@],
{
    let ghost pred = topic_filter(m@, topic@, empty_matches_all);
    let all = empty_matches_all && topic.is_empty();
    let n = m.len();
    let mut out: Vec<(String, MemFileEntry)> = Vec::new();
    let mut i: usize = 0;
    while i < n
        invariant
            m.wf(),
            n == m.keys().len(),
            i <= n,
            pred == topic_filter(m@, topic@, empty_matches_all),
            all == (empty_matches_all && topic@.len() == 0),
            out@.map_values(|p: (String, MemFileEntry)| p.0@) == m.keys().take(i as int).filter(pred),
            forall|j: int| 0 <= j < out@.len() ==> m@.dom().contains(#[trigger] out@[j].0@) && out@[j].1 == m@[out@[j].0@],
        decreases n - i,
    {
        proof {
            m.lemma_index_of(i as int);
            reveal_with_fuel(Seq::<_>::filter, 1);
            assert(m.keys().take(i + 1).drop_last() =~= m.keys().take(i as int));
        }
        let k = m.key_at(i);
        let e = m.value_at(i);
        if all || str_eq(e.topic.as_str(), topic) {
            let ghost before = out@;
            out.push((k.clone(), e.copy()));
            proof {
                assert(out@.map_values(|p: (String, MemFileEntry)| p.0@) =~= before.map_values(
                    |p: (String, MemFileEntry)| p.0@,
                ).push(k@));
            }
        }
        i += 1;
    }
    proof {
        assert(m.keys().take(n as int) =~= m.keys());
    }
    out
}

/// Appends the `(key, value)` of each listed entry.
fn append_values(out: &mut Vec<(String, String)>, items: &Vec<(String, MemFileEntry)>)
    ensures
        final(out)@.map_values(|p: (String, String)| p.0@) == old(out)@.map_values(|p: (String, String)| p.0@)
            + items@.map_values(|p: (String, MemFileEntry)| p.0@),
        forall|i: int| 0 <= i < old(out)@.len() ==> #[trigger] final(out)@[i] == old(out)@[i],
        forall|i: int| 0 <= i < items@.len() ==> #[trigger] final(out)@[old(out)@.len() + i].1@ == items@[i].1.value@
            && final(out)@[old(out)@.len() + i].0@ == items@[i].0@,
        final(out)@.len() == old(out)@.len() + items@.len(),
{
    let mut i: usize = 0;
    while i < items.len()
        invariant
            i <= items@.len(),
            out@.len() == old(out)@.len() + i,
            out@.map_values(|p: (String, String)| p.0@) == old(out)@.map_values(|p: (String, String)| p.0@)
                + items@.take(i as int).map_values(|p: (String, MemFileEntry)| p.0@),
            forall|j: int| 0 <= j < old(out)@.len() ==> #[trigger] out@[j] == old(out)@[j],
            forall|j: int| 0 <= j < i ==> #[trigger] out@[old(out)@.len() + j].1@ == items@[j].1.value@
                && out@[old(out)@.len() + j].0@ == items@[j].0@,
        decreases items@.len() - i,
    {
        let ghost before = out@;
        out.push((items[i].0.clone(), items[i].1.value.clone()));
        proof {
            assert(items@.take(i + 1).map_values(|p: (String, MemFileEntry)| p.0@) =~= items@.take(i as int).map_values(
                |p: (String, MemFileEntry)| p.0@,
            ).push(items@[i as int].0@));
            assert(out@.map_values(|p: (String, String)| p.0@) =~= before.map_values(|p: (String, String)| p.0@).push(
                items@[i as int].0@,
            ));
        }
        i += 1;
    }
    proof {
        assert(items@.take(i as int) =~= items@);
    }
}

/// Whole seconds in a span of `e` nanoseconds, truncated toward zero.
pub open spec fn whole_seconds(e: int) -> int {
    if e >= 0 {
        e / 1_000_000_000
    } else {
        -((-e) / 1_000_000_000)
    }
}

/// An entry has expired at instant `now` (nanoseconds since the epoch): its
/// TTL is a duration that parses, its `updated_at` parses, and at least
/// that many whole seconds have passed since. Other entries never expire.
pub open spec fn entry_expired(e: MemFileEntry, now: int) -> bool {
    match e.ttl {
        MemoryTtl::Duration(d) => match parse_duration_spec(d@) {
            Ok(secs) => match rfc3339_instant_nanos(e.updated_at@) {
                Some(t) => whole_seconds(now - t) >= 0 && whole_seconds(now - t) >= secs,
                None => false,
            },
            Err(_) => false,
        },
        _ => false,
    }
}

/// The entry's TTL, if a duration, can be computed in 64 bits.
pub open spec fn entry_duration_fits(e: MemFileEntry) -> bool {
    e.ttl matches MemoryTtl::Duration(d) ==> !duration_overflows(d@)
}

/// The entries of a store that have not expired at `now`.
pub open spec fn live_entries(m: Map<Seq<char>, MemFileEntry>, now: int) -> Map<Seq<char>, MemFileEntry> {
    m.restrict(Set::new(|k: Seq<char>| !entry_expired(m[k], now)))
}

/// Number of entries over a list of node stores.
pub open spec fn node_total(v: Seq<KeyedMap<MemFileEntry>>) -> nat
    decreases v.len(),
{
    if v.len() == 0 {
        0
    } else {
        node_total(v.drop_last()) + v.last().keys().len()
    }
}

/// Replacing one node store changes the total by the difference in size.
proof fn lemma_node_total_update(v: Seq<KeyedMap<MemFileEntry>>, i: int, x: KeyedMap<MemFileEntry>)
    requires
        0 <= i < v.len(),
    ensures
        node_total(v.update(i, x)) + v[i].keys().len() == node_total(v) + x.keys().len(),
    decreases v.len(),
{
    if i < v.len() - 1 {
        lemma_node_total_update(v.drop_last(), i, x);
        assert(v.update(i, x).drop_last() =~= v.drop_last().update(i, x));
    } else {
        assert(v.update(i, x).drop_last() =~= v.drop_last());
    }
}

/// Whether an entry has expired at `now`.
pub fn is_expired(entry: &MemFileEntry, now: i128) -> (r: bool)
    requires
        entry_duration_fits(*entry),
    ensures
        r == entry_expired(*entry, now as int),
{
    let d = match &entry.ttl {
        MemoryTtl::Duration(d) => d,
        _ => {
            return false;
        },
    };
    let secs = match parse_iso8601_duration(d.as_str()) {
        Ok(s) => s,
        Err(_) => {
            return false;
        },
    };
    let updated = match parse_rfc3339_nanos(entry.updated_at.as_str()) {
        Some(t) => t,
        None => {
            return false;
        },
    };
    // whole_seconds(now - updated) >= secs (and >= 0), without overflow
    if secs == 0 {
        // more than -1 s elapsed
        match now.checked_add(1_000_000_000) {
            Some(x) => x > updated,
            None => true,
        }
    } else {
        let span = (secs as i128) * 1_000_000_000;
        match updated.checked_add(span) {
            Some(due) => now >= due,
            None => false,
        }
    }
}

/// Removes the expired entries of one store; returns how many.
fn remove_expired(m: &mut KeyedMap<MemFileEntry>, now: i128) -> (r: usize)
    requires
        old(m).wf(),
        forall|k: Seq<char>| #[trigger] old(m)@.dom().contains(k) ==> entry_duration_fits(old(m)@[k]),
    ensures
        final(m).wf(),
        final(m)@ == live_entries(old(m)@, now as int),
        r + final(m).keys().len() == old(m).keys().len(),
{
    let n = m.len();
    let mut gone: Vec<String> = Vec::new();
    let mut i: usize = 0;
    let ghost dead = Set::new(|k: Seq<char>| old(m)@.dom().contains(k) && entry_expired(old(m)@[k], now as int));
    while i < n
        invariant
            m.wf(),
            *m == *old(m),
            n == m.keys().len(),
            i <= n,
            dead == Set::new(|k: Seq<char>| old(m)@.dom().contains(k) && entry_expired(old(m)@[k], now as int)),
            forall|k: Seq<char>| #[trigger] old(m)@.dom().contains(k) ==> entry_duration_fits(old(m)@[k]),
            crate::text::string_views(gone@).no_duplicates(),
            forall|x: Seq<char>| #[trigger] crate::text::string_views(gone@).contains(x) ==> dead.contains(x),
            forall|j: int| 0 <= j < i && dead.contains(#[trigger] m.keys()[j]) ==> crate::text::string_views(gone@).contains(m.keys()[j]),
            forall|x: Seq<char>| #[trigger] crate::text::string_views(gone@).contains(x) ==> exists|j: int| 0 <= j < i && m.keys()[j] == x,
        decreases n - i,
    {
        proof {
            m.lemma_index_of(i as int);
            m.lemma_wf_unique();
        }
        let k = m.key_at(i);
        let e = m.value_at(i);
        if is_expired(e, now) {
            let kc = k.clone();
            let ghost gb = gone@;
            proof {
                crate::text::lemma_views_push(gb, kc);
            }
            gone.push(kc);
            proof {
                let gv = crate::text::string_views(gone@);
                let bv = crate::text::string_views(gb);
                assert(gv == bv.push(k@));
                assert(!bv.contains(k@)) by {
                    if bv.contains(k@) {
                        let j = choose|j: int| 0 <= j < i && m.keys()[j] == k@;
                        assert(m.keys()[j] == m.keys()[i as int]);
                    }
                }
                assert forall|a: int, b: int| 0 <= a < gv.len() && 0 <= b < gv.len() && a != b implies gv[a] != gv[b] by {
                    if a == bv.len() {
                        assert(bv.contains(gv[b]));
                    } else if b == bv.len() {
                        assert(bv.contains(gv[a]));
                    }
                }
                assert forall|x: Seq<char>| #[trigger] gv.contains(x) implies dead.contains(x) && exists|j: int| 0 <= j < i + 1 && m.keys()[j] == x by {
                    if x != k@ {
                        let t = gv.index_of(x);
                        assert(t < bv.len());
                        assert(bv[t] == x);
                        assert(bv.contains(x));
                    } else {
                        assert(m.keys()[i as int] == x);
                    }
                }
                assert forall|j: int| 0 <= j < i + 1 && dead.contains(#[trigger] m.keys()[j]) implies gv.contains(m.keys()[j]) by {
                    if j < i {
                        let t = bv.index_of(m.keys()[j]);
                        assert(gv[t] == m.keys()[j]);
                    } else {
                        assert(gv[bv.len() as int] == m.keys()[j]);
                    }
                }
            }
        } else {
            proof {
                assert forall|x: Seq<char>| #[trigger] crate::text::string_views(gone@).contains(x) implies exists|j: int| 0 <= j < i + 1 && m.keys()[j] == x by {
                    let j = choose|j: int| 0 <= j < i && m.keys()[j] == x;
                }
            }
        }
        i += 1;
    }
    let ghost gv = crate::text::string_views(gone@);
    proof {
        assert forall|x: Seq<char>| dead.contains(x) implies #[trigger] gv.contains(x) by {
            let j = m.keys().index_of(x);
            m.lemma_wf_unique();
        }
        m.lemma_dom_len();
    }
    let mut t: usize = 0;
    while t < gone.len()
        invariant
            m.wf(),
            gv == crate::text::string_views(gone@),
            gv.no_duplicates(),
            t <= gone@.len(),
            forall|x: Seq<char>| #[trigger] gv.contains(x) ==> dead.contains(x),
            dead == Set::new(|k: Seq<char>| old(m)@.dom().contains(k) && entry_expired(old(m)@[k], now as int)),
            m@ == old(m)@.remove_keys(gv.take(t as int).to_set()),
            m.keys().len() + t == old(m).keys().len(),
        decreases gone@.len() - t,
    {
        proof {
            m.lemma_dom_len();
            assert(gv[t as int] == gone@[t as int]@);
            assert(gv.contains(gv[t as int]));
            assert(dead.contains(gv[t as int]));
            assert(!gv.take(t as int).contains(gv[t as int])) by {
                if gv.take(t as int).contains(gv[t as int]) {
                    let a = gv.take(t as int).index_of(gv[t as int]);
                    assert(gv[a] == gv[t as int]);
                }
            }
            assert(!gv.take(t as int).to_set().contains(gv[t as int]));
            assert(m@.dom().contains(gv[t as int]));
        }
        let ghost before = m@;
        let _ = m.remove(gone[t].as_str());
        proof {
            m.lemma_dom_len();
            assert(gv.take(t + 1).to_set() =~= gv.take(t as int).to_set().insert(gv[t as int])) by {
                assert(gv.take(t + 1) =~= gv.take(t as int).push(gv[t as int]));
                assert forall|x: Seq<char>| gv.take(t + 1).to_set().contains(x) <==> gv.take(t as int).to_set().insert(gv[t as int]).contains(x) by {
                    if gv.take(t + 1).contains(x) {
                        let a = gv.take(t + 1).index_of(x);
                        if a < t {
                            assert(gv.take(t as int)[a] == x);
                        }
                    }
                    if gv.take(t as int).contains(x) {
                        let a = gv.take(t as int).index_of(x);
                        assert(gv.take(t + 1)[a] == x);
                    }
                    if x == gv[t as int] {
                        assert(gv.take(t + 1)[t as int] == x);
                    }
                }
            }
            assert(m@ =~= old(m)@.remove_keys(gv.take(t + 1).to_set()));
            assert(before.dom().len() == m@.dom().len() + 1) by {
                assert(m@.dom() =~= before.dom().remove(gv[t as int]));
            }
        }
        t += 1;
    }
    proof {
        assert(gv.take(t as int) =~= gv);
        assert(m@ =~= live_entries(old(m)@, now as int)) by {
            assert forall|x: Seq<char>| #![auto] gv.to_set().contains(x) <==> dead.contains(x) by {}
        }
    }
    t
}

impl MemoryRuntime {
    /// Every stored duration TTL can be computed in 64 bits.
    pub open spec fn durations_fit(&self) -> bool {
        forall|s: MemoryScope, n: Seq<char>, k: Seq<char>| #[trigger] self.store(s, n).dom().contains(k)
            ==> entry_duration_fits(self.store(s, n)[k])
    }

    /// Number of entries over all stores.
    pub closed spec fn size(&self) -> nat {
        self.session_store.keys().len() + self.project_store.entries.keys().len()
            + self.global_store.entries.keys().len() + node_total(self.node_store.values())
    }

    /// Every store of `self` holds the entries of the same store of
    /// `before` that have not expired at `now`.
    pub open spec fn is_expiry_of(&self, before: MemoryRuntime, now: int) -> bool {
        forall|s: MemoryScope, n: Seq<char>| #[trigger] self.store(s, n) == live_entries(before.store(s, n), now)
    }

    /// The persisted file after an expiry pass: its header is kept, and its
    /// `updated_at` becomes `stamp` when it lost an entry.
    pub open spec fn file_after_expiry(before: MemFile, after: MemFile, stamp: Seq<char>) -> bool {
        &&& after.format_version == before.format_version
        &&& after.package == before.package
        &&& after.updated_at@ == if after.entries.keys().len() < before.entries.keys().len() {
            stamp
        } else {
            before.updated_at@
        }
    }

    /// Removes every entry that has expired at instant `now` (nanoseconds
    /// since the epoch) from every store; returns how many were removed.
    /// A persisted store that lost entries gets `stamp` as its `updated_at`.
    pub fn expire_at(&mut self, now: i128, stamp: &str) -> (r: usize)
        requires
            old(self).wf(),
            old(self).durations_fit(),
            old(self).size() <= usize::MAX,
        ensures
            final(self).wf(),
            final(self).config() == old(self).config(),
            final(self).is_expiry_of(*old(self), now as int),
            r + final(self).size() == old(self).size(),
            Self::file_after_expiry(old(self).spec_project_store(), final(self).spec_project_store(), stamp@),
            Self::file_after_expiry(old(self).spec_global_store(), final(self).spec_global_store(), stamp@),
    {
        let mut removed: usize = 0;
        // node stores
        let nn = self.node_store.len();
        let ghost old_vals = self.node_store.values();
        proof {
            self.node_store.lemma_wf_unique();
        }
        let mut i: usize = 0;
        while i < nn
            invariant
                self.wf(),
                nn == self.node_store.keys().len(),
                i <= nn,
                self.node_store.keys() == old(self).node_store.keys(),
                self.node_store.values().len() == nn,
                old_vals == old(self).node_store.values(),
                old_vals.len() == nn,
                forall|j: int| i <= j < nn ==> #[trigger] self.node_store.values()[j] == old_vals[j],
                forall|j: int| 0 <= j < i ==> #[trigger] self.node_store.values()[j]@ == live_entries(old_vals[j]@, now as int),
                removed + node_total(self.node_store.values()) == node_total(old_vals),
                node_total(old_vals) <= usize::MAX,
                self.session_store == old(self).session_store,
                self.project_store == old(self).project_store,
                self.global_store == old(self).global_store,
                self.config() == old(self).config(),
                old(self).durations_fit(),
                old(self).wf(),
            decreases nn - i,
        {
            proof {
                self.node_store.lemma_index_of(i as int);
                old(self).node_store.lemma_index_of(i as int);
                let k = self.node_store.keys()[i as int];
                assert forall|x: Seq<char>| #[trigger] old_vals[i as int]@.dom().contains(x) implies entry_duration_fits(old_vals[i as int]@[x]) by {
                    assert(old(self).store(MemoryScope::Node, k).dom().contains(x));
                }
            }
            let ghost cur = self.node_store.values();
            let mut live = self.node_store.replace_at(i, KeyedMap::new());
            let c = remove_expired(&mut live, now);
            self.node_store.set_at(i, live);
            proof {
                assert(self.node_store.values() =~= cur.update(i as int, live));
                lemma_node_total_update(cur, i as int, live);
                assert forall|k: Seq<char>| #[trigger] self.node_store@.dom().contains(k) implies self.node_store@[k].wf() by {
                    let j = self.node_store.keys().index_of(k);
                    self.node_store.lemma_index_of(j);
                    old(self).node_store.lemma_index_of(j);
                }
            }
            removed = removed + c;
            i += 1;
        }
        proof {
            assert forall|s: MemoryScope, n: Seq<char>| s == MemoryScope::Node implies #[trigger] self.store(s, n) == live_entries(old(self).store(s, n), now as int) by {
                if self.node_store@.dom().contains(n) {
                    let j = self.node_store.keys().index_of(n);
                    self.node_store.lemma_index_of(j);
                    old(self).node_store.lemma_index_of(j);
                } else {
                    assert(live_entries(Map::empty(), now as int) =~= Map::empty());
                }
            }
        }
        let ghost mid = *self;
        proof {
            assert forall|k: Seq<char>| #[trigger] self.session_store@.dom().contains(k) implies entry_duration_fits(self.session_store@[k]) by {
                assert(old(self).store(MemoryScope::Session, k).dom().contains(k));
            }
        }
        let c1 = remove_expired(&mut self.session_store, now);
        removed = removed + c1;
        proof {
            assert forall|k: Seq<char>| #[trigger] self.project_store.entries@.dom().contains(k) implies entry_duration_fits(self.project_store.entries@[k]) by {
                assert(old(self).store(MemoryScope::Project, k).dom().contains(k));
            }
        }
        let c2 = remove_expired(&mut self.project_store.entries, now);
        if c2 > 0 {
            self.project_store.updated_at = owned(stamp);
        }
        removed = removed + c2;
        proof {
            assert forall|k: Seq<char>| #[trigger] self.global_store.entries@.dom().contains(k) implies entry_duration_fits(self.global_store.entries@[k]) by {
                assert(old(self).store(MemoryScope::Global, k).dom().contains(k));
            }
        }
        let c3 = remove_expired(&mut self.global_store.entries, now);
        if c3 > 0 {
            self.global_store.updated_at = owned(stamp);
        }
        removed = removed + c3;
        proof {
            assert forall|s: MemoryScope, n: Seq<char>| #[trigger] self.store(s, n) == live_entries(old(self).store(s, n), now as int) by {
                if s == MemoryScope::Node {
                    assert(self.store(s, n) == mid.store(s, n));
                }
            }
        }
        removed
    }

    /// Removes every entry whose duration TTL has expired at the current
    /// time; returns how many were removed.
    pub fn expire(&mut self) -> (r: usize)
        requires
            old(self).wf(),
            old(self).durations_fit(),
            old(self).size() <= usize::MAX,
        ensures
            final(self).wf(),
            final(self).config() == old(self).config(),
            exists|t: int| #[trigger] final(self).is_expiry_of(*old(self), t),
            r + final(self).size() == old(self).size(),
    {
        let now = now_unix_nanos();
        let stamp = now_iso8601();
        self.expire_at(now, stamp.as_str())
    }

    /// Garbage collection: expires duration-TTL entries. Orphan detection
    /// is not done, so `orphan_removed` is always 0.
    pub fn gc(&mut self) -> (r: GcReport)
        requires
            old(self).wf(),
            old(self).durations_fit(),
            old(self).size() <= usize::MAX,
        ensures
            final(self).wf(),
            final(self).config() == old(self).config(),
            exists|t: int| #[trigger] final(self).is_expiry_of(*old(self), t),
            r.expired_removed + final(self).size() == old(self).size(),
            r.orphan_removed == 0,
    {
        let expired_removed = self.expire();
        GcReport { expired_removed, orphan_removed: 0 }
    }
}

} // verus!
