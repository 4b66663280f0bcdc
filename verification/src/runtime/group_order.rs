//! The order in which orchestration groups run: every group after the groups
//! it requires, found with Kahn's algorithm (ties broken by group name).

use vstd::prelude::*;

use crate::keyed::{lemma_lex_irrefl, lemma_lex_trans, lex_lt, str_eq, KeyedMap};
use crate::runtime::scheduler::{first_unmet, group_index, group_reqs, ParallelGroup};
use crate::text::{owned, push_str, string_views};

verus! {

/// Error of ordering orchestration groups.
#[derive(Debug)]
pub enum GroupOrderError {
    /// A group requires a group that does not exist.
    UnknownGroup {
        /// The requiring group.
        group: String,
        /// The required name.
        required: String,
    },
    /// The requirements cannot be ordered: they form a cycle, or two
    /// groups share a name.
    Cycle,
}

impl GroupOrderError {
    /// The message that describes the error.
    pub open spec fn spec_message(&self) -> Seq<char> {
        match self {
            GroupOrderError::UnknownGroup { group, required } => "Group '"@ + group@ + "' requires unknown group '"@
                + required@ + "'"@,
            GroupOrderError::Cycle => "Cycle detected in group requires dependencies"@,
        }
    }

    /// The message that describes the error.
    pub fn message(&self) -> (r: String)
        ensures
            r@ == self.spec_message(),
    {
        match self {
            GroupOrderError::UnknownGroup { group, required } => {
                let mut m = owned("Group '");
                push_str(&mut m, group.as_str());
                push_str(&mut m, "' requires unknown group '");
                push_str(&mut m, required.as_str());
                push_str(&mut m, "'");
                m
            },
            GroupOrderError::Cycle => owned("Cycle detected in group requires dependencies"),
        }
    }
}

/// The names of the groups, in order.
pub open spec fn group_names(gs: Seq<ParallelGroup>) -> Seq<Seq<char>> {
    gs.map_values(|g: ParallelGroup| g.group@)
}

/// Requirement `j` of group `i` names no group.
pub open spec fn unknown_requirement(gs: Seq<ParallelGroup>, i: int, j: int) -> bool {
    &&& 0 <= i < gs.len()
    &&& 0 <= j < group_reqs(gs[i]).len()
    &&& !group_names(gs).contains(group_reqs(gs[i])[j])
}

/// Requirement `j` of group `i` is the first unknown one, groups taken in
/// order and the requirements of each in order.
pub open spec fn first_unknown_requirement(gs: Seq<ParallelGroup>, i: int, j: int) -> bool {
    &&& unknown_requirement(gs, i, j)
    &&& forall|a: int, b: int| #[trigger] unknown_requirement(gs, a, b) ==> (i < a || (i == a && j <= b))
}

/// Every requirement names a group.
pub open spec fn requirements_known(gs: Seq<ParallelGroup>) -> bool {
    forall|a: int, b: int| !#[trigger] unknown_requirement(gs, a, b)
}

/// `o` lists every group name once, and each group after the groups it
/// requires.
pub open spec fn valid_group_order(gs: Seq<ParallelGroup>, o: Seq<Seq<char>>) -> bool {
    &&& o.no_duplicates()
    &&& forall|k: int| 0 <= k < o.len() ==> group_names(gs).contains(#[trigger] o[k])
    &&& forall|i: int| 0 <= i < gs.len() ==> o.contains(#[trigger] gs[i].group@)
    &&& forall|i: int, j: int|
        0 <= i < gs.len() && 0 <= j < group_reqs(gs[i]).len() ==> {
            &&& o.contains(#[trigger] group_reqs(gs[i])[j])
            &&& o.index_of(group_reqs(gs[i])[j]) < o.index_of(gs[i].group@)
        }
}

/// Rows of requirement positions.
pub open spec fn rows(v: Seq<Vec<usize>>) -> Seq<Seq<usize>> {
    v.map_values(|r: Vec<usize>| r@)
}

/// `reqs[a][b]` is the position of the group that requirement `b` of group
/// `a` names.
pub open spec fn resolved_reqs(gs: Seq<ParallelGroup>, reqs: Seq<Seq<usize>>) -> bool {
    &&& reqs.len() == gs.len()
    &&& forall|a: int|
        0 <= a < gs.len() ==> #[trigger] reqs[a].len() == group_reqs(gs[a]).len()
    &&& forall|a: int, b: int|
        0 <= a < gs.len() && 0 <= b < reqs[a].len() ==> {
            &&& #[trigger] reqs[a][b] < gs.len()
            &&& gs[reqs[a][b] as int].group@ == group_reqs(gs[a])[b]
        }
}

/// Number of set flags.
pub open spec fn count_true(s: Seq<bool>) -> nat
    decreases s.len(),
{
    if s.len() == 0 {
        0
    } else {
        count_true(s.drop_last()) + if s.last() {
            1nat
        } else {
            0
        }
    }
}

proof fn lemma_count_true_bound(s: Seq<bool>)
    ensures
        count_true(s) <= s.len(),
    decreases s.len(),
{
    if s.len() > 0 {
        lemma_count_true_bound(s.drop_last());
    }
}

proof fn lemma_count_true_set(s: Seq<bool>, i: int)
    requires
        0 <= i < s.len(),
        !s[i],
    ensures
        count_true(s.update(i, true)) == count_true(s) + 1,
    decreases s.len(),
{
    if i < s.len() - 1 {
        assert(s.update(i, true).drop_last() =~= s.drop_last().update(i, true));
        lemma_count_true_set(s.drop_last(), i);
    } else {
        assert(s.update(i, true).drop_last() =~= s.drop_last());
    }
}

/// State of Kahn's algorithm: `queue` holds the groups taken so far, the
/// first `head` of them output; `queued` and `done` flag the queued and the
/// output groups; every queued group's requirements were output before it.
pub open spec fn kahn_inv(
    reqs: Seq<Seq<usize>>,
    n: int,
    queue: Seq<usize>,
    queued: Seq<bool>,
    done: Seq<bool>,
    head: int,
) -> bool {
    &&& reqs.len() == n && queued.len() == n && done.len() == n
    &&& forall|a: int, b: int| 0 <= a < n && 0 <= b < reqs[a].len() ==> #[trigger] reqs[a][b] < n
    &&& queue.no_duplicates()
    &&& forall|k: int| 0 <= k < queue.len() ==> #[trigger] queue[k] < n
    &&& 0 <= head <= queue.len()
    &&& forall|x: int| 0 <= x < n ==> (#[trigger] queued[x] <==> queue.contains(x as usize))
    &&& forall|x: int| 0 <= x < n ==> (#[trigger] done[x] <==> queue.take(head).contains(x as usize))
    &&& reqs_before(reqs, queue, head)
    &&& queue.len() == count_true(queued)
}

/// Every queued group's requirements come before it in the queue and are
/// output.
pub open spec fn reqs_before(reqs: Seq<Seq<usize>>, queue: Seq<usize>, head: int) -> bool {
    forall|k: int, b: int|
        0 <= k < queue.len() && 0 <= b < reqs[queue[k] as int].len() ==> {
            &&& queue.take(k).contains(#[trigger] reqs[queue[k] as int][b])
            &&& queue.take(head).contains(reqs[queue[k] as int][b])
        }
}

proof fn lemma_push_keeps_order(reqs: Seq<Seq<usize>>, q: Seq<usize>, v: usize, head: int)
    requires
        reqs_before(reqs, q, head),
        0 <= head <= q.len(),
        forall|b: int| 0 <= b < reqs[v as int].len() ==> q.take(head).contains(#[trigger] reqs[v as int][b]),
    ensures
        reqs_before(reqs, q.push(v), head),
{
    let q1 = q.push(v);
    assert(q1.take(head) =~= q.take(head));
    assert forall|k: int, b: int| 0 <= k < q1.len() && 0 <= b < reqs[q1[k] as int].len() implies {
        &&& q1.take(k).contains(#[trigger] reqs[q1[k] as int][b])
        &&& q1.take(head).contains(reqs[q1[k] as int][b])
    } by {
        let r = reqs[q1[k] as int][b];
        if k < q.len() {
            assert(q1[k] == q[k]);
            assert(q.take(k).contains(r));
            assert(q1.take(k) =~= q.take(k));
        } else {
            assert(q1[k] == v);
            assert(q.take(head).contains(r));
            let m = choose|m: int| 0 <= m < q.take(head).len() && q.take(head)[m] == r;
            assert(q1.take(k)[m] == r);
        }
    }
}

/// Every group not queued has a requirement not output yet.
pub open spec fn kahn_closed(reqs: Seq<Seq<usize>>, n: int, queued: Seq<bool>, done: Seq<bool>) -> bool {
    forall|x: int|
        0 <= x < n && !#[trigger] queued[x] ==> exists|b: int|
            0 <= b < reqs[x].len() && !#[trigger] done[reqs[x][b] as int]
}

/// Position in `o` of the last of `reqs`, or -1 when `reqs` is empty.
pub open spec fn last_placed(o: Seq<Seq<char>>, reqs: Seq<Seq<char>>) -> int
    decreases reqs.len(),
{
    if reqs.len() == 0 {
        -1
    } else {
        let p = last_placed(o, reqs.drop_last());
        let x = o.index_of(reqs.last());
        if p < x {
            x
        } else {
            p
        }
    }
}

/// Position in `o` at which the group named `name` became free to run:
/// that of the last group it requires, or -1 when it requires none.
pub open spec fn freed_at(gs: Seq<ParallelGroup>, o: Seq<Seq<char>>, name: Seq<char>) -> int {
    match group_index(gs, name) {
        Some(i) => last_placed(o, group_reqs(gs[i])),
        None => -1,
    }
}

/// `o` takes the groups in the order in which they became free to run, and
/// groups freed at the same point in name order.
pub open spec fn freed_order(gs: Seq<ParallelGroup>, o: Seq<Seq<char>>) -> bool {
    forall|a: int, b: int|
        #![trigger o[a], o[b]]
        0 <= a < b < o.len() ==> freed_at(gs, o, o[a]) < freed_at(gs, o, o[b]) || (freed_at(gs, o, o[a])
            == freed_at(gs, o, o[b]) && lex_lt(o[a], o[b]))
}

/// Position in `q` of the last of `row`, or -1 when `row` is empty.
pub open spec fn last_q(q: Seq<usize>, row: Seq<usize>) -> int
    decreases row.len(),
{
    if row.len() == 0 {
        -1
    } else {
        let p = last_q(q, row.drop_last());
        let x = q.index_of(row.last());
        if p < x {
            x
        } else {
            p
        }
    }
}

/// The point at which the group at queue position `k` became free.
pub open spec fn batch_of(reqs: Seq<Seq<usize>>, q: Seq<usize>, k: int) -> int {
    last_q(q, reqs[q[k] as int])
}

/// The queue holds groups by the point at which they became free, and
/// groups freed at one point in name order.
pub open spec fn tie_inv(reqs: Seq<Seq<usize>>, nv: Seq<Seq<char>>, q: Seq<usize>) -> bool {
    forall|a: int, b: int|
        #![trigger q[a], q[b]]
        0 <= a < b < q.len() ==> batch_of(reqs, q, a) < batch_of(reqs, q, b) || (batch_of(reqs, q, a)
            == batch_of(reqs, q, b) && lex_lt(nv[q[a] as int], nv[q[b] as int]))
}

proof fn lemma_index_of_unique<T>(s: Seq<T>, i: int)
    requires
        s.no_duplicates(),
        0 <= i < s.len(),
    ensures
        s.index_of(s[i]) == i,
{
    assert(s.contains(s[i]));
}

/// Positions of elements of a prefix do not move when the queue grows.
proof fn lemma_last_q_stable(q: Seq<usize>, q2: Seq<usize>, row: Seq<usize>)
    requires
        q.no_duplicates(),
        q2.no_duplicates(),
        q.len() <= q2.len(),
        q2.take(q.len() as int) == q,
        forall|j: int| 0 <= j < row.len() ==> q.contains(#[trigger] row[j]),
    ensures
        last_q(q2, row) == last_q(q, row),
    decreases row.len(),
{
    if row.len() > 0 {
        lemma_last_q_stable(q, q2, row.drop_last());
        let r = row.last();
        assert(q.contains(row[row.len() - 1]));
        let p = q.index_of(r);
        assert(q2.take(q.len() as int)[p] == q[p]);
        lemma_index_of_unique(q, p);
        lemma_index_of_unique(q2, p);
    }
}

/// When all of `row` is in the first `h` entries, its last one is before `h`.
proof fn lemma_last_q_below(q: Seq<usize>, row: Seq<usize>, h: int)
    requires
        q.no_duplicates(),
        0 <= h <= q.len(),
        forall|j: int| 0 <= j < row.len() ==> q.take(h).contains(#[trigger] row[j]),
    ensures
        last_q(q, row) < h,
    decreases row.len(),
{
    if row.len() > 0 {
        lemma_last_q_below(q, row.drop_last(), h);
        assert(q.take(h).contains(row[row.len() - 1]));
        let m = choose|m: int| 0 <= m < q.take(h).len() && q.take(h)[m] == row.last();
        assert(q[m] == row.last());
        lemma_index_of_unique(q, m);
    }
}

/// The last of `row` is no earlier than any of `row`.
proof fn lemma_last_q_at_least(q: Seq<usize>, row: Seq<usize>, j: int)
    requires
        0 <= j < row.len(),
    ensures
        last_q(q, row) >= q.index_of(row[j]),
    decreases row.len(),
{
    if j < row.len() - 1 {
        lemma_last_q_at_least(q, row.drop_last(), j);
    }
}

/// A group whose requirements are all among the first `h` entries, one of
/// them not among the first `h - 1`, became free at `h - 1` (at -1 when
/// `h` is 0).
proof fn lemma_freed_at_head(q: Seq<usize>, row: Seq<usize>, h: int)
    requires
        q.no_duplicates(),
        0 <= h <= q.len(),
        forall|j: int| 0 <= j < row.len() ==> q.take(h).contains(#[trigger] row[j]),
        h > 0 ==> exists|b: int| 0 <= b < row.len() && !q.take(h - 1).contains(#[trigger] row[b]),
    ensures
        last_q(q, row) == h - 1,
{
    lemma_last_q_below(q, row, h);
    if h > 0 {
        let b = choose|b: int| 0 <= b < row.len() && !q.take(h - 1).contains(#[trigger] row[b]);
        assert(q.take(h).contains(row[b]));
        let m = choose|m: int| 0 <= m < q.take(h).len() && q.take(h)[m] == row[b];
        assert(q[m] == row[b]);
        if m < h - 1 {
            assert(q.take(h - 1)[m] == row[b]);
        }
        lemma_index_of_unique(q, m);
        lemma_last_q_at_least(q, row, b);
    } else {
        if row.len() > 0 {
            assert(q.take(0).contains(row[0]));
        }
    }
}

/// Queuing a group freed at `h - 1`, after the groups freed before it and
/// those freed at `h - 1` with smaller names, keeps the queue's order.
proof fn lemma_push_tie(rs: Seq<Seq<usize>>, nv: Seq<Seq<char>>, qb: Seq<usize>, v: usize, h: int, q0len: int)
    requires
        qb.no_duplicates(),
        qb.push(v).no_duplicates(),
        forall|k: int, j: int|
            0 <= k < qb.len() && 0 <= j < rs[qb[k] as int].len() ==> qb.contains(#[trigger] rs[qb[k] as int][j]),
        tie_inv(rs, nv, qb),
        0 <= q0len <= qb.len(),
        forall|k: int| 0 <= k < q0len ==> batch_of(rs, qb, k) < h - 1,
        forall|k: int| q0len <= k < qb.len() ==> batch_of(rs, qb, k) == h - 1 && lex_lt(nv[qb[k] as int], nv[v as int]),
        last_q(qb.push(v), rs[v as int]) == h - 1,
    ensures
        tie_inv(rs, nv, qb.push(v)),
        forall|k: int| 0 <= k < q0len ==> batch_of(rs, qb.push(v), k) < h - 1,
        forall|k: int| q0len <= k < qb.push(v).len() ==> batch_of(rs, qb.push(v), k) == h - 1,
{
    let q1 = qb.push(v);
    assert(q1.take(qb.len() as int) =~= qb);
    assert forall|k: int| 0 <= k < qb.len() implies batch_of(rs, q1, k) == batch_of(rs, qb, k) by {
        assert(q1[k] == qb[k]);
        assert forall|j: int| 0 <= j < rs[qb[k] as int].len() implies qb.contains(#[trigger] rs[qb[k] as int][j]) by {}
        lemma_last_q_stable(qb, q1, rs[qb[k] as int]);
    }
    assert(batch_of(rs, q1, qb.len() as int) == h - 1) by {
        assert(q1[qb.len() as int] == v);
    }
    assert forall|a: int, b: int| #![trigger q1[a], q1[b]] 0 <= a < b < q1.len() implies batch_of(rs, q1, a) < batch_of(
        rs,
        q1,
        b,
    ) || (batch_of(rs, q1, a) == batch_of(rs, q1, b) && lex_lt(nv[q1[a] as int], nv[q1[b] as int])) by {
        assert(q1[a] == qb[a]);
        if b < qb.len() {
            assert(q1[b] == qb[b]);
            assert(batch_of(rs, qb, a) < batch_of(rs, qb, b) || (batch_of(rs, qb, a) == batch_of(rs, qb, b) && lex_lt(
                nv[qb[a] as int],
                nv[qb[b] as int],
            )));
        } else {
            assert(q1[b] == v);
        }
    }
}

/// `last_placed` over names agrees with `last_q` over positions.
proof fn lemma_last_placed_q(
    o: Seq<Seq<char>>,
    q: Seq<usize>,
    nv: Seq<Seq<char>>,
    names: Seq<Seq<char>>,
    row: Seq<usize>,
)
    requires
        o.len() == q.len(),
        forall|k: int| 0 <= k < q.len() ==> (#[trigger] q[k] as int) < nv.len() && o[k] == nv[q[k] as int],
        o.no_duplicates(),
        names.len() == row.len(),
        forall|j: int| 0 <= j < row.len() ==> q.contains(#[trigger] row[j]) && names[j] == nv[row[j] as int],
    ensures
        last_placed(o, names) == last_q(q, row),
    decreases row.len(),
{
    if row.len() > 0 {
        lemma_last_placed_q(o, q, nv, names.drop_last(), row.drop_last());
        let r = row.last();
        assert(q.contains(row[row.len() - 1]));
        let p = q.index_of(r);
        assert(o[p] == nv[r as int]);
        assert(names.last() == nv[r as int]);
        lemma_index_of_unique(o, p);
    }
}

/// Position of `s` in `v`, if present.
fn position_of(v: &Vec<String>, s: &str) -> (r: Option<usize>)
    ensures
        match r {
            Some(p) => p < v@.len() && v@[p as int]@ == s@,
            None => !string_views(v@).contains(s@),
        },
{
    let mut i: usize = 0;
    while i < v.len()
        invariant
            i <= v@.len(),
            forall|j: int| 0 <= j < i ==> v@[j]@ != s@,
        decreases v@.len() - i,
    {
        if str_eq(v[i].as_str(), s) {
            return Some(i);
        }
        i += 1;
    }
    proof {
        if string_views(v@).contains(s@) {
            let j = choose|j: int| 0 <= j < string_views(v@).len() && string_views(v@)[j] == s@;
            assert(v@[j]@ == s@);
        }
    }
    None
}

/// Whether every position in `row` is flagged in `done`.
fn all_done(row: &Vec<usize>, done: &Vec<bool>) -> (r: bool)
    requires
        forall|b: int| 0 <= b < row@.len() ==> #[trigger] row@[b] < done@.len(),
    ensures
        r == forall|b: int| 0 <= b < row@.len() ==> #[trigger] done@[row@[b] as int],
{
    let mut b: usize = 0;
    while b < row.len()
        invariant
            b <= row@.len(),
            forall|c: int| 0 <= c < row@.len() ==> #[trigger] row@[c] < done@.len(),
            forall|c: int| 0 <= c < b ==> #[trigger] done@[row@[c] as int],
        decreases row@.len() - b,
    {
        if !done[row[b]] {
            return false;
        }
        b += 1;
    }
    true
}

/// Queues, in name order, every group that is not queued and whose
/// requirements are all output.
fn queue_ready(
    names: &Vec<String>,
    reqidx: &Vec<Vec<usize>>,
    queue: &mut Vec<usize>,
    queued: &mut Vec<bool>,
    done: &Vec<bool>,
    head: usize,
)
    requires
        string_views(names@).no_duplicates(),
        kahn_inv(rows(reqidx@), names@.len() as int, old(queue)@, old(queued)@, done@, head as int),
        tie_inv(rows(reqidx@), string_views(names@), old(queue)@),
        forall|k: int| 0 <= k < old(queue)@.len() ==> batch_of(rows(reqidx@), old(queue)@, k) < head - 1,
        forall|x: int|
            0 <= x < names@.len() && !#[trigger] old(queued)@[x] ==> head == 0 || exists|b: int|
                0 <= b < rows(reqidx@)[x].len() && !old(queue)@.take(head - 1).contains(
                    #[trigger] rows(reqidx@)[x][b],
                ),
    ensures
        kahn_inv(rows(reqidx@), names@.len() as int, final(queue)@, final(queued)@, done@, head as int),
        kahn_closed(rows(reqidx@), names@.len() as int, final(queued)@, done@),
        final(queue)@.len() >= old(queue)@.len(),
        final(queue)@.take(old(queue)@.len() as int) == old(queue)@,
        tie_inv(rows(reqidx@), string_views(names@), final(queue)@),
        forall|k: int| 0 <= k < final(queue)@.len() ==> batch_of(rows(reqidx@), final(queue)@, k) < head,
{
    let n = names.len();
    let ghost rs = rows(reqidx@);
    let ghost nv = string_views(names@);
    let ghost q0 = queue@;
    let ghost f0 = queued@;
    let mut batch: KeyedMap<usize> = KeyedMap::new();
    let mut i: usize = 0;
    while i < n
        invariant
            n == names@.len(),
            rs == rows(reqidx@),
            nv == string_views(names@),
            nv.no_duplicates(),
            queue@ == q0,
            queued@ == f0,
            kahn_inv(rs, n as int, q0, f0, done@, head as int),
            i <= n,
            batch.wf(),
            forall|key: Seq<char>| #[trigger] batch@.dom().contains(key) ==> {
                let v = batch@[key] as int;
                &&& 0 <= v < n
                &&& nv[v] == key
                &&& !f0[v]
                &&& forall|b: int| 0 <= b < rs[v].len() ==> #[trigger] done@[rs[v][b] as int]
            },
            forall|x: int|
                0 <= x < i && !f0[x] && (forall|b: int| 0 <= b < rs[x].len() ==> #[trigger] done@[rs[x][b] as int])
                    ==> #[trigger] batch@.dom().contains(nv[x]),
        decreases n - i,
    {
        assert(reqidx@[i as int]@ == rs[i as int]);
        if !queued[i] && all_done(&reqidx[i], done) {
            batch.insert(names[i].clone(), i);
        }
        i += 1;
    }
    proof {
        batch.lemma_wf_unique();
    }
    let ghost keys = batch.keys();
    let ghost vals = batch.values();
    // values of distinct keys are distinct groups
    assert forall|s: int, t: int| 0 <= s < keys.len() && 0 <= t < keys.len() && s != t implies vals[s] != vals[t] by {
        batch.lemma_index_of(s);
        batch.lemma_index_of(t);
        assert(batch@.dom().contains(keys[s]));
        assert(batch@.dom().contains(keys[t]));
    }
    assert forall|s: int| 0 <= s < keys.len() implies (#[trigger] vals[s] as int) < n && !f0[vals[s] as int] && nv[vals[s] as int]
        == keys[s] && (forall|b: int| 0 <= b < rs[vals[s] as int].len() ==> #[trigger] done@[rs[vals[s] as int][b] as int]) by {
        batch.lemma_index_of(s);
        assert(batch@.dom().contains(keys[s]));
    }
    let m = batch.len();
    let mut t: usize = 0;
    while t < m
        invariant
            tie_inv(rs, nv, queue@),
            forall|k: int| 0 <= k < q0.len() ==> batch_of(rs, queue@, k) < head - 1,
            forall|k: int| q0.len() <= k < queue@.len() ==> batch_of(rs, queue@, k) == head - 1,
            forall|s: int, u: int| 0 <= s < u < m ==> lex_lt(#[trigger] keys[s], #[trigger] keys[u]),
            forall|x: int|
                0 <= x < n && !#[trigger] f0[x] ==> head == 0 || exists|b: int|
                    0 <= b < rs[x].len() && !q0.take(head - 1).contains(#[trigger] rs[x][b]),
            head <= q0.len(),
            n == names@.len(),
            rs == rows(reqidx@),
            nv == string_views(names@),
            batch.wf(),
            m == keys.len(),
            keys == batch.keys(),
            vals == batch.values(),
            keys.len() == vals.len(),
            t <= m,
            queue@ == q0 + vals.take(t as int),
            kahn_inv(rs, n as int, queue@, queued@, done@, head as int),
            forall|x: int| 0 <= x < n && f0[x] ==> #[trigger] queued@[x],
            forall|s: int| 0 <= s < t ==> #[trigger] queued@[vals[s] as int],
            f0.len() == n,
            forall|s: int| 0 <= s < m ==> (#[trigger] vals[s] as int) < n,
            forall|s: int| 0 <= s < m ==> !f0[#[trigger] vals[s] as int],
            forall|s: int| 0 <= s < m ==> nv[#[trigger] vals[s] as int] == keys[s],
            forall|s: int, b: int|
                0 <= s < m && 0 <= b < rs[#[trigger] vals[s] as int].len() ==> #[trigger] done@[rs[vals[s] as int][b] as int],
            forall|s: int, u: int| 0 <= s < keys.len() && 0 <= u < keys.len() && s != u ==> vals[s] != vals[u],
            forall|x: int| 0 <= x < n && !f0[x] && #[trigger] queued@[x] ==> exists|s: int| 0 <= s < t && vals[s] == x,
        decreases m - t,
    {
        proof {
            batch.lemma_index_of(t as int);
        }
        let v = *batch.value_at(t);
        let ghost qb = queue@;
        let ghost fb = queued@;
        proof {
            // v is not queued yet
            if fb[v as int] {
                let s = choose|s: int| 0 <= s < t && vals[s] == v as int;
                assert(vals[s] != vals[t as int]);
            }
            assert(!qb.contains(v)) by {
                if qb.contains(v) {
                    assert(fb[v as int]);
                }
            }
            lemma_count_true_set(fb, v as int);
        }
        queue.push(v);
        queued.set(v, true);
        proof {
            let q1 = queue@;
            assert(q1 == qb.push(v));
            assert(queued@ == fb.update(v as int, true));
            assert(q1.no_duplicates());
            assert(q1.len() == count_true(queued@));
            assert forall|x: int| 0 <= x < n && f0[x] implies #[trigger] queued@[x] by {
                assert(fb[x]);
            }
            assert forall|s: int| 0 <= s < t + 1 implies #[trigger] queued@[vals[s] as int] by {
                if s < t {
                    assert(fb[vals[s] as int]);
                }
            }
            assert(q1 == q0 + vals.take(t + 1)) by {
                assert(vals.take(t + 1) =~= vals.take(t as int).push(v));
            }
            assert forall|x: int| 0 <= x < n implies (#[trigger] queued@[x] <==> q1.contains(x as usize)) by {
                if x == v as int {
                    assert(q1[qb.len() as int] == v);
                } else {
                    if q1.contains(x as usize) {
                        let j = choose|j: int| 0 <= j < q1.len() && q1[j] == x as usize;
                        assert(j < qb.len());
                        assert(qb[j] == x as usize);
                    }
                    if qb.contains(x as usize) {
                        let j = choose|j: int| 0 <= j < qb.len() && qb[j] == x as usize;
                        assert(q1[j] == x as usize);
                    }
                }
            }
            assert(q1.take(head as int) =~= qb.take(head as int));
            assert forall|b: int| 0 <= b < rs[v as int].len() implies qb.take(head as int).contains(
                #[trigger] rs[v as int][b],
            ) by {
                assert(done@[rs[v as int][b] as int]);
            }
            lemma_push_keeps_order(rs, qb, v, head as int);
            assert forall|j: int| 0 <= j < rs[v as int].len() implies q1.take(head as int).contains(#[trigger] rs[v as int][j]) by {
                assert(done@[rs[v as int][j] as int]);
            }
            if head > 0 {
                assert(q1.take(head - 1) =~= q0.take(head - 1));
            }
            lemma_freed_at_head(q1, rs[v as int], head as int);
            assert forall|k: int, j: int| 0 <= k < qb.len() && 0 <= j < rs[qb[k] as int].len() implies qb.contains(
                #[trigger] rs[qb[k] as int][j],
            ) by {
                let r = rs[qb[k] as int][j];
                assert(qb.take(k).contains(r));
                let w = choose|w: int| 0 <= w < qb.take(k).len() && qb.take(k)[w] == r;
                assert(qb[w] == r);
            }
            assert forall|k: int| q0.len() <= k < qb.len() implies batch_of(rs, qb, k) == head - 1 && lex_lt(
                nv[qb[k] as int],
                nv[v as int],
            ) by {
                let s = k - q0.len();
                assert(qb[k] == vals[s]);
                assert(lex_lt(keys[s], keys[t as int]));
            }
            lemma_push_tie(rs, nv, qb, v, head as int, q0.len() as int);
            assert forall|x: int| 0 <= x < n && !f0[x] && #[trigger] queued@[x] implies exists|s: int|
                0 <= s < t + 1 && vals[s] == x by {
                if x == v as int {
                    assert(vals[t as int] == x);
                } else {
                    assert(fb[x]);
                    let s = choose|s: int| 0 <= s < t && vals[s] == x;
                    assert(0 <= s < t + 1 && vals[s] == x);
                }
            }
            assert(queued@.len() == n);
            assert(forall|k: int| 0 <= k < q1.len() ==> #[trigger] q1[k] < n);
            assert(forall|x: int| 0 <= x < n ==> (#[trigger] done@[x] <==> q1.take(head as int).contains(x as usize)));
            assert(kahn_inv(rs, n as int, q1, queued@, done@, head as int));
        }
        t += 1;
    }
    proof {
        assert(vals.take(m as int) =~= vals);
        assert(queue@.take(q0.len() as int) =~= q0);
        assert forall|x: int| 0 <= x < n && !#[trigger] queued@[x] implies exists|b: int|
            0 <= b < rs[x].len() && !#[trigger] done@[rs[x][b] as int] by {
            assert(!f0[x]);
            if forall|b: int| 0 <= b < rs[x].len() ==> #[trigger] done@[rs[x][b] as int] {
                assert(batch@.dom().contains(nv[x]));
                let key = nv[x];
                let s = keys.index_of(key);
                assert(keys.contains(key));
                assert(0 <= s < keys.len() && keys[s] == key);
                assert(nv[vals[s] as int] == key);
                assert(vals[s] as int == x) by {
                    assert(nv[vals[s] as int] == nv[x]);
                }
                assert(queued@[vals[s] as int]);
                assert(false);
            }
        }
    }
}

proof fn lemma_count_true_none(s: Seq<bool>)
    requires
        forall|i: int| 0 <= i < s.len() ==> !#[trigger] s[i],
    ensures
        count_true(s) == 0,
    decreases s.len(),
{
    if s.len() > 0 {
        lemma_count_true_none(s.drop_last());
    }
}

/// With every group queued, the queue read as names is a valid order.
proof fn lemma_queue_order_valid(
    gs: Seq<ParallelGroup>,
    reqs: Seq<Seq<usize>>,
    queue: Seq<usize>,
    queued: Seq<bool>,
    done: Seq<bool>,
    head: int,
)
    requires
        gs.len() <= usize::MAX,
        resolved_reqs(gs, reqs),
        group_names(gs).no_duplicates(),
        kahn_inv(reqs, gs.len() as int, queue, queued, done, head),
        forall|x: int| 0 <= x < gs.len() ==> #[trigger] queued[x],
    ensures
        valid_group_order(gs, queue.map_values(|q: usize| group_names(gs)[q as int])),
{
    let nv = group_names(gs);
    let o = queue.map_values(|q: usize| nv[q as int]);
    assert forall|i: int, j: int| 0 <= i < o.len() && 0 <= j < o.len() && i != j implies o[i] != o[j] by {
        assert(queue[i] != queue[j]);
        assert(nv[queue[i] as int] == gs[queue[i] as int].group@);
    }
    assert forall|k: int| 0 <= k < o.len() implies nv.contains(#[trigger] o[k]) by {
        assert(queue[k] < gs.len());
        assert(nv[queue[k] as int] == o[k]);
    }
    assert forall|i: int| 0 <= i < gs.len() implies o.contains(#[trigger] gs[i].group@) by {
        assert(queued[i]);
        assert(queue.contains(i as usize));
        let k = choose|k: int| 0 <= k < queue.len() && queue[k] == i as usize;
        assert(o[k] == nv[i]);
    }
    assert forall|i: int, j: int| 0 <= i < gs.len() && 0 <= j < group_reqs(gs[i]).len() implies {
        &&& o.contains(#[trigger] group_reqs(gs[i])[j])
        &&& o.index_of(group_reqs(gs[i])[j]) < o.index_of(gs[i].group@)
    } by {
        assert(queued[i]);
        assert(queue.contains(i as usize));
        let k = choose|k: int| 0 <= k < queue.len() && queue[k] == i as usize;
        assert(reqs[i].len() == group_reqs(gs[i]).len());
        let q = reqs[i][j];
        assert(gs[q as int].group@ == group_reqs(gs[i])[j]);
        assert(reqs[queue[k] as int][j] == q);
        assert(queue.take(k).contains(q));
        let m = choose|m: int| 0 <= m < queue.take(k).len() && queue.take(k)[m] == q;
        assert(o[m] == group_reqs(gs[i])[j]);
        assert(o[k] == gs[i].group@);
        let a = o.index_of(group_reqs(gs[i])[j]);
        let c = o.index_of(gs[i].group@);
        assert(o.contains(group_reqs(gs[i])[j]));
        assert(0 <= a < o.len() && o[a] == o[m]);
        assert(0 <= c < o.len() && o[c] == o[k]);
        assert(a == m);
        assert(c == k);
    }
}

/// With every group queued, the queue read as names takes the groups in the
/// order in which they became free.
proof fn lemma_queue_freed_order(
    gs: Seq<ParallelGroup>,
    reqs: Seq<Seq<usize>>,
    queue: Seq<usize>,
    queued: Seq<bool>,
    done: Seq<bool>,
    head: int,
)
    requires
        gs.len() <= usize::MAX,
        resolved_reqs(gs, reqs),
        group_names(gs).no_duplicates(),
        kahn_inv(reqs, gs.len() as int, queue, queued, done, head),
        forall|x: int| 0 <= x < gs.len() ==> #[trigger] queued[x],
        tie_inv(reqs, group_names(gs), queue),
    ensures
        freed_order(gs, queue.map_values(|q: usize| group_names(gs)[q as int])),
{
    let nv = group_names(gs);
    let o = queue.map_values(|q: usize| group_names(gs)[q as int]);
    lemma_queue_order_valid(gs, reqs, queue, queued, done, head);
    assert forall|k: int| 0 <= k < queue.len() implies #[trigger] freed_at(gs, o, o[k]) == batch_of(reqs, queue, k) by {
        let i = queue[k] as int;
        assert(nv.contains(nv[i]));
        lemma_group_index_found(gs, nv[i]);
        lemma_group_index_sound(gs, nv[i]);
        let j = group_index(gs, nv[i])->Some_0;
        assert(nv[j] == nv[i]);
        assert(j == i);
        assert forall|b: int| 0 <= b < reqs[i].len() implies queue.contains(#[trigger] reqs[i][b]) && group_reqs(gs[i])[b]
            == nv[reqs[i][b] as int] by {
            assert(queued[reqs[i][b] as int]);
        }
        lemma_last_placed_q(o, queue, nv, group_reqs(gs[i]), reqs[i]);
    }
    assert forall|a: int, b: int| #![trigger o[a], o[b]] 0 <= a < b < o.len() implies freed_at(gs, o, o[a]) < freed_at(
        gs,
        o,
        o[b],
    ) || (freed_at(gs, o, o[a]) == freed_at(gs, o, o[b]) && lex_lt(o[a], o[b])) by {
        assert(freed_at(gs, o, o[a]) == batch_of(reqs, queue, a));
        assert(freed_at(gs, o, o[b]) == batch_of(reqs, queue, b));
    }
}

/// When every unqueued group waits on another unqueued one, and some group
/// is unqueued, no order is valid.
proof fn lemma_stuck_no_order(gs: Seq<ParallelGroup>, reqs: Seq<Seq<usize>>, queued: Seq<bool>, o: Seq<Seq<char>>, x: int)
    requires
        resolved_reqs(gs, reqs),
        queued.len() == gs.len(),
        0 <= x < gs.len(),
        !queued[x],
        kahn_closed(reqs, gs.len() as int, queued, queued),
    ensures
        !valid_group_order(gs, o),
    decreases o.index_of(gs[x].group@),
{
    if valid_group_order(gs, o) {
        assert(o.contains(gs[x].group@));
        let b = choose|b: int| 0 <= b < reqs[x].len() && !#[trigger] queued[reqs[x][b] as int];
        let y = reqs[x][b] as int;
        assert(reqs[x].len() == group_reqs(gs[x]).len());
        assert(gs[y].group@ == group_reqs(gs[x])[b]);
        assert(o.contains(group_reqs(gs[x])[b]));
        assert(o.index_of(gs[y].group@) < o.index_of(gs[x].group@));
        assert(o.contains(gs[y].group@));
        lemma_stuck_no_order(gs, reqs, queued, o, y);
    }
}

/// The order in which the groups run: each after the groups it requires,
/// groups free to run at the same point taken in name order.
///
/// Fails when a requirement names no group (the first such one is
/// reported), or when the requirements cannot be ordered: a cycle, or two
/// groups with one name.
pub fn resolve_group_order(groups: &Vec<ParallelGroup>) -> (r: Result<Vec<String>, GroupOrderError>)
    ensures
        match r {
            Ok(o) => requirements_known(groups@) && group_names(groups@).no_duplicates() && valid_group_order(
                groups@,
                string_views(o@),
            ) && freed_order(groups@, string_views(o@)),
            Err(GroupOrderError::UnknownGroup { group, required }) => exists|i: int, j: int|
                first_unknown_requirement(groups@, i, j) && group@ == groups@[i].group@ && required@ == group_reqs(
                    groups@[i],
                )[j],
            Err(GroupOrderError::Cycle) => requirements_known(groups@) && (!group_names(groups@).no_duplicates()
                || !exists|o: Seq<Seq<char>>| valid_group_order(groups@, o)),
        },
{
    let n = groups.len();
    let ghost gs = groups@;
    let ghost nv = group_names(gs);
    // the names
    let mut names: Vec<String> = Vec::new();
    let mut i: usize = 0;
    while i < n
        invariant
            i <= n,
            n == gs.len(),
            gs == groups@,
            nv == group_names(gs),
            string_views(names@) == nv.take(i as int),
        decreases n - i,
    {
        let c = groups[i].group.clone();
        proof {
            crate::text::lemma_views_push(names@, c);
            assert(nv.take(i + 1) =~= nv.take(i as int).push(c@));
        }
        names.push(c);
        i += 1;
    }
    assert(nv.take(n as int) =~= nv);
    // the position of each requirement; the first unknown one fails
    let mut reqidx: Vec<Vec<usize>> = Vec::new();
    let mut i: usize = 0;
    while i < n
        invariant
            i <= n,
            n == gs.len(),
            gs == groups@,
            nv == group_names(gs),
            string_views(names@) == nv,
            names@.len() == n,
            reqidx@.len() == i,
            forall|a: int, b: int| 0 <= a < i ==> !#[trigger] unknown_requirement(gs, a, b),
            forall|a: int| 0 <= a < i ==> #[trigger] reqidx@[a]@.len() == group_reqs(gs[a]).len(),
            forall|a: int, b: int|
                0 <= a < i && 0 <= b < reqidx@[a]@.len() ==> (#[trigger] reqidx@[a]@[b]) < n && gs[reqidx@[a]@[b] as int].group@
                    == group_reqs(gs[a])[b],
        decreases n - i,
    {
        let mut row: Vec<usize> = Vec::new();
        match &groups[i].requires {
            None => {},
            Some(reqs) => {
                assert(group_reqs(gs[i as int]) == string_views(reqs@));
                let mut j: usize = 0;
                while j < reqs.len()
                    invariant
                        j <= reqs@.len(),
                        i < n,
                        n == gs.len(),
                        gs == groups@,
                        nv == group_names(gs),
                        string_views(names@) == nv,
                        group_reqs(gs[i as int]) == string_views(reqs@),
                        names@.len() == n,
                        row@.len() == j,
                        forall|b: int| 0 <= b < j ==> (#[trigger] row@[b]) < n && gs[row@[b] as int].group@ == reqs@[b]@,
                        forall|a: int, b: int| 0 <= a < i ==> !#[trigger] unknown_requirement(gs, a, b),
                    decreases reqs@.len() - j,
                {
                    match position_of(&names, reqs[j].as_str()) {
                        None => {
                            proof {
                                assert(unknown_requirement(gs, i as int, j as int));
                                assert forall|a: int, b: int| #[trigger] unknown_requirement(gs, a, b) implies (i < a || (i
                                    == a && j <= b)) by {
                                    if a == i && b < j {
                                        assert(nv[row@[b] as int] == group_reqs(gs[a])[b]);
                                        assert(nv.contains(group_reqs(gs[a])[b]));
                                    }
                                }
                                assert(first_unknown_requirement(gs, i as int, j as int));
                            }
                            return Err(
                                GroupOrderError::UnknownGroup { group: groups[i].group.clone(), required: reqs[j].clone() },
                            );
                        },
                        Some(p) => {
                            proof {
                                assert(p < n);
                                assert(string_views(names@)[p as int] == names@[p as int]@);
                                assert(nv[p as int] == gs[p as int].group@);
                            }
                            row.push(p);
                        },
                    }
                    j += 1;
                }
            },
        }
        proof {
            assert forall|b: int| 0 <= b < group_reqs(gs[i as int]).len() implies !#[trigger] unknown_requirement(
                gs,
                i as int,
                b,
            ) by {
                assert(nv[row@[b] as int] == group_reqs(gs[i as int])[b]);
                assert(nv.contains(group_reqs(gs[i as int])[b]));
            }
        }
        reqidx.push(row);
        i += 1;
    }
    let ghost rs = rows(reqidx@);
    assert(requirements_known(gs));
    assert(resolved_reqs(gs, rs)) by {
        assert forall|a: int| 0 <= a < gs.len() implies #[trigger] rs[a].len() == group_reqs(gs[a]).len() by {
            assert(rs[a] == reqidx@[a]@);
        }
        assert forall|a: int, b: int| 0 <= a < gs.len() && 0 <= b < rs[a].len() implies {
            &&& #[trigger] rs[a][b] < gs.len()
            &&& gs[rs[a][b] as int].group@ == group_reqs(gs[a])[b]
        } by {
            assert(rs[a] == reqidx@[a]@);
        }
    }
    // two groups with one name cannot be ordered
    let mut a: usize = 0;
    while a < n
        invariant
            a <= n,
            n == gs.len(),
            nv == group_names(gs),
            string_views(names@) == nv,
            requirements_known(gs),
            forall|x: int, y: int| 0 <= y < x < a ==> nv[x] != nv[y],
            names@.len() == n,
            gs == groups@,
        decreases n - a,
    {
        let mut b: usize = 0;
        while b < a
            invariant
                b <= a < n,
                n == gs.len(),
                nv == group_names(gs),
                string_views(names@) == nv,
                requirements_known(gs),
                forall|x: int, y: int| 0 <= y < x < a ==> nv[x] != nv[y],
                forall|y: int| 0 <= y < b ==> nv[a as int] != nv[y],
                names@.len() == n,
                gs == groups@,
            decreases a - b,
        {
            proof {
                assert(nv[a as int] == names@[a as int]@);
                assert(nv[b as int] == names@[b as int]@);
            }
            if str_eq(names[a].as_str(), names[b].as_str()) {
                proof {
                    assert(nv[a as int] == nv[b as int]);
                    assert(!nv.no_duplicates());
                }
                return Err(GroupOrderError::Cycle);
            }
            b += 1;
        }
        a += 1;
    }
    assert(nv.no_duplicates()) by {
        assert forall|x: int, y: int| 0 <= x < nv.len() && 0 <= y < nv.len() && x != y implies nv[x] != nv[y] by {
            if y < x {
            } else {
            }
        }
    }
    // Kahn's algorithm
    let mut queue: Vec<usize> = Vec::new();
    let mut queued: Vec<bool> = Vec::new();
    let mut done: Vec<bool> = Vec::new();
    let mut k: usize = 0;
    while k < n
        invariant
            k <= n,
            queued@.len() == k,
            done@.len() == k,
            forall|x: int| 0 <= x < k ==> !#[trigger] queued@[x],
            forall|x: int| 0 <= x < k ==> !#[trigger] done@[x],
        decreases n - k,
    {
        queued.push(false);
        done.push(false);
        k += 1;
    }
    proof {
        lemma_count_true_none(queued@);
        assert forall|x: int| 0 <= x < n implies (#[trigger] done@[x] <==> queue@.take(0).contains(x as usize)) by {
            assert(!done@[x]);
            assert(queue@.take(0).len() == 0);
        }
    }
    queue_ready(&names, &reqidx, &mut queue, &mut queued, &done, 0);
    let mut head: usize = 0;
    while head < queue.len()
        invariant
            n == gs.len(),
            nv == group_names(gs),
            string_views(names@) == nv,
            nv.no_duplicates(),
            requirements_known(gs),
            rs == rows(reqidx@),
            resolved_reqs(gs, rs),
            kahn_inv(rs, n as int, queue@, queued@, done@, head as int),
            kahn_closed(rs, n as int, queued@, done@),
            tie_inv(rs, nv, queue@),
            forall|k: int| 0 <= k < queue@.len() ==> batch_of(rs, queue@, k) < head,
            names@.len() == n,
            gs == groups@,
        decreases n - head,
    {
        proof {
            lemma_count_true_bound(queued@);
        }
        let c = queue[head];
        let ghost d0 = done@;
        let ghost q = queue@;
        done.set(c, true);
        proof {
            let hp: int = head + 1;
            assert(q.take(hp) =~= q.take(head as int).push(c));
            assert forall|x: int| 0 <= x < n implies (#[trigger] done@[x] <==> q.take(hp).contains(x as usize)) by {
                if x == c as int {
                    assert(q.take(hp)[head as int] == c);
                } else {
                    if q.take(hp).contains(x as usize) {
                        let m = choose|m: int| 0 <= m < q.take(hp).len() && q.take(hp)[m] == x as usize;
                        assert(q.take(head as int)[m] == x as usize);
                    }
                    if q.take(head as int).contains(x as usize) {
                        let m = choose|m: int| 0 <= m < q.take(head as int).len() && q.take(head as int)[m] == x as usize;
                        assert(q.take(hp)[m] == x as usize);
                    }
                }
            }
            assert forall|k: int, b: int| 0 <= k < q.len() && 0 <= b < rs[q[k] as int].len() implies {
                &&& q.take(k).contains(#[trigger] rs[q[k] as int][b])
                &&& q.take(hp).contains(rs[q[k] as int][b])
            } by {
                let r = rs[q[k] as int][b];
                assert(q.take(head as int).contains(r));
                let m = choose|m: int| 0 <= m < q.take(head as int).len() && q.take(head as int)[m] == r;
                assert(q.take(hp)[m] == r);
            }
        }
        head += 1;
        proof {
            lemma_count_true_bound(queued@);
            assert(reqs_before(rs, queue@, head as int));
            assert(kahn_inv(rs, n as int, queue@, queued@, done@, head as int));
            assert forall|x: int| 0 <= x < n && !#[trigger] queued@[x] implies exists|b: int|
                0 <= b < rs[x].len() && !queue@.take(head - 1).contains(#[trigger] rs[x][b]) by {
                let b = choose|b: int| 0 <= b < rs[x].len() && !#[trigger] d0[rs[x][b] as int];
                assert(!q.take(head - 1).contains(rs[x][b]));
            }
        }
        queue_ready(&names, &reqidx, &mut queue, &mut queued, &done, head);
        proof {
            lemma_count_true_bound(queued@);
        }
    }
    // every group queued, or the rest wait on each other
    proof {
        assert(queue@.take(head as int) =~= queue@);
        assert(done@ =~= queued@);
    }
    let mut x: usize = 0;
    while x < n
        invariant
            x <= n,
            n == gs.len(),
            queued@.len() == n,
            forall|y: int| 0 <= y < x ==> #[trigger] queued@[y],
            nv == group_names(gs),
            string_views(names@) == nv,
            nv.no_duplicates(),
            requirements_known(gs),
            rs == rows(reqidx@),
            resolved_reqs(gs, rs),
            kahn_inv(rs, n as int, queue@, queued@, done@, head as int),
            kahn_closed(rs, n as int, queued@, queued@),
            tie_inv(rs, nv, queue@),
            names@.len() == n,
            gs == groups@,
        decreases n - x,
    {
        if !queued[x] {
            proof {
                assert forall|o: Seq<Seq<char>>| !valid_group_order(gs, o) by {
                    lemma_stuck_no_order(gs, rs, queued@, o, x as int);
                }
            }
            return Err(GroupOrderError::Cycle);
        }
        x += 1;
    }
    let ghost ov = queue@.map_values(|q: usize| nv[q as int]);
    proof {
        lemma_queue_order_valid(gs, rs, queue@, queued@, done@, head as int);
        lemma_queue_freed_order(gs, rs, queue@, queued@, done@, head as int);
    }
    let mut order: Vec<String> = Vec::new();
    let mut k: usize = 0;
    while k < queue.len()
        invariant
            k <= queue@.len(),
            n == names@.len(),
            string_views(names@) == nv,
            ov == queue@.map_values(|q: usize| nv[q as int]),
            forall|t: int| 0 <= t < queue@.len() ==> #[trigger] queue@[t] < n,
            string_views(order@) == ov.take(k as int),
        decreases queue@.len() - k,
    {
        let c = names[queue[k]].clone();
        proof {
            crate::text::lemma_views_push(order@, c);
            assert(ov.take(k + 1) =~= ov.take(k as int).push(c@));
        }
        order.push(c);
        k += 1;
    }
    assert(ov.take(k as int) =~= ov);
    Ok(order)
}

proof fn lemma_group_index_sound(gs: Seq<ParallelGroup>, name: Seq<char>)
    ensures
        group_index(gs, name) matches Some(i) ==> 0 <= i < gs.len() && gs[i].group@ == name,
    decreases gs.len(),
{
    if gs.len() > 0 {
        lemma_group_index_sound(gs.drop_last(), name);
    }
}

proof fn lemma_group_index_found(gs: Seq<ParallelGroup>, name: Seq<char>)
    requires
        group_names(gs).contains(name),
    ensures
        group_index(gs, name) is Some,
    decreases gs.len(),
{
    let nv = group_names(gs);
    let k = choose|k: int| 0 <= k < nv.len() && nv[k] == name;
    if k < gs.len() - 1 {
        assert(group_names(gs.drop_last())[k] == name);
        lemma_group_index_found(gs.drop_last(), name);
    }
}

proof fn lemma_first_unmet_none(reqs: Seq<Seq<char>>, done: Seq<Seq<char>>)
    requires
        forall|j: int| 0 <= j < reqs.len() ==> done.contains(#[trigger] reqs[j]),
    ensures
        first_unmet(reqs, done) is None,
    decreases reqs.len(),
{
    if reqs.len() > 0 {
        assert(done.contains(reqs[0]));
        assert forall|j: int| 0 <= j < reqs.drop_first().len() implies done.contains(#[trigger] reqs.drop_first()[j]) by {
            assert(reqs.drop_first()[j] == reqs[j + 1]);
        }
        lemma_first_unmet_none(reqs.drop_first(), done);
    }
}

/// Groups run in a valid order (as `resolve_group_order` gives) pass their
/// `requires` gates: when the group at position `k` starts, the groups
/// before it, taken as completed, hold every group it requires.
pub proof fn lemma_valid_order_meets_gates(gs: Seq<ParallelGroup>, o: Seq<Seq<char>>, k: int)
    requires
        valid_group_order(gs, o),
        0 <= k < o.len(),
    ensures
        group_index(gs, o[k]) matches Some(i) && first_unmet(group_reqs(gs[i]), o.take(k)) is None,
{
    lemma_group_index_found(gs, o[k]);
    lemma_group_index_sound(gs, o[k]);
    let i = group_index(gs, o[k])->Some_0;
    let reqs = group_reqs(gs[i]);
    assert forall|j: int| 0 <= j < reqs.len() implies o.take(k).contains(#[trigger] reqs[j]) by {
        assert(o.contains(reqs[j]));
        let a = o.index_of(reqs[j]);
        let c = o.index_of(gs[i].group@);
        assert(0 <= a < o.len() && o[a] == reqs[j]);
        assert(0 <= c < o.len() && o[c] == o[k]);
        assert(c == k);
        assert(o.take(k)[a] == reqs[j]);
    }
    lemma_first_unmet_none(reqs, o.take(k));
}

/// A valid order lists each of the (distinctly named) groups once.
proof fn lemma_valid_order_len(gs: Seq<ParallelGroup>, o: Seq<Seq<char>>)
    requires
        group_names(gs).no_duplicates(),
        valid_group_order(gs, o),
    ensures
        o.len() == gs.len(),
{
    let nv = group_names(gs);
    assert forall|x: Seq<char>| o.to_set().contains(x) <==> nv.to_set().contains(x) by {
        if o.contains(x) {
            let k = choose|k: int| 0 <= k < o.len() && o[k] == x;
            assert(nv.contains(o[k]));
        }
        if nv.contains(x) {
            let i = choose|i: int| 0 <= i < nv.len() && nv[i] == x;
            assert(o.contains(gs[i].group@));
        }
    }
    assert(o.to_set() =~= nv.to_set());
    o.unique_seq_to_set();
    nv.unique_seq_to_set();
}

/// Two orders that agree on their first `p` entries place the groups of
/// that prefix at the same positions.
proof fn lemma_last_placed_same(o1: Seq<Seq<char>>, o2: Seq<Seq<char>>, reqs: Seq<Seq<char>>, p: int)
    requires
        o1.no_duplicates(),
        o2.no_duplicates(),
        0 <= p <= o1.len(),
        p <= o2.len(),
        forall|k: int| 0 <= k < p ==> #[trigger] o1[k] == o2[k],
        forall|j: int| 0 <= j < reqs.len() ==> o1.take(p).contains(#[trigger] reqs[j]),
    ensures
        last_placed(o1, reqs) == last_placed(o2, reqs),
    decreases reqs.len(),
{
    if reqs.len() > 0 {
        lemma_last_placed_same(o1, o2, reqs.drop_last(), p);
        assert(o1.take(p).contains(reqs[reqs.len() - 1]));
        let m = choose|m: int| 0 <= m < o1.take(p).len() && o1.take(p)[m] == reqs.last();
        assert(o1[m] == reqs.last());
        assert(o2[m] == reqs.last());
        lemma_index_of_unique(o1, m);
        lemma_index_of_unique(o2, m);
    }
}

/// In a valid order, the groups that the group at position `q` requires are
/// all before `q`.
proof fn lemma_reqs_before_position(gs: Seq<ParallelGroup>, o: Seq<Seq<char>>, q: int)
    requires
        group_names(gs).no_duplicates(),
        valid_group_order(gs, o),
        0 <= q < o.len(),
    ensures
        group_index(gs, o[q]) matches Some(i) && forall|j: int|
            0 <= j < group_reqs(gs[i]).len() ==> o.take(q).contains(#[trigger] group_reqs(gs[i])[j]),
{
    lemma_group_index_found(gs, o[q]);
    lemma_group_index_sound(gs, o[q]);
    let i = group_index(gs, o[q])->Some_0;
    lemma_index_of_unique(o, q);
    assert forall|j: int| 0 <= j < group_reqs(gs[i]).len() implies o.take(q).contains(#[trigger] group_reqs(gs[i])[j]) by {
        let r = group_reqs(gs[i])[j];
        assert(o.contains(r));
        let a = o.index_of(r);
        assert(o.index_of(gs[i].group@) == q);
        assert(o.take(q)[a] == r);
    }
}

proof fn lemma_orders_agree_prefix(gs: Seq<ParallelGroup>, o1: Seq<Seq<char>>, o2: Seq<Seq<char>>, p: int)
    requires
        group_names(gs).no_duplicates(),
        valid_group_order(gs, o1),
        freed_order(gs, o1),
        valid_group_order(gs, o2),
        freed_order(gs, o2),
        o1.len() == o2.len(),
        0 <= p <= o1.len(),
    ensures
        forall|k: int| 0 <= k < p ==> #[trigger] o1[k] == o2[k],
    decreases p,
{
    if p > 0 {
        lemma_orders_agree_prefix(gs, o1, o2, p - 1);
        let q = p - 1;
        let x = o1[q];
        let y = o2[q];
        if x != y {
            let nv = group_names(gs);
            // y comes later in o1, x later in o2
            assert(nv.contains(y));
            let iy = choose|i: int| 0 <= i < nv.len() && nv[i] == y;
            assert(o1.contains(gs[iy].group@));
            let p1 = o1.index_of(y);
            assert(o1[p1] == y);
            if p1 < q {
                assert(o2[p1] == y);
            }
            assert(nv.contains(x));
            let ix = choose|i: int| 0 <= i < nv.len() && nv[i] == x;
            assert(o2.contains(gs[ix].group@));
            let p2 = o2.index_of(x);
            assert(o2[p2] == x);
            if p2 < q {
                assert(o1[p2] == x);
            }
            assert(p1 > q && p2 > q);
            // both were freed at the same points in either order
            lemma_reqs_before_position(gs, o1, q);
            let gx = group_index(gs, x)->Some_0;
            lemma_last_placed_same(o1, o2, group_reqs(gs[gx]), q);
            lemma_reqs_before_position(gs, o2, q);
            let gy = group_index(gs, y)->Some_0;
            assert forall|k: int| 0 <= k < q implies #[trigger] o2[k] == o1[k] by {
                assert(o1[k] == o2[k]);
            }
            lemma_last_placed_same(o2, o1, group_reqs(gs[gy]), q);
            assert(freed_at(gs, o1, x) == freed_at(gs, o2, x));
            assert(freed_at(gs, o1, y) == freed_at(gs, o2, y));
            assert(freed_at(gs, o1, o1[q]) < freed_at(gs, o1, o1[p1]) || (freed_at(gs, o1, o1[q]) == freed_at(gs, o1, o1[p1])
                && lex_lt(o1[q], o1[p1])));
            assert(freed_at(gs, o2, o2[q]) < freed_at(gs, o2, o2[p2]) || (freed_at(gs, o2, o2[q]) == freed_at(gs, o2, o2[p2])
                && lex_lt(o2[q], o2[p2])));
            if lex_lt(x, y) && lex_lt(y, x) {
                lemma_lex_trans(x, y, x);
                lemma_lex_irrefl(x);
            }
        }
    }
}

/// The order that `resolve_group_order` gives is the only one with its
/// properties: two orders of the same (distinctly named) groups that each
/// put every group after the groups it requires, and take the groups in
/// the order in which they became free (ties by name), are equal.
pub proof fn lemma_freed_order_unique(gs: Seq<ParallelGroup>, o1: Seq<Seq<char>>, o2: Seq<Seq<char>>)
    requires
        group_names(gs).no_duplicates(),
        valid_group_order(gs, o1),
        freed_order(gs, o1),
        valid_group_order(gs, o2),
        freed_order(gs, o2),
    ensures
        o1 == o2,
{
    lemma_valid_order_len(gs, o1);
    lemma_valid_order_len(gs, o2);
    lemma_orders_agree_prefix(gs, o1, o2, o1.len() as int);
    assert(o1 =~= o2);
}

} // verus!
