//! Dependency graph of an AGM file: each node and the ids it `depends` on.
//!
//! Reachability is computed by a breadth-first walk over node positions;
//! its result is proved to be exactly the set of nodes reachable through
//! one or more `depends` edges.

use vstd::prelude::*;

use crate::keyed::str_eq;
use crate::text::{clone_strings, lemma_views_push, string_views};
use crate::runtime::model::AgmFile;

verus! {

/// Direction of a walk over `depends` edges.
#[derive(Clone, Copy, Debug, PartialEq, Eq, Structural)]
pub enum Direction {
    /// From a node to the nodes it depends on.
    Dependencies,
    /// From a node to the nodes that depend on it.
    Dependents,
}

/// The dependency graph: node ids (no duplicates) and, per node, the ids
/// named by its `depends` field.
pub struct DepGraph {
    ids: Vec<String>,
    deps: Vec<Vec<String>>,
}

impl DepGraph {
    /// Node ids, in file order.
    pub closed spec fn node_ids(&self) -> Seq<Seq<char>> {
        string_views(self.ids@)
    }

    /// The `depends` ids of the node at position `i`.
    pub closed spec fn deps_at(&self, i: int) -> Seq<Seq<char>> {
        string_views(self.deps@[i]@)
    }

    /// Ids are unique and every node has a `depends` list.
    pub closed spec fn wf(&self) -> bool {
        &&& self.ids@.len() == self.deps@.len()
        &&& self.node_ids().no_duplicates()
    }

    /// `x` is a node of the graph.
    pub open spec fn has_node(&self, x: Seq<char>) -> bool {
        self.node_ids().contains(x)
    }

    /// The ids that node `x` depends on (empty when `x` is not a node).
    pub open spec fn deps_of(&self, x: Seq<char>) -> Seq<Seq<char>> {
        if self.has_node(x) {
            self.deps_at(self.node_ids().index_of(x))
        } else {
            Seq::empty()
        }
    }

    /// One step of a walk in direction `dir`, from `a` to `b`.
    pub open spec fn step(&self, dir: Direction, a: Seq<char>, b: Seq<char>) -> bool {
        match dir {
            Direction::Dependencies => self.deps_of(a).contains(b),
            Direction::Dependents => self.deps_of(b).contains(a),
        }
    }

    /// A walk of at most `n` steps (and at least one) leads from `s` to `x`.
    pub open spec fn walk_within(&self, dir: Direction, s: Seq<char>, x: Seq<char>, n: nat) -> bool
        decreases n,
    {
        n > 0 && (self.step(dir, s, x) || exists|y: Seq<char>|
            #![trigger self.step(dir, y, x)]
            self.walk_within(dir, s, y, (n - 1) as nat) && self.step(dir, y, x))
    }

    /// `x` is a node reached from `s` by one or more steps in direction `dir`.
    pub open spec fn reaches(&self, dir: Direction, s: Seq<char>, x: Seq<char>) -> bool {
        self.has_node(x) && exists|n: nat| self.walk_within(dir, s, x, n)
    }

    /// Positions below `k` of the nodes one step from `from` in direction
    /// `dir` that `seen` does not hold, in ascending order.
    pub open spec fn fresh_steps(&self, dir: Direction, from: Seq<char>, seen: Seq<usize>, k: nat) -> Seq<usize>
        decreases k,
    {
        if k == 0 {
            Seq::empty()
        } else {
            let prev = self.fresh_steps(dir, from, seen, (k - 1) as nat);
            if self.step(dir, from, self.node_ids()[k - 1]) && !seen.contains((k - 1) as usize) {
                prev.push((k - 1) as usize)
            } else {
                prev
            }
        }
    }

    /// Breadth-first queue of positions: from `head` on, each queued node
    /// in turn appends its fresh neighbours (at most `fuel` turns).
    pub open spec fn bfs(&self, dir: Direction, q: Seq<usize>, head: nat, fuel: nat) -> Seq<usize>
        decreases fuel,
    {
        if fuel == 0 || head >= q.len() {
            q
        } else {
            self.bfs(
                dir,
                q + self.fresh_steps(dir, self.node_ids()[q[head as int] as int], q, self.node_ids().len()),
                head + 1,
                (fuel - 1) as nat,
            )
        }
    }

    /// The nodes reached from `start` in breadth-first order: first its
    /// neighbours in file order, then, for each node in that order, its
    /// neighbours not yet listed, in file order.
    pub open spec fn reach_order(&self, dir: Direction, start: Seq<char>) -> Seq<Seq<char>> {
        let n = self.node_ids().len();
        self.bfs(dir, self.fresh_steps(dir, start, Seq::empty(), n), 0, n).map_values(
            |j: usize| self.node_ids()[j as int],
        )
    }

    /// The dependency graph of a file: one node per distinct id (the first
    /// node with that id), with the ids its `depends` field names.
    pub fn build(file: &AgmFile) -> (g: DepGraph)
        ensures
            g.wf(),
            forall|x: Seq<char>| g.has_node(x) <==> exists|i: int|
                0 <= i < file.nodes@.len() && #[trigger] file.nodes@[i].id@ == x,
    {
        let mut ids: Vec<String> = Vec::new();
        let mut deps: Vec<Vec<String>> = Vec::new();
        let mut i: usize = 0;
        while i < file.nodes.len()
            invariant
                i <= file.nodes@.len(),
                ids@.len() == deps@.len(),
                string_views(ids@).no_duplicates(),
                forall|x: Seq<char>| string_views(ids@).contains(x) <==> exists|j: int|
                    0 <= j < i && #[trigger] file.nodes@[j].id@ == x,
            decreases file.nodes@.len() - i,
        {
            let node = &file.nodes[i];
            let mut seen = false;
            let mut j: usize = 0;
            while j < ids.len()
                invariant
                    j <= ids@.len(),
                    seen == exists|k: int| 0 <= k < j && ids@[k]@ == node.id@,
                decreases ids@.len() - j,
            {
                if str_eq(ids[j].as_str(), node.id.as_str()) {
                    seen = true;
                }
                j += 1;
            }
            let ghost before = string_views(ids@);
            if !seen {
                let mut d: Vec<String> = Vec::new();
                match &node.depends {
                    Some(list) => {
                        d = clone_strings(list);
                    },
                    None => {},
                }
                ids.push(node.id.clone());
                deps.push(d);
                proof {
                    assert(string_views(ids@) =~= before.push(node.id@));
                    assert forall|a: int, b: int|
                        0 <= a < string_views(ids@).len() && 0 <= b < string_views(ids@).len() && a != b
                        implies string_views(ids@)[a] != string_views(ids@)[b] by {
                        if a == before.len() as int {
                            assert(!before.contains(node.id@)) by {
                                if before.contains(node.id@) {
                                    let k = before.index_of(node.id@);
                                    assert(ids@[k]@ == node.id@);
                                }
                            }
                            assert(before[b] == string_views(ids@)[b]);
                        } else if b == before.len() as int {
                            assert(!before.contains(node.id@)) by {
                                if before.contains(node.id@) {
                                    let k = before.index_of(node.id@);
                                    assert(ids@[k]@ == node.id@);
                                }
                            }
                            assert(before[a] == string_views(ids@)[a]);
                        } else {
                            assert(before[a] == string_views(ids@)[a]);
                            assert(before[b] == string_views(ids@)[b]);
                        }
                    }
                }
            } else {
                proof {
                    let k = choose|k: int| 0 <= k < ids@.len() && ids@[k]@ == node.id@;
                    assert(before[k] == node.id@);
                }
            }
            proof {
                assert forall|x: Seq<char>| string_views(ids@).contains(x) implies exists|j: int|
                    0 <= j < i + 1 && #[trigger] file.nodes@[j].id@ == x by {
                    if x != node.id@ {
                        let k = string_views(ids@).index_of(x);
                        if !seen {
                            assert(k < before.len());
                        }
                        assert(before[k] == x);
                        assert(before.contains(x));
                    } else {
                        assert(file.nodes@[i as int].id@ == x);
                    }
                }
                assert forall|x: Seq<char>| (exists|j: int| 0 <= j < i + 1 && #[trigger] file.nodes@[j].id@ == x)
                    implies string_views(ids@).contains(x) by {
                    let j = choose|j: int| 0 <= j < i + 1 && #[trigger] file.nodes@[j].id@ == x;
                    if j < i {
                        assert(before.contains(x));
                        let k = before.index_of(x);
                        assert(string_views(ids@)[k] == x);
                    } else if !seen {
                        assert(string_views(ids@)[before.len() as int] == x);
                    } else {
                        let k = choose|k: int| 0 <= k < ids@.len() && ids@[k]@ == node.id@;
                        assert(string_views(ids@)[k] == x);
                    }
                }
            }
            i += 1;
        }
        DepGraph { ids, deps }
    }

    /// The two graphs have the same nodes and the same `depends` lists.
    pub open spec fn same_as(&self, other: DepGraph) -> bool {
        &&& self.node_ids() == other.node_ids()
        &&& forall|i: int| 0 <= i < self.node_ids().len() ==> #[trigger] self.deps_at(i) == other.deps_at(i)
    }

    /// A copy of the graph.
    pub fn copy(&self) -> (g: DepGraph)
        requires
            self.wf(),
        ensures
            g.wf(),
            g.same_as(*self),
    {
        let mut deps: Vec<Vec<String>> = Vec::new();
        let mut i: usize = 0;
        while i < self.deps.len()
            invariant
                self.wf(),
                i <= self.deps@.len(),
                deps@.len() == i,
                forall|j: int| 0 <= j < i ==> string_views(#[trigger] deps@[j]@) == self.deps_at(j),
            decreases self.deps@.len() - i,
        {
            let d = clone_strings(&self.deps[i]);
            deps.push(d);
            i += 1;
        }
        let g = DepGraph { ids: clone_strings(&self.ids), deps };
        assert forall|j: int| 0 <= j < g.node_ids().len() implies #[trigger] g.deps_at(j) == self.deps_at(j) by {
            assert(string_views(g.deps@[j]@) == self.deps_at(j));
        }
        g
    }

    /// Number of nodes.
    pub fn node_count(&self) -> (n: usize)
        requires
            self.wf(),
        ensures
            n == self.node_ids().len(),
    {
        self.ids.len()
    }

    /// Id of the node at position `i`.
    pub fn id_at(&self, i: usize) -> (r: &String)
        requires
            self.wf(),
            i < self.node_ids().len(),
        ensures
            r@ == self.node_ids()[i as int],
    {
        &self.ids[i]
    }

    /// The position that `index_of` picks for an id is its only position.
    proof fn lemma_index(&self, i: int)
        requires
            self.wf(),
            0 <= i < self.node_ids().len(),
        ensures
            self.node_ids().index_of(self.node_ids()[i]) == i,
            self.has_node(self.node_ids()[i]),
            self.deps_of(self.node_ids()[i]) == self.deps_at(i),
    {
        let x = self.node_ids()[i];
        assert(self.node_ids().contains(x));
        let j = self.node_ids().index_of(x);
        assert(self.node_ids()[j] == x);
    }

    /// Position of node `x`, if it is a node.
    pub fn position(&self, x: &str) -> (r: Option<usize>)
        requires
            self.wf(),
        ensures
            match r {
                Some(i) => i < self.node_ids().len() && self.node_ids()[i as int] == x@,
                None => !self.has_node(x@),
            },
    {
        let mut i: usize = 0;
        while i < self.ids.len()
            invariant
                self.wf(),
                i <= self.ids@.len(),
                forall|j: int| 0 <= j < i ==> self.node_ids()[j] != x@,
            decreases self.ids@.len() - i,
        {
            if str_eq(self.ids[i].as_str(), x) {
                return Some(i);
            }
            i += 1;
        }
        None
    }

    /// Whether the `depends` list at position `i` names `target`.
    fn deps_at_contains(&self, i: usize, target: &str) -> (r: bool)
        requires
            self.wf(),
            i < self.node_ids().len(),
        ensures
            r == self.deps_at(i as int).contains(target@),
    {
        let list = &self.deps[i];
        let mut k: usize = 0;
        while k < list.len()
            invariant
                self.wf(),
                i < self.node_ids().len(),
                list == &self.deps@[i as int],
                k <= list@.len(),
                forall|j: int| 0 <= j < k ==> self.deps_at(i as int)[j] != target@,
            decreases list@.len() - k,
        {
            if str_eq(list[k].as_str(), target) {
                assert(self.deps_at(i as int)[k as int] == target@);
                return true;
            }
            k += 1;
        }
        false
    }

    /// The ids that node `x` depends on (a copy of its `depends` list),
    /// or nothing when `x` is not a node.
    pub fn deps_of_exec(&self, x: &str) -> (r: Vec<String>)
        requires
            self.wf(),
        ensures
            string_views(r@) == self.deps_of(x@),
    {
        match self.position(x) {
            None => Vec::new(),
            Some(i) => {
                proof {
                    self.lemma_index(i as int);
                }
                clone_strings(&self.deps[i])
            },
        }
    }

    /// Whether the walk steps from `from` to the node at position `i`.
    fn steps_to(&self, dir: Direction, from: &str, i: usize) -> (r: bool)
        requires
            self.wf(),
            i < self.node_ids().len(),
        ensures
            r == self.step(dir, from@, self.node_ids()[i as int]),
    {
        proof {
            self.lemma_index(i as int);
        }
        match dir {
            Direction::Dependents => self.deps_at_contains(i, from),
            Direction::Dependencies => {
                match self.position(from) {
                    None => false,
                    Some(p) => {
                        proof {
                            self.lemma_index(p as int);
                        }
                        self.deps_at_contains(p, self.ids[i].as_str())
                    },
                }
            },
        }
    }

    /// Every node reached from `start` by one or more steps in direction
    /// `dir`, each once, in breadth-first order.
    pub fn reachable(&self, dir: Direction, start: &str) -> (r: Vec<String>)
        requires
            self.wf(),
        ensures
            string_views(r@).no_duplicates(),
            forall|x: Seq<char>| #[trigger] string_views(r@).contains(x) <==> self.reaches(dir, start@, x),
            string_views(r@) == self.reach_order(dir, start@),
    {
        let n = self.ids.len();
        let mut visited: Vec<bool> = Vec::new();
        let mut order: Vec<usize> = Vec::new();
        let mut i: usize = 0;
        // first the direct neighbours of `start`
        while i < n
            invariant
                self.wf(),
                n == self.node_ids().len(),
                i <= n,
                visited@.len() == i,
                order@.no_duplicates(),
                forall|k: int| 0 <= k < order@.len() ==> #[trigger] order@[k] < i,
                forall|j: int| 0 <= j < i ==> (#[trigger] visited@[j] <==> order@.contains(j as usize)),
                forall|j: int| 0 <= j < i ==> (visited@[j] <==> self.step(dir, start@, #[trigger] self.node_ids()[j])),
                order@ == self.fresh_steps(dir, start@, Seq::empty(), i as nat),
            decreases n - i,
        {
            let s = self.steps_to(dir, start, i);
            let ghost ob = order@;
            visited.push(s);
            if s {
                order.push(i);
            }
            proof {
                assert forall|j: int| 0 <= j < i + 1 implies (#[trigger] visited@[j] <==> order@.contains(j as usize)) by {
                    if j < i {
                        if ob.contains(j as usize) {
                            let k = ob.index_of(j as usize);
                            assert(order@[k] == j as usize);
                        }
                        if order@.contains(j as usize) {
                            let k = order@.index_of(j as usize);
                            if k < ob.len() {
                                assert(ob[k] == j as usize);
                            }
                        }
                    } else {
                        if s {
                            assert(order@[ob.len() as int] == j as usize);
                        } else {
                            assert(order@ == ob);
                            if ob.contains(j as usize) {
                                let k = ob.index_of(j as usize);
                            }
                        }
                    }
                }
            }
            i += 1;
        }
        proof {
            lemma_distinct_bounded(order@, n);
            assert forall|k: int| 0 <= k < order@.len() implies self.reaches(dir, start@, self.node_ids()[#[trigger] order@[k] as int]) by {
                let j = order@[k] as int;
                assert(visited@[j]);
                assert(self.walk_within(dir, start@, self.node_ids()[j], 1));
                self.lemma_index(j);
            }
        }
        let ghost q0 = order@;
        let ghost target = self.bfs(dir, q0, 0, n as nat);
        assert(q0 == self.fresh_steps(dir, start@, Seq::empty(), n as nat));
        let mut head: usize = 0;
        while head < order.len()
            invariant
                self.bfs(dir, order@, head as nat, (n - head) as nat) == target,
                target == self.bfs(dir, q0, 0, n as nat),
                q0 == self.fresh_steps(dir, start@, Seq::empty(), n as nat),
                self.wf(),
                n == self.node_ids().len(),
                visited@.len() == n,
                head <= order@.len(),
                order@.len() <= n,
                order@.no_duplicates(),
                forall|k: int| 0 <= k < order@.len() ==> #[trigger] order@[k] < n,
                forall|j: int| 0 <= j < n ==> (#[trigger] visited@[j] <==> order@.contains(j as usize)),
                forall|j: int| 0 <= j < n && self.step(dir, start@, #[trigger] self.node_ids()[j]) ==> visited@[j],
                forall|k: int| 0 <= k < order@.len() ==> self.reaches(dir, start@, self.node_ids()[#[trigger] order@[k] as int]),
                forall|k: int, j: int|
                    0 <= k < head && 0 <= j < n
                        && self.step(dir, self.node_ids()[#[trigger] order@[k] as int], #[trigger] self.node_ids()[j])
                        ==> visited@[j],
            decreases n - head,
        {
            let p = order[head];
            let ghost order_before = order@;
            let mut j: usize = 0;
            while j < n
                invariant
                    self.wf(),
                    n == self.node_ids().len(),
                    visited@.len() == n,
                    p < n,
                    p == order_before[head as int],
                    head < order_before.len(),
                    j <= n,
                    order@.len() <= n,
                    order@.no_duplicates(),
                    order_before.len() <= order@.len(),
                    forall|k: int| 0 <= k < order_before.len() ==> order@[k] == order_before[k],
                    forall|k: int| 0 <= k < order@.len() ==> #[trigger] order@[k] < n,
                    forall|t: int| 0 <= t < n ==> (#[trigger] visited@[t] <==> order@.contains(t as usize)),
                    forall|t: int| 0 <= t < n && self.step(dir, start@, #[trigger] self.node_ids()[t]) ==> visited@[t],
                    forall|k: int| 0 <= k < order@.len() ==> self.reaches(dir, start@, self.node_ids()[#[trigger] order@[k] as int]),
                    forall|k: int, t: int|
                        0 <= k < head && 0 <= t < n
                            && self.step(dir, self.node_ids()[#[trigger] order@[k] as int], #[trigger] self.node_ids()[t])
                            ==> visited@[t],
                    forall|t: int| 0 <= t < j && self.step(dir, self.node_ids()[p as int], #[trigger] self.node_ids()[t]) ==> visited@[t],
                    order@ == order_before + self.fresh_steps(dir, self.node_ids()[p as int], order_before, j as nat),
                decreases n - j,
            {
                let ghost o_j = order@;
                let ghost v_j = visited@[j as int];
                if !visited[j] {
                    let st = self.steps_to(dir, self.ids[p].as_str(), j);
                    if st {
                        proof {
                            lemma_room_left(order@, n, j);
                            // j is reached: one more step from p
                            let y = self.node_ids()[p as int];
                            let x = self.node_ids()[j as int];
                            assert(self.reaches(dir, start@, y));
                            let m = choose|m: nat| self.walk_within(dir, start@, y, m);
                            assert(self.walk_within(dir, start@, x, m + 1));
                            self.lemma_index(j as int);
                        }
                        let ghost ob = order@;
                        let ghost vb = visited@;
                        visited.set(j, true);
                        order.push(j);
                        proof {
                            assert forall|t: int| 0 <= t < n implies (#[trigger] visited@[t] <==> order@.contains(t as usize)) by {
                                if t != j {
                                    assert(visited@[t] == vb[t]);
                                    if ob.contains(t as usize) {
                                        let k = ob.index_of(t as usize);
                                        assert(order@[k] == t as usize);
                                    }
                                    if order@.contains(t as usize) {
                                        let k = order@.index_of(t as usize);
                                        if k < ob.len() {
                                            assert(ob[k] == t as usize);
                                        }
                                    }
                                } else {
                                    assert(order@[ob.len() as int] == j);
                                }
                            }
                        }
                    }
                }
                proof {
                    let from = self.node_ids()[p as int];
                    let fj = self.fresh_steps(dir, from, order_before, j as nat);
                    lemma_fresh_below(*self, dir, from, order_before, j as nat);
                    assert(!fj.contains(j as usize)) by {
                        if fj.contains(j as usize) {
                            let t = fj.index_of(j as usize);
                            assert(fj[t] < j);
                        }
                    }
                    assert(o_j == order_before + fj);
                    assert(v_j <==> o_j.contains(j as usize));
                    if order_before.contains(j as usize) {
                        let t = order_before.index_of(j as usize);
                        assert(o_j[t] == j as usize);
                    }
                    if o_j.contains(j as usize) {
                        let t = o_j.index_of(j as usize);
                        if t >= order_before.len() {
                            assert(fj[t - order_before.len()] == j as usize);
                        } else {
                            assert(order_before[t] == j as usize);
                        }
                    }
                    assert(v_j <==> order_before.contains(j as usize));
                    assert(order@ =~= order_before + self.fresh_steps(dir, from, order_before, (j + 1) as nat));
                }
                j += 1;
            }
            proof {
                assert(self.bfs(dir, order_before, head as nat, (n - head) as nat) == self.bfs(
                    dir,
                    order@,
                    (head + 1) as nat,
                    (n - (head + 1)) as nat,
                ));
            }
            head += 1;
        }
        // collect the ids of the visited nodes
        let mut out: Vec<String> = Vec::new();
        let mut k: usize = 0;
        while k < order.len()
            invariant
                self.wf(),
                n == self.node_ids().len(),
                k <= order@.len(),
                order@.no_duplicates(),
                forall|t: int| 0 <= t < order@.len() ==> #[trigger] order@[t] < n,
                out@.len() == k,
                forall|t: int| 0 <= t < k ==> #[trigger] out@[t]@ == self.node_ids()[order@[t] as int],
                order@ == target,
                target == self.bfs(dir, q0, 0, n as nat),
                q0 == self.fresh_steps(dir, start@, Seq::empty(), n as nat),
            decreases order@.len() - k,
        {
            out.push(self.ids[order[k]].clone());
            k += 1;
        }
        proof {
            let r = string_views(out@);
            assert(r =~= order@.map_values(|j: usize| self.node_ids()[j as int]));
            assert forall|a: int, b: int| 0 <= a < r.len() && 0 <= b < r.len() && a != b implies r[a] != r[b] by {
                assert(out@[a]@ == self.node_ids()[order@[a] as int]);
                assert(out@[b]@ == self.node_ids()[order@[b] as int]);
                assert(order@[a] != order@[b]);
            }
            assert forall|x: Seq<char>| #[trigger] r.contains(x) implies self.reaches(dir, start@, x) by {
                let a = r.index_of(x);
                assert(out@[a]@ == self.node_ids()[order@[a] as int]);
            }
            assert forall|x: Seq<char>| self.reaches(dir, start@, x) implies #[trigger] r.contains(x) by {
                let m = choose|m: nat| self.walk_within(dir, start@, x, m);
                self.lemma_closed_walk(dir, start@, x, m, visited@, order@);
                let j = self.node_ids().index_of(x);
                let a = order@.index_of(j as usize);
                assert(out@[a]@ == self.node_ids()[order@[a] as int]);
                assert(r[a] == x);
            }
        }
        out
    }

    /// A visited set that holds the direct neighbours of `s` and is closed
    /// under steps holds every node a walk from `s` reaches.
    proof fn lemma_closed_walk(
        &self,
        dir: Direction,
        s: Seq<char>,
        x: Seq<char>,
        m: nat,
        visited: Seq<bool>,
        order: Seq<usize>,
    )
        requires
            self.wf(),
            self.has_node(x),
            self.walk_within(dir, s, x, m),
            visited.len() == self.node_ids().len(),
            forall|j: int| 0 <= j < visited.len() ==> (#[trigger] visited[j] <==> order.contains(j as usize)),
            forall|j: int| 0 <= j < visited.len() && self.step(dir, s, #[trigger] self.node_ids()[j]) ==> visited[j],
            forall|k: int, t: int|
                0 <= k < order.len() && 0 <= t < visited.len()
                    && self.step(dir, self.node_ids()[#[trigger] order[k] as int], #[trigger] self.node_ids()[t])
                    ==> visited[t],
            forall|k: int| 0 <= k < order.len() ==> #[trigger] order[k] < visited.len(),
            visited.len() <= usize::MAX,
        ensures
            visited[self.node_ids().index_of(x)],
        decreases m,
    {
        let j = self.node_ids().index_of(x);
        assert(0 <= j < self.node_ids().len() && self.node_ids()[j] == x);
        if self.step(dir, s, x) {
        } else {
            let y = choose|y: Seq<char>| self.walk_within(dir, s, y, (m - 1) as nat) && #[trigger] self.step(dir, y, x);
            // the walk into y is itself a walk between nodes
            assert(self.has_node(y)) by {
                match dir {
                    Direction::Dependencies => {
                        assert(self.deps_of(y).contains(x));
                    },
                    Direction::Dependents => {
                        self.lemma_walk_ends_at_node(s, y, (m - 1) as nat);
                    },
                }
            }
            self.lemma_closed_walk(dir, s, y, (m - 1) as nat, visited, order);
            let jy = self.node_ids().index_of(y);
            assert(self.node_ids()[jy] == y);
            assert(order.contains(jy as usize));
            let k = order.index_of(jy as usize);
            assert(self.step(dir, self.node_ids()[order[k] as int], self.node_ids()[j]));
        }
    }

    /// A walk towards dependents ends at a node (it has a `depends` list).
    proof fn lemma_walk_ends_at_node(&self, s: Seq<char>, y: Seq<char>, m: nat)
        requires
            self.walk_within(Direction::Dependents, s, y, m),
        ensures
            self.has_node(y),
        decreases m,
    {
        if self.step(Direction::Dependents, s, y) {
            assert(self.deps_of(y).contains(s));
        } else {
            let z = choose|z: Seq<char>|
                self.walk_within(Direction::Dependents, s, z, (m - 1) as nat) && #[trigger] self.step(
                    Direction::Dependents,
                    z,
                    y,
                );
            assert(self.deps_of(y).contains(z));
        }
    }
}

/// The fresh steps below `k` are below `k`.
proof fn lemma_fresh_below(g: DepGraph, dir: Direction, from: Seq<char>, seen: Seq<usize>, k: nat)
    ensures
        forall|t: int| 0 <= t < g.fresh_steps(dir, from, seen, k).len() ==> #[trigger] g.fresh_steps(dir, from, seen, k)[t] < k,
    decreases k,
{
    if k > 0 {
        lemma_fresh_below(g, dir, from, seen, (k - 1) as nat);
        let prev = g.fresh_steps(dir, from, seen, (k - 1) as nat);
        let cur = g.fresh_steps(dir, from, seen, k);
        assert forall|t: int| 0 <= t < cur.len() implies #[trigger] cur[t] < k by {
            if t < prev.len() {
                assert(cur[t] == prev[t]);
            }
        }
    }
}

/// Distinct positions below `n` number at most `n`.
proof fn lemma_distinct_bounded(s: Seq<usize>, n: usize)
    requires
        s.no_duplicates(),
        forall|k: int| 0 <= k < s.len() ==> #[trigger] s[k] < n,
    ensures
        s.len() <= n,
{
    let ints = s.map_values(|x: usize| x as int);
    assert(ints.no_duplicates()) by {
        assert forall|a: int, b: int| 0 <= a < ints.len() && 0 <= b < ints.len() && a != b implies ints[a] != ints[b] by {
            assert(s[a] != s[b]);
        }
    }
    ints.unique_seq_to_set();
    assert(ints.to_set().subset_of(vstd::set_lib::set_int_range(0, n as int))) by {
        assert forall|x: int| ints.to_set().contains(x) implies vstd::set_lib::set_int_range(0, n as int).contains(x) by {
            let k = ints.index_of(x);
            assert(s[k] < n);
        }
    }
    vstd::set_lib::lemma_int_range(0, n as int);
    vstd::set_lib::lemma_len_subset(ints.to_set(), vstd::set_lib::set_int_range(0, n as int));
}

/// Distinct positions below `n` that miss position `j` number fewer than `n`.
proof fn lemma_room_left(order: Seq<usize>, n: usize, j: usize)
    requires
        order.no_duplicates(),
        forall|k: int| 0 <= k < order.len() ==> #[trigger] order[k] < n,
        j < n,
        !order.contains(j),
    ensures
        order.len() < n,
{
    let s = order.push(j);
    assert(s.no_duplicates()) by {
        assert forall|a: int, b: int| 0 <= a < s.len() && 0 <= b < s.len() && a != b implies s[a] != s[b] by {
            if a < order.len() && b < order.len() {
            } else if a == order.len() {
                assert(s[b] == order[b]);
            } else {
                assert(s[a] == order[a]);
            }
        }
    }
    lemma_distinct_bounded(s, n);
}

} // verus!
