//! A map from string keys to values, kept sorted by key.
//!
//! This is the ordered map behind the execution state (node id -> state)
//! and the memory stores (key -> entry): iteration is in ascending key
//! order, where keys are compared character by character by code point,
//! which is the order in which a `BTreeMap<String, _>` walks its keys.

use vstd::prelude::*;

use crate::text::chars_of;
use vstd::seq_lib::seq_to_set_is_finite;

verus! {

/// Lexicographic order on character sequences, by code point.
pub open spec fn lex_lt(a: Seq<char>, b: Seq<char>) -> bool
    decreases a.len(),
{
    if b.len() == 0 {
        false
    } else if a.len() == 0 {
        true
    } else if a[0] != b[0] {
        (a[0] as int) < (b[0] as int)
    } else {
        lex_lt(a.drop_first(), b.drop_first())
    }
}

/// No sequence is below itself.
pub proof fn lemma_lex_irrefl(a: Seq<char>)
    ensures
        !lex_lt(a, a),
    decreases a.len(),
{
    if a.len() > 0 {
        lemma_lex_irrefl(a.drop_first());
    }
}

/// Two different sequences are ordered one way or the other, never both.
pub proof fn lemma_lex_total(a: Seq<char>, b: Seq<char>)
    ensures
        a != b ==> (lex_lt(a, b) || lex_lt(b, a)),
        !(lex_lt(a, b) && lex_lt(b, a)),
    decreases a.len(),
{
    if a.len() > 0 && b.len() > 0 && a[0] == b[0] {
        lemma_lex_total(a.drop_first(), b.drop_first());
        if a != b {
            assert(a =~= seq![a[0]] + a.drop_first());
            assert(b =~= seq![b[0]] + b.drop_first());
        }
    } else if a.len() == 0 && b.len() == 0 {
        assert(a =~= b);
    } else if a.len() > 0 && b.len() > 0 {
    }
}

/// The order is transitive.
pub proof fn lemma_lex_trans(a: Seq<char>, b: Seq<char>, c: Seq<char>)
    requires
        lex_lt(a, b),
        lex_lt(b, c),
    ensures
        lex_lt(a, c),
    decreases a.len(),
{
    if a.len() > 0 && a[0] == b[0] && b[0] == c[0] {
        lemma_lex_trans(a.drop_first(), b.drop_first(), c.drop_first());
    }
}

/// Compares two character slices in the order `lex_lt`.
pub fn chars_lt(a: &[char], b: &[char]) -> (r: bool)
    ensures
        r == lex_lt(a@, b@),
{
    let mut i: usize = 0;
    assert(a@.skip(0) =~= a@);
    assert(b@.skip(0) =~= b@);
    while i < a.len() && i < b.len()
        invariant
            i <= a@.len(),
            i <= b@.len(),
            lex_lt(a@, b@) == lex_lt(a@.skip(i as int), b@.skip(i as int)),
        decreases a@.len() - i,
    {
        let x = a[i];
        let y = b[i];
        if x != y {
            return x < y;
        }
        assert(a@.skip(i as int).drop_first() =~= a@.skip(i + 1));
        assert(b@.skip(i as int).drop_first() =~= b@.skip(i + 1));
        i += 1;
    }
    i < b.len()
}

/// Compares two character slices for equality.
pub fn chars_eq(a: &[char], b: &[char]) -> (r: bool)
    ensures
        r == (a@ == b@),
{
    if a.len() != b.len() {
        return false;
    }
    let mut i: usize = 0;
    while i < a.len()
        invariant
            i <= a@.len(),
            a@.len() == b@.len(),
            a@.take(i as int) == b@.take(i as int),
        decreases a@.len() - i,
    {
        if a[i] != b[i] {
            return false;
        }
        assert(a@.take(i + 1) =~= a@.take(i as int).push(a@[i as int]));
        assert(b@.take(i + 1) =~= b@.take(i as int).push(b@[i as int]));
        i += 1;
    }
    assert(a@ =~= a@.take(i as int));
    assert(b@ =~= b@.take(i as int));
    true
}

/// Compares two strings for equality of their characters.
pub fn str_eq(a: &str, b: &str) -> (r: bool)
    ensures
        r == (a@ == b@),
{
    let x = chars_of(a);
    let y = chars_of(b);
    chars_eq(x.as_slice(), y.as_slice())
}

/// A map from string keys to values whose keys are kept in ascending order.
pub struct KeyedMap<V> {
    keys: Vec<String>,
    vals: Vec<V>,
}

impl<V> View for KeyedMap<V> {
    type V = Map<Seq<char>, V>;

    /// The map that the entries describe.
    open spec fn view(&self) -> Map<Seq<char>, V> {
        Map::new(
            |k: Seq<char>| self.keys().contains(k),
            |k: Seq<char>| self.values()[self.keys().index_of(k)],
        )
    }
}

impl<V> KeyedMap<V> {
    /// The keys, in ascending order.
    pub closed spec fn keys(&self) -> Seq<Seq<char>> {
        self.keys@.map_values(|s: String| s@)
    }

    /// The values, aligned with `keys()`.
    pub closed spec fn values(&self) -> Seq<V> {
        self.vals@
    }

    /// The keys are strictly ascending and aligned with the values.
    pub closed spec fn wf(&self) -> bool {
        &&& self.keys@.len() == self.vals@.len()
        &&& forall|i: int, j: int|
            0 <= i < j < self.keys@.len() ==> lex_lt(#[trigger] self.keys@[i]@, #[trigger] self.keys@[j]@)
    }

    /// Number of entries.
    pub open spec fn spec_len(&self) -> nat {
        self.keys().len()
    }

    /// Strictly ascending key sequences have no duplicates.
    pub proof fn lemma_wf_unique(&self)
        requires
            self.wf(),
        ensures
            self.keys().no_duplicates(),
            self.keys().len() == self.values().len(),
            forall|i: int, j: int|
                0 <= i < j < self.keys().len() ==> lex_lt(#[trigger] self.keys()[i], #[trigger] self.keys()[j]),
    {
        assert forall|i: int, j: int|
            0 <= i < self.keys().len() && 0 <= j < self.keys().len() && i != j implies
            self.keys()[i] != self.keys()[j] by {
            if i < j {
                assert(lex_lt(self.keys@[i]@, self.keys@[j]@));
                lemma_lex_irrefl(self.keys()[i]);
            } else {
                assert(lex_lt(self.keys@[j]@, self.keys@[i]@));
                lemma_lex_irrefl(self.keys()[j]);
            }
        }
    }

    /// The position of a present key is the one `index_of` picks.
    pub proof fn lemma_index_of(&self, i: int)
        requires
            self.wf(),
            0 <= i < self.keys().len(),
        ensures
            self.keys().index_of(self.keys()[i]) == i,
            self.view().dom().contains(self.keys()[i]),
            self@[self.keys()[i]] == self.values()[i],
    {
        self.lemma_wf_unique();
        let k = self.keys()[i];
        assert(self.keys().contains(k));
        let j = self.keys().index_of(k);
        assert(0 <= j < self.keys().len() && self.keys()[j] == k);
    }

    /// An empty map.
    pub fn new() -> (m: Self)
        ensures
            m.wf(),
            m@ == Map::<Seq<char>, V>::empty(),
            m.keys().len() == 0,
    {
        let m = KeyedMap { keys: Vec::new(), vals: Vec::new() };
        assert(m@ =~= Map::<Seq<char>, V>::empty());
        m
    }

    /// Number of entries.
    pub fn len(&self) -> (n: usize)
        requires
            self.wf(),
        ensures
            n == self.keys().len(),
            n == self@.dom().len(),
    {
        proof {
            self.lemma_dom_len();
        }
        self.keys.len()
    }

    /// The domain holds exactly the keys, one per entry.
    pub proof fn lemma_dom_len(&self)
        requires
            self.wf(),
        ensures
            self@.dom() == self.keys().to_set(),
            self@.dom().len() == self.keys().len(),
            self@.dom().finite(),
    {
        self.lemma_wf_unique();
        assert(self@.dom() =~= self.keys().to_set());
        self.keys().unique_seq_to_set();
        seq_to_set_is_finite(self.keys());
    }

    /// The key at position `i`.
    pub fn key_at(&self, i: usize) -> (k: &String)
        requires
            self.wf(),
            i < self.keys().len(),
        ensures
            k@ == self.keys()[i as int],
    {
        &self.keys[i]
    }

    /// The value at position `i`.
    pub fn value_at(&self, i: usize) -> (v: &V)
        requires
            self.wf(),
            i < self.keys().len(),
        ensures
            *v == self.values()[i as int],
    {
        &self.vals[i]
    }

    /// Position of `key`, if present.
    pub fn find(&self, key: &str) -> (r: Option<usize>)
        requires
            self.wf(),
        ensures
            match r {
                Some(i) => i < self.keys().len() && self.keys()[i as int] == key@,
                None => !self@.dom().contains(key@),
            },
    {
        let kc = chars_of(key);
        let mut i: usize = 0;
        while i < self.keys.len()
            invariant
                self.wf(),
                kc@ == key@,
                i <= self.keys@.len(),
                forall|j: int| 0 <= j < i ==> self.keys()[j] != key@,
            decreases self.keys@.len() - i,
        {
            let c = chars_of(self.keys[i].as_str());
            if chars_eq(c.as_slice(), kc.as_slice()) {
                return Some(i);
            }
            i += 1;
        }
        None
    }

    /// The value stored under `key`, if any.
    pub fn get(&self, key: &str) -> (r: Option<&V>)
        requires
            self.wf(),
        ensures
            match r {
                Some(v) => self@.dom().contains(key@) && *v == self@[key@],
                None => !self@.dom().contains(key@),
            },
    {
        match self.find(key) {
            Some(i) => {
                proof {
                    self.lemma_index_of(i as int);
                }
                Some(&self.vals[i])
            },
            None => None,
        }
    }

    /// Replaces the value at position `i`, keeping the keys.
    pub fn set_at(&mut self, i: usize, v: V)
        requires
            old(self).wf(),
            i < old(self).keys().len(),
        ensures
            final(self).wf(),
            final(self).keys() == old(self).keys(),
            final(self).values() == old(self).values().update(i as int, v),
            final(self)@ == old(self)@.insert(old(self).keys()[i as int], v),
    {
        let ghost k = self.keys()[i as int];
        self.vals.set(i, v);
        proof {
            self.lemma_wf_unique();
            assert forall|x: Seq<char>| #[trigger] self@.dom().contains(x) implies self@[x]
                == old(self)@.insert(k, v)[x] by {
                let j = self.keys().index_of(x);
                self.lemma_index_of(j);
                old(self).lemma_index_of(j);
                if j == i {
                } else {
                }
            }
            assert(self@ =~= old(self)@.insert(k, v));
        }
    }

    /// Replaces the value at position `i`, returning the previous one.
    pub fn replace_at(&mut self, i: usize, v: V) -> (prev: V)
        requires
            old(self).wf(),
            i < old(self).keys().len(),
        ensures
            final(self).wf(),
            prev == old(self).values()[i as int],
            final(self).keys() == old(self).keys(),
            final(self).values() == old(self).values().update(i as int, v),
            final(self)@ == old(self)@.insert(old(self).keys()[i as int], v),
    {
        let ghost k = self.keys()[i as int];
        let prev = self.vals.remove(i);
        self.vals.insert(i, v);
        proof {
            assert(self.vals@ =~= old(self).vals@.update(i as int, v));
            self.lemma_wf_unique();
            assert forall|x: Seq<char>| #[trigger] self@.dom().contains(x) implies self@[x]
                == old(self)@.insert(k, v)[x] by {
                let j = self.keys().index_of(x);
                self.lemma_index_of(j);
                old(self).lemma_index_of(j);
            }
            assert(self@ =~= old(self)@.insert(k, v));
        }
        prev
    }

    /// Inserts or replaces the value stored under `key`.
    pub fn insert(&mut self, key: String, v: V)
        requires
            old(self).wf(),
        ensures
            final(self).wf(),
            final(self)@ == old(self)@.insert(key@, v),
    {
        let kc = chars_of(key.as_str());
        let mut i: usize = 0;
        let mut done = false;
        while !done && i < self.keys.len()
            invariant
                self.wf(),
                kc@ == key@,
                i <= self.keys@.len(),
                forall|j: int| 0 <= j < i ==> lex_lt(#[trigger] self.keys()[j], key@),
                done ==> i < self.keys@.len() && !lex_lt(self.keys()[i as int], key@),
            decreases self.keys@.len() - i + (if done { 0int } else { 1int }),
        {
            let c = chars_of(self.keys[i].as_str());
            if !chars_lt(c.as_slice(), kc.as_slice()) {
                done = true;
            } else {
                i += 1;
            }
        }
        proof {
            self.lemma_wf_unique();
        }
        if i < self.keys.len() {
            let c = chars_of(self.keys[i].as_str());
            if chars_eq(c.as_slice(), kc.as_slice()) {
                self.set_at(i, v);
                return;
            }
        }
        // here every key before i is below `key` and every key from i on is above it
        let ghost old_keys = self.keys();
        let ghost old_map = self@;
        proof {
            assert forall|j: int| i <= j < old_keys.len() implies lex_lt(key@, #[trigger] old_keys[j]) by {
                lemma_lex_total(old_keys[i as int], key@);
                assert(!lex_lt(old_keys[i as int], key@));
                assert(old_keys[i as int] != key@);
                if j > i {
                    assert(lex_lt(old_keys[i as int], old_keys[j]));
                    lemma_lex_trans(key@, old_keys[i as int], old_keys[j]);
                }
            }
            assert forall|j: int| 0 <= j < i implies key@ != #[trigger] old_keys[j] by {
                lemma_lex_irrefl(key@);
            }
        }
        self.keys.insert(i, key);
        self.vals.insert(i, v);
        proof {
            assert(self.keys() =~= old_keys.insert(i as int, key@));
            assert forall|a: int, b: int| 0 <= a < b < self.keys@.len() implies lex_lt(
                #[trigger] self.keys@[a]@,
                #[trigger] self.keys@[b]@,
            ) by {
                assert(self.keys@[a]@ == self.keys()[a]);
                assert(self.keys@[b]@ == self.keys()[b]);
                if b < i {
                    assert(old(self).keys@[a]@ == old_keys[a]);
                    assert(old(self).keys@[b]@ == old_keys[b]);
                } else if a < i && b == i {
                } else if a < i && b > i {
                    assert(self.keys()[b] == old_keys[b - 1]);
                } else if a == i {
                    assert(self.keys()[b] == old_keys[b - 1]);
                } else {
                    assert(self.keys()[b] == old_keys[b - 1]);
                    assert(self.keys()[a] == old_keys[a - 1]);
                    assert(old(self).keys@[a - 1]@ == old_keys[a - 1]);
                    assert(old(self).keys@[b - 1]@ == old_keys[b - 1]);
                }
            }
            assert(self.wf());
            assert forall|x: Seq<char>| #![auto] self@.dom().contains(x) <==> old_map.insert(key@, v).dom().contains(x) by {
                if old_map.dom().contains(x) {
                    let j = old_keys.index_of(x);
                    if j < i {
                        assert(self.keys()[j] == x);
                    } else {
                        assert(self.keys()[j + 1] == x);
                    }
                }
                if self@.dom().contains(x) && x != key@ {
                    let j = self.keys().index_of(x);
                    if j < i {
                        assert(old_keys[j] == x);
                    } else {
                        assert(old_keys[j - 1] == x);
                    }
                }
                if x == key@ {
                    assert(self.keys()[i as int] == x);
                }
            }
            assert forall|x: Seq<char>| #[trigger] self@.dom().contains(x) implies self@[x]
                == old_map.insert(key@, v)[x] by {
                let j = self.keys().index_of(x);
                self.lemma_index_of(j);
                if j < i {
                    old(self).lemma_index_of(j);
                } else if j > i {
                    old(self).lemma_index_of(j - 1);
                }
            }
            assert(self@ =~= old_map.insert(key@, v));
        }
    }

    /// Removes `key`, returning its value if it was present.
    pub fn remove(&mut self, key: &str) -> (r: Option<V>)
        requires
            old(self).wf(),
        ensures
            final(self).wf(),
            final(self)@ == old(self)@.remove(key@),
            match r {
                Some(v) => old(self)@.dom().contains(key@) && v == old(self)@[key@],
                None => !old(self)@.dom().contains(key@),
            },
    {
        match self.find(key) {
            None => {
                assert(self@ =~= old(self)@.remove(key@));
                None
            },
            Some(i) => {
                proof {
                    self.lemma_index_of(i as int);
                    self.lemma_wf_unique();
                }
                let ghost old_keys = self.keys();
                let _k = self.keys.remove(i);
                let v = self.vals.remove(i);
                proof {
                    assert(self.keys() =~= old_keys.remove(i as int));
                    assert forall|a: int, b: int| 0 <= a < b < self.keys@.len() implies lex_lt(
                        #[trigger] self.keys@[a]@,
                        #[trigger] self.keys@[b]@,
                    ) by {
                        assert(self.keys@[a]@ == self.keys()[a]);
                        assert(self.keys@[b]@ == self.keys()[b]);
                        if a >= i {
                            assert(old(self).keys@[a + 1]@ == old_keys[a + 1]);
                            assert(old(self).keys@[b + 1]@ == old_keys[b + 1]);
                        } else if b >= i {
                            assert(old(self).keys@[a]@ == old_keys[a]);
                            assert(old(self).keys@[b + 1]@ == old_keys[b + 1]);
                        } else {
                            assert(old(self).keys@[a]@ == old_keys[a]);
                            assert(old(self).keys@[b]@ == old_keys[b]);
                        }
                    }
                    assert(self.wf());
                    assert forall|x: Seq<char>| #![auto] self@.dom().contains(x) <==> old(self)@.remove(key@).dom().contains(x) by {
                        if old(self)@.dom().contains(x) && x != key@ {
                            let j = old_keys.index_of(x);
                            if j < i {
                                assert(self.keys()[j] == x);
                            } else {
                                assert(self.keys()[j - 1] == x);
                            }
                        }
                        if self@.dom().contains(x) {
                            let j = self.keys().index_of(x);
                            if j < i {
                                assert(old_keys[j] == x);
                            } else {
                                assert(old_keys[j + 1] == x);
                            }
                        }
                    }
                    assert forall|x: Seq<char>| #[trigger] self@.dom().contains(x) implies self@[x]
                        == old(self)@.remove(key@)[x] by {
                        let j = self.keys().index_of(x);
                        self.lemma_index_of(j);
                        if j < i {
                            old(self).lemma_index_of(j);
                        } else {
                            old(self).lemma_index_of(j + 1);
                        }
                    }
                    assert(self@ =~= old(self)@.remove(key@));
                }
                Some(v)
            },
        }
    }

    /// Removes every entry.
    pub fn clear(&mut self)
        ensures
            final(self).wf(),
            final(self)@ == Map::<Seq<char>, V>::empty(),
            final(self).keys().len() == 0,
    {
        self.keys.clear();
        self.vals.clear();
        assert(self@ =~= Map::<Seq<char>, V>::empty());
    }
}

} // verus!
