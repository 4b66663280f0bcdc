//! `mem` command: listing, lookup and garbage-collection summary over the
//! persisted memory stores.

use vstd::prelude::*;

use crate::keyed::{str_eq, KeyedMap};
use crate::runtime::duration::{decimal, decimal_string};
use crate::runtime::memory::{GcReport, MemFileEntry, MemoryRuntime};
use crate::text::{
    chars_of, lines, owned, pad_right, push_char, push_padded, push_str, split_lines, starts_with, starts_with_exec,
    string_of_range, string_views, trim, trim_str,
};

verus! {

/// The entries of one persisted store that a listing shows, in key
/// order: all of them, or those of the given topic.
pub open spec fn store_listing(m: KeyedMap<MemFileEntry>, topic: Option<Seq<char>>) -> Seq<(Seq<char>, MemFileEntry)> {
    m.keys().filter(|k: Seq<char>| topic matches Some(t) ==> m@[k].topic@ == t).map_values(
        |k: Seq<char>| (k, m@[k]),
    )
}

/// A listing restricted to `scope` includes the store named `name`.
pub open spec fn scope_included(scope: Option<Seq<char>>, name: Seq<char>) -> bool {
    scope matches Some(s) ==> s == name
}

/// The entries `mem list` shows: the project store's, then the global
/// store's, each when the scope filter lets it in.
pub open spec fn mem_listing_spec(
    mem: MemoryRuntime,
    topic: Option<Seq<char>>,
    scope: Option<Seq<char>>,
) -> Seq<(Seq<char>, MemFileEntry)> {
    (if scope_included(scope, "project"@) {
        store_listing(mem.spec_project_store().entries, topic)
    } else {
        Seq::empty()
    }) + (if scope_included(scope, "global"@) {
        store_listing(mem.spec_global_store().entries, topic)
    } else {
        Seq::empty()
    })
}

/// Views of listed pairs.
pub open spec fn pair_keys(v: Seq<(String, MemFileEntry)>) -> Seq<(Seq<char>, MemFileEntry)> {
    v.map_values(|p: (String, MemFileEntry)| (p.0@, p.1))
}

/// Appends the listed entries of one store.
fn append_listing(m: &KeyedMap<MemFileEntry>, topic: Option<&str>, out: &mut Vec<(String, MemFileEntry)>)
    requires
        m.wf(),
    ensures
        pair_keys(final(out)@) == pair_keys(old(out)@) + store_listing(
            *m,
            match topic {
                Some(s) => Some(s@),
                None => None,
            },
        ),
{
    let ghost t = match topic {
        Some(s) => Some(s@),
        None => None,
    };
    let ghost pred = |k: Seq<char>| t matches Some(tt) ==> m@[k].topic@ == tt;
    let ghost f = |k: Seq<char>| (k, m@[k]);
    let ghost base = pair_keys(out@);
    let n = m.len();
    let mut i: usize = 0;
    while i < n
        invariant
            m.wf(),
            n == m.keys().len(),
            i <= n,
            t == match topic {
                Some(s) => Some(s@),
                None => None,
            },
            pred == (|k: Seq<char>| t matches Some(tt) ==> m@[k].topic@ == tt),
            f == (|k: Seq<char>| (k, m@[k])),
            pair_keys(out@) == base + m.keys().take(i as int).filter(pred).map_values(f),
        decreases n - i,
    {
        proof {
            reveal_with_fuel(Seq::<_>::filter, 1);
            assert(m.keys().take(i + 1).drop_last() =~= m.keys().take(i as int));
            m.lemma_index_of(i as int);
        }
        let k = m.key_at(i);
        let e = m.value_at(i);
        let keep = match topic {
            Some(tp) => str_eq(e.topic.as_str(), tp),
            None => true,
        };
        if keep {
            let ghost before = out@;
            out.push((k.clone(), e.copy()));
            proof {
                assert(m.keys().take(i + 1).filter(pred) == m.keys().take(i as int).filter(pred).push(m.keys()[i as int]));
                assert(pair_keys(out@) =~= pair_keys(before).push((m.keys()[i as int], m@[m.keys()[i as int]])));
                assert(m.keys().take(i + 1).filter(pred).map_values(f) =~= m.keys().take(i as int).filter(pred).map_values(
                    f,
                ).push(f(m.keys()[i as int])));
            }
        } else {
            proof {
                assert(m.keys().take(i + 1).filter(pred) == m.keys().take(i as int).filter(pred));
            }
        }
        i += 1;
    }
    proof {
        assert(m.keys().take(n as int) =~= m.keys());
        assert(store_listing(*m, t) == m.keys().filter(pred).map_values(f));
    }
}

/// The entries `mem list` shows, as `(key, entry)` pairs: the project
/// store's, then the global store's, restricted to `topic` and `scope`
/// when given.
pub fn mem_listing(mem: &MemoryRuntime, topic: Option<&str>, scope: Option<&str>) -> (r: Vec<(String, MemFileEntry)>)
    requires
        mem.wf(),
    ensures
        pair_keys(r@) == mem_listing_spec(
            *mem,
            match topic {
                Some(s) => Some(s@),
                None => None,
            },
            match scope {
                Some(s) => Some(s@),
                None => None,
            },
        ),
{
    let include_project = match scope {
        Some(s) => str_eq(s, "project"),
        None => true,
    };
    let include_global = match scope {
        Some(s) => str_eq(s, "global"),
        None => true,
    };
    proof {
        reveal_strlit("project");
        reveal_strlit("global");
    }
    let mut out: Vec<(String, MemFileEntry)> = Vec::new();
    assert(pair_keys(out@) =~= Seq::<(Seq<char>, MemFileEntry)>::empty());
    if include_project {
        append_listing(&mem.project_store().entries, topic, &mut out);
    }
    let ghost mid = pair_keys(out@);
    if include_global {
        append_listing(&mem.global_store().entries, topic, &mut out);
    }
    proof {
        let t = match topic {
            Some(s) => Some(s@),
            None => None,
        };
        let sc = match scope {
            Some(s) => Some(s@),
            None => None,
        };
        assert(pair_keys(out@) =~= mem_listing_spec(*mem, t, sc));
    }
    out
}

/// The entry `mem get` shows for `key`: the project store's, else the
/// global store's.
pub fn lookup_persisted(mem: &MemoryRuntime, key: &str) -> (r: Option<MemFileEntry>)
    requires
        mem.wf(),
    ensures
        ({
            let p = mem.spec_project_store().entries@;
            let g = mem.spec_global_store().entries@;
            match r {
                Some(e) => if p.dom().contains(key@) {
                    e == p[key@]
                } else {
                    g.dom().contains(key@) && e == g[key@]
                },
                None => !p.dom().contains(key@) && !g.dom().contains(key@),
            }
        }),
{
    match mem.project_store().entries.get(key) {
        Some(e) => Some(e.copy()),
        None => match mem.global_store().entries.get(key) {
            Some(e) => Some(e.copy()),
            None => None,
        },
    }
}

/// The first `n` characters of `s` (all of it when shorter).
pub open spec fn preview(s: Seq<char>, n: nat) -> Seq<char> {
    if s.len() <= n {
        s
    } else {
        s.take(n as int)
    }
}

/// A line of the `mem list` table: key and topic padded to 30 and 20
/// characters, then the first 40 characters of the value.
pub open spec fn listing_row_spec(key: Seq<char>, topic: Seq<char>, value: Seq<char>) -> Seq<char> {
    pad_right(key, 30) + " "@ + pad_right(topic, 20) + " "@ + preview(value, 40)
}

/// A line of the `mem list` table (the header is the row of `Key`,
/// `Topic` and `Value`).
pub fn listing_row(key: &str, topic: &str, value: &str) -> (r: String)
    ensures
        r@ == listing_row_spec(key@, topic@, value@),
{
    let mut r = String::new();
    push_padded(&mut r, key, 30);
    push_str(&mut r, " ");
    push_padded(&mut r, topic, 20);
    push_str(&mut r, " ");
    let ghost head = r@;
    let cs = crate::text::chars_of(value);
    let mut i: usize = 0;
    while i < cs.len() && i < 40
        invariant
            cs@ == value@,
            i <= cs@.len(),
            i <= 40,
            r@ == head + value@.take(i as int),
        decreases cs@.len() - i,
    {
        push_char(&mut r, cs[i]);
        assert(value@.take(i + 1) =~= value@.take(i as int).push(cs@[i as int]));
        i += 1;
    }
    proof {
        if value@.len() <= 40 {
            assert(value@.take(i as int) =~= value@);
        }
        assert(r@ =~= listing_row_spec(key@, topic@, value@));
    }
    r
}

/// The summary line of `mem gc`.
pub fn gc_summary(report: &GcReport) -> (r: String)
    ensures
        r@ == "GC complete: "@ + decimal(report.expired_removed as nat) + " expired entries removed, "@ + decimal(
            report.orphan_removed as nat,
        ) + " orphans removed"@,
{
    let mut r = owned("GC complete: ");
    push_str(&mut r, decimal_string(report.expired_removed as u64).as_str());
    push_str(&mut r, " expired entries removed, ");
    push_str(&mut r, decimal_string(report.orphan_removed as u64).as_str());
    push_str(&mut r, " orphans removed");
    r
}

/// The package a memory file names in its header: the rest, trimmed, of
/// its first line that starts with `# package: `.
pub open spec fn package_of_lines(ls: Seq<Seq<char>>) -> Option<Seq<char>>
    decreases ls.len(),
{
    if ls.len() == 0 {
        None
    } else if starts_with(ls[0], "# package: "@) {
        Some(trim(ls[0].skip(11)))
    } else {
        package_of_lines(ls.drop_first())
    }
}

/// The package a memory file's text names in its header.
pub fn package_from_source(content: &str) -> (r: Option<String>)
    ensures
        match r {
            Some(p) => package_of_lines(lines(content@)) == Some(p@),
            None => package_of_lines(lines(content@)) is None,
        },
{
    let ls = split_lines(content);
    let ghost lv = string_views(ls@);
    let prefix = chars_of("# package: ");
    proof {
        reveal_strlit("# package: ");
    }
    let mut i: usize = 0;
    assert(lv.skip(0) =~= lv);
    while i < ls.len()
        invariant
            i <= ls@.len(),
            lv == string_views(ls@),
            lv == lines(content@),
            prefix@ == "# package: "@,
            prefix@.len() == 11,
            package_of_lines(lv) == package_of_lines(lv.skip(i as int)),
        decreases ls@.len() - i,
    {
        assert(lv.skip(i as int)[0] == ls@[i as int]@);
        assert(lv.skip(i as int).drop_first() =~= lv.skip(i + 1));
        let l = chars_of(ls[i].as_str());
        if starts_with_exec(l.as_slice(), prefix.as_slice()) {
            let rest = string_of_range(l.as_slice(), 11, l.len());
            assert(l@.subrange(11, l@.len() as int) =~= l@.skip(11));
            return Some(trim_str(rest.as_str()));
        }
        i += 1;
    }
    None
}

/// How opening or checking a signed memory file failed, as far as the
/// exit code goes.
pub enum StoreErrorKind {
    /// The signature does not match the contents.
    SignatureMismatch,
    /// A signature is required and there is none.
    SignatureMissing,
    /// Any other failure, with its message.
    Other(String),
}

/// Exit code of `mem verify` for a signature mismatch.
pub const EXIT_SIG_MISMATCH: i32 = 1;

/// Exit code of `mem verify` for a missing signature.
pub const EXIT_SIG_MISSING: i32 = 2;

/// Exit code of `mem verify` for any other failure.
pub const EXIT_OTHER_ERROR: i32 = 3;

/// The exit code of `mem verify` for a store error.
pub fn store_error_exit_code(e: &StoreErrorKind) -> (r: i32)
    ensures
        r == match e {
            StoreErrorKind::SignatureMismatch => EXIT_SIG_MISMATCH,
            StoreErrorKind::SignatureMissing => EXIT_SIG_MISSING,
            StoreErrorKind::Other(_) => EXIT_OTHER_ERROR,
        },
{
    match e {
        StoreErrorKind::SignatureMismatch => EXIT_SIG_MISMATCH,
        StoreErrorKind::SignatureMissing => EXIT_SIG_MISSING,
        StoreErrorKind::Other(_) => EXIT_OTHER_ERROR,
    }
}

} // verus!
