//! `repair` command: rule selection and the text report of a repair.

use vstd::prelude::*;

use crate::keyed::str_eq;
use crate::pattern::{split_char, split_on};
use crate::runtime::context::contains_string;
use crate::runtime::duration::{decimal, decimal_string};
use crate::text::{join, join_strings, owned, pad_right, push_padded, push_str, string_views, trim, trim_str};

verus! {

/// Output format of the repair report.
#[derive(Debug, Clone, Copy, PartialEq, Eq, Structural)]
pub enum ReportFormat {
    /// Human-readable text.
    Text,
    /// JSON.
    Json,
}

/// The first id of `ids` that `valid` does not hold.
pub open spec fn first_unknown_id(ids: Seq<Seq<char>>, valid: Seq<Seq<char>>) -> Option<Seq<char>>
    decreases ids.len(),
{
    if ids.len() == 0 {
        None
    } else if !valid.contains(ids[0]) {
        Some(ids[0])
    } else {
        first_unknown_id(ids.drop_first(), valid)
    }
}

/// The rule ids of an `--enable-only` list: split at commas, trimmed,
/// empty ones dropped.
pub open spec fn only_tokens(s: Seq<char>) -> Seq<Seq<char>> {
    split_char(s, ',').map_values(|p: Seq<char>| trim(p)).filter(|p: Seq<char>| p.len() > 0)
}

/// The message of an unknown rule id.
pub open spec fn unknown_rule_message(id: Seq<char>, valid: Seq<Seq<char>>) -> Seq<char> {
    "unknown rule id '"@ + id + "' (valid: "@ + join(valid, ", "@) + ")"@
}

/// The rules to disable and, with `--enable-only`, the only rules to run;
/// the first unknown id (disabled ones first) is an error.
pub open spec fn resolve_rule_ids_spec(
    valid: Seq<Seq<char>>,
    disable: Seq<Seq<char>>,
    only: Option<Seq<char>>,
) -> Result<(Seq<Seq<char>>, Option<Seq<Seq<char>>>), Seq<char>> {
    match first_unknown_id(disable, valid) {
        Some(id) => Err(unknown_rule_message(id, valid)),
        None => match only {
            None => Ok((disable, None)),
            Some(s) => match first_unknown_id(only_tokens(s), valid) {
                Some(id) => Err(unknown_rule_message(id, valid)),
                None => Ok((disable, Some(only_tokens(s)))),
            },
        },
    }
}

/// Checks `ids` against `valid`; the first unknown one.
fn find_unknown(ids: &Vec<String>, valid: &Vec<String>) -> (r: Option<usize>)
    ensures
        match r {
            Some(i) => i < ids@.len() && first_unknown_id(string_views(ids@), string_views(valid@)) == Some(
                ids@[i as int]@,
            ),
            None => first_unknown_id(string_views(ids@), string_views(valid@)) is None,
        },
{
    let ghost iv = string_views(ids@);
    let ghost vv = string_views(valid@);
    let mut i: usize = 0;
    assert(iv.skip(0) =~= iv);
    while i < ids.len()
        invariant
            i <= ids@.len(),
            iv == string_views(ids@),
            vv == string_views(valid@),
            first_unknown_id(iv, vv) == first_unknown_id(iv.skip(i as int), vv),
        decreases ids@.len() - i,
    {
        assert(iv.skip(i as int)[0] == ids@[i as int]@);
        assert(iv.skip(i as int).drop_first() =~= iv.skip(i + 1));
        if !contains_string(valid, ids[i].as_str()) {
            return Some(i);
        }
        i += 1;
    }
    None
}

fn unknown_rule_error(id: &str, valid: &Vec<String>) -> (r: String)
    ensures
        r@ == unknown_rule_message(id@, string_views(valid@)),
{
    let mut m = owned("unknown rule id '");
    push_str(&mut m, id);
    push_str(&mut m, "' (valid: ");
    push_str(&mut m, join_strings(valid, ", ").as_str());
    push_str(&mut m, ")");
    m
}

/// The rule ids of an `--enable-only` list.
pub fn split_rule_ids(s: &str) -> (r: Vec<String>)
    ensures
        string_views(r@) == only_tokens(s@),
{
    let parts = split_on(s, ',');
    let ghost pv = string_views(parts@);
    let ghost tr = pv.map_values(|p: Seq<char>| trim(p));
    let ghost keep = |p: Seq<char>| p.len() > 0;
    let mut out: Vec<String> = Vec::new();
    let mut i: usize = 0;
    while i < parts.len()
        invariant
            i <= parts@.len(),
            pv == string_views(parts@),
            pv == split_char(s@, ','),
            tr == pv.map_values(|p: Seq<char>| trim(p)),
            keep == (|p: Seq<char>| p.len() > 0),
            string_views(out@) == tr.take(i as int).filter(keep),
        decreases parts@.len() - i,
    {
        proof {
            reveal_with_fuel(Seq::<_>::filter, 1);
            assert(tr.take(i + 1).drop_last() =~= tr.take(i as int));
        }
        let t = trim_str(parts[i].as_str());
        if crate::text::chars_of(t.as_str()).len() > 0 {
            proof {
                crate::text::lemma_views_push(out@, t);
            }
            out.push(t);
        }
        i += 1;
    }
    assert(tr.take(i as int) =~= tr);
    out
}

/// Resolves the `--disable-rule` and `--enable-only` arguments against
/// the valid rule ids.
pub fn resolve_rule_ids(
    valid: &Vec<String>,
    disable: &Vec<String>,
    enable_only: Option<&str>,
) -> (r: Result<(Vec<String>, Option<Vec<String>>), String>)
    ensures
        match r {
            Ok((d, o)) => resolve_rule_ids_spec(
                string_views(valid@),
                string_views(disable@),
                match enable_only {
                    Some(s) => Some(s@),
                    None => None,
                },
            ) == Ok::<(Seq<Seq<char>>, Option<Seq<Seq<char>>>), Seq<char>>(
                (
                    string_views(d@),
                    match o {
                        Some(v) => Some(string_views(v@)),
                        None => None,
                    },
                ),
            ),
            Err(m) => resolve_rule_ids_spec(
                string_views(valid@),
                string_views(disable@),
                match enable_only {
                    Some(s) => Some(s@),
                    None => None,
                },
            ) == Err::<(Seq<Seq<char>>, Option<Seq<Seq<char>>>), Seq<char>>(m@),
        },
{
    if let Some(i) = find_unknown(disable, valid) {
        return Err(unknown_rule_error(disable[i].as_str(), valid));
    }
    let disabled = crate::text::clone_strings(disable);
    match enable_only {
        None => Ok((disabled, None)),
        Some(s) => {
            let ids = split_rule_ids(s);
            match find_unknown(&ids, valid) {
                Some(i) => Err(unknown_rule_error(ids[i].as_str(), valid)),
                None => Ok((disabled, Some(ids))),
            }
        },
    }
}

/// Rewrite records as plain values: rule id and line.
pub open spec fn record_views(v: Seq<(String, usize)>) -> Seq<(Seq<char>, usize)> {
    v.map_values(|p: (String, usize)| (p.0@, p.1))
}

/// The rule ids of the records, each once, in order of first appearance.
pub open spec fn rule_order(recs: Seq<(Seq<char>, usize)>) -> Seq<Seq<char>>
    decreases recs.len(),
{
    if recs.len() == 0 {
        Seq::empty()
    } else {
        let o = rule_order(recs.drop_last());
        if o.contains(recs.last().0) {
            o
        } else {
            o.push(recs.last().0)
        }
    }
}

/// The lines of the records of rule `id`, in order.
pub open spec fn rule_lines(recs: Seq<(Seq<char>, usize)>, id: Seq<char>) -> Seq<usize> {
    recs.filter(|r: (Seq<char>, usize)| r.0 == id).map_values(|r: (Seq<char>, usize)| r.1)
}

/// Strictly ascending.
pub open spec fn strictly_ascending(s: Seq<usize>) -> bool {
    forall|i: int, j: int| 0 <= i < j < s.len() ==> s[i] < s[j]
}

/// The distinct values of `v`, in ascending order.
pub fn sorted_unique(v: &Vec<usize>) -> (r: Vec<usize>)
    ensures
        strictly_ascending(r@),
        forall|x: usize| r@.contains(x) <==> v@.contains(x),
{
    let mut out: Vec<usize> = Vec::new();
    let mut i: usize = 0;
    while i < v.len()
        invariant
            i <= v@.len(),
            strictly_ascending(out@),
            forall|x: usize| out@.contains(x) <==> v@.take(i as int).contains(x),
        decreases v@.len() - i,
    {
        let x = v[i];
        let mut p: usize = 0;
        while p < out.len() && out[p] < x
            invariant
                p <= out@.len(),
                forall|q: int| 0 <= q < p ==> out@[q] < x,
            decreases out@.len() - p,
        {
            p += 1;
        }
        let ghost before = out@;
        if p < out.len() && out[p] == x {
        } else {
            out.insert(p, x);
            proof {
                assert forall|a: int, b: int| 0 <= a < b < out@.len() implies out@[a] < out@[b] by {
                    if b < p {
                    } else if b == p {
                        assert(out@[a] == before[a]);
                    } else if a < p {
                        assert(out@[b] == before[b - 1]);
                        assert(before[b - 1] >= x || b - 1 >= p);
                        if b - 1 > p {
                            assert(before[p as int] < before[b - 1]);
                        }
                    } else if a == p {
                        assert(out@[b] == before[b - 1]);
                        if b - 1 > p {
                            assert(before[p as int] < before[b - 1]);
                        }
                    } else {
                        assert(out@[a] == before[a - 1]);
                        assert(out@[b] == before[b - 1]);
                    }
                }
            }
        }
        proof {
            let nv = v@.take(i + 1);
            assert(nv =~= v@.take(i as int).push(x));
            assert forall|y: usize| out@.contains(y) <==> nv.contains(y) by {
                if out@.contains(y) {
                    let k = choose|k: int| 0 <= k < out@.len() && out@[k] == y;
                    if y != x {
                        if out@.len() > before.len() {
                            if k < p {
                                assert(before[k] == y);
                            } else {
                                assert(before[k - 1] == y);
                            }
                        } else {
                            assert(before[k] == y);
                        }
                        assert(before.contains(y));
                        assert(v@.take(i as int).contains(y));
                        let m = choose|m: int| 0 <= m < i && v@.take(i as int)[m] == y;
                        assert(nv[m] == y);
                    } else {
                        assert(nv[i as int] == y);
                    }
                }
                if nv.contains(y) {
                    let m = choose|m: int| 0 <= m < nv.len() && nv[m] == y;
                    if m < i {
                        assert(v@.take(i as int)[m] == y);
                        assert(before.contains(y));
                        let k = choose|k: int| 0 <= k < before.len() && before[k] == y;
                        if out@.len() > before.len() {
                            if k < p {
                                assert(out@[k] == y);
                            } else {
                                assert(out@[k + 1] == y);
                            }
                        } else {
                            assert(out@[k] == y);
                        }
                    } else {
                        assert(y == x);
                        if out@.len() > before.len() {
                            assert(out@[p as int] == x);
                        } else {
                            assert(out@[p as int] == x);
                        }
                    }
                }
            }
        }
        i += 1;
    }
    assert(v@.take(i as int) =~= v@);
    out
}

/// What the report says of one rule: how many rewrites it made and on
/// which lines (each once, ascending).
pub struct RuleSummary {
    /// The rule.
    pub rule_id: String,
    /// Number of rewrites.
    pub count: usize,
    /// Lines rewritten, distinct and ascending.
    pub lines: Vec<usize>,
}

/// The per-rule summaries of the rewrite records `(rule id, line)`, rules
/// in order of first appearance.
pub fn summarize_rewrites(records: &Vec<(String, usize)>) -> (r: Vec<RuleSummary>)
    ensures
        r@.len() == rule_order(record_views(records@)).len(),
        forall|k: int|
            0 <= k < r@.len() ==> {
                let id = rule_order(record_views(records@))[k];
                &&& (#[trigger] r@[k]).rule_id@ == id
                &&& r@[k].count == rule_lines(record_views(records@), id).len()
                &&& strictly_ascending(r@[k].lines@)
                &&& forall|x: usize| r@[k].lines@.contains(x) <==> rule_lines(record_views(records@), id).contains(x)
            },
{
    let ghost rv = record_views(records@);
    // the rules in order of first appearance
    let mut order: Vec<String> = Vec::new();
    let mut i: usize = 0;
    while i < records.len()
        invariant
            i <= records@.len(),
            rv == record_views(records@),
            string_views(order@) == rule_order(rv.take(i as int)),
        decreases records@.len() - i,
    {
        assert(rv.take(i + 1).drop_last() =~= rv.take(i as int));
        let id = &records[i].0;
        if !contains_string(&order, id.as_str()) {
            let c = id.clone();
            proof {
                crate::text::lemma_views_push(order@, c);
            }
            order.push(c);
        }
        i += 1;
    }
    assert(rv.take(i as int) =~= rv);
    let ghost ov = string_views(order@);
    let mut out: Vec<RuleSummary> = Vec::new();
    let mut k: usize = 0;
    while k < order.len()
        invariant
            k <= order@.len(),
            rv == record_views(records@),
            ov == string_views(order@),
            ov == rule_order(rv),
            out@.len() == k,
            forall|j: int|
                0 <= j < k ==> {
                    let id = ov[j];
                    &&& (#[trigger] out@[j]).rule_id@ == id
                    &&& out@[j].count == rule_lines(rv, id).len()
                    &&& strictly_ascending(out@[j].lines@)
                    &&& forall|x: usize| out@[j].lines@.contains(x) <==> rule_lines(rv, id).contains(x)
                },
        decreases order@.len() - k,
    {
        let id = &order[k];
        let ghost idv = id@;
        let mut lines: Vec<usize> = Vec::new();
        let mut j: usize = 0;
        while j < records.len()
            invariant
                j <= records@.len(),
                rv == record_views(records@),
                idv == id@,
                lines@ == rule_lines(rv.take(j as int), idv),
            decreases records@.len() - j,
        {
            proof {
                reveal_with_fuel(Seq::<_>::filter, 1);
                assert(rv.take(j + 1).drop_last() =~= rv.take(j as int));
            }
            if str_eq(records[j].0.as_str(), id.as_str()) {
                lines.push(records[j].1);
                proof {
                    assert(lines@ =~= rule_lines(rv.take(j + 1), idv));
                }
            } else {
                proof {
                    assert(lines@ =~= rule_lines(rv.take(j + 1), idv));
                }
            }
            j += 1;
        }
        assert(rv.take(j as int) =~= rv);
        let uniq = sorted_unique(&lines);
        out.push(RuleSummary { rule_id: id.clone(), count: lines.len(), lines: uniq });
        k += 1;
    }
    out
}

/// Decimal texts of numbers.
pub open spec fn decimals(s: Seq<usize>) -> Seq<Seq<char>> {
    s.map_values(|n: usize| decimal(n as nat))
}

/// The report line of one rule: its id padded to 22 characters, the
/// number of rewrites, and the lines (the whole file for the line-ending
/// rule).
pub open spec fn rule_line_spec(s: RuleSummary) -> Seq<char> {
    "  "@ + pad_right(s.rule_id@, 22) + " \u{d7}"@ + decimal(s.count as nat) + " ("@ + (if s.rule_id@ == "R-CRLF"@ {
        "(whole file)"@
    } else {
        "lines "@ + join(decimals(s.lines@), ", "@)
    }) + ")"@
}

/// The report line of one rule.
pub fn rule_line(s: &RuleSummary) -> (r: String)
    ensures
        r@ == rule_line_spec(*s),
{
    let mut out = owned("  ");
    push_padded(&mut out, s.rule_id.as_str(), 22);
    push_str(&mut out, " \u{d7}");
    push_str(&mut out, decimal_string(s.count as u64).as_str());
    push_str(&mut out, " (");
    if str_eq(s.rule_id.as_str(), "R-CRLF") {
        push_str(&mut out, "(whole file)");
    } else {
        let mut parts: Vec<String> = Vec::new();
        let mut i: usize = 0;
        while i < s.lines.len()
            invariant
                i <= s.lines@.len(),
                string_views(parts@) == decimals(s.lines@.take(i as int)),
            decreases s.lines@.len() - i,
        {
            let d = decimal_string(s.lines[i] as u64);
            proof {
                crate::text::lemma_views_push(parts@, d);
                assert(decimals(s.lines@.take(i + 1)) =~= decimals(s.lines@.take(i as int)).push(d@));
            }
            parts.push(d);
            i += 1;
        }
        assert(s.lines@.take(i as int) =~= s.lines@);
        push_str(&mut out, "lines ");
        push_str(&mut out, join_strings(&parts, ", ").as_str());
    }
    push_str(&mut out, ")");
    out
}

} // verus!
