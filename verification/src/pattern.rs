//! Regular expressions, through the `regex` crate, and glob patterns built
//! on them.

use vstd::prelude::*;

use crate::text::{chars_of, find_char, join, join_strings, lemma_find_char, owned, push_str, string_of_range, string_views};

verus! {

/// Characters that `regex::escape` escapes.
pub open spec fn is_meta(c: char) -> bool {
    c == '\\' || c == '.' || c == '+' || c == '*' || c == '?' || c == '(' || c == ')' || c == '|' || c == '['
        || c == ']' || c == '{' || c == '}' || c == '^' || c == '$' || c == '#' || c == '&' || c == '-' || c
        == '~'
}

/// `s` with a backslash before each meta character.
pub open spec fn escape_spec(s: Seq<char>) -> Seq<char>
    decreases s.len(),
{
    if s.len() == 0 {
        Seq::empty()
    } else {
        escape_spec(s.drop_last()) + if is_meta(s.last()) {
            seq!['\\', s.last()]
        } else {
            seq![s.last()]
        }
    }
}

/// Escapes the regular-expression meta characters of `text`.
///
/// Trusted wrapper around `regex::escape`, which puts a backslash before
/// each of `\ . + * ? ( ) | [ ] { } ^ $ # & - ~` and copies every other
/// character.
#[verifier::external_body]
fn regex_escape(text: &str) -> (r: String)
    ensures
        r@ == escape_spec(text@),
{
    regex::escape(text)
}

/// The error message of compiling `pattern` as a regular expression, or
/// `None` when it compiles.
pub uninterp spec fn regex_error(pattern: Seq<char>) -> Option<Seq<char>>;

/// Whether the compiled `pattern` matches somewhere in `text`.
pub uninterp spec fn regex_finds(pattern: Seq<char>, text: Seq<char>) -> bool;

/// Compiles `pattern` and searches `text` with it.
///
/// Trusted wrapper around `regex::Regex::new` and `Regex::is_match`: an
/// error carries the message of the compile error, named `regex_error`;
/// otherwise the result is `regex_finds` of the pattern and the text.
#[verifier::external_body]
pub(crate) fn regex_search(pattern: &str, text: &str) -> (r: Result<bool, String>)
    ensures
        match r {
            Ok(b) => regex_error(pattern@) is None && b == regex_finds(pattern@, text@),
            Err(m) => regex_error(pattern@) == Some(m@),
        },
{
    match regex::Regex::new(pattern) {
        Ok(re) => Ok(re.is_match(text)),
        Err(e) => Err(e.to_string()),
    }
}

/// The pieces of `s` between occurrences of `c`, as `str::split` yields
/// them.
pub open spec fn split_char(s: Seq<char>, c: char) -> Seq<Seq<char>>
    decreases s.len(),
{
    match find_char(s, c) {
        None => seq![s],
        Some(i) => if 0 <= i < s.len() {
            seq![s.take(i)] + split_char(s.skip(i + 1), c)
        } else {
            seq![s]
        },
    }
}

/// Splits `s` at each `c`.
pub fn split_on(s: &str, c: char) -> (r: Vec<String>)
    ensures
        string_views(r@) == split_char(s@, c),
{
    let cs = chars_of(s);
    let n = cs.len();
    let mut out: Vec<String> = Vec::new();
    let mut start: usize = 0;
    assert(cs@.skip(0) =~= cs@);
    loop
        invariant
            n == cs@.len(),
            cs@ == s@,
            start <= n,
            string_views(out@) + split_char(cs@.skip(start as int), c) == split_char(s@, c),
        decreases n - start,
    {
        let ghost t = cs@.skip(start as int);
        let mut j: usize = start;
        while j < n && cs[j] != c
            invariant
                n == cs@.len(),
                start <= j <= n,
                forall|i: int| start <= i < j ==> cs@[i] != c,
            decreases n - j,
        {
            j += 1;
        }
        let piece = string_of_range(cs.as_slice(), start, j);
        let ghost before = out@;
        proof {
            crate::text::lemma_views_push(before, piece);
            lemma_find_char(t, c);
        }
        out.push(piece);
        if j == n {
            proof {
                assert(t =~= cs@.subrange(start as int, n as int));
                assert(find_char(t, c) is None) by {
                    if find_char(t, c) is Some {
                        let p = find_char(t, c)->0;
                        assert(t[p] == cs@[start + p]);
                    }
                }
                assert(string_views(out@) =~= string_views(before) + split_char(t, c));
            }
            return out;
        }
        proof {
            let k = j - start;
            assert(t[k] == c);
            match find_char(t, c) {
                Some(p) => {
                    if p < k {
                        assert(t[p] == cs@[start + p]);
                    }
                },
                None => {},
            }
            assert(t.take(k) =~= cs@.subrange(start as int, j as int));
            assert(t.skip(k + 1) =~= cs@.skip(j + 1));
            assert(string_views(out@) + split_char(cs@.skip(j + 1), c) =~= string_views(before) + split_char(t, c));
        }
        start = j + 1;
    }
}

/// The regular expression of a glob: `*` matches any run of characters
/// other than `/`, everything else matches itself, and the whole id must
/// match.
pub open spec fn glob_regex(pattern: Seq<char>) -> Seq<char> {
    "^"@ + join(split_char(pattern, '*').map_values(|p: Seq<char>| escape_spec(p)), "[^/]*"@) + "$"@
}

/// Whether `id` matches the glob `pattern` (`*` matches any run of
/// characters other than `/`); false when the pattern cannot be compiled.
pub fn glob_matches(pattern: &str, id: &str) -> (r: bool)
    ensures
        r == match regex_error(glob_regex(pattern@)) {
            None => regex_finds(glob_regex(pattern@), id@),
            Some(_) => false,
        },
{
    let pieces = split_on(pattern, '*');
    let mut escaped: Vec<String> = Vec::new();
    let mut i: usize = 0;
    while i < pieces.len()
        invariant
            i <= pieces@.len(),
            string_views(escaped@) == string_views(pieces@).take(i as int).map_values(|p: Seq<char>| escape_spec(p)),
        decreases pieces@.len() - i,
    {
        let e = regex_escape(pieces[i].as_str());
        proof {
            crate::text::lemma_views_push(escaped@, e);
            assert(string_views(pieces@).take(i + 1) =~= string_views(pieces@).take(i as int).push(pieces@[i as int]@));
        }
        escaped.push(e);
        proof {
            assert(string_views(escaped@) =~= string_views(pieces@).take(i + 1).map_values(|p: Seq<char>| escape_spec(p)));
        }
        i += 1;
    }
    assert(string_views(pieces@).take(i as int) =~= string_views(pieces@));
    let body = join_strings(&escaped, "[^/]*");
    let mut re = owned("^");
    push_str(&mut re, body.as_str());
    push_str(&mut re, "$");
    match regex_search(re.as_str(), id) {
        Ok(b) => b,
        Err(_) => false,
    }
}

} // verus!
