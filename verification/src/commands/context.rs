//! `context` command: the lines of its token-count display.

use vstd::prelude::*;

use crate::runtime::context::{byte_len, BuiltContext};
use crate::runtime::duration::{decimal, decimal_string};
use crate::text::{owned, push_str, string_views};

verus! {

/// The lines of `context --token-count`: the estimate, the number of
/// sections, then each section's name and length in bytes.
pub open spec fn token_count_lines_spec(b: BuiltContext) -> Seq<Seq<char>> {
    seq!["Token estimate: "@ + decimal(b.token_estimate as nat), "Sections: "@ + decimal(b.sections@.len())]
        + Seq::new(
        b.sections@.len(),
        |i: int| "  "@ + b.sections@[i].name@ + " ("@ + decimal((byte_len(b.sections@[i].content@) as usize) as nat)
            + " chars)"@,
    )
}

/// The lines of `context --token-count`.
pub fn token_count_lines(b: &BuiltContext) -> (r: Vec<String>)
    ensures
        string_views(r@) == token_count_lines_spec(*b),
{
    let mut out: Vec<String> = Vec::new();
    let mut l1 = owned("Token estimate: ");
    push_str(&mut l1, decimal_string(b.token_estimate as u64).as_str());
    proof {
        crate::text::lemma_views_push(out@, l1);
    }
    out.push(l1);
    let mut l2 = owned("Sections: ");
    push_str(&mut l2, decimal_string(b.sections.len() as u64).as_str());
    proof {
        crate::text::lemma_views_push(out@, l2);
    }
    out.push(l2);
    let ghost f = |i: int| "  "@ + b.sections@[i].name@ + " ("@ + decimal(
        (byte_len(b.sections@[i].content@) as usize) as nat,
    ) + " chars)"@;
    let ghost head = string_views(out@);
    let mut i: usize = 0;
    while i < b.sections.len()
        invariant
            i <= b.sections@.len(),
            f == (|i: int| "  "@ + b.sections@[i].name@ + " ("@ + decimal(
                (byte_len(b.sections@[i].content@) as usize) as nat,
            ) + " chars)"@),
            head == seq!["Token estimate: "@ + decimal(b.token_estimate as nat), "Sections: "@ + decimal(b.sections@.len())],
            string_views(out@) == head + Seq::new(i as nat, f),
        decreases b.sections@.len() - i,
    {
        let s = &b.sections[i];
        let mut line = owned("  ");
        push_str(&mut line, s.name.as_str());
        push_str(&mut line, " (");
        push_str(&mut line, decimal_string(s.content.as_str().len() as u64).as_str());
        push_str(&mut line, " chars)");
        proof {
            crate::text::lemma_views_push(out@, line);
            assert(Seq::new((i + 1) as nat, f) =~= Seq::new(i as nat, f).push(f(i as int)));
        }
        out.push(line);
        i += 1;
    }
    proof {
        assert(string_views(out@) =~= token_count_lines_spec(*b));
    }
    out
}

} // verus!
