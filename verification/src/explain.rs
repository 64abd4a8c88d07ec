//! The pure pieces of `scout explain <OWNER/REPO#N>`, which prints the
//! per-heuristic score breakdown of one issue. The breakdown itself is
//! floating-point and is rendered by the program around this library.

use vstd::prelude::*;
use crate::text::{chars_of, push_char};

verus! {

/// What `sanitize_inline` writes for one character.
pub open spec fn inline_char(c: char) -> char {
    if c == '\r' || c == '\n' {
        ' '
    } else {
        c
    }
}

/// Replace newline characters with spaces so a multi-line issue title
/// renders as a single header line. The pipe character is left alone
/// because it is fine inside a heading.
pub fn sanitize_inline(s: &str) -> (out: String)
    ensures
        out@ == Seq::new(s@.len(), |i: int| inline_char(s@[i])),
        forall|i: int| 0 <= i < out@.len() ==> #[trigger] out@[i] != '\n' && out@[i] != '\r',
{
    let v = chars_of(s);
    let mut out = String::new();
    let mut i: usize = 0;
    while i < v.len()
        invariant
            i <= v.len(),
            v@ == s@,
            out@ == Seq::new(i as nat, |k: int| inline_char(s@[k])),
        decreases v.len() - i,
    {
        let c = v[i];
        if c == '\r' || c == '\n' {
            push_char(&mut out, ' ');
        } else {
            push_char(&mut out, c);
        }
        assert(out@ =~= Seq::new((i + 1) as nat, |k: int| inline_char(s@[k])));
        i += 1;
    }
    out
}

} // verus!
