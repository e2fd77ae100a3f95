//! Body-text normalization. The platform serves markdown with an inline
//! keyboard-key notation; every body that leaves the API client is rewritten
//! to the plain emphasis form the rendering layer expects, with surrounding
//! white space trimmed.

use vstd::prelude::*;

verus! {

use crate::text::{chars_of, replace_chars, replaced, string_of, trim_chars, trimmed};

/// The normalized form of a body: trimmed, with `<kbd>` notation rewritten
/// to bracketed strong emphasis.
pub open spec fn preprocessed(s: Seq<char>) -> Seq<char> {
    replaced(replaced(trimmed(s), "<kbd>"@, "**["@), "</kbd>"@, "]**"@)
}

/// Normalizes one body: trims it and rewrites `<kbd>`/`</kbd>` markers.
pub fn preprocess(input: String) -> (r: String)
    ensures
        r@ == preprocessed(input@),
{
    proof {
        reveal_strlit("<kbd>");
        reveal_strlit("</kbd>");
    }
    let v = chars_of(input.as_str());
    let t = trim_chars(&v);
    let open_pat = chars_of("<kbd>");
    let open_rep = chars_of("**[");
    let close_pat = chars_of("</kbd>");
    let close_rep = chars_of("]**");
    let r1 = replace_chars(&t, &open_pat, &open_rep);
    let r2 = replace_chars(&r1, &close_pat, &close_rep);
    string_of(&r2)
}

} // verus!
