//! Texts in quotes, as messages show them.

use vstd::prelude::*;

verus! {

/// What `format!("{:?}", s)` writes for a text.
pub uninterp spec fn quoted_text(s: Seq<char>) -> Seq<char>;

/// Whether `s` is made of printable ASCII characters that are neither quotes nor backslashes.
pub open spec fn needs_no_escape(s: Seq<char>) -> bool {
    forall|i: int|
        0 <= i < s.len() ==> ' ' <= #[trigger] s[i] <= '~' && s[i] != '"' && s[i] != '\''
            && s[i] != '\\'
}

/// Calls `format!` with `{:?}` on a text: what it writes is a function of the text, named
/// `quoted_text`. A text of printable ASCII without quotes and backslashes comes out between
/// two double quotes.
#[verifier::external_body]
pub(crate) fn quoted(s: &str) -> (r: String)
    ensures
        r@ == quoted_text(s@),
        needs_no_escape(s@) ==> r@ == seq!['"'] + s@ + seq!['"'],
{
    format!("{:?}", s)
}

} // verus!
