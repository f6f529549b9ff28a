//! JSON text for the values that the embedding service is sent.

use vstd::prelude::*;

verus! {

/// The JSON string literal for a text: what `serde_json::to_string` returns
/// for a `str`, with the quotation marks around it and the escapes inside.
pub uninterp spec fn json_string(text: Seq<char>) -> Seq<char>;

/// `serde_json::to_string` on a `str`. The literal is a function of the text
/// alone. Writing a `str` into memory does not fail, so the error case of
/// the call does not arise.
#[verifier::external_body]
pub(crate) fn quote(text: &str) -> (literal: String)
    ensures
        literal@ == json_string(text@),
{
    match serde_json::to_string(text) {
        Ok(literal) => literal,
        Err(_) => String::new(),
    }
}

} // verus!
