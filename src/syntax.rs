use vstd::prelude::*;

verus! {

/// Whether a text is exactly one Rust statement.
pub uninterp spec fn parses_as_statement(text: Seq<char>) -> bool;

/// The value of a Rust string literal written as `raw`, if `raw` is one.
pub uninterp spec fn string_literal_value(raw: Seq<char>) -> Option<Seq<char>>;

/// Relies on `syn::parse_str::<syn::Stmt>`, which succeeds exactly when the
/// whole text parses as one statement.
#[verifier::external_body]
pub(crate) fn is_statement(text: &str) -> (r: bool)
    ensures
        r == parses_as_statement(text@),
{
    syn::parse_str::<syn::Stmt>(text).is_ok()
}

/// Relies on `syn::parse_str::<syn::LitStr>` and `syn::LitStr::value`: a string
/// literal, plain or raw, and the text it stands for.
#[verifier::external_body]
pub(crate) fn string_value(raw: &str) -> (r: Option<String>)
    ensures
        match r {
            Some(s) => string_literal_value(raw@) == Some(s@),
            None => string_literal_value(raw@) is None,
        },
{
    match syn::parse_str::<syn::LitStr>(raw) {
        Ok(lit) => Some(lit.value()),
        Err(_) => None,
    }
}

} // verus!
