//! The boundary to the `regex` crate. A `LIKE` predicate carries a regular
//! expression; compiling and matching it are the work of the outside crate,
//! named here by two uninterpreted results and reached through two
//! wrappers whose contracts Verus believes.

use vstd::prelude::*;

verus! {

/// Whether `regex::Regex::new` accepts the pattern. Compilation success
/// depends on the pattern text alone.
pub uninterp spec fn regex_ok(pattern: Seq<char>) -> bool;

/// Whether the compiled pattern matches anywhere in the text. For a pattern
/// that compiles, the answer depends on the pattern and the text alone.
pub uninterp spec fn regex_match(pattern: Seq<char>, text: Seq<char>) -> bool;

/// Relies on `regex::Regex::new`: it accepts or rejects a pattern by its
/// text alone.
#[verifier::external_body]
pub fn regex_compiles(pattern: &str) -> (r: bool)
    ensures
        r == regex_ok(pattern@),
{
    regex::Regex::new(pattern).is_ok()
}

/// Relies on `regex::Regex::new` and `regex::Regex::is_match`: whether a
/// successfully compiled pattern matches somewhere in a text is a function
/// of the pattern and the text. On a pattern that does not compile the
/// answer is `false`; callers check compilation first.
#[verifier::external_body]
pub fn regex_find(pattern: &str, text: &str) -> (r: bool)
    ensures
        regex_ok(pattern@) ==> r == regex_match(pattern@, text@),
{
    match regex::Regex::new(pattern) {
        Ok(re) => re.is_match(text),
        Err(_) => false,
    }
}

} // verus!
