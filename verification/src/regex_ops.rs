//! The regular-expression leg of the filter engine: patterns are checked
//! when a path is compiled and matched while a filter runs, both through
//! the outside `regex` crate.
use vstd::prelude::*;

verus! {

/// Whether `pat` is a pattern that `regex::Regex::new` accepts.
pub uninterp spec fn regex_ok(pat: Seq<char>) -> bool;

/// Whether the regular expression `pat` matches anywhere in `text`
/// (meaningful for a `pat` with `regex_ok`).
pub uninterp spec fn regex_matches(pat: Seq<char>, text: Seq<char>) -> bool;

/// Relies on regex::Regex::new: whether a pattern compiles depends on the
/// pattern alone.
#[verifier::external_body]
pub(crate) fn regex_valid(pat: &str) -> (r: bool)
    ensures
        r == regex_ok(pat@),
{
    regex::Regex::new(pat).is_ok()
}

/// Relies on regex::Regex::new and regex::Regex::is_match: whether a valid
/// pattern matches a haystack depends on the pattern and the haystack
/// alone; a pattern that does not compile matches nothing.
#[verifier::external_body]
pub(crate) fn regex_is_match(pat: &str, text: &str) -> (r: bool)
    ensures
        regex_ok(pat@) ==> r == regex_matches(pat@, text@),
        !regex_ok(pat@) ==> r == false,
{
    match regex::Regex::new(pat) {
        Ok(re) => re.is_match(text),
        Err(_) => false,
    }
}

} // verus!
