//! The key filter: regular-expression matching of entry names.
use vstd::prelude::*;

verus! {

/// Whether the pattern is a well-formed regular expression; what
/// `regex::Regex::new` accepts is a function of the pattern alone.
pub uninterp spec fn regex_ok(p: Seq<char>) -> bool;

/// Whether the pattern matches somewhere in the text; what
/// `regex::Regex::is_match` returns is a function of the pattern and the
/// text alone.
pub uninterp spec fn regex_match(p: Seq<char>, t: Seq<char>) -> bool;

/// Relies on regex::Regex::new and regex::Regex::is_match, one call of
/// each: `new` accepts a pattern by its syntax alone, and `is_match` tells
/// whether the compiled pattern matches anywhere in the text. The two are
/// taken together so that what the match means never parts from the
/// pattern that was compiled.
#[verifier::external_body]
pub(crate) fn regex_is_match(pattern: &str, text: &str) -> (r: Option<bool>)
    ensures
        r is Some <==> regex_ok(pattern@),
        r matches Some(b) ==> b == regex_match(pattern@, text@),
{
    regex::Regex::new(pattern).ok().map(|re| re.is_match(text))
}

/// Whether an entry name passes the optional filter: with no pattern, or
/// with one that does not compile, every name passes (the filter fails
/// open); otherwise the names the pattern matches pass.
pub open spec fn name_passes(filter: Option<Seq<char>>, name: Seq<char>) -> bool {
    match filter {
        None => true,
        Some(p) => !regex_ok(p) || regex_match(p, name),
    }
}

/// The view of an optional pattern string.
pub open spec fn filter_view(filter: Option<String>) -> Option<Seq<char>> {
    match filter {
        None => None,
        Some(p) => Some(p@),
    }
}

/// Decides whether a name passes the optional filter.
pub fn passes(filter: &Option<String>, name: &str) -> (r: bool)
    ensures
        r == name_passes(filter_view(*filter), name@),
{
    match filter {
        None => true,
        Some(p) => match regex_is_match(p.as_str(), name) {
            None => true,
            Some(b) => b,
        },
    }
}

} // verus!
