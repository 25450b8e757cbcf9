//! User-supplied filter and details patterns. The patterns themselves are
//! regular expressions handled by the regex crate; the library states of
//! each capture only that it is a contiguous part of the searched text.
use vstd::prelude::*;

verus! {

/// Declares regex::Regex so compiled patterns can live in configuration
/// fields; the value is opaque here.
#[verifier::external_type_specification]
#[verifier::external_body]
pub struct ExRegex(regex::Regex);

/// Declares regex::Error, the report of a pattern that does not compile.
#[verifier::external_type_specification]
#[verifier::external_body]
pub struct ExRegexError(regex::Error);

/// `sub` occurs contiguously in `s`.
pub open spec fn is_substring_of(sub: Seq<char>, s: Seq<char>) -> bool {
    exists|i: int, j: int| 0 <= i <= j <= s.len() && sub == s.subrange(i, j)
}

/// Whether a pattern text compiles as a regular expression; compilation
/// depends on the pattern text alone.
pub uninterp spec fn pattern_compiles(src: Seq<char>) -> bool;

/// Relies on regex::Regex::new: compiles a pattern, or reports that it
/// cannot be used. Whether it succeeds is a function of the pattern text.
#[verifier::external_body]
pub(crate) fn regex_new(src: &str) -> (r: Result<regex::Regex, regex::Error>)
    ensures
        (r is Ok) == pattern_compiles(src@),
{
    regex::Regex::new(src)
}

/// Relies on regex::Regex::captures and regex::Captures::get: the text of
/// capture group 1 of the first match. A match borrows from the searched
/// text, so the result is a contiguous part of it.
#[verifier::external_body]
pub(crate) fn regex_capture_group1(re: &regex::Regex, hay: &str) -> (r: Option<String>)
    ensures
        r matches Some(s) ==> is_substring_of(s@, hay@),
{
    re.captures(hay).and_then(|cap| cap.get(1).map(|g| String::from(g.as_str())))
}

/// Relies on regex::Regex::captures and regex::Captures::name: the text of
/// the named capture group of the first match, a contiguous part of the
/// searched text.
#[verifier::external_body]
pub(crate) fn regex_capture_named(re: &regex::Regex, hay: &str, name: &str) -> (r: Option<String>)
    ensures
        r matches Some(s) ==> is_substring_of(s@, hay@),
{
    re.captures(hay).and_then(|cap| cap.name(name).map(|g| String::from(g.as_str())))
}

/// Relies on regex::Regex::capture_names: the names of the pattern's named
/// capture groups, in order of their opening parentheses.
#[verifier::external_body]
pub(crate) fn regex_capture_names(re: &regex::Regex) -> (r: Vec<String>) {
    let mut out = Vec::new();
    for n in re.capture_names() {
        match n {
            Some(s) => out.push(String::from(s)),
            None => {},
        }
    }
    out
}

/// Relies on the Display impl of regex::Error: a readable description of
/// why a pattern was rejected.
#[verifier::external_body]
pub(crate) fn regex_error_message(e: &regex::Error) -> (r: String) {
    e.to_string()
}

} // verus!
