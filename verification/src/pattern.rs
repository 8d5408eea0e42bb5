//! The optional banned-name filter: a compiled regular expression from the
//! regex crate, held opaque. What a given compiled regex accepts is named by
//! an uninterpreted predicate, so the sanitizer's contract can say exactly
//! which tokens survive without restating the regex language.

use vstd::prelude::*;

verus! {

#[verifier::external_type_specification]
#[verifier::external_body]
pub struct ExRegex(regex::Regex);

#[verifier::external_type_specification]
#[verifier::external_body]
pub struct ExRegexError(regex::Error);

/// Whether the compiled regex `re` matches somewhere in `text`. A compiled
/// regex decides this from its value and the text alone, so the predicate
/// is a function of the two.
pub uninterp spec fn regex_accepts(re: &regex::Regex, text: Seq<char>) -> bool;

/// Relies on regex::Regex::is_match: reports whether the regex matches
/// anywhere in the haystack, deterministically for a given compiled regex.
#[verifier::external_body]
fn regex_is_match(re: &regex::Regex, text: &str) -> (r: bool)
    ensures
        r == regex_accepts(re, text@),
{
    re.is_match(text)
}

/// Whether the regex crate compiles the given pattern text: acceptance is
/// decided by the pattern's characters alone.
pub uninterp spec fn pattern_compiles(p: Seq<char>) -> bool;

/// Relies on regex::Regex::new: compiles a pattern, returning an error on
/// invalid pattern syntax; whether it succeeds depends on the pattern text
/// alone.
#[verifier::external_body]
fn regex_compile(pattern: &str) -> (r: Result<regex::Regex, regex::Error>)
    ensures
        r is Ok <==> pattern_compiles(pattern@),
{
    regex::Regex::new(pattern)
}

/// Compiles the optional banned-name filter pattern: a compiled filter for
/// every pattern the regex crate accepts, a configuration error for every
/// pattern it rejects.
pub fn compile_banned_filter(pattern: &str) -> (r: Result<regex::Regex, crate::ScanError>)
    ensures
        r is Ok <==> pattern_compiles(pattern@),
        r matches Err(e) ==> e == crate::ScanError::InvalidFilterPattern,
{
    match regex_compile(pattern) {
        Ok(re) => Ok(re),
        Err(_) => Err(crate::ScanError::InvalidFilterPattern),
    }
}

/// Whether a token passes the optional name filter: with no filter every
/// token passes, with one exactly the tokens its regex accepts pass.
pub open spec fn passes_filter(filter: Option<&regex::Regex>, t: Seq<char>) -> bool {
    match filter {
        None => true,
        Some(re) => regex_accepts(re, t),
    }
}

/// Exec twin of [`passes_filter`].
pub fn token_passes(filter: Option<&regex::Regex>, t: &str) -> (r: bool)
    ensures
        r == passes_filter(filter, t@),
{
    match filter {
        None => true,
        Some(re) => regex_is_match(re, t),
    }
}

} // verus!
