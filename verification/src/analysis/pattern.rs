//! Regular expressions, as the `regex` crate compiles and searches them.
use regex::Regex;
use vstd::prelude::*;

verus! {

/// A compiled regular expression. Nothing is known of what is inside.
#[verifier::external_type_specification]
#[verifier::external_body]
pub struct ExRegex(regex::Regex);

/// Why a pattern was refused. Nothing is known of what is inside.
#[verifier::external_type_specification]
#[verifier::external_body]
pub struct ExRegexError(regex::Error);

/// What `regex::Regex::new` makes of a pattern.
pub uninterp spec fn compiled(pattern: Seq<char>) -> Result<Regex, regex::Error>;

/// `regex::Regex::new` compiles a pattern with the default settings. Whether it
/// succeeds, and with what, is a function of the pattern.
pub assume_specification[ regex::Regex::new ](re: &str) -> (result: Result<
    Regex,
    regex::Error,
>)
    ensures
        result == compiled(re@),
;

/// What `regex::Regex::is_match` says of a text.
pub uninterp spec fn matches_in(regex: Regex, text: Seq<char>) -> bool;

/// `regex::Regex::is_match` says whether the expression matches anywhere in the
/// text, which is a function of the two.
pub assume_specification[ regex::Regex::is_match ](re: &Regex, haystack: &str) -> (found: bool)
    ensures
        found == matches_in(*re, haystack@),
;

/// What a `regex::Error` says when it is displayed.
pub uninterp spec fn error_text(error: regex::Error) -> Seq<char>;

/// Displaying a `regex::Error` gives words that are a function of the error.
#[verifier::external_body]
pub(crate) fn describe_error(error: &regex::Error) -> (words: String)
    ensures
        words@ == error_text(*error),
{
    error.to_string()
}

} // verus!
