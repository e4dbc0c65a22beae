//! The regular-expression engine, as far as the stop conditions use it.
//!
//! Nothing in this file is proved: it records what the `regex` crate does.
use regex::Regex;
use vstd::prelude::*;

verus! {

/// `regex::Regex`, a compiled expression. Nothing of its inside is known here.
#[verifier::external_type_specification]
#[verifier::external_body]
pub struct ExRegex(regex::Regex);

/// `regex::Error`, the reason why a pattern was refused. It is carried, not
/// read.
#[verifier::external_type_specification]
#[verifier::external_body]
pub struct ExRegexError(regex::Error);

/// Whether `Regex::new` accepts a pattern.
pub uninterp spec fn regex_compiles(pattern: Seq<char>) -> bool;

/// The pattern text that `Regex::as_str` reports for a compiled expression.
pub uninterp spec fn regex_source(re: Regex) -> Seq<char>;

/// The answer of `Regex::is_match` for a compiled expression and a haystack.
pub uninterp spec fn regex_accepts(re: Regex, haystack: Seq<char>) -> bool;

/// The characters that `regex::escape` puts a backslash in front of.
pub open spec fn is_meta_character(c: char) -> bool {
    c == '\\' || c == '.' || c == '+' || c == '*' || c == '?' || c == '(' || c == ')' || c == '|'
        || c == '[' || c == ']' || c == '{' || c == '}' || c == '^' || c == '$' || c == '#'
        || c == '&' || c == '-' || c == '~'
}

/// One character as `regex::escape` writes it.
pub open spec fn escaped_char(c: char) -> Seq<char> {
    if is_meta_character(c) {
        seq!['\\', c]
    } else {
        seq![c]
    }
}

/// A text as `regex::escape` writes it: character by character.
pub open spec fn escaped(text: Seq<char>) -> Seq<char> {
    text.map_values(|c: char| escaped_char(c)).flatten()
}

/// `regex::escape`: every meta character of `text` gets a backslash in front
/// of it, every other character is copied.
#[verifier::external_body]
pub(crate) fn escape(text: &str) -> (quoted: String)
    ensures
        quoted@ == escaped(text@),
{
    regex::escape(text)
}

/// `Regex::new`. Whether a pattern is accepted depends on the pattern alone,
/// and an accepted pattern is what the compiled expression reports as its
/// source.
#[verifier::external_body]
pub(crate) fn compile(pattern: &str) -> (r: Result<Regex, regex::Error>)
    ensures
        r is Ok <==> regex_compiles(pattern@),
        r matches Ok(re) ==> regex_source(re) == pattern@,
{
    Regex::new(pattern)
}

/// `Regex::is_match`: the answer depends on the compiled expression and on
/// the haystack alone.
#[verifier::external_body]
pub(crate) fn is_match(re: &Regex, haystack: &str) -> (found: bool)
    ensures
        found == regex_accepts(*re, haystack@),
{
    re.is_match(haystack)
}

/// `Regex::as_str`: the pattern that the expression was compiled from.
#[verifier::external_body]
pub(crate) fn source_of(re: &Regex) -> (pattern: String)
    ensures
        pattern@ == regex_source(*re),
{
    re.as_str().to_owned()
}

/// `Regex::clone`: the copy cannot be told from the expression it was made
/// of. It has the same source and gives the same answers.
pub assume_specification[ <Regex as Clone>::clone ](re: &Regex) -> (copy: Regex)
    ensures
        copy == *re,
;

} // verus!
