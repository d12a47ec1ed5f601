//! Regular expressions, as far as the line parser needs them: compiling a
//! pattern once and reading the capture groups of its first match.

use vstd::prelude::*;

verus! {

/// `regex::Regex`, a compiled expression, taken as it stands.
#[verifier::external_type_specification]
#[verifier::external_body]
pub struct ExRegex(regex::Regex);

/// `regex::Error`, the reason for which a pattern does not compile.
#[verifier::external_type_specification]
#[verifier::external_body]
pub struct ExRegexError(regex::Error);

/// The capture groups of the first match of `pattern` in `text`, the whole
/// match first, or `None` where `text` holds no match. A group that took no
/// part in the match is `None`.
pub uninterp spec fn captures_of(pattern: Seq<char>, text: Seq<char>) -> Option<
    Seq<Option<Seq<char>>>,
>;

/// Whether `pattern` compiles with the default options: it is well formed,
/// and the expression compiled from it stays within the default size limit.
pub uninterp spec fn compiles(pattern: Seq<char>) -> bool;

/// Why a pattern could not be used.
#[derive(Debug, Clone, Copy, PartialEq, Eq)]
pub enum PatternError {
    /// The pattern text was refused by the compiler of expressions.
    Rejected,
}

/// A regular expression, compiled with the default options, together with
/// the text it was compiled from. Only `Pattern::compile` makes one.
pub struct Pattern {
    re: regex::Regex,
    source: String,
}

impl View for Pattern {
    type V = Seq<char>;

    /// The pattern text that the expression was compiled from.
    closed spec fn view(&self) -> Seq<char> {
        self.source@
    }
}

/// Calls `regex::Regex::new`, which compiles a pattern with the default
/// options or reports why it cannot, and keeps the pattern text beside the
/// compiled expression. Whether it compiles is a function of the pattern
/// alone; the contract gives that a name and says of no pattern that it
/// compiles. Its other claim is that the text kept is the text given.
#[verifier::external_body]
pub(crate) fn regex_new(pattern: &str) -> (r: Result<Pattern, regex::Error>)
    ensures
        r is Ok == compiles(pattern@),
        r matches Ok(p) ==> p@ == pattern@,
{
    regex::Regex::new(pattern).map(|re| Pattern { re, source: pattern.to_string() })
}

/// Calls `regex::Regex::captures`, which searches for the first match, and
/// copies each group of the match it finds into a string. The search is a
/// function of the pattern and the text alone; the contract gives its
/// result a name and claims nothing else of it.
#[verifier::external_body]
pub(crate) fn regex_captures(pattern: &Pattern, text: &str) -> (r: Option<Vec<Option<String>>>)
    ensures
        r.deep_view() == captures_of(pattern@, text@),
{
    pattern.re.captures(text).map(
        |found| found.iter().map(|group| group.map(|m| m.as_str().to_string())).collect(),
    )
}

impl Pattern {
    /// Compiles `text`. It succeeds exactly where `text` compiles, and then
    /// hands out the expression compiled from `text`.
    pub fn compile(text: &str) -> (r: Result<Pattern, PatternError>)
        ensures
            r is Ok == compiles(text@),
            r matches Ok(p) ==> p@ == text@,
            r matches Err(e) ==> e == PatternError::Rejected,
    {
        match regex_new(text) {
            Ok(p) => Ok(p),
            Err(_) => Err(PatternError::Rejected),
        }
    }

    /// The capture groups of the first match in `text`, if there is one.
    pub fn captures(&self, text: &str) -> (r: Option<Vec<Option<String>>>)
        ensures
            r.deep_view() == captures_of(self@, text@),
    {
        regex_captures(self, text)
    }
}

} // verus!
