//! Regular expressions over document text, as compiled and run by the `regex` crate.
use vstd::prelude::*;

verus! {

#[verifier::external_type_specification]
#[verifier::external_body]
pub struct ExRegex(regex::Regex);

/// Whether `regex::Regex::new` accepts a pattern.
pub uninterp spec fn regex_valid(pattern: Seq<char>) -> bool;

/// Whether the regex compiled from `pattern` matches somewhere in `text`.
pub uninterp spec fn regex_is_match(pattern: Seq<char>, text: Seq<char>) -> bool;

/// A compiled regular expression and the pattern it was compiled from.
pub struct Pattern {
    source: Ghost<Seq<char>>,
    compiled: regex::Regex,
}

impl Pattern {
    /// The pattern this expression was compiled from.
    pub closed spec fn source(&self) -> Seq<char> {
        self.source@
    }
}

/// `regex::Regex::new`: compiles `pattern`, or `None` when the crate rejects it
/// (invalid syntax, or a compiled size over its default limit).
#[verifier::external_body]
pub(crate) fn compile_pattern(pattern: &str) -> (r: Option<Pattern>)
    ensures
        r is Some <==> regex_valid(pattern@),
        r matches Some(p) ==> p.source() == pattern@,
{
    match regex::Regex::new(pattern) {
        Ok(compiled) => Some(Pattern { source: Ghost(pattern@), compiled }),
        Err(_) => None,
    }
}

/// `regex::Regex::is_match`: whether the expression matches anywhere in `text`.
#[verifier::external_body]
pub(crate) fn pattern_is_match(pattern: &Pattern, text: &str) -> (r: bool)
    ensures
        r == regex_is_match(pattern.source(), text@),
{
    pattern.compiled.is_match(text)
}

} // verus!
