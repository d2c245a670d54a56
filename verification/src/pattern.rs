//! Regular-expression matching through the `regex` crate.
use vstd::prelude::*;

verus! {

#[verifier::external_type_specification]
#[verifier::external_body]
pub struct ExRegex(regex::Regex);

/// Whether `regex::Regex::new` accepts the pattern.
pub uninterp spec fn regex_compiles(pattern: Seq<char>) -> bool;

/// Whether the regex compiled from `pattern` matches somewhere in `text`
/// (`regex::Regex::is_match`).
pub uninterp spec fn regex_finds(pattern: Seq<char>, text: Seq<char>) -> bool;

/// regex `Regex::new`: compiles a pattern. The contract names whether the
/// pattern compiles and states nothing else; the regex syntax is the crate's.
#[verifier::external_body]
fn compile_regex(pattern: &str) -> (r: Option<regex::Regex>)
    ensures
        r is Some <==> regex_compiles(pattern@),
{
    regex::Regex::new(pattern).ok()
}

/// A compiled regular expression together with its source. The fields are
/// private and [`CompiledPattern::compile`] is the only constructor, so the
/// regex is always the one compiled from `source`.
pub struct CompiledPattern {
    source: String,
    regex: regex::Regex,
}

/// regex `Regex::is_match`: whether the pattern matches somewhere in `text`.
/// The contract names the result as a function of the source pattern and the
/// text.
#[verifier::external_body]
fn regex_is_match(p: &CompiledPattern, text: &str) -> (r: bool)
    ensures
        r == regex_finds(p.source@, text@),
{
    p.regex.is_match(text)
}

impl CompiledPattern {
    /// The pattern this regex was compiled from.
    pub closed spec fn pattern(&self) -> Seq<char> {
        self.source@
    }

    /// Compiles `pattern`; `None` when the regex crate rejects it.
    pub fn compile(pattern: &str) -> (r: Option<CompiledPattern>)
        ensures
            r is Some <==> regex_compiles(pattern@),
            r matches Some(p) ==> p.pattern() == pattern@,
    {
        match compile_regex(pattern) {
            Some(regex) => Some(CompiledPattern { source: pattern.to_owned(), regex }),
            None => None,
        }
    }

    /// Whether the pattern matches somewhere in `text`.
    pub fn is_match(&self, text: &str) -> (r: bool)
        ensures
            r == regex_finds(self.pattern(), text@),
    {
        regex_is_match(self, text)
    }
}

} // verus!
