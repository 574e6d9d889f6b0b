//! Search patterns for listing: a compiled regular expression carried
//! together with the text it was compiled from, so that matching can be
//! spoken of as a function of that text.

use vstd::prelude::*;

use crate::error::PatternProblem;
use regex::Error as RegexFault;

verus! {

#[verifier::external_type_specification]
#[verifier::external_body]
pub struct ExRegex(regex::Regex);

#[verifier::external_type_specification]
#[verifier::external_body]
pub struct ExRegexError(RegexFault);

/// Whether this pattern text compiles as a regular expression; decided by
/// `regex::Regex::new` from the text alone.
pub uninterp spec fn regex_compiles(pattern: Seq<char>) -> bool;

/// Whether this pattern matches somewhere in this text; decided by
/// `regex::Regex::is_match` from the pattern and text alone.
pub uninterp spec fn regex_is_match(pattern: Seq<char>, text: Seq<char>) -> bool;

/// A compiled search pattern and the text it was compiled from.
pub struct Pattern {
    re: regex::Regex,
    source: String,
}

impl View for Pattern {
    type V = Seq<char>;

    closed spec fn view(&self) -> Seq<char> {
        self.source@
    }
}

/// Relies on `regex::Regex::new`: whether compilation succeeds depends on
/// the pattern text alone, and the compiled expression is built from
/// exactly the text it is stored beside (this is the only place a
/// `Pattern` is built).
#[verifier::external_body]
fn compile_pattern(pattern: &str) -> (r: Result<Pattern, RegexFault>)
    ensures
        (r is Ok) == regex_compiles(pattern@),
        r matches Ok(p) ==> p@ == pattern@,
{
    match regex::Regex::new(pattern) {
        Ok(re) => Ok(Pattern { re, source: String::from(pattern) }),
        Err(e) => Err(e),
    }
}

/// Relies on `regex::Error`'s two variants, `Syntax` and `CompiledTooBig`,
/// told apart one arm each; the enum is non-exhaustive, so anything else
/// is reported as the remaining kind.
#[verifier::external_body]
fn classify_regex_error(e: RegexFault) -> PatternProblem {
    match e {
        RegexFault::Syntax(_) => PatternProblem::Syntax,
        RegexFault::CompiledTooBig(_) => PatternProblem::CompiledTooBig,
        _ => PatternProblem::Other,
    }
}

impl Pattern {
    /// Compiles a search pattern; a pattern the expression engine refuses
    /// is reported as an invalid-pattern error.
    pub fn new(pattern: &str) -> (r: Result<Pattern, crate::error::Error>)
        ensures
            (r is Ok) == regex_compiles(pattern@),
            r matches Ok(p) ==> p@ == pattern@,
            r matches Err(e) ==> e is InvalidRegex,
    {
        match compile_pattern(pattern) {
            Ok(p) => Ok(p),
            Err(e) => Err(crate::error::Error::InvalidRegex(classify_regex_error(e))),
        }
    }

    /// Relies on `regex::Regex::is_match`: whether the pattern matches
    /// somewhere in `text`, a function of the pattern text and `text`.
    #[verifier::external_body]
    pub fn is_match(&self, text: &str) -> (r: bool)
        ensures
            r == regex_is_match(self@, text@),
    {
        self.re.is_match(text)
    }

    /// The text the pattern was compiled from.
    pub fn as_str(&self) -> (r: &str)
        ensures
            r@ == self@,
    {
        self.source.as_str()
    }
}

} // verus!
