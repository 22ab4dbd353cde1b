//! The trusted boundary to the regex engine, used for the regular
//! expression entries of the selector exclusion list.

use vstd::prelude::*;

verus! {

/// Whether `pat` is a valid regular expression: exactly when
/// `regex::Regex::new` accepts it, which depends on the pattern alone.
pub uninterp spec fn regex_valid(pat: Seq<char>) -> bool;

/// Whether the regular expression `pat` matches somewhere in `text`:
/// what `regex::Regex::is_match` answers, which depends on the pattern
/// and the text alone.
pub uninterp spec fn regex_match(pat: Seq<char>, text: Seq<char>) -> bool;

#[verifier::external_type_specification]
#[verifier::external_body]
pub struct ExRegex(regex::Regex);

/// A compiled regular expression kept together with its pattern text.
/// Only `compile` creates values, so `compiled` always is the compiled
/// form of `pattern`.
pub struct SelectorRegex {
    pattern: String,
    compiled: regex::Regex,
}

impl SelectorRegex {
    /// The pattern this expression was compiled from.
    pub closed spec fn pattern_view(&self) -> Seq<char> {
        self.pattern@
    }

    /// Relies on `regex::Regex::new`: whether a pattern compiles depends
    /// on the pattern text alone.
    #[verifier::external_body]
    pub fn compile(pattern: &str) -> (r: Option<SelectorRegex>)
        ensures
            r is Some <==> regex_valid(pattern@),
            r is Some ==> r->0.pattern_view() == pattern@,
    {
        match regex::Regex::new(pattern) {
            Ok(compiled) => Some(SelectorRegex { pattern: pattern.to_string(), compiled }),
            Err(_) => None,
        }
    }

    /// Relies on `regex::Regex::is_match`: the answer depends on the
    /// compiled pattern and the text alone.
    #[verifier::external_body]
    pub fn is_match(&self, text: &str) -> (r: bool)
        ensures
            r == regex_match(self.pattern_view(), text@),
    {
        self.compiled.is_match(text)
    }
}

} // verus!
