//! A compiled pattern, and what matching means.
//!
//! Compilation and matching are done by the `regex` crate; the library only
//! names their results. Whether a pattern compiles, and whether it matches a
//! given text, both depend on the pattern and text strings alone.

use vstd::prelude::*;

verus! {

/// Whether `regex::Regex::new` accepts the pattern string `pat`.
pub uninterp spec fn regex_valid(pat: Seq<char>) -> bool;

/// Whether the pattern `pat` matches (anywhere, unanchored) the text `text`.
pub uninterp spec fn regex_matches(pat: Seq<char>, text: Seq<char>) -> bool;

#[verifier::external_type_specification]
#[verifier::external_body]
pub struct ExRegex(regex::Regex);

/// A compiled pattern, together with the pattern string it was built from.
pub struct Pattern {
    re: regex::Regex,
    text: String,
}

impl Pattern {
    /// The pattern string this value was compiled from.
    pub closed spec fn pat(&self) -> Seq<char> {
        self.text@
    }
}

/// Relies on `regex::Regex::new`: it returns `Ok` exactly on the pattern
/// strings it accepts (with its default size limit), a fact of the pattern
/// string alone; on failure the error's message is returned.
#[verifier::external_body]
pub fn compile_pattern(pat: &str) -> (r: Result<Pattern, String>)
    ensures
        r is Ok <==> regex_valid(pat@),
        r is Ok ==> r->Ok_0.pat() == pat@,
{
    match regex::Regex::new(pat) {
        Ok(re) => Ok(Pattern { re, text: pat.to_string() }),
        Err(e) => Err(format!("{}", e)),
    }
}

/// Relies on `regex::Regex::is_match`: an unanchored search whose outcome
/// depends on the pattern and the haystack alone.
#[verifier::external_body]
pub fn pattern_is_match(p: &Pattern, text: &str) -> (r: bool)
    ensures
        r == regex_matches(p.pat(), text@),
{
    p.re.is_match(text)
}

} // verus!
