//! No-break regex patterns, built on the `regex` crate.
//!
//! A compiled pattern is opaque here: the names and wrapper contracts below
//! are trusted, and the capture spans they report are what the segmenter's
//! verified logic works with.
use vstd::prelude::*;
use vstd::string::StringSliceAdditionalSpecFns;

verus! {

/// Declaration of the compiled pattern type of the `regex` crate.
#[verifier::external_type_specification]
#[verifier::external_body]
pub struct ExRegex(regex::Regex);

/// The pattern string a compiled regex was built from.
pub uninterp spec fn regex_pattern(re: regex::Regex) -> Seq<char>;

/// Whether compiling a pattern string succeeds.
pub uninterp spec fn regex_compiles(pattern: Seq<char>) -> bool;

/// The capture-group spans (the whole-match group excluded) of all
/// non-overlapping matches of a pattern over a text, in match order.
pub uninterp spec fn regex_capture_spans(pattern: Seq<char>, text: Seq<u8>) -> Seq<(usize, usize)>;

/// Relies on `Regex::new`: compiles the pattern string, succeeding exactly
/// for well-formed pattern syntax.
#[verifier::external_body]
pub(crate) fn regex_new(pattern: &str) -> (r: Option<regex::Regex>)
    ensures
        r is Some <==> regex_compiles(pattern@),
        r matches Some(re) ==> regex_pattern(re) == pattern@,
{
    regex::Regex::new(pattern).ok()
}

/// Relies on `Regex::captures_iter` and `Captures::get`: walks the
/// non-overlapping matches of the pattern and reports the span of every
/// present capture group other than the whole match, each within the text.
#[verifier::external_body]
pub(crate) fn capture_spans(re: &regex::Regex, text: &str) -> (r: Vec<(usize, usize)>)
    ensures
        r@ == regex_capture_spans(regex_pattern(*re), text.spec_bytes()),
        forall|i: int|
            0 <= i < r@.len() ==> (#[trigger] r@[i]).0 <= r@[i].1 <= text.spec_bytes().len(),
{
    let mut spans = Vec::new();
    for cap in re.captures_iter(text) {
        for idx in 1..cap.len() {
            if let Some(m) = cap.get(idx) {
                spans.push((m.start(), m.end()));
            }
        }
    }
    spans
}

} // verus!
