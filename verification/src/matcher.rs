//! Multi-pattern matchers built on the automaton of the `aho_corasick` crate.
//!
//! The automaton itself is trusted: its values are opaque and are described
//! only through the names and wrapper contracts below.  Everything layered on
//! top of those contracts is verified.
use vstd::prelude::*;
use vstd::string::StringSliceAdditionalSpecFns;
use vstd::utf8::encode_utf8;

use crate::errors::EasySegmenterError;

verus! {

/// Holds an automaton of the `aho_corasick` crate.  The struct is opaque to
/// the verifier (the crate's automaton type cannot be declared here because
/// of its state-identifier type parameter); [`automaton_patterns`] and
/// [`automaton_leftmost_longest`] describe its contents in contracts.
#[verifier::external_body]
pub struct Automaton {
    pma: aho_corasick::AhoCorasick,
}

/// The byte sequences of the patterns an automaton was built from, in the
/// order they were given.
pub uninterp spec fn automaton_patterns(ac: Automaton) -> Seq<Seq<u8>>;

/// Whether an automaton was built with leftmost-longest match semantics; the
/// only alternative used here is the default standard semantics.
pub uninterp spec fn automaton_leftmost_longest(ac: Automaton) -> bool;

/// The `(start, end, pattern index)` triples that a non-overlapping find
/// over `text` reports, for the given patterns and match semantics.
pub uninterp spec fn find_matches(
    patterns: Seq<Seq<u8>>,
    leftmost_longest: bool,
    text: Seq<u8>,
) -> Seq<(usize, usize, usize)>;

/// The `(start, end, pattern index)` triples that an overlapping find over
/// `text` reports, for the given patterns, under standard match semantics.
pub uninterp spec fn find_overlapping_matches(
    patterns: Seq<Seq<u8>>,
    text: Seq<u8>,
) -> Seq<(usize, usize, usize)>;

/// The byte sequences of a list of string patterns.
pub open spec fn pattern_bytes(patterns: Seq<String>) -> Seq<Seq<u8>> {
    Seq::new(patterns.len(), |i: int| encode_utf8(patterns[i]@))
}

/// The byte sequences of the UTF-8 encodings of single characters.
pub open spec fn char_pattern_bytes(cs: Seq<char>) -> Seq<Seq<u8>> {
    Seq::new(cs.len(), |i: int| encode_utf8(seq![cs[i]]))
}

/// Relies on `AhoCorasickBuilder::build` with `MatchKind::LeftmostLongest`:
/// the automaton is built over exactly the given patterns.
#[verifier::external_body]
fn build_leftmost_longest(patterns: &Vec<String>) -> (r: Automaton)
    ensures
        automaton_patterns(r) == pattern_bytes(patterns@),
        automaton_leftmost_longest(r),
{
    let pats: Vec<&str> = patterns.iter().map(|p| p.as_str()).collect();
    let pma = aho_corasick::AhoCorasickBuilder::new()
        .auto_configure(&pats)
        .match_kind(aho_corasick::MatchKind::LeftmostLongest)
        .build(&pats);
    Automaton { pma }
}

/// Relies on `AhoCorasickBuilder::build` with the default standard match
/// kind: the automaton is built over exactly the given patterns.
#[verifier::external_body]
fn build_standard(patterns: &Vec<String>) -> (r: Automaton)
    ensures
        automaton_patterns(r) == pattern_bytes(patterns@),
        !automaton_leftmost_longest(r),
{
    let pats: Vec<&str> = patterns.iter().map(|p| p.as_str()).collect();
    let pma = aho_corasick::AhoCorasickBuilder::new().auto_configure(&pats).build(&pats);
    Automaton { pma }
}

/// Relies on `AhoCorasick::find_iter`: it reports non-overlapping matches in
/// order of position, and every reported match locates one of the patterns
/// in the text.
#[verifier::external_body]
fn find_all(ac: &Automaton, text: &str) -> (r: Vec<(usize, usize, usize)>)
    ensures
        r@ == find_matches(
            automaton_patterns(*ac),
            automaton_leftmost_longest(*ac),
            text.spec_bytes(),
        ),
        forall|i: int|
            0 <= i < r@.len() ==> {
                &&& (#[trigger] r@[i]).2 < automaton_patterns(*ac).len()
                &&& r@[i].0 <= r@[i].1 <= text.spec_bytes().len() <= usize::MAX
                &&& text.spec_bytes().subrange(r@[i].0 as int, r@[i].1 as int)
                    == automaton_patterns(*ac)[r@[i].2 as int]
            },
        forall|i: int| 0 <= i < r@.len() - 1 ==> (#[trigger] r@[i]).1 <= r@[i + 1].0,
{
    ac.pma.find_iter(text).map(|m| (m.start(), m.end(), m.pattern())).collect()
}

/// Relies on `AhoCorasick::find_overlapping_iter`: every reported match
/// locates one of the patterns in the text.  It panics under leftmost
/// semantics, so standard semantics are required.
#[verifier::external_body]
fn find_all_overlapping(ac: &Automaton, text: &str) -> (r: Vec<(usize, usize, usize)>)
    requires
        !automaton_leftmost_longest(*ac),
    ensures
        r@ == find_overlapping_matches(automaton_patterns(*ac), text.spec_bytes()),
        forall|i: int|
            0 <= i < r@.len() ==> {
                &&& (#[trigger] r@[i]).2 < automaton_patterns(*ac).len()
                &&& r@[i].0 <= r@[i].1 <= text.spec_bytes().len() <= usize::MAX
                &&& text.spec_bytes().subrange(r@[i].0 as int, r@[i].1 as int)
                    == automaton_patterns(*ac)[r@[i].2 as int]
            },
{
    ac.pma.find_overlapping_iter(text).map(|m| (m.start(), m.end(), m.pattern())).collect()
}

/// Relies on `char::to_string` from std: the returned string holds exactly
/// the one character.
#[verifier::external_body]
fn char_to_string(c: char) -> (r: String)
    ensures
        r@ == seq![c],
{
    c.to_string()
}

/// Relies on `str::len` from std: a slice's byte length is returned exactly.
#[verifier::external_body]
pub(crate) fn text_len(text: &str) -> (n: usize)
    ensures
        n == text.spec_bytes().len(),
{
    text.len()
}

/// A delimiter occurrence: a byte range, and whether the delimiter is an
/// inclusive one (kept in the segment) rather than an exclusive one.
#[derive(Debug, PartialEq, Eq, Structural)]
pub struct DelimiterMatch {
    /// Byte offset at which the delimiter starts.
    pub start: usize,
    /// Byte offset one past the end of the delimiter.
    pub end: usize,
    /// Whether the matched delimiter is inclusive.
    pub is_in_delimiter: bool,
}

/// Finds occurrences of inclusive and exclusive delimiters with
/// leftmost-longest semantics.
pub struct DelimiterMatcher {
    pma: Automaton,
    num_in_delimiters: usize,
}

impl DelimiterMatcher {
    /// The byte sequences of all delimiters: the inclusive ones first, then
    /// the exclusive ones.
    pub closed spec fn patterns(&self) -> Seq<Seq<u8>> {
        automaton_patterns(self.pma)
    }

    /// How many of the patterns are inclusive delimiters.
    pub closed spec fn num_in(&self) -> nat {
        self.num_in_delimiters as nat
    }

    /// The automaton uses leftmost-longest semantics and the inclusive
    /// count is within range.
    pub closed spec fn wf(&self) -> bool {
        &&& automaton_leftmost_longest(self.pma)
        &&& self.num_in_delimiters <= automaton_patterns(self.pma).len()
    }

    /// The matches `iter` reports on a text with the given bytes: the
    /// automaton's matches tagged by delimiter class, with the synthetic
    /// zero-width end-of-text marker appended.
    pub open spec fn spec_iter(&self, text: Seq<u8>) -> Seq<DelimiterMatch> {
        let fm = find_matches(self.patterns(), true, text);
        Seq::new(
            fm.len(),
            |i: int|
                DelimiterMatch {
                    start: fm[i].0,
                    end: fm[i].1,
                    is_in_delimiter: fm[i].2 < self.num_in(),
                },
        ).push(
            DelimiterMatch {
                start: text.len() as usize,
                end: text.len() as usize,
                is_in_delimiter: false,
            },
        )
    }

    /// Whether `m` delimits an actual occurrence of a delimiter of its class
    /// in `text`.
    pub open spec fn matches_delimiter(&self, text: Seq<u8>, m: DelimiterMatch) -> bool {
        exists|p: int|
            0 <= p < self.patterns().len() && (m.is_in_delimiter <==> p < self.num_in())
                && text.subrange(m.start as int, m.end as int) == self.patterns()[p]
    }

    /// Builds a matcher over the given inclusive and exclusive delimiters.
    pub fn new(in_delimiters: &Vec<String>, ex_delimiters: &Vec<String>) -> (r: Self)
        ensures
            r.wf(),
            r.patterns() == pattern_bytes(in_delimiters@ + ex_delimiters@),
            r.num_in() == in_delimiters@.len(),
    {
        let mut patterns: Vec<String> = Vec::new();
        let n_in = in_delimiters.len();
        for i in 0..n_in
            invariant
                n_in == in_delimiters@.len(),
                patterns@ == in_delimiters@.subrange(0, i as int),
        {
            patterns.push(in_delimiters[i].clone());
            proof {
                assert(patterns@ =~= in_delimiters@.subrange(0, i + 1));
            }
        }
        let n_ex = ex_delimiters.len();
        for i in 0..n_ex
            invariant
                n_in == in_delimiters@.len(),
                n_ex == ex_delimiters@.len(),
                patterns@ == in_delimiters@.subrange(0, n_in as int) + ex_delimiters@.subrange(
                    0,
                    i as int,
                ),
        {
            patterns.push(ex_delimiters[i].clone());
            proof {
                assert(patterns@ =~= in_delimiters@.subrange(0, n_in as int)
                    + ex_delimiters@.subrange(0, i + 1));
            }
        }
        proof {
            assert(patterns@ =~= in_delimiters@ + ex_delimiters@);
        }
        let pma = build_leftmost_longest(&patterns);
        DelimiterMatcher { pma, num_in_delimiters: n_in }
    }

    /// Reports all delimiter occurrences in `text` in order of position,
    /// ending with the synthetic end-of-text marker.
    pub fn iter(&self, text: &str) -> (r: Vec<DelimiterMatch>)
        requires
            self.wf(),
        ensures
            r@ == self.spec_iter(text.spec_bytes()),
            r@.len() >= 1,
            r@.last() == (DelimiterMatch {
                start: text.spec_bytes().len() as usize,
                end: text.spec_bytes().len() as usize,
                is_in_delimiter: false,
            }),
            r@.last().start == text.spec_bytes().len(),
            forall|i: int|
                0 <= i < r@.len() ==> (#[trigger] r@[i]).start <= r@[i].end
                    <= text.spec_bytes().len(),
            forall|i: int| 0 <= i < r@.len() - 1 ==> (#[trigger] r@[i]).end <= r@[i + 1].start,
            forall|i: int|
                0 <= i < r@.len() - 1 ==> self.matches_delimiter(
                    text.spec_bytes(),
                    #[trigger] r@[i],
                ),
    {
        let ms = find_all(&self.pma, text);
        let ghost tb = text.spec_bytes();
        let ghost msq = ms@;
        let mut r: Vec<DelimiterMatch> = Vec::new();
        let n = ms.len();
        for i in 0..n
            invariant
                n == msq.len(),
                ms@ == msq,
                self.wf(),
                msq == find_matches(self.patterns(), true, tb),
                r@.len() == i,
                forall|k: int|
                    0 <= k < i ==> (#[trigger] r@[k]) == (DelimiterMatch {
                        start: msq[k].0,
                        end: msq[k].1,
                        is_in_delimiter: msq[k].2 < self.num_in(),
                    }),
        {
            let m = ms[i];
            r.push(
                DelimiterMatch {
                    start: m.0,
                    end: m.1,
                    is_in_delimiter: m.2 < self.num_in_delimiters,
                },
            );
        }
        let n_text = text_len(text);
        let end_marker = DelimiterMatch { start: n_text, end: n_text, is_in_delimiter: false };
        r.push(end_marker);
        proof {
            assert(tb.len() as usize == tb.len());
            assert(r@ =~= self.spec_iter(tb));
            assert forall|i: int|
                0 <= i < r@.len() - 1 implies self.matches_delimiter(tb, #[trigger] r@[i]) by {
                let p = msq[i].2 as int;
                assert(tb.subrange(r@[i].start as int, r@[i].end as int) == self.patterns()[p]);
                assert(r@[i].is_in_delimiter <==> p < self.num_in());
            };
            assert forall|i: int|
                0 <= i < r@.len() - 1 implies (#[trigger] r@[i]).end <= r@[i + 1].start by {
                if i + 1 < r@.len() - 1 {
                    assert(msq[i].1 <= msq[i + 1].0);
                } else {
                    assert(msq[i].1 <= tb.len());
                }
            };
        }
        r
    }
}

/// A quote-marker occurrence: a byte range, the index of the quote pair the
/// marker belongs to, and whether it opens or closes that pair.
#[derive(Debug, PartialEq, Eq, Structural)]
pub struct QuoteMatch {
    /// Byte offset at which the marker starts.
    pub start: usize,
    /// Byte offset one past the end of the marker.
    pub end: usize,
    /// Index of the quote pair the marker belongs to.
    pub id: usize,
    /// Whether the marker opens the pair (otherwise it closes it).
    pub is_open: bool,
}

/// Whether the characters of `cs` are pairwise distinct.
pub open spec fn unique_chars(cs: Seq<char>) -> bool {
    forall|i: int, j: int| 0 <= i < j < cs.len() ==> cs[i] != cs[j]
}

/// The open and close markers of a list of quote pairs, interleaved: the
/// marker at index `2 * i` opens pair `i`, the one at `2 * i + 1` closes it.
pub open spec fn quote_marker_chars(quotes: Seq<(char, char)>) -> Seq<char> {
    Seq::new(
        2 * quotes.len(),
        |i: int|
            if i % 2 == 0 {
                quotes[i / 2].0
            } else {
                quotes[i / 2].1
            },
    )
}

/// Finds occurrences of quote markers, reporting which pair each belongs to
/// and whether it opens or closes it.
pub struct QuoteMatcher {
    pma: Automaton,
}

impl QuoteMatcher {
    /// The byte sequences of the markers, in [`quote_marker_chars`] order.
    pub closed spec fn patterns(&self) -> Seq<Seq<u8>> {
        automaton_patterns(self.pma)
    }

    /// The automaton uses standard match semantics.
    pub closed spec fn wf(&self) -> bool {
        !automaton_leftmost_longest(self.pma)
    }

    /// The matches `iter` reports on a text with the given bytes: the
    /// automaton's matches, with pair index and role recovered from the
    /// pattern index.
    pub open spec fn spec_iter(&self, text: Seq<u8>) -> Seq<QuoteMatch> {
        let fm = find_matches(self.patterns(), false, text);
        Seq::new(
            fm.len(),
            |i: int|
                QuoteMatch {
                    start: fm[i].0,
                    end: fm[i].1,
                    id: (fm[i].2 / 2) as usize,
                    is_open: fm[i].2 % 2 == 0,
                },
        )
    }

    /// Builds a matcher over the markers of the given quote pairs.
    ///
    /// Fails exactly when the marker characters are not pairwise distinct.
    pub fn new(quotes: &Vec<(char, char)>) -> (r: Result<Self, EasySegmenterError>)
        ensures
            r is Ok <==> unique_chars(quote_marker_chars(quotes@)),
            r matches Ok(qm) ==> {
                &&& qm.wf()
                &&& qm.patterns() == char_pattern_bytes(quote_marker_chars(quotes@))
            },
            r matches Err(e) ==> (e matches EasySegmenterError::Input(ie) && ie@
                == "Entries must be unique."@),
    {
        let mut patterns: Vec<String> = Vec::new();
        let n = quotes.len();
        for i in 0..n
            invariant
                n == quotes@.len(),
                patterns@.len() == 2 * i,
                forall|k: int|
                    0 <= k < patterns@.len() ==> (#[trigger] patterns@[k])@
                        == seq![quote_marker_chars(quotes@)[k]],
        {
            let (p, q) = quotes[i];
            patterns.push(char_to_string(p));
            patterns.push(char_to_string(q));
            proof {
                assert(quote_marker_chars(quotes@)[2 * i as int] == quotes@[i as int].0);
                assert(quote_marker_chars(quotes@)[2 * i as int + 1] == quotes@[i as int].1);
            }
        }
        if !is_unique(&patterns) {
            proof {
                let chars = quote_marker_chars(quotes@);
                let (bi, bj) = choose|bi: int, bj: int|
                    0 <= bi < bj < patterns@.len() && patterns@[bi]@ == patterns@[bj]@;
                assert(chars[bi] == chars[bj]) by {
                    assert(patterns@[bi]@ == seq![chars[bi]]);
                    assert(patterns@[bj]@ == seq![chars[bj]]);
                    assert(seq![chars[bi]][0] == seq![chars[bj]][0]);
                };
            }
            return Err(EasySegmenterError::input("Entries must be unique."));
        }
        proof {
            let chars = quote_marker_chars(quotes@);
            assert forall|i: int, j: int| 0 <= i < j < chars.len() implies chars[i] != chars[j] by {
                assert(patterns@[i]@ == seq![chars[i]]);
                assert(patterns@[j]@ == seq![chars[j]]);
                if chars[i] == chars[j] {
                    assert(patterns@[i]@ =~= patterns@[j]@);
                }
            };
            assert(pattern_bytes(patterns@) =~= char_pattern_bytes(chars));
        }
        let pma = build_standard(&patterns);
        Ok(QuoteMatcher { pma })
    }

    /// Reports all quote-marker occurrences in `text`, in order of position.
    pub fn iter(&self, text: &str) -> (r: Vec<QuoteMatch>)
        requires
            self.wf(),
        ensures
            r@ == self.spec_iter(text.spec_bytes()),
            forall|i: int|
                0 <= i < r@.len() ==> (#[trigger] r@[i]).start <= r@[i].end
                    <= text.spec_bytes().len(),
            forall|i: int| 0 <= i < r@.len() - 1 ==> (#[trigger] r@[i]).end <= r@[i + 1].start,
    {
        let ms = find_all(&self.pma, text);
        let ghost tb = text.spec_bytes();
        let ghost msq = ms@;
        let mut r: Vec<QuoteMatch> = Vec::new();
        let n = ms.len();
        for i in 0..n
            invariant
                n == msq.len(),
                ms@ == msq,
                self.wf(),
                msq == find_matches(self.patterns(), false, tb),
                r@.len() == i,
                forall|k: int|
                    0 <= k < i ==> (#[trigger] r@[k]) == (QuoteMatch {
                        start: msq[k].0,
                        end: msq[k].1,
                        id: (msq[k].2 / 2) as usize,
                        is_open: msq[k].2 % 2 == 0,
                    }),
        {
            let m = ms[i];
            r.push(QuoteMatch { start: m.0, end: m.1, id: m.2 / 2, is_open: m.2 % 2 == 0 });
        }
        proof {
            assert(r@ =~= self.spec_iter(tb));
        }
        r
    }
}

/// A no-break word occurrence: a byte range.
#[derive(Debug, PartialEq, Eq, Structural)]
pub struct WordMatch {
    /// Byte offset at which the word starts.
    pub start: usize,
    /// Byte offset one past the end of the word.
    pub end: usize,
}

/// Finds occurrences of no-break words, including overlapping ones.
pub struct WordMatcher {
    pma: Automaton,
}

impl WordMatcher {
    /// The byte sequences of the words.
    pub closed spec fn patterns(&self) -> Seq<Seq<u8>> {
        automaton_patterns(self.pma)
    }

    /// The automaton uses standard match semantics, as overlapping search
    /// requires.
    pub closed spec fn wf(&self) -> bool {
        !automaton_leftmost_longest(self.pma)
    }

    /// The matches `iter` reports on a text with the given bytes.
    pub open spec fn spec_iter(&self, text: Seq<u8>) -> Seq<WordMatch> {
        let fm = find_overlapping_matches(self.patterns(), text);
        Seq::new(fm.len(), |i: int| WordMatch { start: fm[i].0, end: fm[i].1 })
    }

    /// Builds a matcher over the given words.
    pub fn new(words: &Vec<String>) -> (r: Self)
        ensures
            r.wf(),
            r.patterns() == pattern_bytes(words@),
    {
        let pma = build_standard(words);
        WordMatcher { pma }
    }

    /// Reports all word occurrences in `text`, overlapping ones included.
    pub fn iter(&self, text: &str) -> (r: Vec<WordMatch>)
        requires
            self.wf(),
        ensures
            r@ == self.spec_iter(text.spec_bytes()),
            forall|i: int|
                0 <= i < r@.len() ==> (#[trigger] r@[i]).start <= r@[i].end
                    <= text.spec_bytes().len(),
    {
        let ms = find_all_overlapping(&self.pma, text);
        let ghost tb = text.spec_bytes();
        let ghost msq = ms@;
        let mut r: Vec<WordMatch> = Vec::new();
        let n = ms.len();
        for i in 0..n
            invariant
                n == msq.len(),
                ms@ == msq,
                self.wf(),
                msq == find_overlapping_matches(self.patterns(), tb),
                r@.len() == i,
                forall|k: int|
                    0 <= k < i ==> (#[trigger] r@[k]) == (WordMatch {
                        start: msq[k].0,
                        end: msq[k].1,
                    }),
        {
            let m = ms[i];
            r.push(WordMatch { start: m.0, end: m.1 });
        }
        proof {
            assert(r@ =~= self.spec_iter(tb));
        }
        r
    }
}

/// Whether the strings of `x` are pairwise distinct.
fn is_unique(x: &Vec<String>) -> (r: bool)
    ensures
        r <==> (forall|i: int, j: int| 0 <= i < j < x@.len() ==> x@[i]@ != x@[j]@),
        !r ==> (exists|i: int, j: int| 0 <= i < j < x@.len() && x@[i]@ == x@[j]@),
{
    let n = x.len();
    for i in 0..n
        invariant
            n == x@.len(),
            forall|a: int, b: int| 0 <= a < b < x@.len() && a < i ==> x@[a]@ != x@[b]@,
    {
        for j in (i + 1)..n
            invariant
                n == x@.len(),
                i < n,
                forall|a: int, b: int| 0 <= a < b < x@.len() && a < i ==> x@[a]@ != x@[b]@,
                forall|b: int| i < b < j ==> x@[i as int]@ != x@[b]@,
        {
            if x[i] == x[j] {
                return false;
            }
        }
    }
    true
}

} // verus!
