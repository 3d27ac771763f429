//! Segmenter implementation.
pub mod builder;

pub use builder::SegmenterBuilder;

use vstd::prelude::*;
use vstd::string::StringSliceAdditionalSpecFns;

use crate::basic;
use crate::bitset::Bitset;
use crate::matcher::{
    char_pattern_bytes,
    quote_marker_chars,
    text_len,
    unique_chars,
    DelimiterMatch,
    DelimiterMatcher,
    QuoteMatch,
    QuoteMatcher,
    WordMatch,
    WordMatcher,
};
use crate::pattern::{capture_spans, regex_capture_spans, regex_compiles, regex_pattern};
use crate::template;

verus! {

/// The set of offsets lying in one of the given spans.
pub open spec fn spans_marks(spans: Seq<(usize, usize)>) -> Set<int> {
    Set::new(
        |j: int| exists|k: int| 0 <= k < spans.len() && (#[trigger] spans[k]).0 <= j < spans[k].1,
    )
}

/// The spans of a list of word occurrences.
pub open spec fn word_spans(ws: Seq<WordMatch>) -> Seq<(usize, usize)> {
    Seq::new(ws.len(), |i: int| (ws[i].start, ws[i].end))
}

/// The set of offsets lying in one of the given word occurrences.
pub open spec fn word_marks(ws: Seq<WordMatch>) -> Set<int> {
    spans_marks(word_spans(ws))
}

/// The set of offsets `lo <= j < hi`.
pub open spec fn range_set(lo: int, hi: int) -> Set<int> {
    Set::new(|j: int| lo <= j < hi)
}

/// `view` equals `base` with exactly the offsets of `extra` switched on.
pub open spec fn bits_are(view: Seq<bool>, base: Seq<bool>, extra: Set<int>) -> bool {
    &&& view.len() == base.len()
    &&& forall|j: int| 0 <= j < view.len() ==> view[j] == (base[j] || extra.contains(j))
}

proof fn lemma_bits_mark_range(
    pre: Seq<bool>,
    post: Seq<bool>,
    base: Seq<bool>,
    extra: Set<int>,
    lo: int,
    hi: int,
)
    requires
        bits_are(pre, base, extra),
        post.len() == pre.len(),
        forall|j: int| 0 <= j < post.len() ==> post[j] == (pre[j] || (lo <= j < hi)),
    ensures
        bits_are(post, base, extra + range_set(lo, hi)),
{
    assert forall|j: int| 0 <= j < post.len() implies post[j] == (base[j] || (extra + range_set(
        lo,
        hi,
    )).contains(j)) by {
        assert(range_set(lo, hi).contains(j) == (lo <= j < hi));
        assert((extra + range_set(lo, hi)).contains(j) == (extra.contains(j) || (lo <= j < hi)));
        assert(pre[j] == (base[j] || extra.contains(j)));
    };
}

proof fn lemma_bits_compose(a: Seq<bool>, b: Seq<bool>, c: Seq<bool>, m1: Set<int>, m2: Set<int>)
    requires
        bits_are(b, a, m1),
        bits_are(c, b, m2),
    ensures
        bits_are(c, a, m1 + m2),
{
    assert forall|j: int| 0 <= j < c.len() implies c[j] == (a[j] || (m1 + m2).contains(j)) by {
        assert(c[j] == (b[j] || m2.contains(j)));
        assert(b[j] == (a[j] || m1.contains(j)));
        assert((m1 + m2).contains(j) == (m1.contains(j) || m2.contains(j)));
    };
}

proof fn lemma_bits_refl(v: Seq<bool>)
    ensures
        bits_are(v, v, Set::<int>::empty()),
{
    assert forall|j: int| 0 <= j < v.len() implies v[j] == (v[j] || Set::<int>::empty().contains(
        j,
    )) by {
        assert(!Set::<int>::empty().contains(j));
    };
}

proof fn lemma_spans_marks_unfold(spans: Seq<(usize, usize)>, k: int)
    requires
        0 <= k < spans.len(),
    ensures
        spans_marks(spans.subrange(0, k + 1)) == spans_marks(spans.subrange(0, k)) + range_set(
            spans[k].0 as int,
            spans[k].1 as int,
        ),
{
    let a = spans.subrange(0, k + 1);
    let b = spans.subrange(0, k);
    assert forall|j: int|
        spans_marks(a).contains(j) == (spans_marks(b).contains(j) || (spans[k].0 <= j
            < spans[k].1)) by {
        if spans_marks(a).contains(j) {
            let t = choose|t: int| 0 <= t < a.len() && (#[trigger] a[t]).0 <= j < a[t].1;
            if t < k {
                assert(b[t] == a[t]);
                assert(spans_marks(b).contains(j));
            } else {
                assert(a[t] == spans[k]);
            }
        }
        if spans_marks(b).contains(j) {
            let t = choose|t: int| 0 <= t < b.len() && (#[trigger] b[t]).0 <= j < b[t].1;
            assert(a[t] == b[t]);
            assert(spans_marks(a).contains(j));
        }
        if spans[k].0 <= j < spans[k].1 {
            assert(a[k] == spans[k]);
            assert(spans_marks(a).contains(j));
        }
    };
    assert(spans_marks(a) =~= spans_marks(b) + range_set(spans[k].0 as int, spans[k].1 as int));
}

proof fn lemma_spans_marks_empty(spans: Seq<(usize, usize)>)
    ensures
        spans_marks(spans.subrange(0, 0)) == Set::<int>::empty(),
{
    assert forall|j: int| !spans_marks(spans.subrange(0, 0)).contains(j) by {
        assert(spans.subrange(0, 0).len() == 0);
    };
    assert(spans_marks(spans.subrange(0, 0)) =~= Set::<int>::empty());
}

/// The quote-nesting resolver after the first `i` quote events: the stack of
/// `(open position, pair index)` entries still waiting for their closer, and
/// the offsets marked protected so far.
///
/// An opener is pushed unconditionally.  A closer with an empty stack, or
/// whose pair differs from the one on top of the stack, is ignored.  A
/// matching closer pops the stack, and marks the span from its opener to the
/// closer's end when the nesting depth does not exceed `cap`.
pub open spec fn quote_scan(events: Seq<QuoteMatch>, cap: nat, i: int) -> (Seq<(usize, usize)>, Set<
    int,
>)
    decreases i,
{
    if i <= 0 || i > events.len() {
        (Seq::empty(), Set::empty())
    } else {
        let prev = quote_scan(events, cap, i - 1);
        let stack = prev.0;
        let marks = prev.1;
        let e = events[i - 1];
        if e.is_open {
            (stack.push((e.start, e.id)), marks)
        } else if stack.len() == 0 {
            (stack, marks)
        } else if stack.last().1 != e.id {
            (stack, marks)
        } else if stack.len() <= cap {
            (stack.drop_last(), marks + range_set(stack.last().0 as int, e.end as int))
        } else {
            (stack.drop_last(), marks)
        }
    }
}

/// The offsets the quote-nesting resolver protects, given all quote events.
pub open spec fn quote_marks(events: Seq<QuoteMatch>, cap: nat) -> Set<int> {
    quote_scan(events, cap, events.len() as int).1
}

/// The offsets protected by the capture groups of the first `i` regexes.
pub open spec fn regex_marks_upto(res: Seq<regex::Regex>, text: Seq<u8>, i: int) -> Set<int>
    decreases i,
{
    if i <= 0 || i > res.len() {
        Set::empty()
    } else {
        regex_marks_upto(res, text, i - 1) + spans_marks(
            regex_capture_spans(regex_pattern(res[i - 1]), text),
        )
    }
}

/// The offsets protected by the capture groups of all the regexes.
pub open spec fn regex_marks(res: Seq<regex::Regex>, text: Seq<u8>) -> Set<int> {
    regex_marks_upto(res, text, res.len() as int)
}

/// Where a delimiter occurrence would break the text: after an inclusive
/// delimiter, before an exclusive one.
pub open spec fn break_point(m: DelimiterMatch) -> int {
    if m.is_in_delimiter {
        m.end as int
    } else {
        m.start as int
    }
}

/// The segments the scanner emits from match `i` on, with the segment under
/// construction starting at `cursor`.
///
/// A zero-width match is the end-of-text marker: any trailing text becomes a
/// final segment.  A match whose break point has a protected last byte is
/// ignored.  A match that would emit an empty segment advances the cursor
/// past the delimiter without emitting.  Any other match emits the segment
/// from the cursor to its break point and advances the cursor past the
/// delimiter.
pub open spec fn scan_segments(
    ms: Seq<DelimiterMatch>,
    prot: Set<int>,
    len: int,
    i: int,
    cursor: int,
) -> Seq<(int, int)>
    decreases ms.len() - i,
{
    if i < 0 || i >= ms.len() {
        Seq::empty()
    } else {
        let m = ms[i];
        if m.start == m.end {
            if cursor < len {
                seq![(cursor, len)] + scan_segments(ms, prot, len, i + 1, cursor)
            } else {
                scan_segments(ms, prot, len, i + 1, cursor)
            }
        } else {
            let bp = break_point(m);
            if bp > 0 && prot.contains(bp - 1) {
                scan_segments(ms, prot, len, i + 1, cursor)
            } else if cursor == bp {
                scan_segments(ms, prot, len, i + 1, m.end as int)
            } else {
                seq![(cursor, bp)] + scan_segments(ms, prot, len, i + 1, m.end as int)
            }
        }
    }
}

/// The ranges of a result vector, as mathematical integer pairs.
pub open spec fn ranges_of(r: Seq<(usize, usize)>) -> Seq<(int, int)> {
    Seq::new(r.len(), |i: int| (r[i].0 as int, r[i].1 as int))
}

proof fn lemma_ranges_push(prev: Seq<(usize, usize)>, x: (usize, usize))
    ensures
        ranges_of(prev.push(x)) == ranges_of(prev).push((x.0 as int, x.1 as int)),
{
    let lhs = ranges_of(prev.push(x));
    let rhs = ranges_of(prev).push((x.0 as int, x.1 as int));
    assert(lhs.len() == rhs.len());
    assert forall|k: int| 0 <= k < lhs.len() implies lhs[k] == rhs[k] by {
        if k < prev.len() {
            assert(lhs[k] == (prev[k].0 as int, prev[k].1 as int));
            assert(ranges_of(prev)[k] == (prev[k].0 as int, prev[k].1 as int));
        }
    };
    assert(lhs =~= rhs);
}

proof fn lemma_push_append(a: Seq<(int, int)>, x: (int, int), b: Seq<(int, int)>)
    ensures
        a + (seq![x] + b) == a.push(x) + b,
{
    assert(a + (seq![x] + b) =~= a.push(x) + b);
}

/// Walks the delimiter matches over the completed protection map and emits
/// the final segment ranges, as [`scan_segments`] describes.
#[verifier::rlimit(100)]
fn scan_with_protection(
    matches: &Vec<DelimiterMatch>,
    no_break: &Bitset,
    n_text: usize,
    Ghost(prot): Ghost<Set<int>>,
) -> (r: Vec<(usize, usize)>)
    requires
        n_text <= no_break@.len(),
        forall|j: int| 0 <= j < no_break@.len() ==> no_break@[j] == prot.contains(j),
        forall|k: int|
            0 <= k < matches@.len() ==> (#[trigger] matches@[k]).start <= matches@[k].end
                <= n_text,
        forall|k: int|
            0 <= k < matches@.len() - 1 ==> (#[trigger] matches@[k]).end <= matches@[k + 1].start,
    ensures
        ranges_of(r@) == scan_segments(matches@, prot, n_text as int, 0, 0),
        forall|k: int| 0 <= k < r@.len() ==> (#[trigger] r@[k]).0 < r@[k].1 <= n_text,
{
    let ghost msq = matches@;
    let ghost len = n_text as int;
    let ghost goal = scan_segments(msq, prot, len, 0, 0);
    let mut start_pos: usize = 0;
    let mut r: Vec<(usize, usize)> = Vec::new();
    let n = matches.len();
    for i in 0..n
        invariant
            n == msq.len(),
            matches@ == msq,
            len == n_text as int,
            goal == scan_segments(msq, prot, len, 0, 0),
            n_text <= no_break@.len(),
            forall|j: int| 0 <= j < no_break@.len() ==> no_break@[j] == prot.contains(j),
            forall|k: int|
                0 <= k < msq.len() ==> (#[trigger] msq[k]).start <= msq[k].end <= n_text,
            forall|k: int| 0 <= k < msq.len() - 1 ==> (#[trigger] msq[k]).end <= msq[k + 1].start,
            start_pos <= n_text,
            i < msq.len() ==> start_pos <= msq[i as int].start,
            ranges_of(r@) + scan_segments(msq, prot, len, i as int, start_pos as int) == goal,
            forall|k: int| 0 <= k < r@.len() ==> (#[trigger] r@[k]).0 < r@[k].1 <= n_text,
    {
        let ghost r_prev = r@;
        let ghost cursor_prev = start_pos as int;
        let m = &matches[i];
        if m.start == m.end {
            if start_pos < n_text {
                r.push((start_pos, n_text));
            }
        } else {
            let end_pos = if m.is_in_delimiter {
                m.end
            } else {
                m.start
            };
            if end_pos != 0 && no_break.get(end_pos - 1) {
                // A delimiter inside a protected span never ends a segment.
            } else if start_pos == end_pos {
                start_pos = m.end;
            } else {
                r.push((start_pos, end_pos));
                start_pos = m.end;
            }
        }
        proof {
            let step = scan_segments(msq, prot, len, i as int, cursor_prev);
            let rest = scan_segments(msq, prot, len, i + 1, start_pos as int);
            let mm = msq[i as int];
            if mm.start == mm.end {
                if cursor_prev < len {
                    assert(step == seq![(cursor_prev, len)] + rest);
                    lemma_ranges_push(r_prev, (r@.last().0, r@.last().1));
                    assert(r@ == r_prev.push((r@.last().0, r@.last().1)));
                    lemma_push_append(ranges_of(r_prev), (cursor_prev, len), rest);
                    assert(ranges_of(r@) =~= ranges_of(r_prev).push((cursor_prev, len)));
                } else {
                    assert(step == rest);
                }
            } else {
                let bp = break_point(mm);
                if bp > 0 && prot.contains(bp - 1) {
                    assert(step == rest);
                } else if cursor_prev == bp {
                    assert(step == rest);
                } else {
                    assert(step == seq![(cursor_prev, bp)] + rest);
                    assert(cursor_prev < bp);
                    lemma_ranges_push(r_prev, (r@.last().0, r@.last().1));
                    assert(r@ == r_prev.push((r@.last().0, r@.last().1)));
                    lemma_push_append(ranges_of(r_prev), (cursor_prev, bp), rest);
                    assert(ranges_of(r@) =~= ranges_of(r_prev).push((cursor_prev, bp)));
                }
            }
        }
    }
    proof {
        assert(scan_segments(msq, prot, len, msq.len() as int, start_pos as int) == Seq::<(
            int,
            int,
        )>::empty());
        assert(ranges_of(r@) + Seq::<(int, int)>::empty() =~= ranges_of(r@));
    }
    r
}

/// Segmenter implementation.
///
/// An instance holds immutable, pre-built matchers for the configured rules
/// and may segment any number of texts.  Use [`SegmenterBuilder`] to define
/// the rules, or [`Segmenter::with_template_ja_config`] for the bundled
/// Japanese template.
pub struct Segmenter {
    // Breakers
    delimiter_matcher: DelimiterMatcher,
    // Non breakers
    quote_matcher: Option<QuoteMatcher>,
    word_matcher: Option<WordMatcher>,
    regex_matchers: Vec<regex::Regex>,
    max_quote_level: usize,
}

impl Segmenter {
    /// The byte sequences of the delimiters, inclusive ones first.
    pub closed spec fn delim_patterns(&self) -> Seq<Seq<u8>> {
        self.delimiter_matcher.patterns()
    }

    /// How many of the delimiter patterns are inclusive.
    pub closed spec fn delim_num_in(&self) -> nat {
        self.delimiter_matcher.num_in()
    }

    /// The byte sequences of the quote markers, if quote pairs were
    /// configured, in [`crate::matcher::quote_marker_chars`] order.
    pub closed spec fn quote_patterns(&self) -> Option<Seq<Seq<u8>>> {
        match self.quote_matcher {
            Some(qm) => Some(qm.patterns()),
            None => None,
        }
    }

    /// The byte sequences of the no-break words, if any were configured.
    pub closed spec fn word_patterns(&self) -> Option<Seq<Seq<u8>>> {
        match self.word_matcher {
            Some(wm) => Some(wm.patterns()),
            None => None,
        }
    }

    /// The configured no-break regexes.
    pub closed spec fn regexes(&self) -> Seq<regex::Regex> {
        self.regex_matchers@
    }

    /// The maximum quote nesting depth at which protection still applies.
    pub closed spec fn quote_cap(&self) -> nat {
        self.max_quote_level as nat
    }

    /// The matchers are well-formed.
    pub closed spec fn wf(&self) -> bool {
        &&& self.delimiter_matcher.wf()
        &&& (self.quote_matcher matches Some(qm) ==> qm.wf())
        &&& (self.word_matcher matches Some(wm) ==> wm.wf())
    }

    /// The delimiter matches the scanner walks for a text with these bytes,
    /// synthetic end-of-text marker included.
    pub closed spec fn spec_delimiter_matches(&self, text: Seq<u8>) -> Seq<DelimiterMatch> {
        self.delimiter_matcher.spec_iter(text)
    }

    /// The offsets the quote-nesting resolver protects.
    pub closed spec fn spec_quote_marks(&self, text: Seq<u8>) -> Set<int> {
        match self.quote_matcher {
            Some(qm) => quote_marks(qm.spec_iter(text), self.max_quote_level as nat),
            None => Set::empty(),
        }
    }

    /// The offsets the no-break words protect.
    pub closed spec fn spec_word_marks(&self, text: Seq<u8>) -> Set<int> {
        match self.word_matcher {
            Some(wm) => word_marks(wm.spec_iter(text)),
            None => Set::empty(),
        }
    }

    /// The offsets the no-break regexes protect.
    pub closed spec fn spec_regex_marks(&self, text: Seq<u8>) -> Set<int> {
        regex_marks(self.regex_matchers@, text)
    }

    /// The complete protection map: an offset is protected when any of the
    /// quote, word, or regex passes marks it.
    pub open spec fn spec_no_break(&self, text: Seq<u8>) -> Set<int> {
        self.spec_quote_marks(text) + self.spec_word_marks(text) + self.spec_regex_marks(text)
    }

    /// What `segment` returns for a text with these bytes.
    pub open spec fn spec_segment(&self, text: Seq<u8>) -> Seq<(int, int)> {
        scan_segments(
            self.spec_delimiter_matches(text),
            self.spec_no_break(text),
            text.len() as int,
            0,
            0,
        )
    }

    fn new(
        delimiter_matcher: DelimiterMatcher,
        quote_matcher: Option<QuoteMatcher>,
        word_matcher: Option<WordMatcher>,
        regex_matchers: Vec<regex::Regex>,
        max_quote_level: usize,
    ) -> (r: Self)
        ensures
            r.delim_patterns() == delimiter_matcher.patterns(),
            r.delim_num_in() == delimiter_matcher.num_in(),
            r.quote_patterns() == (match quote_matcher {
                Some(qm) => Some(qm.patterns()),
                None => None,
            }),
            r.word_patterns() == (match word_matcher {
                Some(wm) => Some(wm.patterns()),
                None => None,
            }),
            r.regexes() == regex_matchers@,
            r.quote_cap() == max_quote_level as nat,
            (delimiter_matcher.wf() && (quote_matcher matches Some(qm) ==> qm.wf()) && (
            word_matcher matches Some(wm) ==> wm.wf())) ==> r.wf(),
    {
        Self { delimiter_matcher, quote_matcher, word_matcher, regex_matchers, max_quote_level }
    }

    /// Creates an instance with the basic segmentation rules defined in
    /// [`basic`].
    pub fn basic_configure() -> (r: Segmenter)
        ensures
            r.wf(),
            r.delim_patterns() == builder::encode_all(
                basic::spec_in_periods() + basic::spec_ex_periods(),
            ),
            r.delim_num_in() == basic::spec_in_periods().len(),
            r.quote_patterns() == Some(
                char_pattern_bytes(quote_marker_chars(basic::spec_parentheses())),
            ),
            r.word_patterns() is None,
            r.regexes().len() <= 1,
            regex_compiles(basic::spec_decimal_point_pattern()) ==> (r.regexes().len() == 1
                && regex_pattern(r.regexes()[0]) == basic::spec_decimal_point_pattern()),
            r.quote_cap() == builder::DEFAULT_MAX_QUOTE_LEVEL as nat,
    {
        let b = SegmenterBuilder::new()
            .in_delimiters(basic::in_periods())
            .ex_delimiters(basic::ex_periods())
            .quotes(basic::parentheses());
        let b = match basic::decimal_point() {
            Some(re) => b.no_break_regex(re),
            None => b,
        };
        proof {
            assert(b.spec_in_delimiters() =~= basic::spec_in_periods());
            assert(b.spec_ex_delimiters() =~= basic::spec_ex_periods());
            assert(b.spec_quotes() =~= basic::spec_parentheses());
            assert(b.spec_words() =~= Seq::<Seq<char>>::empty());
            let chars = quote_marker_chars(basic::spec_parentheses());
            assert(unique_chars(chars)) by {
                assert(chars[0] == '(');
                assert(chars[1] == ')');
                assert(chars[2] == '[');
                assert(chars[3] == ']');
                assert(chars[4] == '（');
                assert(chars[5] == '）');
                assert(chars[6] == '「');
                assert(chars[7] == '」');
                assert(chars[8] == '【');
                assert(chars[9] == '】');
                assert(chars[10] == '『');
                assert(chars[11] == '』');
                assert(chars[12] == '［');
                assert(chars[13] == '］');
                assert(chars[14] == '〔');
                assert(chars[15] == '〕');
            };
        }
        match b.build() {
            Ok(seg) => seg,
            Err(e) => {
                proof {
                    assert(false);
                }
                vstd::pervasive::unreached()
            },
        }
    }

    /// Creates an instance with the basic Japanese segmentation rules
    /// defined in [`template::ja`].
    pub fn with_template_ja_config() -> (r: Segmenter)
        ensures
            r.wf(),
            r.delim_patterns() == builder::encode_all(
                template::ja::spec_in_delimiters() + template::ja::spec_ex_delimiters(),
            ),
            r.delim_num_in() == template::ja::spec_in_delimiters().len(),
            r.quote_patterns() == Some(
                char_pattern_bytes(quote_marker_chars(template::ja::spec_parentheses())),
            ),
            r.word_patterns() is None,
            r.regexes().len() <= 1,
            regex_compiles(template::ja::spec_decimal_point_pattern()) ==> (r.regexes().len() == 1
                && regex_pattern(r.regexes()[0]) == template::ja::spec_decimal_point_pattern()),
            r.quote_cap() == builder::DEFAULT_MAX_QUOTE_LEVEL as nat,
    {
        let b = SegmenterBuilder::new()
            .in_delimiters(template::ja::in_delimiters())
            .ex_delimiters(template::ja::ex_delimiters())
            .quotes(template::ja::parentheses());
        let b = match template::ja::decimal_point() {
            Some(re) => b.no_break_regex(re),
            None => b,
        };
        proof {
            assert(b.spec_in_delimiters() =~= template::ja::spec_in_delimiters());
            assert(b.spec_ex_delimiters() =~= template::ja::spec_ex_delimiters());
            assert(b.spec_quotes() =~= template::ja::spec_parentheses());
            assert(b.spec_words() =~= Seq::<Seq<char>>::empty());
            let chars = quote_marker_chars(template::ja::spec_parentheses());
            assert(unique_chars(chars)) by {
                assert(chars[0] == '(');
                assert(chars[1] == ')');
                assert(chars[2] == '[');
                assert(chars[3] == ']');
                assert(chars[4] == '（');
                assert(chars[5] == '）');
                assert(chars[6] == '「');
                assert(chars[7] == '」');
                assert(chars[8] == '【');
                assert(chars[9] == '】');
                assert(chars[10] == '『');
                assert(chars[11] == '』');
                assert(chars[12] == '［');
                assert(chars[13] == '］');
                assert(chars[14] == '〔');
                assert(chars[15] == '〕');
            };
        }
        match b.build() {
            Ok(seg) => seg,
            Err(e) => {
                proof {
                    assert(false);
                }
                vstd::pervasive::unreached()
            },
        }
    }

    /// Segments an input text into sentences, returning half-open
    /// byte-position ranges in order.
    pub fn segment(&self, text: &str) -> (r: Vec<(usize, usize)>)
        requires
            self.wf(),
        ensures
            ranges_of(r@) == self.spec_segment(text.spec_bytes()),
            forall|k: int|
                0 <= k < r@.len() ==> (#[trigger] r@[k]).0 < r@[k].1 <= text.spec_bytes().len(),
    {
        let ghost tb = text.spec_bytes();
        let n_text = text_len(text);
        let mut no_break = Bitset::new(n_text);
        let ghost v0 = no_break@;
        self.find_quotes(text, &mut no_break);
        let ghost v1 = no_break@;
        self.find_words(text, &mut no_break);
        let ghost v2 = no_break@;
        self.find_regex(text, &mut no_break);
        let ghost prot = self.spec_no_break(tb);
        proof {
            lemma_bits_compose(v0, v1, v2, self.spec_quote_marks(tb), self.spec_word_marks(tb));
            lemma_bits_compose(
                v0,
                v2,
                no_break@,
                self.spec_quote_marks(tb) + self.spec_word_marks(tb),
                self.spec_regex_marks(tb),
            );
            assert forall|j: int| 0 <= j < no_break@.len() implies no_break@[j] == prot.contains(
                j,
            ) by {
                assert(!v0[j]);
                assert(no_break@[j] == (v0[j] || prot.contains(j)));
            };
        }
        let matches = self.delimiter_matcher.iter(text);
        scan_with_protection(&matches, &no_break, n_text, Ghost(prot))
    }

    fn find_quotes(&self, text: &str, detected: &mut Bitset)
        requires
            self.wf(),
            text.spec_bytes().len() <= old(detected)@.len(),
        ensures
            bits_are(final(detected)@, old(detected)@, self.spec_quote_marks(text.spec_bytes())),
    {
        match &self.quote_matcher {
            None => {
                proof {
                    lemma_bits_refl(detected@);
                }
            },
            Some(quote_matcher) => {
                let events = quote_matcher.iter(text);
                let ghost evq = events@;
                let ghost tb = text.spec_bytes();
                let ghost cap = self.max_quote_level as nat;
                let mut stack: Vec<(usize, usize)> = Vec::new();
                proof {
                    lemma_bits_refl(detected@);
                }
                let n = events.len();
                for i in 0..n
                    invariant
                        n == evq.len(),
                        events@ == evq,
                        evq == quote_matcher.spec_iter(tb),
                        tb == text.spec_bytes(),
                        cap == self.max_quote_level as nat,
                        tb.len() <= detected@.len(),
                        forall|k: int|
                            0 <= k < evq.len() ==> (#[trigger] evq[k]).start <= evq[k].end
                                <= tb.len(),
                        forall|k: int| 0 <= k < evq.len() - 1 ==> (#[trigger] evq[k]).end <= evq[k
                            + 1].start,
                        stack@ == quote_scan(evq, cap, i as int).0,
                        forall|k: int|
                            0 <= k < stack@.len() && i < evq.len() ==> (#[trigger] stack@[k]).0
                                <= evq[i as int].start,
                        bits_are(detected@, old(detected)@, quote_scan(evq, cap, i as int).1),
                {
                    let ghost stack_prev = stack@;
                    let ghost marks_prev = quote_scan(evq, cap, i as int).1;
                    let m = &events[i];
                    if m.is_open {
                        stack.push((m.start, m.id));
                        proof {
                            assert(quote_scan(evq, cap, i + 1).0 == stack_prev.push(
                                (m.start, m.id),
                            ));
                            assert(quote_scan(evq, cap, i + 1).1 == marks_prev);
                            assert forall|k: int|
                                0 <= k < stack@.len() && i + 1 < evq.len() implies (
                            #[trigger] stack@[k]).0 <= evq[i + 1].start by {
                                assert(evq[i as int].start <= evq[i as int].end <= evq[i
                                    + 1].start);
                            };
                        }
                    } else if stack.len() == 0 {
                        proof {
                            assert(quote_scan(evq, cap, i + 1).0 == stack_prev);
                            assert(quote_scan(evq, cap, i + 1).1 == marks_prev);
                            assert(i + 1 < evq.len() ==> evq[i as int].start <= evq[i + 1].start);
                        }
                    } else {
                        let (start, id) = stack[stack.len() - 1];
                        proof {
                            assert(stack_prev.last() == (start, id));
                        }
                        if id != m.id {
                            proof {
                                assert(quote_scan(evq, cap, i + 1).0 == stack_prev);
                                assert(quote_scan(evq, cap, i + 1).1 == marks_prev);
                                assert forall|k: int|
                                    0 <= k < stack@.len() && i + 1 < evq.len() implies (
                                #[trigger] stack@[k]).0 <= evq[i + 1].start by {
                                    assert(evq[i as int].start <= evq[i + 1].start);
                                };
                            }
                        } else {
                            if stack.len() <= self.max_quote_level {
                                proof {
                                    assert(start <= evq[i as int].start);
                                    assert(evq[i as int].end <= tb.len());
                                }
                                let ghost pre = detected@;
                                detected.set_range(start..m.end);
                                proof {
                                    lemma_bits_mark_range(
                                        pre,
                                        detected@,
                                        old(detected)@,
                                        marks_prev,
                                        start as int,
                                        m.end as int,
                                    );
                                    assert(quote_scan(evq, cap, i + 1).1 == marks_prev
                                        + range_set(start as int, m.end as int));
                                }
                            } else {
                                proof {
                                    assert(quote_scan(evq, cap, i + 1).1 == marks_prev);
                                }
                            }
                            stack.pop();
                            proof {
                                assert(quote_scan(evq, cap, i + 1).0 == stack_prev.drop_last());
                                assert forall|k: int|
                                    0 <= k < stack@.len() && i + 1 < evq.len() implies (
                                #[trigger] stack@[k]).0 <= evq[i + 1].start by {
                                    assert(stack@[k] == stack_prev[k]);
                                    assert(evq[i as int].start <= evq[i + 1].start);
                                };
                            }
                        }
                    }
                }
                proof {
                    assert(quote_scan(evq, cap, evq.len() as int).1 == quote_marks(evq, cap));
                }
            },
        }
    }

    fn find_words(&self, text: &str, detected: &mut Bitset)
        requires
            self.wf(),
            text.spec_bytes().len() <= old(detected)@.len(),
        ensures
            bits_are(final(detected)@, old(detected)@, self.spec_word_marks(text.spec_bytes())),
    {
        match &self.word_matcher {
            None => {
                proof {
                    lemma_bits_refl(detected@);
                }
            },
            Some(word_matcher) => {
                let ws = word_matcher.iter(text);
                let ghost wsq = ws@;
                let ghost tb = text.spec_bytes();
                let ghost wspans = word_spans(wsq);
                proof {
                    lemma_bits_refl(detected@);
                    lemma_spans_marks_empty(wspans);
                }
                let n = ws.len();
                for i in 0..n
                    invariant
                        n == wsq.len(),
                        ws@ == wsq,
                        wsq == word_matcher.spec_iter(tb),
                        wspans == word_spans(wsq),
                        tb == text.spec_bytes(),
                        tb.len() <= detected@.len(),
                        forall|k: int|
                            0 <= k < wsq.len() ==> (#[trigger] wsq[k]).start <= wsq[k].end
                                <= tb.len(),
                        bits_are(
                            detected@,
                            old(detected)@,
                            spans_marks(wspans.subrange(0, i as int)),
                        ),
                {
                    let m = &ws[i];
                    let ghost pre = detected@;
                    detected.set_range(m.start..m.end);
                    proof {
                        assert(wspans[i as int] == (m.start, m.end));
                        lemma_spans_marks_unfold(wspans, i as int);
                        lemma_bits_mark_range(
                            pre,
                            detected@,
                            old(detected)@,
                            spans_marks(wspans.subrange(0, i as int)),
                            m.start as int,
                            m.end as int,
                        );
                    }
                }
                proof {
                    assert(wspans.subrange(0, n as int) =~= wspans);
                }
            },
        }
    }

    fn find_regex(&self, text: &str, detected: &mut Bitset)
        requires
            text.spec_bytes().len() <= old(detected)@.len(),
        ensures
            bits_are(final(detected)@, old(detected)@, self.spec_regex_marks(text.spec_bytes())),
    {
        let ghost tb = text.spec_bytes();
        let ghost res = self.regex_matchers@;
        proof {
            lemma_bits_refl(detected@);
        }
        let n = self.regex_matchers.len();
        for i in 0..n
            invariant
                n == res.len(),
                self.regex_matchers@ == res,
                tb == text.spec_bytes(),
                tb.len() <= detected@.len(),
                bits_are(detected@, old(detected)@, regex_marks_upto(res, tb, i as int)),
        {
            let spans = capture_spans(&self.regex_matchers[i], text);
            let ghost spq = spans@;
            let ghost before = detected@;
            proof {
                lemma_bits_refl(detected@);
                lemma_spans_marks_empty(spq);
            }
            let k_max = spans.len();
            for k in 0..k_max
                invariant
                    k_max == spq.len(),
                    spans@ == spq,
                    tb.len() <= detected@.len(),
                    forall|s: int|
                        0 <= s < spq.len() ==> (#[trigger] spq[s]).0 <= spq[s].1 <= tb.len(),
                    bits_are(detected@, before, spans_marks(spq.subrange(0, k as int))),
            {
                let (a, b) = spans[k];
                let ghost pre = detected@;
                detected.set_range(a..b);
                proof {
                    assert(spq[k as int] == (a, b));
                    lemma_spans_marks_unfold(spq, k as int);
                    lemma_bits_mark_range(
                        pre,
                        detected@,
                        before,
                        spans_marks(spq.subrange(0, k as int)),
                        a as int,
                        b as int,
                    );
                }
            }
            proof {
                assert(spq.subrange(0, k_max as int) =~= spq);
                assert(spq == regex_capture_spans(regex_pattern(res[i as int]), tb));
                lemma_bits_compose(
                    old(detected)@,
                    before,
                    detected@,
                    regex_marks_upto(res, tb, i as int),
                    spans_marks(spq),
                );
                assert(regex_marks_upto(res, tb, i + 1) == regex_marks_upto(res, tb, i as int)
                    + spans_marks(spq));
            }
        }
    }
}


/// The pieces the scanner walks off from match `i` on: `(start, end,
/// is_segment)` triples in text order.  A piece that is not a segment is a
/// consumed exclusive delimiter, whose bytes are dropped from the output.
pub open spec fn scan_pieces(
    ms: Seq<DelimiterMatch>,
    prot: Set<int>,
    len: int,
    i: int,
    cursor: int,
) -> Seq<(int, int, bool)>
    decreases ms.len() - i,
{
    if i < 0 || i >= ms.len() {
        Seq::empty()
    } else {
        let m = ms[i];
        if m.start == m.end {
            if cursor < len {
                seq![(cursor, len, true)] + scan_pieces(ms, prot, len, i + 1, cursor)
            } else {
                scan_pieces(ms, prot, len, i + 1, cursor)
            }
        } else {
            let bp = break_point(m);
            if bp > 0 && prot.contains(bp - 1) {
                scan_pieces(ms, prot, len, i + 1, cursor)
            } else if cursor == bp {
                if bp < m.end {
                    seq![(bp, m.end as int, false)] + scan_pieces(ms, prot, len, i + 1, m.end as int)
                } else {
                    scan_pieces(ms, prot, len, i + 1, m.end as int)
                }
            } else {
                if bp < m.end {
                    seq![(cursor, bp, true)] + (seq![(bp, m.end as int, false)] + scan_pieces(
                        ms,
                        prot,
                        len,
                        i + 1,
                        m.end as int,
                    ))
                } else {
                    seq![(cursor, bp, true)] + scan_pieces(ms, prot, len, i + 1, m.end as int)
                }
            }
        }
    }
}

/// The pieces exactly tile `[from, to)`: each piece is non-empty, each
/// starts where its predecessor ended, the first starts at `from`, and the
/// last ends at `to`.  No byte is lost and no byte is covered twice.
pub open spec fn tiles(pieces: Seq<(int, int, bool)>, from: int, to: int) -> bool
    decreases pieces.len(),
{
    if pieces.len() == 0 {
        from == to
    } else {
        &&& pieces[0].0 == from
        &&& pieces[0].0 < pieces[0].1
        &&& pieces[0].1 <= to
        &&& tiles(pieces.drop_first(), pieces[0].1, to)
    }
}

/// The segment pieces, in order, with the dropped delimiters left out.
pub open spec fn piece_segments(pieces: Seq<(int, int, bool)>) -> Seq<(int, int)>
    decreases pieces.len(),
{
    if pieces.len() == 0 {
        Seq::empty()
    } else {
        (if pieces[0].2 {
            seq![(pieces[0].0, pieces[0].1)]
        } else {
            Seq::empty()
        }) + piece_segments(pieces.drop_first())
    }
}

/// A well-formed delimiter match sequence for a text of `len` bytes: at
/// least the synthetic end-of-text marker, everything within bounds and in
/// non-overlapping order, and every real match non-empty (as matches of
/// non-empty delimiter patterns are).
pub open spec fn delim_matches_wf(ms: Seq<DelimiterMatch>, len: int) -> bool {
    &&& ms.len() >= 1
    &&& ms.last().start == len
    &&& ms.last().end == len
    &&& forall|i: int| 0 <= i < ms.len() ==> (#[trigger] ms[i]).start <= ms[i].end <= len
    &&& forall|i: int| 0 <= i < ms.len() - 1 ==> (#[trigger] ms[i]).end <= ms[i + 1].start
    &&& forall|i: int| 0 <= i < ms.len() - 1 ==> (#[trigger] ms[i]).start < ms[i].end
}

proof fn lemma_tiles_cons(p: (int, int, bool), rest: Seq<(int, int, bool)>, to: int)
    requires
        p.0 < p.1 <= to,
        tiles(rest, p.1, to),
    ensures
        tiles(seq![p] + rest, p.0, to),
{
    let whole = seq![p] + rest;
    assert(whole[0] == p);
    assert(whole.drop_first() =~= rest);
}

/// Coverage: from any cursor at or before the next match, the pieces the
/// scanner walks off tile the text exactly from that cursor to its end.
pub proof fn lemma_scan_pieces_tile(
    ms: Seq<DelimiterMatch>,
    prot: Set<int>,
    len: int,
    i: int,
    cursor: int,
)
    requires
        delim_matches_wf(ms, len),
        0 <= i < ms.len(),
        0 <= cursor <= ms[i].start,
    ensures
        tiles(scan_pieces(ms, prot, len, i, cursor), cursor, len),
    decreases ms.len() - i,
{
    let m = ms[i];
    let result = scan_pieces(ms, prot, len, i, cursor);
    if i == ms.len() - 1 {
        assert(m.start == len && m.end == len);
        assert(scan_pieces(ms, prot, len, i + 1, cursor) == Seq::<(int, int, bool)>::empty());
        if cursor < len {
            lemma_tiles_cons((cursor, len, true), Seq::empty(), len);
            assert(seq![(cursor, len, true)] + Seq::<(int, int, bool)>::empty() =~= seq![
                (cursor, len, true),
            ]);
            assert(seq![(cursor, len, true)] =~= seq![(cursor, len, true)] + Seq::<(
                int,
                int,
                bool,
            )>::empty());
        } else {
            assert(cursor == len);
        }
    } else {
        assert(m.start < m.end);
        assert(m.end <= ms[i + 1].start);
        let bp = break_point(m);
        assert(m.start <= bp <= m.end);
        if bp > 0 && prot.contains(bp - 1) {
            lemma_scan_pieces_tile(ms, prot, len, i + 1, cursor);
        } else if cursor == bp {
            lemma_scan_pieces_tile(ms, prot, len, i + 1, m.end as int);
            if bp < m.end {
                lemma_tiles_cons(
                    (bp, m.end as int, false),
                    scan_pieces(ms, prot, len, i + 1, m.end as int),
                    len,
                );
            }
        } else {
            assert(cursor < bp);
            lemma_scan_pieces_tile(ms, prot, len, i + 1, m.end as int);
            if bp < m.end {
                lemma_tiles_cons(
                    (bp, m.end as int, false),
                    scan_pieces(ms, prot, len, i + 1, m.end as int),
                    len,
                );
                lemma_tiles_cons(
                    (cursor, bp, true),
                    seq![(bp, m.end as int, false)] + scan_pieces(ms, prot, len, i + 1, m.end as int),
                    len,
                );
            } else {
                assert(bp == m.end);
                lemma_tiles_cons(
                    (cursor, bp, true),
                    scan_pieces(ms, prot, len, i + 1, m.end as int),
                    len,
                );
            }
        }
    }
}

/// The segments the scanner emits are exactly the segment pieces of the
/// tiling, in the same order.
pub proof fn lemma_scan_segments_are_pieces(
    ms: Seq<DelimiterMatch>,
    prot: Set<int>,
    len: int,
    i: int,
    cursor: int,
)
    ensures
        scan_segments(ms, prot, len, i, cursor) == piece_segments(
            scan_pieces(ms, prot, len, i, cursor),
        ),
    decreases ms.len() - i,
{
    if i < 0 || i >= ms.len() {
    } else {
        let m = ms[i];
        if m.start == m.end {
            lemma_scan_segments_are_pieces(ms, prot, len, i + 1, cursor);
            if cursor < len {
                lemma_piece_segments_cons(
                    (cursor, len, true),
                    scan_pieces(ms, prot, len, i + 1, cursor),
                );
            }
        } else {
            let bp = break_point(m);
            lemma_scan_segments_are_pieces(ms, prot, len, i + 1, m.end as int);
            let rest = scan_pieces(ms, prot, len, i + 1, m.end as int);
            if bp > 0 && prot.contains(bp - 1) {
                lemma_scan_segments_are_pieces(ms, prot, len, i + 1, cursor);
            } else if cursor == bp {
                if bp < m.end {
                    lemma_piece_segments_cons((bp, m.end as int, false), rest);
                    assert(Seq::<(int, int)>::empty() + piece_segments(rest) =~= piece_segments(
                        rest,
                    ));
                }
            } else {
                if bp < m.end {
                    lemma_piece_segments_cons((bp, m.end as int, false), rest);
                    lemma_piece_segments_cons(
                        (cursor, bp, true),
                        seq![(bp, m.end as int, false)] + rest,
                    );
                    assert(Seq::<(int, int)>::empty() + piece_segments(rest) =~= piece_segments(
                        rest,
                    ));
                } else {
                    lemma_piece_segments_cons((cursor, bp, true), rest);
                }
            }
        }
    }
}

proof fn lemma_piece_segments_cons(p: (int, int, bool), rest: Seq<(int, int, bool)>)
    ensures
        piece_segments(seq![p] + rest) == (if p.2 {
            seq![(p.0, p.1)]
        } else {
            Seq::<(int, int)>::empty()
        }) + piece_segments(rest),
{
    let whole = seq![p] + rest;
    assert(whole.len() >= 1);
    assert(whole[0] == p);
    assert(whole.drop_first() =~= rest);
}

/// Every dropped piece is a consumed exclusive delimiter occurrence: some
/// match with exactly that byte range, flagged exclusive.
pub proof fn lemma_scan_pieces_drops(
    ms: Seq<DelimiterMatch>,
    prot: Set<int>,
    len: int,
    i: int,
    cursor: int,
)
    ensures
        forall|k: int|
            0 <= k < scan_pieces(ms, prot, len, i, cursor).len() && !(#[trigger] scan_pieces(
                ms,
                prot,
                len,
                i,
                cursor,
            )[k]).2 ==> exists|t: int|
                i <= t < ms.len() && !(#[trigger] ms[t]).is_in_delimiter && ms[t].start
                    == scan_pieces(ms, prot, len, i, cursor)[k].0 && ms[t].end == scan_pieces(
                    ms,
                    prot,
                    len,
                    i,
                    cursor,
                )[k].1,
    decreases ms.len() - i,
{
    if i < 0 || i >= ms.len() {
    } else {
        let m = ms[i];
        let result = scan_pieces(ms, prot, len, i, cursor);
        lemma_scan_pieces_drops(ms, prot, len, i + 1, cursor);
        lemma_scan_pieces_drops(ms, prot, len, i + 1, m.end as int);
        let rest_c = scan_pieces(ms, prot, len, i + 1, cursor);
        let rest_e = scan_pieces(ms, prot, len, i + 1, m.end as int);
        assert forall|k: int|
            0 <= k < result.len() && !(#[trigger] result[k]).2 implies exists|t: int|
                i <= t < ms.len() && !(#[trigger] ms[t]).is_in_delimiter && ms[t].start
                    == result[k].0 && ms[t].end == result[k].1 by {
            let bp = break_point(m);
            if m.start == m.end {
                if cursor < len {
                    assert(result == seq![(cursor, len, true)] + rest_c);
                    assert(result[k] == rest_c[k - 1]);
                } else {
                    assert(result == rest_c);
                }
            } else if bp > 0 && prot.contains(bp - 1) {
                assert(result == rest_c);
            } else if cursor == bp {
                if bp < m.end {
                    assert(result == seq![(bp, m.end as int, false)] + rest_e);
                    if k == 0 {
                        assert(!m.is_in_delimiter) by {
                            if m.is_in_delimiter {
                                assert(bp == m.end);
                            }
                        };
                        assert(m.start == bp) by {
                            if m.is_in_delimiter {
                                assert(false);
                            }
                        };
                        assert(i <= i < ms.len() && !ms[i].is_in_delimiter && ms[i].start
                            == result[k].0 && ms[i].end == result[k].1);
                    } else {
                        assert(result[k] == rest_e[k - 1]);
                    }
                } else {
                    assert(result == rest_e);
                }
            } else {
                if bp < m.end {
                    assert(result == seq![(cursor, bp, true)] + (seq![(bp, m.end as int, false)]
                        + rest_e));
                    if k == 1 {
                        assert(result[k] == (bp, m.end as int, false));
                        assert(!m.is_in_delimiter && m.start == bp);
                        assert(i <= i < ms.len() && !ms[i].is_in_delimiter && ms[i].start
                            == result[k].0 && ms[i].end == result[k].1);
                    } else if k > 1 {
                        assert(result[k] == rest_e[k - 2]);
                    }
                } else {
                    assert(result == seq![(cursor, bp, true)] + rest_e);
                    if k > 0 {
                        assert(result[k] == rest_e[k - 1]);
                    }
                }
            }
        };
    }
}

/// On empty text the scanner emits nothing.
pub proof fn lemma_scan_empty_text(ms: Seq<DelimiterMatch>, prot: Set<int>)
    requires
        delim_matches_wf(ms, 0),
    ensures
        scan_segments(ms, prot, 0, 0, 0) == Seq::<(int, int)>::empty(),
{
    assert(ms.len() == 1) by {
        if ms.len() > 1 {
            assert(ms[0].start < ms[0].end);
            assert(ms[0].end <= 0);
        }
    };
    assert(ms[0].start == 0 && ms[0].end == 0);
    assert(scan_segments(ms, prot, 0, 1, 0) == Seq::<(int, int)>::empty());
}

/// The emitted segments lie within the text in strictly increasing,
/// non-overlapping order, each non-empty, and none starting before the
/// cursor the scan began at.
pub proof fn lemma_scan_segments_ordered(
    ms: Seq<DelimiterMatch>,
    prot: Set<int>,
    len: int,
    i: int,
    cursor: int,
)
    requires
        delim_matches_wf(ms, len),
        0 <= i < ms.len(),
        0 <= cursor <= ms[i].start,
    ensures
        forall|k: int|
            0 <= k < scan_segments(ms, prot, len, i, cursor).len() ==> cursor <= (
            #[trigger] scan_segments(ms, prot, len, i, cursor)[k]).0 < scan_segments(
                ms,
                prot,
                len,
                i,
                cursor,
            )[k].1 <= len,
        forall|k: int|
            0 <= k < scan_segments(ms, prot, len, i, cursor).len() - 1 ==> (
            #[trigger] scan_segments(ms, prot, len, i, cursor)[k]).1 <= scan_segments(
                ms,
                prot,
                len,
                i,
                cursor,
            )[k + 1].0,
    decreases ms.len() - i,
{
    let m = ms[i];
    let result = scan_segments(ms, prot, len, i, cursor);
    if i == ms.len() - 1 {
        assert(m.start == len && m.end == len);
        assert(scan_segments(ms, prot, len, i + 1, cursor) == Seq::<(int, int)>::empty());
        if cursor < len {
            assert(result == seq![(cursor, len)] + Seq::<(int, int)>::empty());
            assert(result =~= seq![(cursor, len)]);
        }
    } else {
        assert(m.start < m.end);
        assert(m.end <= ms[i + 1].start);
        let bp = break_point(m);
        assert(m.start <= bp <= m.end);
        if bp > 0 && prot.contains(bp - 1) {
            lemma_scan_segments_ordered(ms, prot, len, i + 1, cursor);
            assert(result == scan_segments(ms, prot, len, i + 1, cursor));
            assert(forall|k: int|
                0 <= k < result.len() ==> cursor <= (#[trigger] result[k]).0 < result[k].1
                    <= len);
            assert(forall|k: int|
                0 <= k < result.len() - 1 ==> (#[trigger] result[k]).1 <= result[k + 1].0);
        } else if cursor == bp {
            lemma_scan_segments_ordered(ms, prot, len, i + 1, m.end as int);
            let rest = scan_segments(ms, prot, len, i + 1, m.end as int);
            assert(result == rest);
            assert forall|k: int| 0 <= k < result.len() implies cursor <= (#[trigger] result[k]).0
                < result[k].1 <= len by {
                assert(result[k] == rest[k]);
                assert(m.end as int <= rest[k].0);
            };
            assert(forall|k: int|
                0 <= k < result.len() - 1 ==> (#[trigger] result[k]).1 <= result[k + 1].0);
        } else {
            assert(cursor < bp);
            lemma_scan_segments_ordered(ms, prot, len, i + 1, m.end as int);
            let rest = scan_segments(ms, prot, len, i + 1, m.end as int);
            assert(result == seq![(cursor, bp)] + rest);
            assert forall|k: int| 0 <= k < result.len() implies cursor <= (#[trigger] result[k]).0
                < result[k].1 <= len by {
                if k > 0 {
                    assert(result[k] == rest[k - 1]);
                    assert(m.end as int <= rest[k - 1].0);
                }
            };
            assert forall|k: int|
                0 <= k < result.len() - 1 implies (#[trigger] result[k]).1 <= result[k + 1].0 by {
                if k == 0 {
                    assert(result[1] == rest[0]);
                    assert(bp <= m.end <= rest[0].0);
                } else {
                    assert(result[k] == rest[k - 1]);
                    assert(result[k + 1] == rest[k]);
                }
            };
        }
    }
}

/// The segments a whole segmentation emits are within the text, non-empty,
/// and in strictly increasing, non-overlapping order.
pub proof fn lemma_segment_ordered(eng: Segmenter, text: Seq<u8>)
    requires
        delim_matches_wf(eng.spec_delimiter_matches(text), text.len() as int),
    ensures
        forall|k: int|
            0 <= k < eng.spec_segment(text).len() ==> 0 <= (#[trigger] eng.spec_segment(
                text,
            )[k]).0 < eng.spec_segment(text)[k].1 <= text.len() as int,
        forall|k: int|
            0 <= k < eng.spec_segment(text).len() - 1 ==> (#[trigger] eng.spec_segment(
                text,
            )[k]).1 <= eng.spec_segment(text)[k + 1].0,
{
    lemma_scan_segments_ordered(
        eng.spec_delimiter_matches(text),
        eng.spec_no_break(text),
        text.len() as int,
        0,
        0,
    );
}

/// On an empty text a segmentation is the empty sequence.
pub proof fn lemma_segment_empty_text(eng: Segmenter, text: Seq<u8>)
    requires
        text.len() == 0,
        delim_matches_wf(eng.spec_delimiter_matches(text), 0),
    ensures
        eng.spec_segment(text) == Seq::<(int, int)>::empty(),
{
    lemma_scan_empty_text(eng.spec_delimiter_matches(text), eng.spec_no_break(text));
}

/// No trailing loss: when every real delimiter match ends before the end of
/// a non-empty text, the scanner still emits the trailing text, so the
/// result is non-empty and its last segment ends at the text's end.
pub proof fn lemma_scan_trailing(
    ms: Seq<DelimiterMatch>,
    prot: Set<int>,
    len: int,
    i: int,
    cursor: int,
)
    requires
        delim_matches_wf(ms, len),
        forall|t: int| 0 <= t < ms.len() - 1 ==> (#[trigger] ms[t]).end < len,
        0 <= i < ms.len(),
        0 <= cursor <= ms[i].start,
        cursor < len,
    ensures
        scan_segments(ms, prot, len, i, cursor).len() > 0,
        scan_segments(ms, prot, len, i, cursor).last().1 == len,
    decreases ms.len() - i,
{
    let m = ms[i];
    let result = scan_segments(ms, prot, len, i, cursor);
    if i == ms.len() - 1 {
        assert(m.start == len && m.end == len);
        assert(scan_segments(ms, prot, len, i + 1, cursor) == Seq::<(int, int)>::empty());
        assert(result == seq![(cursor, len)] + Seq::<(int, int)>::empty());
        assert(result =~= seq![(cursor, len)]);
    } else {
        assert(m.start < m.end);
        assert(m.end < len);
        let bp = break_point(m);
        if bp > 0 && prot.contains(bp - 1) {
            lemma_scan_trailing(ms, prot, len, i + 1, cursor);
        } else if cursor == bp {
            lemma_scan_trailing(ms, prot, len, i + 1, m.end as int);
        } else {
            lemma_scan_trailing(ms, prot, len, i + 1, m.end as int);
            let rest = scan_segments(ms, prot, len, i + 1, m.end as int);
            assert(result == seq![(cursor, bp)] + rest);
            assert(result.last() == rest.last());
        }
    }
}

/// Determinism: the segmentation of a text is a function of the engine and
/// the text's bytes alone, so two results for the same engine and text are
/// equal.
pub proof fn lemma_segment_deterministic(
    eng: Segmenter,
    text: Seq<u8>,
    r1: Seq<(int, int)>,
    r2: Seq<(int, int)>,
)
    requires
        r1 == eng.spec_segment(text),
        r2 == eng.spec_segment(text),
    ensures
        r1 == r2,
{
}

/// Coverage and no overlap, for a whole segmentation: the scanner's pieces
/// tile the text exactly; the emitted segments are the segment pieces of
/// that tiling, in order; and every other piece is a consumed exclusive
/// delimiter occurrence.
pub proof fn lemma_segment_coverage(eng: Segmenter, text: Seq<u8>)
    requires
        delim_matches_wf(eng.spec_delimiter_matches(text), text.len() as int),
    ensures
        tiles(
            scan_pieces(
                eng.spec_delimiter_matches(text),
                eng.spec_no_break(text),
                text.len() as int,
                0,
                0,
            ),
            0,
            text.len() as int,
        ),
        eng.spec_segment(text) == piece_segments(
            scan_pieces(
                eng.spec_delimiter_matches(text),
                eng.spec_no_break(text),
                text.len() as int,
                0,
                0,
            ),
        ),
        forall|k: int|
            0 <= k < scan_pieces(
                eng.spec_delimiter_matches(text),
                eng.spec_no_break(text),
                text.len() as int,
                0,
                0,
            ).len() && !(#[trigger] scan_pieces(
                eng.spec_delimiter_matches(text),
                eng.spec_no_break(text),
                text.len() as int,
                0,
                0,
            )[k]).2 ==> exists|t: int|
                0 <= t < eng.spec_delimiter_matches(text).len() && !(
                #[trigger] eng.spec_delimiter_matches(text)[t]).is_in_delimiter
                    && eng.spec_delimiter_matches(text)[t].start == scan_pieces(
                    eng.spec_delimiter_matches(text),
                    eng.spec_no_break(text),
                    text.len() as int,
                    0,
                    0,
                )[k].0 && eng.spec_delimiter_matches(text)[t].end == scan_pieces(
                    eng.spec_delimiter_matches(text),
                    eng.spec_no_break(text),
                    text.len() as int,
                    0,
                    0,
                )[k].1,
{
    let ms = eng.spec_delimiter_matches(text);
    let prot = eng.spec_no_break(text);
    let len = text.len() as int;
    lemma_scan_pieces_tile(ms, prot, len, 0, 0);
    lemma_scan_segments_are_pieces(ms, prot, len, 0, 0);
    lemma_scan_pieces_drops(ms, prot, len, 0, 0);
}

} // verus!
