//! Builder of [`Segmenter`] to define segmentation rules.
use vstd::prelude::*;
use vstd::string::StringSliceAdditionalSpecFns;
use vstd::utf8::encode_utf8;

use crate::errors::EasySegmenterError;
use crate::matcher::{
    pattern_bytes,
    char_pattern_bytes,
    quote_marker_chars,
    unique_chars,
    DelimiterMatcher,
    QuoteMatcher,
    WordMatcher,
};
use crate::segmenter::Segmenter;

verus! {

/// The default value of the maximum nesting level for quotations.
pub const DEFAULT_MAX_QUOTE_LEVEL: usize = 3;

/// The character sequences of a list of string slices.
pub open spec fn str_seq_views(ss: Seq<&str>) -> Seq<Seq<char>> {
    Seq::new(ss.len(), |i: int| ss[i]@)
}

/// The character sequences of a list of strings.
pub open spec fn string_seq_views(ss: Seq<String>) -> Seq<Seq<char>> {
    Seq::new(ss.len(), |i: int| ss[i]@)
}

/// The byte sequences of a list of character sequences.
pub open spec fn encode_all(ss: Seq<Seq<char>>) -> Seq<Seq<u8>> {
    Seq::new(ss.len(), |i: int| encode_utf8(ss[i]))
}

proof fn lemma_views_push(prev: Seq<String>, x: String, base: Seq<Seq<char>>, ss: Seq<&str>, i: int)
    requires
        0 <= i < ss.len(),
        string_seq_views(prev) == base + str_seq_views(ss.subrange(0, i)),
        x@ == ss[i]@,
    ensures
        string_seq_views(prev.push(x)) == base + str_seq_views(ss.subrange(0, i + 1)),
{
    let lhs = string_seq_views(prev.push(x));
    let rhs = base + str_seq_views(ss.subrange(0, i + 1));
    assert(string_seq_views(prev).len() == prev.len());
    assert(str_seq_views(ss.subrange(0, i)).len() == i);
    assert(prev.len() == base.len() + i);
    assert(lhs.len() == rhs.len());
    assert forall|k: int| 0 <= k < lhs.len() implies lhs[k] == rhs[k] by {
        if k < base.len() {
            assert(lhs[k] == prev[k]@);
            assert(string_seq_views(prev)[k] == prev[k]@);
            assert(rhs[k] == base[k]);
        } else if k < base.len() + i {
            assert(lhs[k] == prev[k]@);
            assert(string_seq_views(prev)[k] == prev[k]@);
            assert(str_seq_views(ss.subrange(0, i))[k - base.len()] == ss[k - base.len()]@);
            assert(str_seq_views(ss.subrange(0, i + 1))[k - base.len()] == ss[k - base.len()]@);
            assert(rhs[k] == str_seq_views(ss.subrange(0, i + 1))[k - base.len()]);
        } else {
            assert(lhs[k] == x@);
            assert(str_seq_views(ss.subrange(0, i + 1))[i] == ss[i]@);
            assert(rhs[k] == ss[i]@);
        }
    };
    assert(lhs =~= rhs);
}

/// Builder of [`Segmenter`] to define segmentation rules from scratch.
///
/// Delimiters are detected with exact string matching for a set of patterns.
/// If multiple delimiters overlap at a position, the leftmost-longest one is
/// detected.
pub struct SegmenterBuilder {
    in_delimiters: Vec<String>,
    ex_delimiters: Vec<String>,
    quotes: Vec<(char, char)>,
    words: Vec<String>,
    regexes: Vec<regex::Regex>,
    max_quote_level: usize,
}

impl SegmenterBuilder {
    /// The inclusive delimiters added so far.
    pub closed spec fn spec_in_delimiters(&self) -> Seq<Seq<char>> {
        string_seq_views(self.in_delimiters@)
    }

    /// The exclusive delimiters added so far.
    pub closed spec fn spec_ex_delimiters(&self) -> Seq<Seq<char>> {
        string_seq_views(self.ex_delimiters@)
    }

    /// The quote pairs added so far.
    pub closed spec fn spec_quotes(&self) -> Seq<(char, char)> {
        self.quotes@
    }

    /// The no-break words added so far.
    pub closed spec fn spec_words(&self) -> Seq<Seq<char>> {
        string_seq_views(self.words@)
    }

    /// The no-break regexes added so far.
    pub closed spec fn spec_regexes(&self) -> Seq<regex::Regex> {
        self.regexes@
    }

    /// The configured maximum quote nesting level.
    pub closed spec fn spec_max_quote_level(&self) -> nat {
        self.max_quote_level as nat
    }

    /// Creates an instance with no rules and the default nesting level.
    pub fn new() -> (r: Self)
        ensures
            r.spec_in_delimiters() == Seq::<Seq<char>>::empty(),
            r.spec_ex_delimiters() == Seq::<Seq<char>>::empty(),
            r.spec_quotes() == Seq::<(char, char)>::empty(),
            r.spec_words() == Seq::<Seq<char>>::empty(),
            r.spec_regexes() == Seq::<regex::Regex>::empty(),
            r.spec_max_quote_level() == DEFAULT_MAX_QUOTE_LEVEL as nat,
    {
        let r = SegmenterBuilder {
            in_delimiters: Vec::new(),
            ex_delimiters: Vec::new(),
            quotes: Vec::new(),
            words: Vec::new(),
            regexes: Vec::new(),
            max_quote_level: DEFAULT_MAX_QUOTE_LEVEL,
        };
        proof {
            assert(r.spec_in_delimiters() =~= Seq::<Seq<char>>::empty());
            assert(r.spec_ex_delimiters() =~= Seq::<Seq<char>>::empty());
            assert(r.spec_words() =~= Seq::<Seq<char>>::empty());
        }
        r
    }

    /// Compiles the segmenter.
    ///
    /// Fails when no delimiter at all was supplied, and when the quote
    /// marker characters are not pairwise distinct; otherwise the segmenter
    /// holds exactly the configured rules.
    pub fn build(self) -> (r: Result<Segmenter, EasySegmenterError>)
        ensures
            r is Err <==> ((self.spec_in_delimiters().len() == 0 && self.spec_ex_delimiters().len()
                == 0) || !unique_chars(quote_marker_chars(self.spec_quotes()))),
            (self.spec_in_delimiters().len() == 0 && self.spec_ex_delimiters().len() == 0) ==> (
            r matches Err(e) && e matches EasySegmenterError::Input(ie) && ie@
                == "Both in_ and ex_delimiters must not be empty."@),
            (!(self.spec_in_delimiters().len() == 0 && self.spec_ex_delimiters().len() == 0)
                && !unique_chars(quote_marker_chars(self.spec_quotes()))) ==> (r matches Err(e)
                && e matches EasySegmenterError::Input(ie) && ie@ == "Entries must be unique."@),
            r matches Ok(s) ==> {
                &&& s.wf()
                &&& s.delim_patterns() == encode_all(
                    self.spec_in_delimiters() + self.spec_ex_delimiters(),
                )
                &&& s.delim_num_in() == self.spec_in_delimiters().len()
                &&& s.quote_patterns() == (if self.spec_quotes().len() == 0 {
                    None
                } else {
                    Some(char_pattern_bytes(quote_marker_chars(self.spec_quotes())))
                })
                &&& s.word_patterns() == (if self.spec_words().len() == 0 {
                    None
                } else {
                    Some(encode_all(self.spec_words()))
                })
                &&& s.regexes() == self.spec_regexes()
                &&& s.quote_cap() == self.spec_max_quote_level()
            },
    {
        if self.in_delimiters.len() == 0 && self.ex_delimiters.len() == 0 {
            return Err(EasySegmenterError::input("Both in_ and ex_delimiters must not be empty."));
        }
        let delimiter_matcher = DelimiterMatcher::new(&self.in_delimiters, &self.ex_delimiters);
        proof {
            assert(pattern_bytes(self.in_delimiters@ + self.ex_delimiters@) =~= encode_all(
                self.spec_in_delimiters() + self.spec_ex_delimiters(),
            ));
        }
        let quote_matcher = if self.quotes.len() == 0 {
            proof {
                assert(quote_marker_chars(self.quotes@).len() == 0);
            }
            None
        } else {
            match QuoteMatcher::new(&self.quotes) {
                Ok(qm) => Some(qm),
                Err(e) => {
                    return Err(e);
                },
            }
        };
        let word_matcher = if self.words.len() == 0 {
            None
        } else {
            let wm = WordMatcher::new(&self.words);
            proof {
                assert(pattern_bytes(self.words@) =~= encode_all(self.spec_words()));
            }
            Some(wm)
        };
        Ok(
            Segmenter::new(
                delimiter_matcher,
                quote_matcher,
                word_matcher,
                self.regexes,
                self.max_quote_level,
            ),
        )
    }

    /// Adds delimiters that break texts and are included in resulting
    /// sentences.
    pub fn in_delimiters(self, delimiters: Vec<&str>) -> (r: Self)
        ensures
            r.spec_in_delimiters() == self.spec_in_delimiters() + str_seq_views(delimiters@),
            r.spec_ex_delimiters() == self.spec_ex_delimiters(),
            r.spec_quotes() == self.spec_quotes(),
            r.spec_words() == self.spec_words(),
            r.spec_regexes() == self.spec_regexes(),
            r.spec_max_quote_level() == self.spec_max_quote_level(),
    {
        let mut s = self;
        let n = delimiters.len();
        for i in 0..n
            invariant
                n == delimiters@.len(),
                s.spec_in_delimiters() == self.spec_in_delimiters() + str_seq_views(
                    delimiters@.subrange(0, i as int),
                ),
                s.ex_delimiters == self.ex_delimiters,
                s.quotes == self.quotes,
                s.words == self.words,
                s.regexes == self.regexes,
                s.max_quote_level == self.max_quote_level,
        {
            let d: &str = delimiters[i];
            let ghost prev = s.in_delimiters@;
            s.in_delimiters.push(d.to_owned());
            proof {
                lemma_views_push(
                    prev,
                    s.in_delimiters@.last(),
                    self.spec_in_delimiters(),
                    delimiters@,
                    i as int,
                );
            }
        }
        proof {
            assert(delimiters@.subrange(0, n as int) =~= delimiters@);
            assert(s.spec_in_delimiters() =~= self.spec_in_delimiters() + str_seq_views(
                delimiters@,
            ));
        }
        s
    }

    /// Adds delimiters that break texts and are excluded from resulting
    /// sentences.
    pub fn ex_delimiters(self, delimiters: Vec<&str>) -> (r: Self)
        ensures
            r.spec_ex_delimiters() == self.spec_ex_delimiters() + str_seq_views(delimiters@),
            r.spec_in_delimiters() == self.spec_in_delimiters(),
            r.spec_quotes() == self.spec_quotes(),
            r.spec_words() == self.spec_words(),
            r.spec_regexes() == self.spec_regexes(),
            r.spec_max_quote_level() == self.spec_max_quote_level(),
    {
        let mut s = self;
        let n = delimiters.len();
        for i in 0..n
            invariant
                n == delimiters@.len(),
                s.spec_ex_delimiters() == self.spec_ex_delimiters() + str_seq_views(
                    delimiters@.subrange(0, i as int),
                ),
                s.in_delimiters == self.in_delimiters,
                s.quotes == self.quotes,
                s.words == self.words,
                s.regexes == self.regexes,
                s.max_quote_level == self.max_quote_level,
        {
            let d: &str = delimiters[i];
            let ghost prev = s.ex_delimiters@;
            s.ex_delimiters.push(d.to_owned());
            proof {
                lemma_views_push(
                    prev,
                    s.ex_delimiters@.last(),
                    self.spec_ex_delimiters(),
                    delimiters@,
                    i as int,
                );
            }
        }
        proof {
            assert(delimiters@.subrange(0, n as int) =~= delimiters@);
            assert(s.spec_ex_delimiters() =~= self.spec_ex_delimiters() + str_seq_views(
                delimiters@,
            ));
        }
        s
    }

    /// Adds character pairs to specify the start and end of a quotation.
    /// Sentences within a quotation will not be broken.
    ///
    /// The marker characters must be pairwise distinct over all pairs;
    /// `build` reports a violation.
    pub fn quotes(self, quotes: Vec<(char, char)>) -> (r: Self)
        ensures
            r.spec_quotes() == self.spec_quotes() + quotes@,
            r.spec_in_delimiters() == self.spec_in_delimiters(),
            r.spec_ex_delimiters() == self.spec_ex_delimiters(),
            r.spec_words() == self.spec_words(),
            r.spec_regexes() == self.spec_regexes(),
            r.spec_max_quote_level() == self.spec_max_quote_level(),
    {
        let mut s = self;
        let n = quotes.len();
        for i in 0..n
            invariant
                n == quotes@.len(),
                s.quotes@ =~= self.quotes@ + quotes@.subrange(0, i as int),
                s.in_delimiters == self.in_delimiters,
                s.ex_delimiters == self.ex_delimiters,
                s.words == self.words,
                s.regexes == self.regexes,
                s.max_quote_level == self.max_quote_level,
        {
            let (p, q) = quotes[i];
            s.quotes.push((p, q));
            proof {
                assert(s.quotes@ =~= self.quotes@ + quotes@.subrange(0, i + 1));
            }
        }
        proof {
            assert(quotes@.subrange(0, n as int) =~= quotes@);
            assert(s.quotes@ =~= self.quotes@ + quotes@);
        }
        s
    }

    /// Adds words that should not be broken.
    pub fn no_break_words(self, words: Vec<&str>) -> (r: Self)
        ensures
            r.spec_words() == self.spec_words() + str_seq_views(words@),
            r.spec_in_delimiters() == self.spec_in_delimiters(),
            r.spec_ex_delimiters() == self.spec_ex_delimiters(),
            r.spec_quotes() == self.spec_quotes(),
            r.spec_regexes() == self.spec_regexes(),
            r.spec_max_quote_level() == self.spec_max_quote_level(),
    {
        let mut s = self;
        let n = words.len();
        for i in 0..n
            invariant
                n == words@.len(),
                s.spec_words() == self.spec_words() + str_seq_views(words@.subrange(0, i as int)),
                s.in_delimiters == self.in_delimiters,
                s.ex_delimiters == self.ex_delimiters,
                s.quotes == self.quotes,
                s.regexes == self.regexes,
                s.max_quote_level == self.max_quote_level,
        {
            let w: &str = words[i];
            let ghost prev = s.words@;
            s.words.push(w.to_owned());
            proof {
                lemma_views_push(prev, s.words@.last(), self.spec_words(), words@, i as int);
            }
        }
        proof {
            assert(words@.subrange(0, n as int) =~= words@);
            assert(s.spec_words() =~= self.spec_words() + str_seq_views(words@));
        }
        s
    }

    /// Adds a regex pattern whose captured groups should not be broken.
    ///
    /// The function takes a single compiled regex; register several patterns
    /// by repeating it.
    pub fn no_break_regex(self, regex: regex::Regex) -> (r: Self)
        ensures
            r.spec_regexes() == self.spec_regexes().push(regex),
            r.spec_in_delimiters() == self.spec_in_delimiters(),
            r.spec_ex_delimiters() == self.spec_ex_delimiters(),
            r.spec_quotes() == self.spec_quotes(),
            r.spec_words() == self.spec_words(),
            r.spec_max_quote_level() == self.spec_max_quote_level(),
    {
        let mut s = self;
        s.regexes.push(regex);
        s
    }

    /// Sets the maximum nesting level for quotations.  The default value is
    /// [`DEFAULT_MAX_QUOTE_LEVEL`].
    ///
    /// Fails exactly when `max_quote_level` is zero.
    pub fn max_quote_level(self, max_quote_level: usize) -> (r: Result<Self, EasySegmenterError>)
        ensures
            r is Err <==> max_quote_level == 0,
            max_quote_level == 0 ==> (r matches Err(e) && e matches EasySegmenterError::Input(ie)
                && ie@ == "max_quote_level must not be zero."@),
            r matches Ok(s) ==> {
                &&& s.spec_max_quote_level() == max_quote_level as nat
                &&& s.spec_in_delimiters() == self.spec_in_delimiters()
                &&& s.spec_ex_delimiters() == self.spec_ex_delimiters()
                &&& s.spec_quotes() == self.spec_quotes()
                &&& s.spec_words() == self.spec_words()
                &&& s.spec_regexes() == self.spec_regexes()
            },
    {
        if max_quote_level == 0 {
            Err(EasySegmenterError::input("max_quote_level must not be zero."))
        } else {
            let mut s = self;
            s.max_quote_level = max_quote_level;
            Ok(s)
        }
    }
}

} // verus!
