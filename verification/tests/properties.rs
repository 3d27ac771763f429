use easy_segmenter::errors::EasySegmenterError;
use easy_segmenter::{Segmenter, SegmenterBuilder};
use regex::Regex;

fn sentences<'a>(seg: &Segmenter, text: &'a str) -> Vec<&'a str> {
    seg.segment(text).into_iter().map(|(i, j)| &text[i..j]).collect()
}

/// The emitted segments, interleaved with the bytes of the consumed
/// exclusive delimiters, reproduce the text exactly, without overlap.
#[test]
fn coverage_reconstructs_text() {
    let seg = SegmenterBuilder::new()
        .in_delimiters(vec!["。", "！"])
        .ex_delimiters(vec!["\n", "\r\n"])
        .quotes(vec![('「', '」')])
        .build()
        .unwrap();
    let text = "あれ。これ\r\n「それ。どれ。」だ！\n\nおわり";
    let ranges = seg.segment(text);
    // Segments come in strictly increasing, non-overlapping order.
    let mut prev_end = 0;
    for &(i, j) in &ranges {
        assert!(prev_end <= i);
        assert!(i < j);
        assert!(j <= text.len());
        prev_end = j;
    }
    // Every byte outside the segments belongs to a consumed exclusive
    // delimiter occurrence; gluing the pieces back together in order gives
    // the original text.
    let mut rebuilt = String::new();
    let mut pos = 0;
    for &(i, j) in &ranges {
        let gap = &text[pos..i];
        assert!(gap.chars().all(|c| c == '\n' || c == '\r'));
        rebuilt.push_str(gap);
        rebuilt.push_str(&text[i..j]);
        pos = j;
    }
    rebuilt.push_str(&text[pos..]);
    assert_eq!(rebuilt, text);
}

/// Repeated calls with the same engine and text yield identical results.
#[test]
fn determinism_repeated_calls() {
    let seg = SegmenterBuilder::new()
        .in_delimiters(vec!["。"])
        .ex_delimiters(vec!["\n"])
        .quotes(vec![('「', '」')])
        .no_break_words(vec!["モーニング娘。"])
        .no_break_regex(Regex::new(r"\d(．)\d").unwrap())
        .build()
        .unwrap();
    let text = "モーニング娘。の新曲。\n私は「はい。そうです。」と答えた。３．１４。";
    let first = seg.segment(text);
    let second = seg.segment(text);
    assert_eq!(first, second);
}

/// Lowering the nesting cap stops protecting spans that close at a depth
/// above it: the inner pair of an unclosed outer quote no longer protects.
#[test]
fn nesting_cap_limits_protection() {
    let text = "私は「はい。そうです。（嘘だけど。）と答えた。";
    let deep = SegmenterBuilder::new()
        .in_delimiters(vec!["。"])
        .quotes(vec![('「', '」'), ('（', '）')])
        .build()
        .unwrap();
    let expected_deep = vec!["私は「はい。", "そうです。", "（嘘だけど。）と答えた。"];
    assert_eq!(sentences(&deep, text), expected_deep);

    let shallow = SegmenterBuilder::new()
        .in_delimiters(vec!["。"])
        .quotes(vec![('「', '」'), ('（', '）')])
        .max_quote_level(1)
        .unwrap()
        .build()
        .unwrap();
    let expected_shallow = vec!["私は「はい。", "そうです。", "（嘘だけど。", "）と答えた。"];
    assert_eq!(sentences(&shallow, text), expected_shallow);
}

#[test]
fn build_without_delimiters_fails() {
    let result = SegmenterBuilder::new().build();
    match result {
        Err(EasySegmenterError::Input(e)) => {
            assert_eq!(e.message(), "Both in_ and ex_delimiters must not be empty.");
        }
        _ => panic!("expected an input error"),
    }
}

#[test]
fn build_with_duplicate_quote_markers_fails() {
    let result = SegmenterBuilder::new()
        .in_delimiters(vec!["。"])
        .quotes(vec![('「', '」'), ('（', '」')])
        .build();
    match result {
        Err(EasySegmenterError::Input(e)) => {
            assert_eq!(e.message(), "Entries must be unique.");
        }
        _ => panic!("expected an input error"),
    }
}

#[test]
fn zero_quote_level_fails() {
    let result = SegmenterBuilder::new().max_quote_level(0);
    match result {
        Err(EasySegmenterError::Input(e)) => {
            assert_eq!(e.message(), "max_quote_level must not be zero.");
        }
        _ => panic!("expected an input error"),
    }
}

#[test]
fn template_ja_segments_mixed_text() {
    let seg = Segmenter::with_template_ja_config();
    let text = "円周率はいくつですか？３．１４です。なるほど\n以前に「３の方が良いのでは？」と聞いた気がします";
    let expected = vec![
        "円周率はいくつですか？",
        "３．１４です。",
        "なるほど",
        "以前に「３の方が良いのでは？」と聞いた気がします",
    ];
    assert_eq!(sentences(&seg, text), expected);
}

#[test]
fn template_ja_rule_lists() {
    assert_eq!(
        easy_segmenter::template::ja::in_delimiters(),
        vec!["。", "．", "？", "！", "?", "!"]
    );
    assert_eq!(easy_segmenter::template::ja::ex_delimiters(), vec!["\n", "\r\n", "\r"]);
    assert_eq!(easy_segmenter::template::ja::parentheses().len(), 8);
    assert!(easy_segmenter::template::ja::decimal_point().is_some());
}

#[test]
fn basic_rule_lists() {
    assert_eq!(
        easy_segmenter::basic::in_periods(),
        vec!["。", "．", "？", "！", "? ", "! "]
    );
    assert_eq!(easy_segmenter::basic::ex_periods(), vec!["\n", "\r\n", "\r"]);
    assert_eq!(easy_segmenter::basic_ja::in_periods(), vec!["。", "．", "？", "！", "?", "!"]);
    assert_eq!(easy_segmenter::basic_ja::ex_periods(), vec!["\n", "\r\n", "\r"]);
    assert_eq!(easy_segmenter::basic::parentheses(), easy_segmenter::basic_ja::parentheses());
    assert!(easy_segmenter::basic::decimal_point().is_some());
    assert!(easy_segmenter::basic_ja::decimal_point().is_some());
}

/// Overlapping no-break words are all found: a word hidden inside another
/// still protects its own span.
#[test]
fn overlapping_words_protect() {
    let seg = SegmenterBuilder::new()
        .in_delimiters(vec!["。"])
        .no_break_words(vec!["あ。い", "い。う"])
        .build()
        .unwrap();
    let text = "あ。い。う。";
    // "あ。い" and "い。う" overlap; a non-overlapping search would find
    // only the first and leave the second period unprotected.
    let expected = vec!["あ。い。う。"];
    assert_eq!(sentences(&seg, text), expected);
}

#[test]
fn basic_configure_segments_text() {
    let seg = Segmenter::basic_configure();
    let text = "これはペンです。それはマーカーです。";
    let expected = vec!["これはペンです。", "それはマーカーです。"];
    assert_eq!(sentences(&seg, text), expected);
}

#[test]
fn toml_decode_error_carries_message() {
    let err = toml::from_str::<toml::Value>("=").unwrap_err();
    let e = EasySegmenterError::from(err);
    assert!(matches!(e, EasySegmenterError::TomlDecode(_)));
    assert!(!e.message().is_empty());
}
