use easy_segmenter::matcher::{DelimiterMatch, DelimiterMatcher, QuoteMatch, QuoteMatcher};

#[test]
fn matcher_test_quote_1() {
    let quotes = vec![('「', '」'), ('（', '）')];
    let matcher = QuoteMatcher::new(&quotes).unwrap();
    let matches: Vec<_> = matcher.iter("「」（）");
    let expected = vec![
        QuoteMatch {
            start: 0,
            end: 3,
            id: 0,
            is_open: true,
        },
        QuoteMatch {
            start: 3,
            end: 6,
            id: 0,
            is_open: false,
        },
        QuoteMatch {
            start: 6,
            end: 9,
            id: 1,
            is_open: true,
        },
        QuoteMatch {
            start: 9,
            end: 12,
            id: 1,
            is_open: false,
        },
    ];
    assert_eq!(matches, expected);
}

#[test]
fn matcher_test_quote_2() {
    let quotes = vec![('「', '」'), ('（', '」')];
    assert!(QuoteMatcher::new(&quotes).is_err());
}

#[test]
fn delimiter_matcher_reports_ranges_and_end_marker() {
    let in_delimiters = vec!["。".to_string()];
    let ex_delimiters = vec!["\n".to_string()];
    let matcher = DelimiterMatcher::new(&in_delimiters, &ex_delimiters);
    let text = "a。b\n";
    let matches: Vec<_> = matcher.iter(text);
    let expected = vec![
        DelimiterMatch {
            start: 1,
            end: 4,
            is_in_delimiter: true,
        },
        DelimiterMatch {
            start: 5,
            end: 6,
            is_in_delimiter: false,
        },
        DelimiterMatch {
            start: 6,
            end: 6,
            is_in_delimiter: false,
        },
    ];
    assert_eq!(matches, expected);
}
