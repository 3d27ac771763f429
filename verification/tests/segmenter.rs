use easy_segmenter::SegmenterBuilder;
use regex::Regex;

fn sentences<'a>(seg: &easy_segmenter::Segmenter, text: &'a str) -> Vec<&'a str> {
    seg.segment(text).into_iter().map(|(i, j)| &text[i..j]).collect()
}

#[test]
fn test_simple_1() {
    let seg = SegmenterBuilder::new().in_delimiters(vec!["。"]).build().unwrap();
    let text = "これはペンです。それはマーカーです。";
    let expected = vec!["これはペンです。", "それはマーカーです。"];
    assert_eq!(sentences(&seg, text), expected);
}

#[test]
fn test_simple_2() {
    let seg = SegmenterBuilder::new().in_delimiters(vec!["。", "？"]).build().unwrap();
    let text = "それは何ですか？ペンです。";
    let expected = vec!["それは何ですか？", "ペンです。"];
    assert_eq!(sentences(&seg, text), expected);
}

#[test]
fn test_simple_3() {
    let seg = SegmenterBuilder::new()
        .in_delimiters(vec!["！"])
        .ex_delimiters(vec!["\n"])
        .build()
        .unwrap();
    let text = "良かったね\nすごい！";
    let expected = vec!["良かったね", "すごい！"];
    assert_eq!(sentences(&seg, text), expected);
}

#[test]
fn test_simple_4() {
    let seg = SegmenterBuilder::new().ex_delimiters(vec!["\n", "</br>"]).build().unwrap();
    let text = "良かったね</br>すごい\n";
    let expected = vec!["良かったね", "すごい"];
    assert_eq!(sentences(&seg, text), expected);
}

#[test]
fn test_duplicate_delimiters() {
    let seg = SegmenterBuilder::new()
        .in_delimiters(vec!["。", "。。。"])
        .ex_delimiters(vec!["\n", "\r\n", "\r"])
        .build()
        .unwrap();
    let text = "なるほど。。。その通りですね\r\n";
    let expected = vec!["なるほど。。。", "その通りですね"];
    assert_eq!(sentences(&seg, text), expected);
}

#[test]
fn test_listing() {
    let seg = SegmenterBuilder::new().ex_delimiters(vec!["\n", "\n・"]).build().unwrap();
    let text = "買うもの\n・ご飯\n・卵\n・醤油\n計３点";
    let expected = vec!["買うもの", "ご飯", "卵", "醤油", "計３点"];
    assert_eq!(sentences(&seg, text), expected);
}

#[test]
fn test_quote_1() {
    let seg = SegmenterBuilder::new()
        .in_delimiters(vec!["。"])
        .quotes(vec![('「', '」')])
        .build()
        .unwrap();
    let text = "私は「はい。そうです。」と答えた。";
    let expected = vec!["私は「はい。そうです。」と答えた。"];
    assert_eq!(sentences(&seg, text), expected);
}

#[test]
fn test_quote_2() {
    let seg = SegmenterBuilder::new()
        .in_delimiters(vec!["。"])
        .quotes(vec![('（', '）')])
        .build()
        .unwrap();
    let text = "私は「はい。そうです。」と答えた。";
    let expected = vec!["私は「はい。", "そうです。", "」と答えた。"];
    assert_eq!(sentences(&seg, text), expected);
}

#[test]
fn test_quote_3() {
    let seg = SegmenterBuilder::new()
        .in_delimiters(vec!["。"])
        .quotes(vec![('「', '」'), ('（', '）')])
        .build()
        .unwrap();
    let text = "私は「はい。そうです。（嘘だけど。）」と答えた。";
    let expected = vec!["私は「はい。そうです。（嘘だけど。）」と答えた。"];
    assert_eq!(sentences(&seg, text), expected);
}

#[test]
fn test_quote_4() {
    let seg = SegmenterBuilder::new()
        .in_delimiters(vec!["。"])
        .quotes(vec![('「', '」'), ('（', '）')])
        .build()
        .unwrap();
    let text = "私は「はい。そうです。（嘘だけど。）と答えた。";
    let expected = vec!["私は「はい。", "そうです。", "（嘘だけど。）と答えた。"];
    assert_eq!(sentences(&seg, text), expected);
}

#[test]
fn test_word_1() {
    let seg = SegmenterBuilder::new()
        .in_delimiters(vec!["。"])
        .no_break_words(vec!["モーニング娘。"])
        .build()
        .unwrap();
    let text = "モーニング娘。の新曲。";
    let expected = vec!["モーニング娘。の新曲。"];
    assert_eq!(sentences(&seg, text), expected);
}

#[test]
fn test_regex_1() {
    let seg = SegmenterBuilder::new()
        .in_delimiters(vec!["．"])
        .no_break_regex(Regex::new(r"\d(．)\d").unwrap())
        .build()
        .unwrap();
    let text = "３．１４１５９２．円周率です．";
    let expected = vec!["３．１４１５９２．", "円周率です．"];
    assert_eq!(sentences(&seg, text), expected);
}

#[test]
fn test_regex_2() {
    let seg = SegmenterBuilder::new()
        .in_delimiters(vec!["。"])
        .no_break_regex(Regex::new(r"(。{2,})。").unwrap())
        .build()
        .unwrap();
    let text = "はぁ。。。。。。疲れた。。";
    let expected = vec!["はぁ。。。。。。", "疲れた。", "。"];
    assert_eq!(sentences(&seg, text), expected);
}

#[test]
fn test_no_last_delimiter() {
    let seg = SegmenterBuilder::new().in_delimiters(vec!["。"]).build().unwrap();
    let text = "これはペンです。それはマーカーです";
    let expected = vec!["これはペンです。", "それはマーカーです"];
    assert_eq!(sentences(&seg, text), expected);
}

#[test]
fn test_empty_text() {
    let seg = SegmenterBuilder::new().in_delimiters(vec!["。"]).build().unwrap();
    let text = "";
    assert!(sentences(&seg, text).is_empty());
}

#[test]
fn test_empty_lines() {
    let seg = SegmenterBuilder::new().ex_delimiters(vec!["\n"]).build().unwrap();
    let text = "これはペンです\n\n\nそれはマーカーです";
    let expected = vec!["これはペンです", "それはマーカーです"];
    assert_eq!(sentences(&seg, text), expected);
}
