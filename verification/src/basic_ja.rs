//! Basic segmentation rules in Japanese.
use vstd::prelude::*;

use crate::pattern::{regex_compiles, regex_new, regex_pattern};
use crate::segmenter::builder::str_seq_views;

verus! {

/// The basic inclusive periods.
pub open spec fn spec_in_periods() -> Seq<Seq<char>> {
    seq!["。"@, "．"@, "？"@, "！"@, "?"@, "!"@]
}

/// The basic exclusive periods.
pub open spec fn spec_ex_periods() -> Seq<Seq<char>> {
    seq!["\n"@, "\r\n"@, "\r"@]
}

/// The quote pairs protecting quoted spans.
pub open spec fn spec_parentheses() -> Seq<(char, char)> {
    seq![
        ('(', ')'),
        ('[', ']'),
        ('（', '）'),
        ('「', '」'),
        ('【', '】'),
        ('『', '』'),
        ('［', '］'),
        ('〔', '〕'),
    ]
}

/// The pattern recognizing a decimal point between two digits.
pub open spec fn spec_decimal_point_pattern() -> Seq<char> {
    "[0-9０-９〇零一二三四五六七八九十百千万億兆]([．.])[0-9０-９〇零一二三四五六七八九十百千万億兆]"@
}

/// Creates the list of basic inclusive periods.
pub fn in_periods() -> (r: Vec<&'static str>)
    ensures
        str_seq_views(r@) == spec_in_periods(),
{
    let mut r: Vec<&'static str> = Vec::new();
    r.push("。");
    r.push("．");
    r.push("？");
    r.push("！");
    r.push("?");
    r.push("!");
    proof {
        assert(str_seq_views(r@) =~= spec_in_periods());
    }
    r
}

/// Creates the list of basic exclusive periods.
pub fn ex_periods() -> (r: Vec<&'static str>)
    ensures
        str_seq_views(r@) == spec_ex_periods(),
{
    let mut r: Vec<&'static str> = Vec::new();
    r.push("\n");
    r.push("\r\n");
    r.push("\r");
    proof {
        assert(str_seq_views(r@) =~= spec_ex_periods());
    }
    r
}

/// Creates the list of parentheses for quotations.
pub fn parentheses() -> (r: Vec<(char, char)>)
    ensures
        r@ == spec_parentheses(),
{
    let mut r: Vec<(char, char)> = Vec::new();
    r.push(('(', ')'));
    r.push(('[', ']'));
    r.push(('（', '）'));
    r.push(('「', '」'));
    r.push(('【', '】'));
    r.push(('『', '』'));
    r.push(('［', '］'));
    r.push(('〔', '〕'));
    proof {
        assert(r@ =~= spec_parentheses());
    }
    r
}

/// Creates a regex to recognize decimal points.
///
/// The result is `None` only if the fixed pattern fails to compile, which
/// does not happen with the `regex` crate's syntax.
pub fn decimal_point() -> (r: Option<regex::Regex>)
    ensures
        r is Some <==> regex_compiles(spec_decimal_point_pattern()),
        r matches Some(re) ==> regex_pattern(re) == spec_decimal_point_pattern(),
{
    regex_new("[0-9０-９〇零一二三四五六七八九十百千万億兆]([．.])[0-9０-９〇零一二三四五六七八九十百千万億兆]")
}

} // verus!
