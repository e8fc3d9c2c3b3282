//! Reading the list of manual pages from the output of a keyword search
//! (`man -k`): one page per line, its name first and its description after
//! a ` - ` separator.
use vstd::prelude::*;
use crate::highlight::{copy_range, find_from, next_occurrence, pages_view, ManPage};

verus! {

/// Unicode white space, as `char::is_whitespace` reads it.
pub open spec fn is_ws(c: char) -> bool {
    ('\t' <= c && c <= '\r') || c == ' ' || c == '\u{85}' || c == '\u{a0}' || c == '\u{1680}'
        || ('\u{2000}' <= c && c <= '\u{200a}') || c == '\u{2028}' || c == '\u{2029}' || c
        == '\u{202f}' || c == '\u{205f}' || c == '\u{3000}'
}

fn is_space(c: char) -> (r: bool)
    ensures
        r == is_ws(c),
{
    ('\t' <= c && c <= '\r') || c == ' ' || c == '\u{85}' || c == '\u{a0}' || c == '\u{1680}'
        || ('\u{2000}' <= c && c <= '\u{200a}') || c == '\u{2028}' || c == '\u{2029}' || c
        == '\u{202f}' || c == '\u{205f}' || c == '\u{3000}'
}

/// The first position at or after `i` that holds a line feed, or the end.
pub open spec fn line_end(s: Seq<char>, i: int) -> int
    decreases s.len() - i,
{
    if i < 0 || i >= s.len() {
        s.len() as int
    } else if s[i] == '\n' {
        i
    } else {
        line_end(s, i + 1)
    }
}

/// The first position in `[i, e)` that is not white space, or `e`.
pub open spec fn skip_ws(s: Seq<char>, i: int, e: int) -> int
    decreases e - i,
{
    if i < 0 || i >= e || e > s.len() {
        e
    } else if is_ws(s[i]) {
        skip_ws(s, i + 1, e)
    } else {
        i
    }
}

/// The end of `[a, e)` once trailing characters that satisfy `strip` are cut.
pub open spec fn cut_back(s: Seq<char>, a: int, e: int, strip: spec_fn(char) -> bool) -> int
    decreases e - a,
{
    if e <= a || a < 0 || e > s.len() {
        e
    } else if strip(s[e - 1]) {
        cut_back(s, a, e - 1, strip)
    } else {
        e
    }
}

/// The first white-space position in `[i, e)`, or `e`.
pub open spec fn word_end(s: Seq<char>, i: int, e: int) -> int
    decreases e - i,
{
    if i < 0 || i >= e || e > s.len() {
        e
    } else if is_ws(s[i]) {
        i
    } else {
        word_end(s, i + 1, e)
    }
}

/// `[i, e)` without white space at either end.
pub open spec fn trimmed(s: Seq<char>, i: int, e: int) -> (int, int) {
    let a = skip_ws(s, i, e);
    (a, cut_back(s, a, e, |c: char| is_ws(c)))
}

/// What separates a page's name from its description.
pub open spec fn separator() -> Seq<char> {
    seq![' ', ' ', '-', ' ']
}

/// The page that a trimmed line names: none where the line is a single word;
/// else its first word without trailing `(`, and the trimmed text after the
/// separator (after the whole line where there is none).
pub open spec fn parse_line(line: Seq<char>) -> Option<(Seq<char>, Seq<char>)> {
    let w = word_end(line, 0, line.len() as int);
    if w >= line.len() {
        None
    } else {
        let key_end = cut_back(line, 0, w, |c: char| c == '(');
        let start = match next_occurrence(line, separator(), 0) {
            Some(p) => p + 3,
            None => line.len() as int,
        };
        let t = trimmed(line, start, line.len() as int);
        Some((line.subrange(0, key_end), line.subrange(t.0, t.1)))
    }
}

/// The pages that the lines of `s` from position `i` on name.
pub open spec fn parse_from(s: Seq<char>, i: int) -> Seq<(Seq<char>, Seq<char>)>
    decreases s.len() - i,
{
    if i < 0 || i >= s.len() {
        Seq::empty()
    } else {
        let e = line_end(s, i);
        let t = trimmed(s, i, e);
        let rest = if i <= e < s.len() {
            parse_from(s, e + 1)
        } else {
            Seq::empty()
        };
        match parse_line(s.subrange(t.0, t.1)) {
            Some(page) => seq![page] + rest,
            None => rest,
        }
    }
}

proof fn lemma_skip_ws_bounds(s: Seq<char>, i: int, e: int)
    requires
        0 <= i <= e <= s.len(),
    ensures
        i <= skip_ws(s, i, e) <= e,
    decreases e - i,
{
    if i < e && is_ws(s[i]) {
        lemma_skip_ws_bounds(s, i + 1, e);
    }
}

proof fn lemma_cut_back_bounds(s: Seq<char>, a: int, e: int, strip: spec_fn(char) -> bool)
    requires
        0 <= a <= e <= s.len(),
    ensures
        a <= cut_back(s, a, e, strip) <= e,
    decreases e - a,
{
    if a < e && strip(s[e - 1]) {
        lemma_cut_back_bounds(s, a, e - 1, strip);
    }
}

proof fn lemma_line_end_bounds(s: Seq<char>, i: int)
    requires
        0 <= i <= s.len(),
    ensures
        i <= line_end(s, i) <= s.len(),
    decreases s.len() - i,
{
    if i < s.len() && s[i] != '\n' {
        lemma_line_end_bounds(s, i + 1);
    }
}

fn find_line_end(s: &Vec<char>, i: usize) -> (r: usize)
    requires
        i <= s.len(),
    ensures
        r == line_end(s@, i as int),
{
    let mut k: usize = i;
    while k < s.len() && s[k] != '\n'
        invariant
            i <= k <= s.len(),
            line_end(s@, i as int) == line_end(s@, k as int),
        decreases s.len() - k,
    {
        k = k + 1;
    }
    k
}

fn find_skip_ws(s: &Vec<char>, i: usize, e: usize) -> (r: usize)
    requires
        i <= e <= s.len(),
    ensures
        r == skip_ws(s@, i as int, e as int),
{
    let mut k: usize = i;
    while k < e && is_space(s[k])
        invariant
            i <= k <= e <= s.len(),
            skip_ws(s@, i as int, e as int) == skip_ws(s@, k as int, e as int),
        decreases e - k,
    {
        k = k + 1;
    }
    k
}

fn find_word_end(s: &Vec<char>, i: usize, e: usize) -> (r: usize)
    requires
        i <= e <= s.len(),
    ensures
        r == word_end(s@, i as int, e as int),
{
    let mut k: usize = i;
    while k < e && !is_space(s[k])
        invariant
            i <= k <= e <= s.len(),
            word_end(s@, i as int, e as int) == word_end(s@, k as int, e as int),
        decreases e - k,
    {
        k = k + 1;
    }
    k
}

fn cut_back_ws(s: &Vec<char>, a: usize, e: usize) -> (r: usize)
    requires
        a <= e <= s.len(),
    ensures
        r == cut_back(s@, a as int, e as int, |c: char| is_ws(c)),
{
    let mut k: usize = e;
    while k > a && is_space(s[k - 1])
        invariant
            a <= k <= e <= s.len(),
            cut_back(s@, a as int, e as int, |c: char| is_ws(c)) == cut_back(
                s@,
                a as int,
                k as int,
                |c: char| is_ws(c),
            ),
        decreases k - a,
    {
        k = k - 1;
    }
    k
}

fn cut_back_parens(s: &Vec<char>, a: usize, e: usize) -> (r: usize)
    requires
        a <= e <= s.len(),
    ensures
        r == cut_back(s@, a as int, e as int, |c: char| c == '('),
{
    let mut k: usize = e;
    while k > a && s[k - 1] == '('
        invariant
            a <= k <= e <= s.len(),
            cut_back(s@, a as int, e as int, |c: char| c == '(') == cut_back(
                s@,
                a as int,
                k as int,
                |c: char| c == '(',
            ),
        decreases k - a,
    {
        k = k - 1;
    }
    k
}

/// The page that a trimmed line names, if any.
fn parse_page_line(line: &Vec<char>) -> (r: Option<ManPage>)
    ensures
        r is Some <==> parse_line(line@) is Some,
        r matches Some(p) ==> parse_line(line@) == Some((p.key@, p.title@)),
{
    let w = find_word_end(line, 0, line.len());
    if w >= line.len() {
        return None;
    }
    let key_end = cut_back_parens(line, 0, w);
    let sep: Vec<char> = vec![' ', ' ', '-', ' '];
    assert(sep@ =~= separator());
    let start: usize = match find_from(line, &sep, 0) {
        Some(p) => {
            proof {
                crate::highlight::lemma_next_occurrence(line@, sep@, 0);
            }
            p + 3
        },
        None => line.len(),
    };
    let a = find_skip_ws(line, start, line.len());
    proof {
        lemma_skip_ws_bounds(line@, start as int, line.len() as int);
    }
    let b = cut_back_ws(line, a, line.len());
    proof {
        lemma_cut_back_bounds(line@, a as int, line.len() as int, |c: char| is_ws(c));
        lemma_cut_back_bounds(line@, 0, w as int, |c: char| c == '(');
    }
    Some(ManPage { key: copy_range(line, 0, key_end), title: copy_range(line, a, b) })
}

/// The pages named by the lines of `output`. Each line is trimmed; blank
/// lines and lines of a single word are skipped.
pub fn parse_man_output(output: &Vec<char>) -> (r: Vec<ManPage>)
    ensures
        pages_view(r@) == parse_from(output@, 0),
{
    let mut out: Vec<ManPage> = Vec::new();
    let mut i: usize = 0;
    while i < output.len()
        invariant
            i <= output.len(),
            pages_view(out@) + parse_from(output@, i as int) == parse_from(output@, 0),
        decreases output.len() - i,
    {
        let ghost before = pages_view(out@);
        let e = find_line_end(output, i);
        proof {
            lemma_line_end_bounds(output@, i as int);
        }
        let a = find_skip_ws(output, i, e);
        proof {
            lemma_skip_ws_bounds(output@, i as int, e as int);
        }
        let b = cut_back_ws(output, a, e);
        proof {
            lemma_cut_back_bounds(output@, a as int, e as int, |c: char| is_ws(c));
        }
        let line = copy_range(output, a, b);
        let ghost rest = if e < output.len() {
            parse_from(output@, e + 1)
        } else {
            Seq::empty()
        };
        match parse_page_line(&line) {
            Some(page) => {
                out.push(page);
                assert(pages_view(out@) =~= before.push((page.key@, page.title@)));
                assert(before + (seq![(page.key@, page.title@)] + rest) =~= pages_view(out@)
                    + rest);
            },
            None => {},
        }
        if e >= output.len() {
            assert(pages_view(out@) + Seq::empty() =~= pages_view(out@));
            i = e;
        } else {
            i = e + 1;
        }
    }
    assert(pages_view(out@) + Seq::empty() =~= pages_view(out@));
    out
}

} // verus!
