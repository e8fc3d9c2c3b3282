use manpick::strip_ansi::strip_ansi;
use manpick::styled::{escape_chars_to_styling, find_sgr, AttributeState, StyledRun};

fn chars(s: &str) -> Vec<char> {
    s.chars().collect()
}

fn run(text: &str, bold: bool, underline: bool) -> (String, bool, bool) {
    (text.to_string(), bold, underline)
}

fn flat(runs: &[StyledRun]) -> Vec<(String, bool, bool)> {
    runs.iter()
        .map(|r| (r.text.iter().collect::<String>(), r.bold, r.underline))
        .collect()
}

#[test]
fn plain_text_is_one_plain_run() {
    let runs = escape_chars_to_styling(&chars("just some words"));
    assert_eq!(flat(&runs), vec![run("just some words", false, false)]);
}

#[test]
fn empty_text_has_no_runs() {
    assert!(escape_chars_to_styling(&chars("")).is_empty());
}

#[test]
fn bold_then_plain_gives_three_runs() {
    let runs = escape_chars_to_styling(&chars("\x1b[1mBOLD\x1b[0m plain"));
    assert_eq!(
        flat(&runs),
        vec![run("", false, false), run("BOLD", true, false), run(" plain", false, false)]
    );
}

#[test]
fn joined_runs_are_text_without_sequences() {
    let input = "a\x1b[1mb\x1b[4mc\x1b[24md\x1b[22me\x1b[31mf";
    let runs = escape_chars_to_styling(&chars(input));
    let joined: String = runs.iter().flat_map(|r| r.text.iter()).collect();
    assert_eq!(joined, "abcdef");
    assert_eq!(joined, strip_ansi(input));
}

#[test]
fn codes_set_and_clear_flags() {
    let runs = escape_chars_to_styling(&chars("a\x1b[1mb\x1b[4mc\x1b[24md\x1b[22me\x1b[31mf"));
    assert_eq!(
        flat(&runs),
        vec![
            run("a", false, false),
            run("b", true, false),
            run("c", true, true),
            run("d", true, false),
            run("e", false, false),
            run("f", false, false),
        ]
    );
}

#[test]
fn adjacent_sequences_flush_empty_runs() {
    let runs = escape_chars_to_styling(&chars("\x1b[1m\x1b[4mx"));
    assert_eq!(
        flat(&runs),
        vec![run("", false, false), run("", true, false), run("x", true, true)]
    );
}

#[test]
fn trailing_sequence_leaves_no_empty_run() {
    let runs = escape_chars_to_styling(&chars("x\x1b[1m"));
    assert_eq!(flat(&runs), vec![run("x", false, false)]);
}

#[test]
fn failed_lookahead_drops_escape_and_next_char() {
    let runs = escape_chars_to_styling(&chars("a\x1bXbc"));
    assert_eq!(flat(&runs), vec![run("abc", false, false)]);
}

#[test]
fn only_first_4096_chars_are_scanned() {
    let mut input = "a".repeat(4095);
    input.push_str("\x1b[1mzz");
    let runs = escape_chars_to_styling(&chars(&input));
    assert_eq!(runs.len(), 1);
    assert_eq!(runs[0].text.len(), 4095);
    assert!(!runs[0].bold);
}

#[test]
fn tokenizer_reads_parameter() {
    let s = chars("x\x1b[24mrest");
    assert_eq!(find_sgr(&s, 1, 'm'), (Some(24), 6));
}

#[test]
fn tokenizer_empty_parameter_is_zero() {
    let s = chars("\x1b[m");
    assert_eq!(find_sgr(&s, 0, 'm'), (Some(0), 3));
}

#[test]
fn tokenizer_without_escape_consumes_nothing() {
    let s = chars("abc");
    assert_eq!(find_sgr(&s, 1, 'm'), (None, 1));
    assert_eq!(find_sgr(&s, 3, 'm'), (None, 3));
}

#[test]
fn tokenizer_without_bracket_consumes_two() {
    let s = chars("\x1bXm");
    assert_eq!(find_sgr(&s, 0, 'm'), (None, 2));
    let lone = chars("\x1b");
    assert_eq!(find_sgr(&lone, 0, 'm'), (None, 1));
}

#[test]
fn tokenizer_rejects_other_terminator() {
    let s = chars("\x1b[12K");
    assert_eq!(find_sgr(&s, 0, 'm'), (None, 2));
    assert_eq!(find_sgr(&s, 0, 'K'), (Some(12), 5));
}

#[test]
fn tokenizer_saturates_huge_parameter() {
    let s = chars("\x1b[99999999999999999999999m");
    assert_eq!(find_sgr(&s, 0, 'm'), (Some(u64::MAX), s.len()));
}

#[test]
fn attribute_updates() {
    let plain = AttributeState::plain();
    let bold = plain.apply(1);
    assert_eq!(bold, AttributeState { bold: true, underline: false });
    let both = bold.apply(4);
    assert_eq!(both, AttributeState { bold: true, underline: true });
    assert_eq!(both.apply(24), bold);
    assert_eq!(both.apply(22), plain);
    assert_eq!(both.apply(0), plain);
    assert_eq!(both.apply(31), both);
}
