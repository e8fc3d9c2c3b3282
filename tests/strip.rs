use manpick::strip_ansi::strip_ansi;

#[test]
fn strips_select_graphic_rendition() {
    assert_eq!(strip_ansi("\x1b[1mBOLD\x1b[0m plain"), "BOLD plain");
}

#[test]
fn strips_operating_system_command() {
    assert_eq!(strip_ansi("\x1b]0;title\x07after"), "after");
    assert_eq!(strip_ansi("\x1b]8;;link\x1b\\text"), "text");
}

#[test]
fn strips_eight_bit_introducer() {
    assert_eq!(strip_ansi("\u{9b}31mred"), "red");
}

#[test]
fn strips_short_charset_and_hash_escapes() {
    assert_eq!(strip_ansi("a\x1bcb\x1b7c\x1b(Bd\x1b#8e"), "abcde");
}

#[test]
fn strips_bare_numeric_report() {
    assert_eq!(strip_ansi("x\x1b5ny"), "xy");
}

#[test]
fn keeps_plain_text() {
    assert_eq!(strip_ansi("plain text"), "plain text");
    assert_eq!(strip_ansi(""), "");
}

#[test]
fn stripping_twice_changes_nothing_more() {
    let s = "\x1b[31mred\x1b[0m \x1b]0;t\x07x \x1b[4;1mboth\x1b[m";
    let once = strip_ansi(s);
    assert_eq!(once, "red x both");
    assert_eq!(strip_ansi(&once), once);
}

#[test]
fn text_without_introducers_is_unchanged() {
    let s = "caf\u{e9} [1m ~ #8 (B 5n \u{3000}";
    assert_eq!(strip_ansi(s), s);
}

#[test]
fn plain_prefix_is_kept_before_stripped_rest() {
    let prefix = "name (1) - ";
    let rest = "\x1b[1mbold\x1b[0m and \x1b]0;t\x07plain";
    let whole = format!("{prefix}{rest}");
    assert_eq!(strip_ansi(&whole), format!("{prefix}{}", strip_ansi(rest)));
    assert_eq!(strip_ansi(&whole), "name (1) - bold and plain");
}

#[test]
fn plain_text_strips_to_its_joined_runs() {
    let s = "no escapes in here";
    let runs = manpick::styled::escape_chars_to_styling(&s.chars().collect());
    let joined: String = runs.iter().flat_map(|r| r.text.iter()).collect();
    assert_eq!(strip_ansi(s), joined);
}
