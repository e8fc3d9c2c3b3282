use manpick::highlight::{filter_entries, ManPage, MatchSpan};

fn chars(s: &str) -> Vec<char> {
    s.chars().collect()
}

fn flat(spans: &[MatchSpan]) -> Vec<(String, bool)> {
    spans.iter().map(|m| (m.text.iter().collect::<String>(), m.highlighted)).collect()
}

fn span(t: &str, h: bool) -> (String, bool) {
    (t.to_string(), h)
}

#[test]
fn empty_query_matches_whole_key() {
    let spans = manpick::highlight::matches(&chars("arandr"), &chars("")).unwrap();
    assert_eq!(flat(&spans), vec![span("arandr", false)]);
}

#[test]
fn empty_query_matches_empty_key() {
    let spans = manpick::highlight::matches(&chars(""), &chars("")).unwrap();
    assert_eq!(flat(&spans), vec![span("", false)]);
}

#[test]
fn repeated_occurrences_are_highlighted() {
    let spans = manpick::highlight::matches(&chars("xabxab"), &chars("ab")).unwrap();
    assert_eq!(
        flat(&spans),
        vec![span("x", false), span("ab", true), span("x", false), span("ab", true)]
    );
    let joined: String = flat(&spans).into_iter().map(|s| s.0).collect();
    assert_eq!(joined, "xabxab");
}

#[test]
fn absent_query_is_no_match() {
    assert!(manpick::highlight::matches(&chars("abc"), &chars("zz")).is_none());
    assert!(manpick::highlight::matches(&chars(""), &chars("a")).is_none());
}

#[test]
fn match_at_start_has_empty_leading_span() {
    let spans = manpick::highlight::matches(&chars("abc"), &chars("ab")).unwrap();
    assert_eq!(flat(&spans), vec![span("", false), span("ab", true), span("c", false)]);
}

#[test]
fn occurrences_do_not_overlap() {
    let spans = manpick::highlight::matches(&chars("aaa"), &chars("aa")).unwrap();
    assert_eq!(flat(&spans), vec![span("", false), span("aa", true), span("a", false)]);
}

#[test]
fn matching_is_case_sensitive() {
    assert!(manpick::highlight::matches(&chars("ABC"), &chars("abc")).is_none());
}

#[test]
fn filter_keeps_matching_candidates_in_order() {
    let pages = vec![
        ManPage { key: chars("ls"), title: chars("list directory contents") },
        ManPage { key: chars("cat"), title: chars("concatenate files") },
        ManPage { key: chars("cp"), title: chars("copy files and directories") },
    ];
    let entries = filter_entries(&pages, &chars("dir"));
    let keys: Vec<String> = entries.iter().map(|e| e.key.iter().collect()).collect();
    assert_eq!(keys, vec!["ls".to_string(), "cp".to_string()]);
    assert_eq!(
        flat(&entries[0].spans),
        vec![span("list ", false), span("dir", true), span("ectory contents", false)]
    );
    assert_eq!(filter_entries(&pages, &chars("")).len(), 3);
    assert!(filter_entries(&pages, &chars("zzz")).is_empty());
}
