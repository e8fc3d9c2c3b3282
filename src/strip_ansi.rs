//! Removal of terminal control sequences from text, through one regular
//! expression that lists the recognised sequence forms in priority order.
use vstd::prelude::*;

verus! {

/// The alternation of recognised control sequences, tried in this order at
/// each position: operating-system commands; control-sequence introducers in
/// their 7-bit and 8-bit forms; short two-character escapes; charset
/// selection; hash escapes; and bare numeric sequences ending in `n`.
pub const ANSI_REGEX_PATTERN: &'static str = "(?:\\x1B\\][^\\x07\\x1B\\x9C]*?(?:\\x07|\\x1B\\\\|\\x9C))|(?:\\x1B\\[[\\[\\]()#;?]*(?:[0-9]{1,4}(?:[;:][0-9]{0,4})*)?[0-9A-PR-TZcf-nq-uy=><~])|(?:\\x9B[\\[\\]()#;?]*(?:[0-9]{1,4}(?:[;:][0-9]{0,4})*)?[0-9A-PR-TZcf-nq-uy=><~])|(?:\\x1B[ABCDHIKJSTZ=><sum78EMcNO])|(?:\\x1B[()][AB012])|(?:\\x1B#[34568])|(?:\\x1B[0-9]+n)";

/// Whether the regex engine builds a matcher for `pattern` (it refuses
/// invalid syntax and patterns over its size limits).
pub uninterp spec fn regex_builds(pattern: Seq<char>) -> bool;

/// The text left when every leftmost-first, non-overlapping match of
/// `pattern` in `text` is deleted.
pub uninterp spec fn regex_deleted(pattern: Seq<char>, text: Seq<char>) -> Seq<char>;

/// `s` holds no character that can begin a recognised sequence: neither
/// `ESC` (U+001B) nor the 8-bit introducer U+009B.
pub open spec fn no_introducer(s: Seq<char>) -> bool {
    forall|i: int| 0 <= i < s.len() ==> #[trigger] s[i] != '\u{1b}' && s[i] != '\u{9b}'
}

/// What stripping leaves of `s`: the deletion of every match of the pattern,
/// or `s` itself should the engine refuse the pattern.
pub open spec fn ansi_stripped(s: Seq<char>) -> Seq<char> {
    if regex_builds(ANSI_REGEX_PATTERN@) {
        regex_deleted(ANSI_REGEX_PATTERN@, s)
    } else {
        s
    }
}

/// Relies on `regex::Regex::new` (fails exactly when the pattern is refused)
/// and `regex::Regex::replace_all` with an empty replacement (deletes every
/// match, leftmost-first and non-overlapping, copies the text between them,
/// and hands back the text unchanged where nothing matches).
///
/// Of `ANSI_REGEX_PATTERN` it relies on the pattern's text: every
/// alternative begins with U+001B or U+009B, and none looks behind or anchors.
/// So no match starts in a part free of those two characters: such a text
/// comes back unchanged, and such a prefix is copied before the rest is
/// stripped as if it stood alone.
#[verifier::external_body]
fn delete_matches(pattern: &str, text: &str) -> (r: Option<String>)
    ensures
        r is Some <==> regex_builds(pattern@),
        r matches Some(t) ==> t@ == regex_deleted(pattern@, text@),
        r matches Some(t) ==> (pattern@ == ANSI_REGEX_PATTERN@ && no_introducer(text@) ==> t@
            == text@),
        r matches Some(t) ==> (pattern@ == ANSI_REGEX_PATTERN@ ==> forall|k: int|
            0 <= k <= text@.len() && #[trigger] no_introducer(text@.take(k)) ==> t@ == text@.take(k)
                + regex_deleted(pattern@, text@.skip(k))),
{
    match regex::Regex::new(pattern) {
        Ok(re) => Some(re.replace_all(text, "").into_owned()),
        Err(_) => None,
    }
}

/// The text of `s` with every recognised control sequence removed.
///
/// Should the engine refuse the pattern, nothing is recognised and `s` comes
/// back unchanged. Text free of introducers always comes back unchanged, and
/// a prefix free of them is kept in front of what the rest strips to.
pub fn strip_ansi(s: &str) -> (r: String)
    ensures
        r@ == ansi_stripped(s@),
        no_introducer(s@) ==> r@ == s@,
        forall|k: int|
            0 <= k <= s@.len() && #[trigger] no_introducer(s@.take(k)) ==> r@ == s@.take(k)
                + ansi_stripped(s@.skip(k)),
{
    match delete_matches(ANSI_REGEX_PATTERN, s) {
        Some(t) => t,
        None => {
            let r = s.to_string();
            assert forall|k: int|
                0 <= k <= s@.len() && #[trigger] no_introducer(s@.take(k)) implies r@ == s@.take(
                k,
            ) + ansi_stripped(s@.skip(k)) by {
                assert(s@ =~= s@.take(k) + s@.skip(k));
            }
            r
        },
    }
}

} // verus!
