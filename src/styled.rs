//! Parsing of style-select escape sequences (`ESC [ digits m`) into runs of
//! text that share one bold/underline state.
use vstd::prelude::*;

verus! {

/// The escape character that introduces a control sequence.
pub const ESC: char = '\u{1b}';

/// How many characters of the input are scanned for styling.
pub const SCAN_LIMIT: usize = 4096;

/// The style flags in effect while text accumulates.
#[derive(Clone, Copy, Debug, PartialEq, Eq, Structural)]
pub struct AttributeState {
    pub bold: bool,
    pub underline: bool,
}

/// A stretch of text displayed with one style.
#[derive(Clone, Debug)]
pub struct StyledRun {
    pub text: Vec<char>,
    pub bold: bool,
    pub underline: bool,
}

impl View for StyledRun {
    type V = (Seq<char>, AttributeState);

    open spec fn view(&self) -> (Seq<char>, AttributeState) {
        (self.text@, AttributeState { bold: self.bold, underline: self.underline })
    }
}

pub open spec fn plain_state() -> AttributeState {
    AttributeState { bold: false, underline: false }
}

/// The state after a style-select sequence with parameter `code`: `0` and
/// `22` reset both flags, `1` sets bold, `4` sets underline, `24` clears
/// underline, and every other code leaves the state as it is.
pub open spec fn apply_code(st: AttributeState, code: u64) -> AttributeState {
    if code == 0 || code == 22 {
        plain_state()
    } else if code == 1 {
        AttributeState { bold: true, ..st }
    } else if code == 4 {
        AttributeState { underline: true, ..st }
    } else if code == 24 {
        AttributeState { underline: false, ..st }
    } else {
        st
    }
}

impl AttributeState {
    /// Neither bold nor underlined.
    pub fn plain() -> (r: AttributeState)
        ensures
            r == plain_state(),
    {
        AttributeState { bold: false, underline: false }
    }

    /// The state that a style-select sequence with parameter `code` leaves.
    pub fn apply(self, code: u64) -> (r: AttributeState)
        ensures
            r == apply_code(self, code),
    {
        if code == 0 || code == 22 {
            AttributeState::plain()
        } else if code == 1 {
            AttributeState { bold: true, underline: self.underline }
        } else if code == 4 {
            AttributeState { bold: self.bold, underline: true }
        } else if code == 24 {
            AttributeState { bold: self.bold, underline: false }
        } else {
            self
        }
    }
}

pub open spec fn is_digit(c: char) -> bool {
    '0' <= c && c <= '9'
}

/// The number of consecutive ASCII digits in `s` from position `i` on.
pub open spec fn digit_run(s: Seq<char>, i: int) -> nat
    decreases s.len() - i,
{
    if 0 <= i < s.len() && is_digit(s[i]) {
        1 + digit_run(s, i + 1)
    } else {
        0
    }
}

/// The decimal value of a string of digits (0 for the empty string).
pub open spec fn digits_value(d: Seq<char>) -> int
    decreases d.len(),
{
    if d.len() == 0 {
        0
    } else {
        digits_value(d.drop_last()) * 10 + (d.last() as u32 - '0' as u32)
    }
}

/// `v`, or `u64::MAX` where `v` does not fit.
pub open spec fn saturate(v: int) -> u64 {
    if v < u64::MAX {
        v as u64
    } else {
        u64::MAX
    }
}

/// One step of the tokenizer at position `i` of `s`: the parameter of the
/// sequence found there, if any, and the position after what was consumed.
///
/// A sequence is `ESC`, `[`, a possibly empty run of digits, and `term`.
/// Without `ESC` at `i` nothing is consumed. Once `ESC` is seen it is
/// consumed, and so is the character after it, even where the match then
/// fails. A parameter too large for `u64` reads as `u64::MAX`.
pub open spec fn scan(s: Seq<char>, i: int, term: char) -> (Option<u64>, int) {
    if !(0 <= i < s.len()) || s[i] != ESC {
        (None, i)
    } else if i + 1 >= s.len() {
        (None, i + 1)
    } else if s[i + 1] != '[' {
        (None, i + 2)
    } else {
        let k = i + 2 + digit_run(s, i + 2);
        if k < s.len() && s[k] == term {
            (Some(saturate(digits_value(s.subrange(i + 2, k)))), k + 1)
        } else {
            (None, i + 2)
        }
    }
}

proof fn lemma_digit_run(s: Seq<char>, a: int, k: int)
    requires
        0 <= a <= k <= s.len(),
        forall|j: int| a <= j < k ==> is_digit(#[trigger] s[j]),
        k == s.len() || !is_digit(s[k]),
    ensures
        digit_run(s, a) == k - a,
    decreases k - a,
{
    if a < k {
        lemma_digit_run(s, a + 1, k);
    }
}

proof fn lemma_digits_value_nonneg(d: Seq<char>)
    requires
        forall|j: int| 0 <= j < d.len() ==> is_digit(#[trigger] d[j]),
    ensures
        digits_value(d) >= 0,
    decreases d.len(),
{
    if d.len() > 0 {
        lemma_digits_value_nonneg(d.drop_last());
    }
}

proof fn lemma_saturate_step(v: int, d: u64)
    requires
        v >= 0,
        d <= 9,
    ensures
        saturate(v * 10 + d) == (if saturate(v) > (u64::MAX - d) / 10 {
            u64::MAX
        } else {
            (saturate(v) * 10 + d) as u64
        }),
{
    let m = u64::MAX as int;
    let q = (m - d) / 10;
    assert(q * 10 <= m - d && m - d < q * 10 + 10) by (nonlinear_arith)
        requires q == (m - d) / 10, m - d >= 0;
    if v >= m {
        assert(v * 10 + d >= m) by (nonlinear_arith)
            requires v >= m, m >= 0, d >= 0;
    } else if v > q {
        assert(v * 10 + d > m) by (nonlinear_arith)
            requires v >= q + 1, q * 10 + 10 > m - d;
    } else {
        assert(v * 10 + d <= m) by (nonlinear_arith)
            requires v <= q, q * 10 <= m - d;
    }
}

/// Tries to read one sequence ending in `term` at position `i` of `s`.
pub fn find_sgr(s: &Vec<char>, i: usize, term: char) -> (r: (Option<u64>, usize))
    requires
        i <= s.len(),
    ensures
        r.0 == scan(s@, i as int, term).0,
        r.1 == scan(s@, i as int, term).1,
{
    if i >= s.len() || s[i] != ESC {
        return (None, i);
    }
    if i + 1 >= s.len() {
        return (None, i + 1);
    }
    if s[i + 1] != '[' {
        return (None, i + 2);
    }
    let start: usize = i + 2;
    let mut k: usize = start;
    let mut value: u64 = 0;
    while k < s.len() && '0' <= s[k] && s[k] <= '9'
        invariant
            start == i + 2,
            start <= k <= s.len(),
            forall|j: int| start <= j < k ==> is_digit(#[trigger] s@[j]),
            value == saturate(digits_value(s@.subrange(start as int, k as int))),
        decreases s.len() - k,
    {
        let d: u64 = (s[k] as u32 - '0' as u32) as u64;
        proof {
            let prev = s@.subrange(start as int, k as int);
            let next = s@.subrange(start as int, k + 1);
            assert(next.drop_last() =~= prev);
            lemma_digits_value_nonneg(prev);
            lemma_saturate_step(digits_value(prev), d);
        }
        if value > (u64::MAX - d) / 10 {
            value = u64::MAX;
        } else {
            value = value * 10 + d;
        }
        k = k + 1;
    }
    proof {
        lemma_digit_run(s@, start as int, k as int);
    }
    if k < s.len() && s[k] == term {
        (Some(value), k + 1)
    } else {
        (None, start)
    }
}

/// The runs that the rest of `s` from position `i` yields, where `pending`
/// is the text gathered since the last sequence and `st` the state in effect.
///
/// Each recognised sequence closes the pending text into a run, even an empty
/// one, and then changes the state. Where no sequence is recognised, the
/// character at the position the tokenizer stopped at is plain text. At the
/// end, pending text that is not empty forms a last run.
pub open spec fn runs_from(s: Seq<char>, i: int, pending: Seq<char>, st: AttributeState) -> Seq<
    (Seq<char>, AttributeState),
>
    decreases s.len() - i,
{
    let step = scan(s, i, 'm');
    match step.0 {
        Some(code) => if i < step.1 <= s.len() {
            seq![(pending, st)] + runs_from(s, step.1, Seq::empty(), apply_code(st, code))
        } else {
            seq![]
        },
        None => if i <= step.1 < s.len() {
            runs_from(s, step.1 + 1, pending.push(s[step.1]), st)
        } else if pending.len() > 0 {
            seq![(pending, st)]
        } else {
            seq![]
        },
    }
}

/// The part of the input that is scanned for styling.
pub open spec fn scanned(s: Seq<char>) -> Seq<char> {
    if s.len() <= SCAN_LIMIT {
        s
    } else {
        s.take(SCAN_LIMIT as int)
    }
}

/// The runs of `s`: its first `SCAN_LIMIT` characters, from the plain state.
pub open spec fn styled_runs(s: Seq<char>) -> Seq<(Seq<char>, AttributeState)> {
    runs_from(scanned(s), 0, Seq::empty(), plain_state())
}

/// The text of `s` from position `i` on that survives tokenizing: every
/// recognised sequence is removed, and so is what a failed lookahead consumed.
pub open spec fn visible_from(s: Seq<char>, i: int) -> Seq<char>
    decreases s.len() - i,
{
    let step = scan(s, i, 'm');
    match step.0 {
        Some(_) => if i < step.1 <= s.len() {
            visible_from(s, step.1)
        } else {
            Seq::empty()
        },
        None => if i <= step.1 < s.len() {
            seq![s[step.1]] + visible_from(s, step.1 + 1)
        } else {
            Seq::empty()
        },
    }
}

/// The visible text of the scanned part of `s`.
pub open spec fn visible_text(s: Seq<char>) -> Seq<char> {
    visible_from(scanned(s), 0)
}

/// The texts of `runs`, joined in order.
pub open spec fn joined_texts(runs: Seq<(Seq<char>, AttributeState)>) -> Seq<char>
    decreases runs.len(),
{
    if runs.len() == 0 {
        Seq::empty()
    } else {
        runs[0].0 + joined_texts(runs.drop_first())
    }
}

pub open spec fn runs_view(runs: Seq<StyledRun>) -> Seq<(Seq<char>, AttributeState)> {
    runs.map_values(|r: StyledRun| r@)
}

/// Splits `content` into styled runs, reading style-select sequences
/// (`ESC [ n m`) in its first `SCAN_LIMIT` characters.
pub fn escape_chars_to_styling(content: &Vec<char>) -> (r: Vec<StyledRun>)
    ensures
        runs_view(r@) == styled_runs(content@),
{
    let n: usize = if content.len() <= SCAN_LIMIT {
        content.len()
    } else {
        SCAN_LIMIT
    };
    let mut s: Vec<char> = Vec::new();
    let mut c: usize = 0;
    while c < n
        invariant
            n <= content.len(),
            c <= n,
            s@ == content@.take(c as int),
        decreases n - c,
    {
        s.push(content[c]);
        c = c + 1;
        assert(s@ =~= content@.take(c as int));
    }
    assert(s@ =~= scanned(content@));
    let mut out: Vec<StyledRun> = Vec::new();
    let mut pending: Vec<char> = Vec::new();
    let mut st = AttributeState::plain();
    let mut i: usize = 0;
    loop
        invariant_except_break
            runs_view(out@) + runs_from(s@, i as int, pending@, st) == styled_runs(content@),
        invariant
            i <= s.len(),
            s@ == scanned(content@),
        ensures
            runs_view(out@) == styled_runs(content@),
        decreases s.len() - i,
    {
        let ghost before = runs_view(out@);
        let (code, j) = find_sgr(&s, i, 'm');
        match code {
            Some(x) => {
                let run = StyledRun { text: pending, bold: st.bold, underline: st.underline };
                let ghost rest = runs_from(s@, j as int, Seq::empty(), apply_code(st, x));
                assert(runs_from(s@, i as int, run.text@, st) == seq![run@] + rest);
                out.push(run);
                assert(runs_view(out@) =~= before.push(run@));
                assert(before + (seq![run@] + rest) =~= before.push(run@) + rest);
                pending = Vec::new();
                st = st.apply(x);
                assert(pending@ =~= Seq::<char>::empty());
                i = j;
            },
            None => {
                if j < s.len() {
                    pending.push(s[j]);
                    i = j + 1;
                } else {
                    if pending.len() > 0 {
                        let run = StyledRun { text: pending, bold: st.bold, underline: st.underline };
                        out.push(run);
                        assert(runs_view(out@) =~= before.push(run@));
                        assert(before + seq![run@] =~= before.push(run@));
                    } else {
                        assert(before + Seq::empty() =~= before);
                    }
                    break;
                }
            },
        }
    }
    out
}

proof fn lemma_joined_prepend(a: (Seq<char>, AttributeState), rest: Seq<(Seq<char>, AttributeState)>)
    ensures
        joined_texts(seq![a] + rest) == a.0 + joined_texts(rest),
{
    assert((seq![a] + rest).drop_first() =~= rest);
}

proof fn lemma_joined_from(s: Seq<char>, i: int, pending: Seq<char>, st: AttributeState)
    requires
        0 <= i <= s.len(),
    ensures
        joined_texts(runs_from(s, i, pending, st)) == pending + visible_from(s, i),
    decreases s.len() - i,
{
    let step = scan(s, i, 'm');
    match step.0 {
        Some(code) => {
            let rest = runs_from(s, step.1, Seq::empty(), apply_code(st, code));
            lemma_joined_from(s, step.1, Seq::empty(), apply_code(st, code));
            lemma_joined_prepend((pending, st), rest);
            assert(Seq::<char>::empty() + visible_from(s, step.1) =~= visible_from(s, step.1));
        },
        None => {
            if step.1 < s.len() {
                lemma_joined_from(s, step.1 + 1, pending.push(s[step.1]), st);
                assert(pending.push(s[step.1]) + visible_from(s, step.1 + 1) =~= pending + (seq![
                    s[step.1],
                ] + visible_from(s, step.1 + 1)));
            } else if pending.len() > 0 {
                lemma_joined_prepend((pending, st), Seq::empty());
                assert(pending + Seq::<char>::empty() =~= pending);
            } else {
                assert(pending + Seq::<char>::empty() =~= pending);
            }
        },
    }
}

/// Joining the texts of the runs of `s` in order gives the scanned text of
/// `s` with every recognised sequence removed (together with whatever a
/// failed lookahead consumed).
pub proof fn lemma_runs_rebuild_text(s: Seq<char>)
    ensures
        joined_texts(styled_runs(s)) == visible_text(s),
{
    lemma_joined_from(scanned(s), 0, Seq::empty(), plain_state());
    assert(Seq::<char>::empty() + visible_text(s) =~= visible_text(s));
}

proof fn lemma_plain_from(s: Seq<char>, i: int, pending: Seq<char>, st: AttributeState)
    requires
        0 <= i <= s.len(),
        forall|j: int| 0 <= j < s.len() ==> #[trigger] s[j] != ESC,
    ensures
        runs_from(s, i, pending, st) == (if pending.len() + (s.len() - i) > 0 {
            seq![(pending + s.subrange(i, s.len() as int), st)]
        } else {
            seq![]
        }),
    decreases s.len() - i,
{
    if i < s.len() {
        lemma_plain_from(s, i + 1, pending.push(s[i]), st);
        assert(pending.push(s[i]) + s.subrange(i + 1, s.len() as int) =~= pending + s.subrange(
            i,
            s.len() as int,
        ));
    } else {
        assert(pending + s.subrange(i, s.len() as int) =~= pending);
    }
}

/// Text without escape characters, within the scan limit, is one run in the
/// plain state when it is not empty, and no run at all when it is; either
/// way the joined runs give the text back whole.
pub proof fn lemma_plain_text_one_run(s: Seq<char>)
    requires
        s.len() <= SCAN_LIMIT,
        forall|j: int| 0 <= j < s.len() ==> #[trigger] s[j] != ESC,
    ensures
        s.len() > 0 ==> styled_runs(s) == seq![(s, plain_state())],
        s.len() == 0 ==> styled_runs(s) == Seq::<(Seq<char>, AttributeState)>::empty(),
        joined_texts(styled_runs(s)) == s,
{
    lemma_plain_from(s, 0, Seq::empty(), plain_state());
    assert(Seq::<char>::empty() + s.subrange(0, s.len() as int) =~= s);
    if s.len() > 0 {
        lemma_joined_prepend((s, plain_state()), Seq::empty());
        assert(seq![(s, plain_state())] + Seq::empty() =~= seq![(s, plain_state())]);
        assert(s + Seq::<char>::empty() =~= s);
    }
}

} // verus!
