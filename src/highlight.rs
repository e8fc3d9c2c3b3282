//! Case-sensitive substring matching of a query against candidate labels,
//! splitting each label into plain and highlighted spans.
use vstd::prelude::*;

verus! {

/// A piece of a label, highlighted where it is an occurrence of the query.
#[derive(Clone, Debug)]
pub struct MatchSpan {
    pub text: Vec<char>,
    pub highlighted: bool,
}

impl View for MatchSpan {
    type V = (Seq<char>, bool);

    open spec fn view(&self) -> (Seq<char>, bool) {
        (self.text@, self.highlighted)
    }
}

pub open spec fn spans_view(spans: Seq<MatchSpan>) -> Seq<(Seq<char>, bool)> {
    spans.map_values(|m: MatchSpan| m@)
}

/// `q` occurs in `key` at position `p`.
pub open spec fn occurs_at(key: Seq<char>, q: Seq<char>, p: int) -> bool {
    0 <= p && p + q.len() <= key.len() && key.subrange(p, p + q.len()) == q
}

/// The first position at or after `from` where `q` occurs in `key`.
pub open spec fn next_occurrence(key: Seq<char>, q: Seq<char>, from: int) -> Option<int>
    decreases key.len() - from,
{
    if from < 0 || from + q.len() > key.len() {
        None
    } else if occurs_at(key, q, from) {
        Some(from)
    } else if from < key.len() {
        next_occurrence(key, q, from + 1)
    } else {
        None
    }
}

/// The spans of `key` from position `last` on: for each leftmost
/// non-overlapping occurrence of `q`, the text before it (possibly empty) and
/// the occurrence, highlighted; then the rest of `key` if it is not empty.
pub open spec fn spans_from(key: Seq<char>, q: Seq<char>, last: int) -> Seq<(Seq<char>, bool)>
    decreases key.len() - last,
{
    match next_occurrence(key, q, last) {
        Some(p) => if 0 <= last <= p && p + q.len() <= key.len() && q.len() > 0 {
            seq![(key.subrange(last, p), false), (q, true)] + spans_from(key, q, p + q.len())
        } else {
            seq![]
        },
        None => if 0 <= last < key.len() {
            seq![(key.subrange(last, key.len() as int), false)]
        } else {
            seq![]
        },
    }
}

/// What highlighting `query` in `key` gives: one plain span of the whole key
/// for an empty query; the spans around the occurrences where there is one;
/// and no match where a non-empty query does not occur.
pub open spec fn highlight(key: Seq<char>, query: Seq<char>) -> Option<Seq<(Seq<char>, bool)>> {
    if query.len() == 0 {
        Some(seq![(key, false)])
    } else if next_occurrence(key, query, 0) is Some {
        Some(spans_from(key, query, 0))
    } else {
        None
    }
}

pub(crate) proof fn lemma_next_occurrence(key: Seq<char>, q: Seq<char>, from: int)
    requires
        0 <= from,
    ensures
        next_occurrence(key, q, from) matches Some(p) ==> from <= p && occurs_at(key, q, p),
    decreases key.len() - from,
{
    if from < key.len() && from + q.len() <= key.len() && !occurs_at(key, q, from) {
        lemma_next_occurrence(key, q, from + 1);
    }
}

/// The characters of `v` from `a` up to `b`.
pub(crate) fn copy_range(v: &Vec<char>, a: usize, b: usize) -> (r: Vec<char>)
    requires
        a <= b <= v.len(),
    ensures
        r@ == v@.subrange(a as int, b as int),
{
    let mut r: Vec<char> = Vec::new();
    let mut i: usize = a;
    while i < b
        invariant
            a <= i <= b <= v.len(),
            r@ == v@.subrange(a as int, i as int),
        decreases b - i,
    {
        r.push(v[i]);
        i = i + 1;
        assert(r@ =~= v@.subrange(a as int, i as int));
    }
    r
}

/// Whether `q` occurs in `key` at position `p`.
fn occurs(key: &Vec<char>, q: &Vec<char>, p: usize) -> (r: bool)
    requires
        p + q.len() <= key.len(),
    ensures
        r == occurs_at(key@, q@, p as int),
{
    let mut j: usize = 0;
    while j < q.len()
        invariant
            p + q.len() <= key.len(),
            j <= q.len(),
            forall|t: int| 0 <= t < j ==> key@[p + t] == q@[t],
        decreases q.len() - j,
    {
        if key[p + j] != q[j] {
            assert(key@.subrange(p as int, p + q.len())[j as int] != q@[j as int]);
            return false;
        }
        j = j + 1;
    }
    assert(key@.subrange(p as int, p + q.len()) =~= q@);
    true
}

/// The first position at or after `from` where `q` occurs in `key`.
pub(crate) fn find_from(key: &Vec<char>, q: &Vec<char>, from: usize) -> (r: Option<usize>)
    requires
        q.len() > 0,
    ensures
        r matches Some(p) ==> next_occurrence(key@, q@, from as int) == Some(p as int),
        r is None ==> next_occurrence(key@, q@, from as int) is None,
{
    if q.len() > key.len() {
        return None;
    }
    let mut p: usize = from;
    while p <= key.len() - q.len()
        invariant
            from <= p,
            0 < q.len() <= key.len(),
            next_occurrence(key@, q@, from as int) == next_occurrence(key@, q@, p as int),
        decreases key.len() - p,
    {
        if occurs(key, q, p) {
            return Some(p);
        }
        p = p + 1;
    }
    None
}

/// Splits `key` into spans around the occurrences of `query`, or `None` where
/// a non-empty query does not occur in it.
pub fn matches(key: &Vec<char>, query: &Vec<char>) -> (r: Option<Vec<MatchSpan>>)
    ensures
        r is Some <==> highlight(key@, query@) is Some,
        r matches Some(spans) ==> highlight(key@, query@) == Some(spans_view(spans@)),
{
    if query.len() == 0 {
        let whole = MatchSpan { text: copy_range(key, 0, key.len()), highlighted: false };
        assert(key@.subrange(0, key@.len() as int) =~= key@);
        let r = vec![whole];
        assert(spans_view(r@) =~= seq![(key@, false)]);
        return Some(r);
    }
    let mut elms: Vec<MatchSpan> = Vec::new();
    let mut last: usize = 0;
    let mut found = false;
    loop
        invariant_except_break
            spans_view(elms@) + spans_from(key@, query@, last as int) == spans_from(
                key@,
                query@,
                0,
            ),
        invariant
            query.len() > 0,
            last <= key.len(),
            !found ==> last == 0,
            found ==> next_occurrence(key@, query@, 0) is Some,
        ensures
            spans_view(elms@) == spans_from(key@, query@, 0),
            !found ==> next_occurrence(key@, query@, 0) is None,
        decreases key.len() - last,
    {
        let ghost before = spans_view(elms@);
        match find_from(key, query, last) {
            Some(p) => {
                proof {
                    lemma_next_occurrence(key@, query@, last as int);
                }
                let plain = MatchSpan { text: copy_range(key, last, p), highlighted: false };
                let hit = MatchSpan {
                    text: copy_range(key, p, p + query.len()),
                    highlighted: true,
                };
                let ghost rest = spans_from(key@, query@, p + query.len());
                elms.push(plain);
                elms.push(hit);
                assert(spans_view(elms@) =~= before.push(plain@).push(hit@));
                assert(before + (seq![plain@, hit@] + rest) =~= before.push(plain@).push(hit@)
                    + rest);
                last = p + query.len();
                found = true;
            },
            None => {
                if last < key.len() {
                    let tail = MatchSpan {
                        text: copy_range(key, last, key.len()),
                        highlighted: false,
                    };
                    elms.push(tail);
                    assert(spans_view(elms@) =~= before.push(tail@));
                    assert(before + seq![tail@] =~= before.push(tail@));
                } else {
                    assert(before + Seq::empty() =~= before);
                }
                break;
            },
        }
    }
    if found {
        Some(elms)
    } else {
        None
    }
}

/// The texts of `spans`, joined in order.
pub open spec fn joined_spans(spans: Seq<(Seq<char>, bool)>) -> Seq<char>
    decreases spans.len(),
{
    if spans.len() == 0 {
        Seq::empty()
    } else {
        spans[0].0 + joined_spans(spans.drop_first())
    }
}

proof fn lemma_joined_spans_from(key: Seq<char>, q: Seq<char>, last: int)
    requires
        q.len() > 0,
        0 <= last <= key.len(),
    ensures
        joined_spans(spans_from(key, q, last)) == key.subrange(last, key.len() as int),
    decreases key.len() - last,
{
    lemma_next_occurrence(key, q, last);
    match next_occurrence(key, q, last) {
        Some(p) => {
            let rest = spans_from(key, q, p + q.len());
            lemma_joined_spans_from(key, q, p + q.len());
            let all = seq![(key.subrange(last, p), false), (q, true)] + rest;
            assert(all.drop_first().drop_first() =~= rest);
            assert(all.drop_first()[0] == (q, true));
            assert(joined_spans(all.drop_first()) == q + joined_spans(rest));
            assert(joined_spans(all) == key.subrange(last, p) + joined_spans(all.drop_first()));
            assert(key.subrange(last, p) + (q + key.subrange(p + q.len(), key.len() as int))
                =~= key.subrange(last, key.len() as int));
        },
        None => {
            if last < key.len() {
                let one = seq![(key.subrange(last, key.len() as int), false)];
                assert(one.drop_first() =~= Seq::<(Seq<char>, bool)>::empty());
                assert(joined_spans(one.drop_first()) == Seq::<char>::empty());
                assert(key.subrange(last, key.len() as int) + Seq::<char>::empty()
                    =~= key.subrange(last, key.len() as int));
            } else {
                assert(key.subrange(last, key.len() as int) =~= Seq::<char>::empty());
            }
        },
    }
}

/// Whenever a key matches, the texts of its spans, joined in order, give the
/// key back exactly.
pub proof fn lemma_spans_rebuild_key(key: Seq<char>, query: Seq<char>)
    requires
        highlight(key, query) is Some,
    ensures
        joined_spans(highlight(key, query)->0) == key,
{
    if query.len() == 0 {
        let one = seq![(key, false)];
        assert(one.drop_first() =~= Seq::<(Seq<char>, bool)>::empty());
        assert(joined_spans(one.drop_first()) == Seq::<char>::empty());
        assert(key + Seq::<char>::empty() =~= key);
    } else {
        lemma_joined_spans_from(key, query, 0);
        assert(key.subrange(0, key.len() as int) =~= key);
    }
}

/// A candidate of the list: the key that selects it and the label that the
/// query is matched against.
#[derive(Clone, Debug)]
pub struct ManPage {
    pub key: Vec<char>,
    pub title: Vec<char>,
}

/// A candidate that matched, with the spans of its label.
#[derive(Clone, Debug)]
pub struct ListEntry {
    pub key: Vec<char>,
    pub label: Vec<char>,
    pub spans: Vec<MatchSpan>,
}

pub type EntryModel = (Seq<char>, Seq<char>, Seq<(Seq<char>, bool)>);

impl View for ListEntry {
    type V = EntryModel;

    open spec fn view(&self) -> EntryModel {
        (self.key@, self.label@, spans_view(self.spans@))
    }
}

pub open spec fn pages_view(pages: Seq<ManPage>) -> Seq<(Seq<char>, Seq<char>)> {
    pages.map_values(|p: ManPage| (p.key@, p.title@))
}

pub open spec fn entries_view(entries: Seq<ListEntry>) -> Seq<EntryModel> {
    entries.map_values(|e: ListEntry| e@)
}

/// The candidates whose label matches `query`, in their order, each with the
/// spans of its label.
pub open spec fn filtered(pages: Seq<(Seq<char>, Seq<char>)>, query: Seq<char>) -> Seq<EntryModel>
    decreases pages.len(),
{
    if pages.len() == 0 {
        Seq::empty()
    } else {
        let prev = filtered(pages.drop_last(), query);
        let (key, label) = pages.last();
        match highlight(label, query) {
            Some(spans) => prev.push((key, label, spans)),
            None => prev,
        }
    }
}

/// Keeps the candidates whose title matches `query`, with their spans.
pub fn filter_entries(pages: &Vec<ManPage>, query: &Vec<char>) -> (r: Vec<ListEntry>)
    ensures
        entries_view(r@) == filtered(pages_view(pages@), query@),
{
    let mut out: Vec<ListEntry> = Vec::new();
    let mut i: usize = 0;
    while i < pages.len()
        invariant
            i <= pages.len(),
            entries_view(out@) == filtered(pages_view(pages@.take(i as int)), query@),
        decreases pages.len() - i,
    {
        let page = &pages[i];
        let ghost before = entries_view(out@);
        proof {
            assert(pages_view(pages@.take(i + 1)).drop_last() =~= pages_view(pages@.take(i as int)));
            assert(pages_view(pages@.take(i + 1)).last() == (page.key@, page.title@));
        }
        match matches(&page.title, query) {
            Some(spans) => {
                let entry = ListEntry {
                    key: copy_range(&page.key, 0, page.key.len()),
                    label: copy_range(&page.title, 0, page.title.len()),
                    spans,
                };
                assert(page.key@.subrange(0, page.key@.len() as int) =~= page.key@);
                assert(page.title@.subrange(0, page.title@.len() as int) =~= page.title@);
                out.push(entry);
                assert(entries_view(out@) =~= before.push(entry@));
            },
            None => {},
        }
        i = i + 1;
    }
    assert(pages@.take(pages.len() as int) =~= pages@);
    out
}

} // verus!
