//! The resolution engine: given a timeline, a query date and a selector,
//! find every era record whose interval contains the date, grouped by
//! period entry and naming tradition.

use crate::date::{date_le, date_lt, Date};
use crate::span::{
    span_contains, span_lt, span_wf, spans_view, timeline_view, timeline_wf, NaiveDateSpan, Span,
    SpanList, SpanListArray, SpanListView, SpanView,
};
use crate::text::contains_char;
use vstd::prelude::*;
use vstd::string::StrSliceExecFns;

verus! {

/// The search result: one triple per matched period group, holding the
/// entry's outer interval, the group's initial, and the matching records.
pub type SearchedSpanList = Vec<(NaiveDateSpan, char, Vec<Span>)>;

/// The mathematical value of a search result.
pub open spec fn searched_view(r: Seq<(NaiveDateSpan, char, Vec<Span>)>) -> Seq<
    (NaiveDateSpan, char, Seq<SpanView>),
> {
    r.map_values(|h: (NaiveDateSpan, char, Vec<Span>)| (h.0, h.1, spans_view(h.2@)))
}

/// The record lies strictly before the query date: both endpoints precede it.
pub open spec fn strictly_before(s: SpanView, d: Date) -> bool {
    date_lt(s.span.start, d) && date_lt(s.span.end, d)
}

/// The record has started at or before the query date.
pub open spec fn started_by(s: SpanView, d: Date) -> bool {
    date_le(s.span.start, d)
}

/// The count of leading records that lie strictly before the date: the lower
/// partition bound of the point lookup.
pub open spec fn lead_strictly_before(spans: Seq<SpanView>, d: Date) -> int
    decreases spans.len(),
{
    if spans.len() > 0 && strictly_before(spans[0], d) {
        1 + lead_strictly_before(spans.drop_first(), d)
    } else {
        0
    }
}

/// The count of leading records that have started at or before the date: the
/// upper partition bound of the point lookup.
pub open spec fn lead_started(spans: Seq<SpanView>, d: Date) -> int
    decreases spans.len(),
{
    if spans.len() > 0 && started_by(spans[0], d) {
        1 + lead_started(spans.drop_first(), d)
    } else {
        0
    }
}

/// The point lookup within one period group's record list: the slice between
/// the two partition bounds. A date on the shared boundary of two adjacent
/// records falls in both, so the slice then holds both records.
pub open spec fn lookup_spec(spans: Seq<SpanView>, d: Date) -> Seq<SpanView> {
    let a = lead_strictly_before(spans, d);
    let b = lead_started(spans, d);
    if a <= b {
        spans.subrange(a, b)
    } else {
        seq![]
    }
}

proof fn lemma_lead_strictly_before_bounds(spans: Seq<SpanView>, d: Date)
    ensures
        0 <= lead_strictly_before(spans, d) <= spans.len(),
    decreases spans.len(),
{
    if spans.len() > 0 && strictly_before(spans[0], d) {
        lemma_lead_strictly_before_bounds(spans.drop_first(), d);
    }
}

proof fn lemma_lead_started_bounds(spans: Seq<SpanView>, d: Date)
    ensures
        0 <= lead_started(spans, d) <= spans.len(),
    decreases spans.len(),
{
    if spans.len() > 0 && started_by(spans[0], d) {
        lemma_lead_started_bounds(spans.drop_first(), d);
    }
}

proof fn lemma_lead_strictly_before_at(spans: Seq<SpanView>, d: Date, k: int)
    requires
        0 <= k <= spans.len(),
        forall|j: int| 0 <= j < k ==> strictly_before(spans[j], d),
        k == spans.len() || !strictly_before(spans[k], d),
    ensures
        lead_strictly_before(spans, d) == k,
    decreases k,
{
    if k == 0 {
    } else {
        assert(strictly_before(spans[0], d));
        lemma_lead_strictly_before_at(spans.drop_first(), d, k - 1);
    }
}

proof fn lemma_lead_started_at(spans: Seq<SpanView>, d: Date, k: int)
    requires
        0 <= k <= spans.len(),
        forall|j: int| 0 <= j < k ==> started_by(spans[j], d),
        k == spans.len() || !started_by(spans[k], d),
    ensures
        lead_started(spans, d) == k,
    decreases k,
{
    if k == 0 {
    } else {
        assert(started_by(spans[0], d));
        lemma_lead_started_at(spans.drop_first(), d, k - 1);
    }
}

proof fn lemma_lead_le(spans: Seq<SpanView>, d: Date)
    requires
        forall|i: int| 0 <= i < spans.len() ==> span_wf(#[trigger] spans[i].span),
    ensures
        lead_strictly_before(spans, d) <= lead_started(spans, d),
    decreases spans.len(),
{
    if spans.len() > 0 && strictly_before(spans[0], d) {
        assert(span_wf(spans[0].span));
        assert(forall|i: int|
            0 <= i < spans.drop_first().len() ==> span_wf(
                #[trigger] spans.drop_first()[i].span,
            ));
        lemma_lead_le(spans.drop_first(), d);
    } else {
        lemma_lead_started_bounds(spans, d);
    }
}

fn is_strictly_before(s: &Span, d: &Date) -> (r: bool)
    ensures
        r == strictly_before(s@, *d),
{
    s.span.start.lt(d) && s.span.end.lt(d)
}

fn is_started_by(s: &Span, d: &Date) -> (r: bool)
    ensures
        r == started_by(s@, *d),
{
    s.span.start.le(d)
}

/// The point lookup within one period group's ascending record list: the
/// records whose interval contains `date`, found through the two monotonic
/// partition bounds.
#[verifier::loop_isolation(false)]
pub fn search_from_list(spans: &Vec<Span>, date: &Date) -> (r: Vec<Span>)
    requires
        forall|i: int| 0 <= i < spans@.len() ==> span_wf(#[trigger] spans@[i]@.span),
    ensures
        spans_view(r@) == lookup_spec(spans_view(spans@), *date),
{
    let ghost sv = spans_view(spans@);
    proof {
        assert(forall|i: int| 0 <= i < sv.len() ==> span_wf(#[trigger] sv[i].span));
        lemma_lead_le(sv, *date);
        lemma_lead_started_bounds(sv, *date);
    }
    let n = spans.len();
    let mut a: usize = 0;
    while a < n && is_strictly_before(&spans[a], date)
        invariant
            0 <= a <= n == spans@.len(),
            forall|j: int| 0 <= j < a ==> strictly_before(sv[j], *date),
        decreases n - a,
    {
        a += 1;
    }
    let mut b: usize = 0;
    while b < n && is_started_by(&spans[b], date)
        invariant
            0 <= b <= n == spans@.len(),
            forall|j: int| 0 <= j < b ==> started_by(sv[j], *date),
        decreases n - b,
    {
        b += 1;
    }
    proof {
        lemma_lead_strictly_before_at(sv, *date, a as int);
        lemma_lead_started_at(sv, *date, b as int);
    }
    let mut r: Vec<Span> = Vec::new();
    let mut i: usize = a;
    while i < b
        invariant
            a <= i <= b <= n == spans@.len(),
            spans_view(r@) == sv.subrange(a as int, i as int),
        decreases b - i,
    {
        let item = spans[i].duplicate();
        proof {
            assert(r@.push(item).map_values(|s: Span| s@) =~= spans_view(r@).push(item@));
            assert(sv.subrange(a as int, i as int).push(sv[i as int]) =~= sv.subrange(
                a as int,
                i + 1,
            ));
        }
        r.push(item);
        i += 1;
    }
    proof {
        assert(spans_view(r@) == lookup_spec(sv, *date));
    }
    r
}

/// The views of the selector's filter tokens.
pub open spec fn selector_views(sel: Seq<String>) -> Seq<Seq<char>> {
    crate::text::strings_view(sel)
}

/// The filter token paired with timeline entry `i`: the selector's `i`-th
/// token, or none when the selector is shorter (a missing token acts as a
/// wildcard).
pub open spec fn selector_token(sel: Seq<Seq<char>>, i: int) -> Option<Seq<char>> {
    if 0 <= i < sel.len() {
        Some(sel[i])
    } else {
        None
    }
}

/// Whether a filter token admits the initial `c`: a missing token, a token
/// holding `*`, and an empty token admit every initial; otherwise the token
/// admits exactly the initials that occur literally in its text.
pub open spec fn token_matches(tok: Option<Seq<char>>, c: char) -> bool {
    match tok {
        Option::None => true,
        Option::Some(t) => t.contains('*') || t.contains(c) || t.len() == 0,
    }
}

/// The matches contributed by the groups `gs[j..]` of one timeline entry
/// whose outer interval contains the date: one hit per admitted group with a
/// non-empty point lookup.
pub open spec fn entry_hits_from(
    span: NaiveDateSpan,
    gs: Seq<SpanListView>,
    d: Date,
    tok: Option<Seq<char>>,
    j: int,
) -> Seq<(NaiveDateSpan, char, Seq<SpanView>)>
    decreases gs.len() - j,
{
    if j < 0 || j >= gs.len() {
        seq![]
    } else {
        let rest = entry_hits_from(span, gs, d, tok, j + 1);
        if token_matches(tok, gs[j].initial) && lookup_spec(gs[j].spans, d).len() > 0 {
            seq![(span, gs[j].initial, lookup_spec(gs[j].spans, d))] + rest
        } else {
            rest
        }
    }
}

/// The search result contributed by the timeline entries `tl[i..]`.
pub open spec fn search_spec_from(
    tl: Seq<(NaiveDateSpan, Seq<SpanListView>)>,
    d: Date,
    sel: Seq<Seq<char>>,
    i: int,
) -> Seq<(NaiveDateSpan, char, Seq<SpanView>)>
    decreases tl.len() - i,
{
    if i < 0 || i >= tl.len() {
        seq![]
    } else {
        (if span_contains(tl[i].0, d) {
            entry_hits_from(tl[i].0, tl[i].1, d, selector_token(sel, i), 0)
        } else {
            seq![]
        }) + search_spec_from(tl, d, sel, i + 1)
    }
}

/// What the search returns: for each timeline entry whose outer interval
/// contains the date, the hits of its admitted groups, in timeline order
/// (ascending by interval, then by initial).
pub open spec fn search_spec(
    tl: Seq<(NaiveDateSpan, Seq<SpanListView>)>,
    d: Date,
    sel: Seq<Seq<char>>,
) -> Seq<(NaiveDateSpan, char, Seq<SpanView>)> {
    search_spec_from(tl, d, sel, 0)
}

/// Resolves a query date against the timeline: every period group admitted
/// by the selector whose entry interval contains the date contributes its
/// matching records.
#[verifier::loop_isolation(false)]
pub fn search_from_array(
    spans_array: &SpanListArray,
    date: &Date,
    selector: &Vec<String>,
) -> (r: SearchedSpanList)
    requires
        timeline_wf(timeline_view(spans_array@)),
    ensures
        searched_view(r@) == search_spec(timeline_view(spans_array@), *date, selector_views(
            selector@,
        )),
{
    let ghost tl = timeline_view(spans_array@);
    let ghost sel = selector_views(selector@);
    let mut r: SearchedSpanList = Vec::new();
    let n = spans_array.len();
    let mut i: usize = 0;
    while i < n
        invariant
            0 <= i <= n,
            search_spec(tl, *date, sel) == searched_view(r@) + search_spec_from(
                tl,
                *date,
                sel,
                i as int,
            ),
        decreases n - i,
    {
        let entry_span = spans_array[i].0;
        proof {
            assert(tl[i as int] == (spans_array@[i as int].0, crate::span::groups_view(
                spans_array@[i as int].1@,
            )));
        }
        if entry_span.start().le(date) && date.le(entry_span.end()) {
            let ghost gs = crate::span::groups_view(spans_array@[i as int].1@);
            let m = spans_array[i].1.len();
            let mut j: usize = 0;
            while j < m
                invariant
                    0 <= j <= m == gs.len(),
                    search_spec(tl, *date, sel) == searched_view(r@) + entry_hits_from(
                        entry_span,
                        gs,
                        *date,
                        selector_token(sel, i as int),
                        j as int,
                    ) + search_spec_from(tl, *date, sel, i as int + 1),
                decreases m - j,
            {
                let g = &spans_array[i].1[j];
                proof {
                    assert(gs[j as int] == spans_array@[i as int].1@[j as int]@);
                    assert(crate::span::groups_wf(gs));
                    assert(crate::span::group_wf(gs[j as int]));
                }
                let admitted: bool = if i < selector.len() {
                    let t = selector[i].as_str();
                    contains_char(t, '*') || contains_char(t, *g.initial()) || t.unicode_len()
                        == 0
                } else {
                    true
                };
                proof {
                    assert(admitted == token_matches(selector_token(sel, i as int), gs[
                    j as int].initial));
                }
                if admitted {
                    let gspans = g.spans();
                    proof {
                        assert forall|k: int| 0 <= k < gspans@.len() implies span_wf(
                            #[trigger] gspans@[k]@.span,
                        ) by {
                            assert(gspans@[k]@ == spans_view(gspans@)[k]);
                            assert(spans_view(gspans@) == gs[j as int].spans);
                        }
                    }
                    let found = search_from_list(gspans, date);
                    if found.len() > 0 {
                        let hit = (entry_span, *g.initial(), found);
                        proof {
                            assert(searched_view(r@.push(hit)) =~= searched_view(r@).push(
                                (hit.0, hit.1, spans_view(hit.2@)),
                            ));
                            assert(searched_view(r@).push((hit.0, hit.1, spans_view(hit.2@)))
                                + entry_hits_from(
                                entry_span,
                                gs,
                                *date,
                                selector_token(sel, i as int),
                                j as int + 1,
                            ) =~= searched_view(r@) + entry_hits_from(
                                entry_span,
                                gs,
                                *date,
                                selector_token(sel, i as int),
                                j as int,
                            ));
                        }
                        r.push(hit);
                    }
                }
                j += 1;
            }
        }
        i += 1;
    }
    r
}

/// Adjacent records of the list do not overlap: each ends no later than the
/// next begins (a shared boundary, where they are equal, is allowed).
pub open spec fn non_overlapping(spans: Seq<SpanView>) -> bool {
    forall|i: int|
        0 <= i < spans.len() - 1 ==> date_le(
            #[trigger] spans[i].span.end,
            spans[i + 1].span.start,
        )
}

proof fn lemma_chain(spans: Seq<SpanView>, i: int, j: int)
    requires
        forall|k: int| 0 <= k < spans.len() ==> span_wf(#[trigger] spans[k].span),
        non_overlapping(spans),
        0 <= i < j < spans.len(),
    ensures
        date_le(spans[i].span.end, spans[j].span.start),
    decreases j - i,
{
    if j > i + 1 {
        lemma_chain(spans, i, j - 1);
    }
}

proof fn lemma_lead_started_props(spans: Seq<SpanView>, d: Date)
    ensures
        0 <= lead_started(spans, d) <= spans.len(),
        forall|j: int| 0 <= j < lead_started(spans, d) ==> started_by(#[trigger] spans[j], d),
        lead_started(spans, d) < spans.len() ==> !started_by(
            spans[lead_started(spans, d)],
            d,
        ),
    decreases spans.len(),
{
    if spans.len() > 0 && started_by(spans[0], d) {
        lemma_lead_started_props(spans.drop_first(), d);
        assert forall|j: int| 0 <= j < lead_started(spans, d) implies started_by(
            #[trigger] spans[j],
            d,
        ) by {
            if j > 0 {
                assert(started_by(spans.drop_first()[j - 1], d));
            }
        }
    }
}

/// The point lookup at a date strictly inside exactly one record of a
/// well-formed non-overlapping list returns exactly that record.
pub proof fn lemma_point_lookup_unique(spans: Seq<SpanView>, d: Date, k: int)
    requires
        forall|i: int| 0 <= i < spans.len() ==> span_wf(#[trigger] spans[i].span),
        non_overlapping(spans),
        0 <= k < spans.len(),
        date_lt(spans[k].span.start, d),
        date_lt(d, spans[k].span.end),
    ensures
        lookup_spec(spans, d) =~= seq![spans[k]],
{
    assert forall|j: int| 0 <= j < k implies strictly_before(#[trigger] spans[j], d) by {
        lemma_chain(spans, j, k);
    }
    lemma_lead_strictly_before_at(spans, d, k);
    assert forall|j: int| 0 <= j < k + 1 implies started_by(#[trigger] spans[j], d) by {
        if j < k {
            lemma_chain(spans, j, k);
        }
    }
    if k + 1 < spans.len() {
        lemma_chain(spans, k, k + 1);
    }
    lemma_lead_started_at(spans, d, k + 1);
}

/// A date exactly on the boundary shared by two adjacent records returns
/// both records, in ascending interval order.
pub proof fn lemma_point_lookup_boundary(spans: Seq<SpanView>, d: Date, k: int)
    requires
        forall|i: int| 0 <= i < spans.len() ==> span_wf(#[trigger] spans[i].span),
        non_overlapping(spans),
        0 <= k,
        k + 1 < spans.len(),
        spans[k].span.end == d,
        spans[k + 1].span.start == d,
        date_lt(spans[k].span.start, d),
        date_lt(d, spans[k + 1].span.end),
    ensures
        lookup_spec(spans, d) =~= seq![spans[k], spans[k + 1]],
{
    assert forall|j: int| 0 <= j < k implies strictly_before(#[trigger] spans[j], d) by {
        lemma_chain(spans, j, k);
    }
    lemma_lead_strictly_before_at(spans, d, k);
    assert forall|j: int| 0 <= j < k + 2 implies started_by(#[trigger] spans[j], d) by {
        if j < k {
            lemma_chain(spans, j, k);
        }
    }
    if k + 2 < spans.len() {
        lemma_chain(spans, k + 1, k + 2);
    }
    lemma_lead_started_at(spans, d, k + 2);
}

/// A date strictly outside every record's interval yields an empty match
/// list.
pub proof fn lemma_point_lookup_empty(spans: Seq<SpanView>, d: Date)
    requires
        forall|i: int| 0 <= i < spans.len() ==> span_wf(#[trigger] spans[i].span),
        forall|i: int| 0 <= i < spans.len() ==> !span_contains(#[trigger] spans[i].span, d),
    ensures
        lookup_spec(spans, d) =~= seq![],
{
    lemma_lead_started_props(spans, d);
    let b = lead_started(spans, d);
    assert forall|j: int| 0 <= j < b implies strictly_before(#[trigger] spans[j], d) by {
        assert(started_by(spans[j], d));
        assert(!span_contains(spans[j].span, d));
        assert(span_wf(spans[j].span));
    }
    lemma_lead_strictly_before_at(spans, d, b);
}

proof fn lemma_lookup_dates(spans: Seq<SpanView>, d: Date, today: Date)
    requires
        forall|m: int|
            0 <= m < spans.len() ==> crate::span::date_from_load(
                (#[trigger] spans[m]).span.start,
                today,
            ),
    ensures
        forall|k: int|
            0 <= k < lookup_spec(spans, d).len() ==> started_by(
                #[trigger] lookup_spec(spans, d)[k],
                d,
            ) && crate::span::date_from_load(lookup_spec(spans, d)[k].span.start, today),
{
    lemma_lead_strictly_before_bounds(spans, d);
    lemma_lead_started_props(spans, d);
    let a = lead_strictly_before(spans, d);
    let b = lead_started(spans, d);
    if a <= b {
        assert forall|k: int| 0 <= k < lookup_spec(spans, d).len() implies started_by(
            #[trigger] lookup_spec(spans, d)[k],
            d,
        ) && crate::span::date_from_load(lookup_spec(spans, d)[k].span.start, today) by {
            assert(lookup_spec(spans, d)[k] == spans[a + k]);
            assert(started_by(spans[a + k], d));
            assert(crate::span::date_from_load(spans[a + k].span.start, today));
        }
    }
}

proof fn lemma_entry_hits_dates(
    span: NaiveDateSpan,
    gs: Seq<SpanListView>,
    d: Date,
    tok: Option<Seq<char>>,
    j: int,
    today: Date,
)
    requires
        forall|jj: int|
            0 <= jj < gs.len() ==> crate::span::group_dates_ok(#[trigger] gs[jj], today),
    ensures
        forall|i: int, k: int|
            0 <= i < entry_hits_from(span, gs, d, tok, j).len() && 0 <= k < entry_hits_from(
                span,
                gs,
                d,
                tok,
                j,
            )[i].2.len() ==> started_by(#[trigger] entry_hits_from(span, gs, d, tok, j)[i].2[k], d)
                && crate::span::date_from_load(
                entry_hits_from(span, gs, d, tok, j)[i].2[k].span.start,
                today,
            ),
    decreases gs.len() - j,
{
    if 0 <= j < gs.len() {
        lemma_entry_hits_dates(span, gs, d, tok, j + 1, today);
        assert(crate::span::group_dates_ok(gs[j], today));
        lemma_lookup_dates(gs[j].spans, d, today);
        let rest = entry_hits_from(span, gs, d, tok, j + 1);
        let cur = entry_hits_from(span, gs, d, tok, j);
        assert forall|i: int, k: int|
            0 <= i < cur.len() && 0 <= k < cur[i].2.len() implies started_by(
            #[trigger] cur[i].2[k],
            d,
        ) && crate::span::date_from_load(cur[i].2[k].span.start, today) by {
            if token_matches(tok, gs[j].initial) && lookup_spec(gs[j].spans, d).len() > 0 {
                if i == 0 {
                    assert(cur[0].2 == lookup_spec(gs[j].spans, d));
                } else {
                    assert(cur[i] == rest[i - 1]);
                }
            } else {
                assert(cur[i] == rest[i]);
            }
        }
    }
}

/// Every record of the search result has started at or before the query
/// date, and its start is a loader-produced date whenever the whole
/// timeline's dates are.
pub(crate) proof fn lemma_search_from_dates(
    tl: Seq<(NaiveDateSpan, Seq<SpanListView>)>,
    d: Date,
    sel: Seq<Seq<char>>,
    i: int,
    today: Date,
)
    requires
        crate::span::timeline_dates_ok(tl, today),
    ensures
        forall|h: int, k: int|
            0 <= h < search_spec_from(tl, d, sel, i).len() && 0 <= k < search_spec_from(
                tl,
                d,
                sel,
                i,
            )[h].2.len() ==> started_by(#[trigger] search_spec_from(tl, d, sel, i)[h].2[k], d)
                && crate::span::date_from_load(
                search_spec_from(tl, d, sel, i)[h].2[k].span.start,
                today,
            ),
    decreases tl.len() - i,
{
    if 0 <= i < tl.len() {
        lemma_search_from_dates(tl, d, sel, i + 1, today);
        assert forall|jj: int| 0 <= jj < tl[i].1.len() implies crate::span::group_dates_ok(
            #[trigger] tl[i].1[jj],
            today,
        ) by {}
        lemma_entry_hits_dates(tl[i].0, tl[i].1, d, selector_token(sel, i), 0, today);
        let head = if span_contains(tl[i].0, d) {
            entry_hits_from(tl[i].0, tl[i].1, d, selector_token(sel, i), 0)
        } else {
            seq![]
        };
        let rest = search_spec_from(tl, d, sel, i + 1);
        let cur = search_spec_from(tl, d, sel, i);
        assert forall|h: int, k: int|
            0 <= h < cur.len() && 0 <= k < cur[h].2.len() implies started_by(
            #[trigger] cur[h].2[k],
            d,
        ) && crate::span::date_from_load(cur[h].2[k].span.start, today) by {
            if h < head.len() {
                assert(cur[h] == head[h]);
            } else {
                assert(cur[h] == rest[h - head.len()]);
            }
        }
    }
}

/// The order of the search output's keys: ascending by outer interval,
/// ties broken by initial.
pub open spec fn hit_key_lt(
    a: (NaiveDateSpan, char, Seq<SpanView>),
    b: (NaiveDateSpan, char, Seq<SpanView>),
) -> bool {
    span_lt(a.0, b.0) || (a.0 == b.0 && (a.1 as u32) < (b.1 as u32))
}

proof fn lemma_entry_hits_keys(
    span: NaiveDateSpan,
    gs: Seq<SpanListView>,
    d: Date,
    tok: Option<Seq<char>>,
    j: int,
)
    requires
        forall|a: int, b: int|
            0 <= a < b < gs.len() ==> (#[trigger] gs[a].initial as u32) < (
            #[trigger] gs[b].initial as u32),
        0 <= j,
    ensures
        forall|h: int|
            0 <= h < entry_hits_from(span, gs, d, tok, j).len() ==> (#[trigger] entry_hits_from(
                span,
                gs,
                d,
                tok,
                j,
            )[h]).0 == span,
        forall|a: int, b: int|
            0 <= a < b < entry_hits_from(span, gs, d, tok, j).len() ==> (
            #[trigger] entry_hits_from(span, gs, d, tok, j)[a].1 as u32) < (
            #[trigger] entry_hits_from(span, gs, d, tok, j)[b].1 as u32),
        entry_hits_from(span, gs, d, tok, j).len() > 0 ==> j < gs.len() && (gs[j].initial
            as u32) <= (entry_hits_from(span, gs, d, tok, j)[0].1 as u32),
    decreases gs.len() - j,
{
    if j < gs.len() {
        lemma_entry_hits_keys(span, gs, d, tok, j + 1);
        let rest = entry_hits_from(span, gs, d, tok, j + 1);
        let cur = entry_hits_from(span, gs, d, tok, j);
        if token_matches(tok, gs[j].initial) && lookup_spec(gs[j].spans, d).len() > 0 {
            assert(cur[0].1 == gs[j].initial);
            assert forall|a: int, b: int| 0 <= a < b < cur.len() implies (
            #[trigger] cur[a].1 as u32) < (#[trigger] cur[b].1 as u32) by {
                if a == 0 {
                    assert(cur[b] == rest[b - 1]);
                    if b - 1 > 0 {
                        assert((rest[0].1 as u32) < (rest[b - 1].1 as u32));
                    }
                } else {
                    assert(cur[a] == rest[a - 1] && cur[b] == rest[b - 1]);
                }
            }
        } else {
            if cur.len() > 0 {
                assert(j + 1 < gs.len());
                assert((gs[j].initial as u32) < (gs[j + 1].initial as u32));
            }
        }
    }
}

proof fn lemma_search_sorted_from(
    tl: Seq<(NaiveDateSpan, Seq<SpanListView>)>,
    d: Date,
    sel: Seq<Seq<char>>,
    i: int,
)
    requires
        timeline_wf(tl),
        0 <= i,
    ensures
        forall|a: int, b: int|
            0 <= a < b < search_spec_from(tl, d, sel, i).len() ==> hit_key_lt(
                #[trigger] search_spec_from(tl, d, sel, i)[a],
                #[trigger] search_spec_from(tl, d, sel, i)[b],
            ),
        forall|h: int|
            0 <= h < search_spec_from(tl, d, sel, i).len() ==> i < tl.len() && !span_lt(
                (#[trigger] search_spec_from(tl, d, sel, i)[h]).0,
                tl[i].0,
            ),
    decreases tl.len() - i,
{
    if i < tl.len() {
        lemma_search_sorted_from(tl, d, sel, i + 1);
        assert(crate::span::groups_wf(tl[i].1));
        lemma_entry_hits_keys(tl[i].0, tl[i].1, d, selector_token(sel, i), 0);
        let head = if span_contains(tl[i].0, d) {
            entry_hits_from(tl[i].0, tl[i].1, d, selector_token(sel, i), 0)
        } else {
            seq![]
        };
        let rest = search_spec_from(tl, d, sel, i + 1);
        let cur = search_spec_from(tl, d, sel, i);
        assert forall|h: int| 0 <= h < cur.len() implies i < tl.len() && !span_lt(
            (#[trigger] cur[h]).0,
            tl[i].0,
        ) by {
            if h < head.len() {
                assert(cur[h] == head[h]);
                assert(head[h].0 == tl[i].0);
            } else {
                assert(cur[h] == rest[h - head.len()]);
                assert(!span_lt(rest[h - head.len()].0, tl[i + 1].0));
                assert(span_lt(tl[i].0, tl[i + 1].0));
            }
        }
        assert forall|a: int, b: int| 0 <= a < b < cur.len() implies hit_key_lt(
            #[trigger] cur[a],
            #[trigger] cur[b],
        ) by {
            if b < head.len() {
                assert(cur[a] == head[a] && cur[b] == head[b]);
            } else if a < head.len() {
                assert(cur[a] == head[a] && cur[b] == rest[b - head.len()]);
                assert(head[a].0 == tl[i].0);
                assert(!span_lt(rest[b - head.len()].0, tl[i + 1].0));
                assert(span_lt(tl[i].0, tl[i + 1].0));
            } else {
                assert(cur[a] == rest[a - head.len()] && cur[b] == rest[b - head.len()]);
            }
        }
    }
}

/// The search output is deterministic and sorted: over a well-formed
/// timeline its hits ascend strictly by outer interval, ties broken by
/// initial, whatever the query and selector.
pub proof fn lemma_search_output_sorted(
    tl: Seq<(NaiveDateSpan, Seq<SpanListView>)>,
    d: Date,
    sel: Seq<Seq<char>>,
)
    requires
        timeline_wf(tl),
    ensures
        forall|a: int, b: int|
            0 <= a < b < search_spec(tl, d, sel).len() ==> hit_key_lt(
                #[trigger] search_spec(tl, d, sel)[a],
                #[trigger] search_spec(tl, d, sel)[b],
            ),
{
    lemma_search_sorted_from(tl, d, sel, 0);
}

/// A wildcard token, an empty token and a missing token each admit every
/// initial.
pub proof fn lemma_selector_wildcard(c: char)
    ensures
        token_matches(Some("*"@), c),
        token_matches(Some(Seq::<char>::empty()), c),
        token_matches(None::<Seq<char>>, c),
{
    reveal_strlit("*");
    assert("*"@.contains('*')) by {
        assert("*"@[0] == '*');
    }
}

/// A non-empty token without the wildcard admits exactly the initials that
/// occur literally in its text.
pub proof fn lemma_selector_specific(t: Seq<char>, c: char)
    requires
        t.len() > 0,
        !t.contains('*'),
    ensures
        token_matches(Some(t), c) <==> t.contains(c),
{
}

/// A selector shorter than the timeline hands every later entry the missing
/// token, which admits every initial.
pub proof fn lemma_selector_default(sel: Seq<Seq<char>>, i: int, c: char)
    requires
        i >= sel.len(),
    ensures
        token_matches(selector_token(sel, i), c),
{
}

} // verus!
