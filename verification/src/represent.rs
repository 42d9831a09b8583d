//! The presentation formatter: decimal and traditional numeral-word
//! rendering, span tags, and the display strings of search results.

use crate::date::Date;
use crate::search::{searched_view, SearchedSpanList};
use crate::span::{NaiveDateSpan, SpanView};
use crate::text::push_char;
use vstd::prelude::*;
use vstd::string::{StrSliceExecFns, StringExecFns};

verus! {

/// The decimal digits of a non-negative integer, most significant first;
/// zero has the single digit `0`.
pub open spec fn digits_of(n: int) -> Seq<int>
    recommends
        n >= 0,
    decreases n,
{
    if n < 10 {
        seq![if n >= 0 { n } else { 0 }]
    } else {
        digits_of(n / 10).push(n % 10)
    }
}

/// The character of one decimal digit.
pub open spec fn digit_char_of(d: int) -> char {
    if d == 0 {
        '0'
    } else if d == 1 {
        '1'
    } else if d == 2 {
        '2'
    } else if d == 3 {
        '3'
    } else if d == 4 {
        '4'
    } else if d == 5 {
        '5'
    } else if d == 6 {
        '6'
    } else if d == 7 {
        '7'
    } else if d == 8 {
        '8'
    } else {
        '9'
    }
}

/// The decimal digit string of a non-negative integer.
pub open spec fn dec_chars(n: int) -> Seq<char> {
    digits_of(n).map_values(|d: int| digit_char_of(d))
}

fn digit_str(d: u32) -> (r: &'static str)
    requires
        d < 10,
    ensures
        r@ == seq![digit_char_of(d as int)],
{
    proof {
        reveal_strlit("0");
        reveal_strlit("1");
        reveal_strlit("2");
        reveal_strlit("3");
        reveal_strlit("4");
        reveal_strlit("5");
        reveal_strlit("6");
        reveal_strlit("7");
        reveal_strlit("8");
        reveal_strlit("9");
    }
    let r = if d == 0 {
        "0"
    } else if d == 1 {
        "1"
    } else if d == 2 {
        "2"
    } else if d == 3 {
        "3"
    } else if d == 4 {
        "4"
    } else if d == 5 {
        "5"
    } else if d == 6 {
        "6"
    } else if d == 7 {
        "7"
    } else if d == 8 {
        "8"
    } else {
        "9"
    };
    proof {
        assert(r@ =~= seq![digit_char_of(d as int)]);
    }
    r
}

/// Renders a number as its plain decimal digit string.
pub fn u64_to_string(n: u64) -> (r: String)
    ensures
        r@ == dec_chars(n as int),
    decreases n,
{
    if n < 10 {
        let r = digit_str(n as u32).to_owned();
        proof {
            assert(r@ =~= dec_chars(n as int));
        }
        r
    } else {
        let mut r = u64_to_string(n / 10);
        r.append(digit_str((n % 10) as u32));
        proof {
            assert(digits_of(n as int) == digits_of(n as int / 10).push(n as int % 10));
            assert(r@ =~= dec_chars(n as int));
        }
        r
    }
}

/// The digits of a `u32`, most significant first, each below ten.
fn u32_digits(n: u32) -> (r: Vec<u32>)
    ensures
        r@.map_values(|d: u32| d as int) == digits_of(n as int),
        forall|i: int| 0 <= i < r@.len() ==> r@[i] < 10,
        r@.len() >= 1,
    decreases n,
{
    if n < 10 {
        let r: Vec<u32> = vec![n];
        proof {
            assert(r@.map_values(|d: u32| d as int) =~= digits_of(n as int));
        }
        r
    } else {
        let mut r = u32_digits(n / 10);
        proof {
            assert(r@.push(n % 10).map_values(|d: u32| d as int) =~= r@.map_values(
                |d: u32| d as int,
            ).push((n % 10) as int));
        }
        r.push(n % 10);
        r
    }
}

/// The basic numeral word of one digit; zero and (in the elided positions)
/// one contribute nothing.
pub open spec fn num_word(d: int) -> Seq<char> {
    if d == 1 {
        "一"@
    } else if d == 2 {
        "二"@
    } else if d == 3 {
        "三"@
    } else if d == 4 {
        "四"@
    } else if d == 5 {
        "五"@
    } else if d == 6 {
        "六"@
    } else if d == 7 {
        "七"@
    } else if d == 8 {
        "八"@
    } else if d == 9 {
        "九"@
    } else {
        Seq::<char>::empty()
    }
}

/// The sub-place word within one four-digit group: none, ten, hundred or
/// thousand.
pub open spec fn sub_word(p: int) -> Seq<char> {
    if p == 1 {
        "十"@
    } else if p == 2 {
        "百"@
    } else if p == 3 {
        "千"@
    } else {
        Seq::<char>::empty()
    }
}

/// The magnitude-group word of the `g`-th four-digit group, following the
/// traditional large-number scale.
pub open spec fn part_word(g: int) -> Seq<char> {
    if g == 1 {
        "万"@
    } else if g == 2 {
        "億"@
    } else if g == 3 {
        "兆"@
    } else if g == 4 {
        "京"@
    } else if g == 5 {
        "垓"@
    } else if g == 6 {
        "𥝱"@
    } else if g == 7 {
        "穣"@
    } else if g == 8 {
        "溝"@
    } else if g == 9 {
        "澗"@
    } else if g == 10 {
        "正"@
    } else if g == 11 {
        "載"@
    } else if g == 12 {
        "極"@
    } else if g == 13 {
        "恒河沙"@
    } else if g == 14 {
        "阿僧祇"@
    } else if g == 15 {
        "那由他"@
    } else if g == 16 {
        "不可思議"@
    } else if g == 17 {
        "無量大数"@
    } else {
        Seq::<char>::empty()
    }
}

/// The traditional numeral-word rendering of the digits from position `i`
/// on. `pending` says whether a more significant digit of the current
/// four-digit group (or an earlier group word not yet emitted) still awaits
/// its magnitude-group word: the word is emitted at the group's last digit
/// only when the flag or a non-zero digit set it, and never for an all-zero
/// group.
pub open spec fn kansuuji_scan(digits: Seq<int>, i: int, pending: bool) -> Seq<char>
    decreases digits.len() - i,
{
    if i < 0 || i >= digits.len() {
        Seq::<char>::empty()
    } else {
        let d = digits[i];
        let class = digits.len() - 1 - i;
        let pend = pending || d != 0;
        let body = if !(class % 4 != 0 && d == 1) {
            num_word(d)
        } else {
            Seq::<char>::empty()
        };
        let sub = if d != 0 {
            sub_word(class % 4)
        } else {
            Seq::<char>::empty()
        };
        let here = pend && class % 4 == 0;
        let part = if here {
            part_word(class / 4)
        } else {
            Seq::<char>::empty()
        };
        body + sub + part + kansuuji_scan(
            digits,
            i + 1,
            if here {
                false
            } else {
                pend
            },
        )
    }
}

/// The traditional numeral-word rendering of a non-negative integer.
pub open spec fn kansuuji(n: int) -> Seq<char> {
    kansuuji_scan(digits_of(n), 0, true)
}

fn num_word_str(d: u32) -> (r: &'static str)
    requires
        d < 10,
    ensures
        r@ == num_word(d as int),
{
    proof {
        reveal_strlit("");
        assert(""@ =~= Seq::<char>::empty());
    }
    if d == 1 {
        "一"
    } else if d == 2 {
        "二"
    } else if d == 3 {
        "三"
    } else if d == 4 {
        "四"
    } else if d == 5 {
        "五"
    } else if d == 6 {
        "六"
    } else if d == 7 {
        "七"
    } else if d == 8 {
        "八"
    } else if d == 9 {
        "九"
    } else {
        ""
    }
}

fn sub_word_str(p: usize) -> (r: &'static str)
    requires
        p < 4,
    ensures
        r@ == sub_word(p as int),
{
    proof {
        reveal_strlit("");
        assert(""@ =~= Seq::<char>::empty());
    }
    if p == 1 {
        "十"
    } else if p == 2 {
        "百"
    } else if p == 3 {
        "千"
    } else {
        ""
    }
}

fn part_word_str(g: usize) -> (r: &'static str)
    ensures
        r@ == part_word(g as int),
{
    proof {
        reveal_strlit("");
        assert(""@ =~= Seq::<char>::empty());
    }
    if g == 1 {
        "万"
    } else if g == 2 {
        "億"
    } else if g == 3 {
        "兆"
    } else if g == 4 {
        "京"
    } else if g == 5 {
        "垓"
    } else if g == 6 {
        "𥝱"
    } else if g == 7 {
        "穣"
    } else if g == 8 {
        "溝"
    } else if g == 9 {
        "澗"
    } else if g == 10 {
        "正"
    } else if g == 11 {
        "載"
    } else if g == 12 {
        "極"
    } else if g == 13 {
        "恒河沙"
    } else if g == 14 {
        "阿僧祇"
    } else if g == 15 {
        "那由他"
    } else if g == 16 {
        "不可思議"
    } else if g == 17 {
        "無量大数"
    } else {
        ""
    }
}

/// Renders a number in traditional numeral words: four-digit groups carry
/// magnitude-group words, non-zero digits carry their sub-place word, and a
/// digit one in a tens, hundreds or thousands sub-place elides its basic
/// numeral. Total over every `u32`; zero renders as the empty string.
#[verifier::loop_isolation(false)]
pub fn to_kansuuji(value: u32) -> (r: String)
    ensures
        r@ == kansuuji(value as int),
{
    let digits = u32_digits(value);
    let ghost dg = digits@.map_values(|d: u32| d as int);
    let n = digits.len();
    let mut buf = String::new();
    let mut parts_flag = true;
    let mut i: usize = 0;
    while i < n
        invariant
            0 <= i <= n == digits@.len(),
            kansuuji(value as int) == buf@ + kansuuji_scan(dg, i as int, parts_flag),
        decreases n - i,
    {
        let ghost buf0 = buf@;
        let ghost flag0 = parts_flag;
        let code = digits[i];
        let class = n - 1 - i;

        if code != 0 {
            parts_flag = true;
        }
        if !(class % 4 != 0 && code == 1) {
            buf.append(num_word_str(code));
        }
        let ghost buf1 = buf@;
        if code != 0 {
            buf.append(sub_word_str(class % 4));
        }
        let ghost buf2 = buf@;
        if parts_flag && class % 4 == 0 {
            buf.append(part_word_str(class / 4));
            parts_flag = false;
        }
        proof {
            let d = dg[i as int];
            let cls = dg.len() - 1 - i;
            let pend = flag0 || d != 0;
            let body = if !(cls % 4 != 0 && d == 1) {
                num_word(d)
            } else {
                Seq::<char>::empty()
            };
            let sub = if d != 0 {
                sub_word(cls % 4)
            } else {
                Seq::<char>::empty()
            };
            let here = pend && cls % 4 == 0;
            let part = if here {
                part_word(cls / 4)
            } else {
                Seq::<char>::empty()
            };
            assert(d == code as int && cls == class as int);
            assert(pend == (flag0 || code != 0));
            assert(buf1 =~= buf0 + body);
            assert(buf2 =~= buf1 + sub);
            assert(buf@ =~= buf2 + part);
            assert(buf@ =~= buf0 + body + sub + part);
            assert(kansuuji_scan(dg, i as int, flag0) == body + sub + part + kansuuji_scan(
                dg,
                i + 1,
                if here {
                    false
                } else {
                    pend
                },
            ));
            assert(parts_flag == if here {
                false
            } else {
                pend
            });
            assert(buf0 + kansuuji_scan(dg, i as int, flag0) =~= buf@ + kansuuji_scan(
                dg,
                i + 1,
                parts_flag,
            ));
        }
        i += 1;
    }
    buf
}

/// A number rendered as exactly four decimal digits, zero-padded.
pub open spec fn pad4(n: int) -> Seq<char>
    recommends
        0 <= n <= 9999,
{
    seq![
        digit_char_of(n / 1000 % 10),
        digit_char_of(n / 100 % 10),
        digit_char_of(n / 10 % 10),
        digit_char_of(n % 10),
    ]
}

/// A number rendered as exactly two decimal digits, zero-padded.
pub open spec fn pad2(n: int) -> Seq<char>
    recommends
        0 <= n <= 99,
{
    seq![digit_char_of(n / 10 % 10), digit_char_of(n % 10)]
}

/// A year as `%Y` renders it: zero-padded to four digits, and with an
/// explicit sign outside `0..=9999`.
pub open spec fn year_chars(y: int) -> Seq<char> {
    if 0 <= y <= 9999 {
        pad4(y)
    } else if y > 9999 {
        seq!['+'] + dec_chars(y)
    } else {
        seq!['-'] + (if -y <= 9999 {
            pad4(-y)
        } else {
            dec_chars(-y)
        })
    }
}

/// A date as `YYYY-MM-DD`.
pub open spec fn date_chars(d: Date) -> Seq<char> {
    year_chars(d.year as int) + seq!['-'] + pad2(d.month as int) + seq!['-'] + pad2(d.day as int)
}

/// The machine-parsable span tag of one match:
/// `{start}_{end}_{initial}` with both dates as `YYYY-MM-DD`.
pub open spec fn span_tag(sp: NaiveDateSpan, initial: char) -> Seq<char> {
    date_chars(sp.start) + seq!['_'] + date_chars(sp.end) + seq!['_'] + seq![initial]
}

fn pad4_str(n: u32) -> (r: String)
    requires
        n <= 9999,
    ensures
        r@ == pad4(n as int),
{
    let mut r = digit_str(n / 1000 % 10).to_owned();
    r.append(digit_str(n / 100 % 10));
    r.append(digit_str(n / 10 % 10));
    r.append(digit_str(n % 10));
    proof {
        assert(r@ =~= pad4(n as int));
    }
    r
}

fn pad2_str(n: u32) -> (r: String)
    ensures
        r@ == pad2(n as int),
{
    let mut r = digit_str(n / 10 % 10).to_owned();
    r.append(digit_str(n % 10));
    proof {
        assert(r@ =~= pad2(n as int));
    }
    r
}

fn year_str(y: i32) -> (r: String)
    ensures
        r@ == year_chars(y as int),
{
    if 0 <= y && y <= 9999 {
        pad4_str(y as u32)
    } else if y > 9999 {
        let mut r = "+".to_owned();
        let digits = u64_to_string(y as u64);
        r.append(digits.as_str());
        proof {
            reveal_strlit("+");
            assert(r@ =~= year_chars(y as int));
        }
        r
    } else {
        let magnitude: u64 = (-(y as i64)) as u64;
        let mut r = "-".to_owned();
        if magnitude <= 9999 {
            let p = pad4_str(magnitude as u32);
            r.append(p.as_str());
        } else {
            let digits = u64_to_string(magnitude);
            r.append(digits.as_str());
        }
        proof {
            reveal_strlit("-");
            assert(r@ =~= year_chars(y as int));
        }
        r
    }
}

fn date_str_of(d: &Date) -> (r: String)
    ensures
        r@ == date_chars(*d),
{
    let mut r = year_str(d.year);
    r.append("-");
    let m = pad2_str(d.month);
    r.append(m.as_str());
    r.append("-");
    let dd = pad2_str(d.day);
    r.append(dd.as_str());
    proof {
        reveal_strlit("-");
        assert(r@ =~= date_chars(*d));
    }
    r
}

/// The span tag of one match: the period group's outer interval and initial
/// as a stable `{start}_{end}_{initial}` identifier.
pub fn represent_span(file_span: &NaiveDateSpan, initial: char) -> (r: String)
    ensures
        r@ == span_tag(*file_span, initial),
{
    let mut r = date_str_of(file_span.start());
    r.append("_");
    let e = date_str_of(file_span.end());
    r.append(e.as_str());
    r.append("_");
    push_char(&mut r, initial);
    proof {
        reveal_strlit("_");
        assert(r@ =~= span_tag(*file_span, initial));
    }
    r
}

/// The era year of a record at the query date: query year minus start year,
/// plus one.
pub open spec fn era_year(q: Date, s: SpanView) -> int {
    q.year - s.span.start.year + 1
}

/// The year part of a display string: the first-year token for year one,
/// else the numeral in the chosen style.
pub open spec fn year_repr(q: Date, s: SpanView, kansuuji_mode: bool) -> Seq<char> {
    if era_year(q, s) == 1 {
        "元"@
    } else if kansuuji_mode {
        kansuuji(era_year(q, s))
    } else {
        dec_chars(era_year(q, s))
    }
}

/// A calendar number in the chosen numeral style.
pub open spec fn number_repr(n: int, kansuuji_mode: bool) -> Seq<char> {
    if kansuuji_mode {
        kansuuji(n)
    } else {
        dec_chars(n)
    }
}

/// The display string of one matched record at the query date:
/// `{name}{year}年{month}月{day}日`.
pub open spec fn date_display(s: SpanView, q: Date, kansuuji_mode: bool) -> Seq<char> {
    s.gengou + year_repr(q, s, kansuuji_mode) + "年"@ + number_repr(q.month as int, kansuuji_mode)
        + "月"@ + number_repr(q.day as int, kansuuji_mode) + "日"@
}

/// Every matched record starts no later than the query year, and its era
/// year stays within the numeral range.
pub open spec fn representable(
    hits: Seq<(NaiveDateSpan, char, Seq<SpanView>)>,
    q: Date,
) -> bool {
    forall|i: int, k: int|
        0 <= i < hits.len() && 0 <= k < hits[i].2.len() ==> (#[trigger] hits[i].2[
        k]).span.start.year <= q.year && q.year - hits[i].2[k].span.start.year + 1
            <= u32::MAX
}

/// The display strings of the matches from hit `i` on, record by record.
pub open spec fn displays_from(
    hits: Seq<(NaiveDateSpan, char, Seq<SpanView>)>,
    q: Date,
    kansuuji_mode: bool,
    i: int,
) -> Seq<Seq<char>>
    decreases hits.len() - i,
{
    if i < 0 || i >= hits.len() {
        seq![]
    } else {
        hits[i].2.map_values(|s: SpanView| date_display(s, q, kansuuji_mode)) + displays_from(
            hits,
            q,
            kansuuji_mode,
            i + 1,
        )
    }
}

/// The span tags of the matches from hit `i` on: each record of a hit gets
/// the tag of that hit's period group.
pub open spec fn tags_from(
    hits: Seq<(NaiveDateSpan, char, Seq<SpanView>)>,
    i: int,
) -> Seq<Seq<char>>
    decreases hits.len() - i,
{
    if i < 0 || i >= hits.len() {
        seq![]
    } else {
        Seq::new(hits[i].2.len(), |k: int| span_tag(hits[i].0, hits[i].1)) + tags_from(
            hits,
            i + 1,
        )
    }
}

/// Renders the search result at the query date: one display date-string and
/// one span tag per matched record, in search order. The display year
/// counts from the record's start year; the first year renders as the
/// dedicated token rather than a numeral.
#[verifier::loop_isolation(false)]
pub fn represent_by_gregorian(
    searched_list: &SearchedSpanList,
    date: &Date,
    is_kansuuji: bool,
) -> (r: (Vec<String>, Vec<String>))
    requires
        representable(searched_view(searched_list@), *date),
    ensures
        r.0@.map_values(|s: String| s@) == displays_from(
            searched_view(searched_list@),
            *date,
            is_kansuuji,
            0,
        ),
        r.1@.map_values(|s: String| s@) == tags_from(searched_view(searched_list@), 0),
{
    let ghost hits = searched_view(searched_list@);
    let mut r_dates: Vec<String> = Vec::new();
    let mut r_spans: Vec<String> = Vec::new();
    let n = searched_list.len();
    let mut i: usize = 0;
    while i < n
        invariant
            0 <= i <= n == searched_list@.len(),
            displays_from(hits, *date, is_kansuuji, 0) == r_dates@.map_values(|s: String| s@)
                + displays_from(hits, *date, is_kansuuji, i as int),
            tags_from(hits, 0) == r_spans@.map_values(|s: String| s@) + tags_from(
                hits,
                i as int,
            ),
        decreases n - i,
    {
        proof {
            assert(hits[i as int] == (
                searched_list@[i as int].0,
                searched_list@[i as int].1,
                crate::span::spans_view(searched_list@[i as int].2@),
            ));
        }
        let ghost hspans = hits[i as int].2;
        let ghost disp_inner = hspans.map_values(
            |s: SpanView| date_display(s, *date, is_kansuuji),
        );
        let ghost tags_inner = Seq::new(
            hspans.len(),
            |k: int| span_tag(hits[i as int].0, hits[i as int].1),
        );
        let m = searched_list[i].2.len();
        let mut k: usize = 0;
        while k < m
            invariant
                0 <= k <= m == hspans.len(),
                displays_from(hits, *date, is_kansuuji, 0) == r_dates@.map_values(
                    |s: String| s@,
                ) + disp_inner.skip(k as int) + displays_from(
                    hits,
                    *date,
                    is_kansuuji,
                    i as int + 1,
                ),
                tags_from(hits, 0) == r_spans@.map_values(|s: String| s@) + tags_inner.skip(
                    k as int,
                ) + tags_from(hits, i as int + 1),
            decreases m - k,
        {
            let record = &searched_list[i].2[k];
            proof {
                assert(record@ == hspans[k as int]);
            }
            let year_i: i64 = date.year as i64 - record.span().start().year as i64 + 1;
            let year_s: String = if year_i == 1 {
                "元".to_owned()
            } else if is_kansuuji {
                to_kansuuji(year_i as u32)
            } else {
                u64_to_string(year_i as u64)
            };
            let month_s: String = if is_kansuuji {
                to_kansuuji(date.month)
            } else {
                u64_to_string(date.month as u64)
            };
            let day_s: String = if is_kansuuji {
                to_kansuuji(date.day)
            } else {
                u64_to_string(date.day as u64)
            };
            let mut ds = record.gengou().to_owned();
            ds.append(year_s.as_str());
            ds.append("年");
            ds.append(month_s.as_str());
            ds.append("月");
            ds.append(day_s.as_str());
            ds.append("日");
            let tag = represent_span(&searched_list[i].0, searched_list[i].1);
            proof {
                assert(ds@ =~= date_display(hspans[k as int], *date, is_kansuuji));
                assert(r_dates@.push(ds).map_values(|s: String| s@) =~= r_dates@.map_values(
                    |s: String| s@,
                ).push(ds@));
                assert(disp_inner.skip(k as int) =~= seq![disp_inner[k as int]]
                    + disp_inner.skip(k as int + 1));
                assert(r_spans@.push(tag).map_values(|s: String| s@) =~= r_spans@.map_values(
                    |s: String| s@,
                ).push(tag@));
                assert(tags_inner.skip(k as int) =~= seq![tags_inner[k as int]]
                    + tags_inner.skip(k as int + 1));
            }
            r_dates.push(ds);
            r_spans.push(tag);
            k += 1;
        }
        i += 1;
    }
    proof {
        assert(r_dates@.map_values(|s: String| s@) =~= displays_from(
            hits,
            *date,
            is_kansuuji,
            0,
        ));
        assert(r_spans@.map_values(|s: String| s@) =~= tags_from(hits, 0));
    }
    (r_dates, r_spans)
}

} // verus!
