//! The timeline data model — era records ([`Span`]) grouped per naming
//! tradition ([`SpanList`]) into a sorted timeline ([`SpanListArray`]) — and
//! the loader that parses flat definition text into that model.

use crate::date::{date_le, date_lt, valid_ymd, ymd_is_valid, Date};
use crate::text::{
    digit_of, digit_val, find_comment, find_two_slashes, is_digit, is_digit_char, lines_of,
    split_fields, split_on_char, str_eq, trim_spec, trim_str,
};
use vstd::prelude::*;
use vstd::string::StrSliceExecFns;

verus! {

/// An ordered pair of dates. The loader keeps `start <= end`; comparison is
/// lexicographic on `(start, end)`.
#[derive(Clone, Copy, Debug, PartialEq, Eq, Structural)]
pub struct NaiveDateSpan {
    pub start: Date,
    pub end: Date,
}

/// One named era: a display name (possibly empty) and its date interval.
#[derive(Clone, Debug, PartialEq)]
pub struct Span {
    pub gengou: String,
    pub span: NaiveDateSpan,
}

/// The mathematical value of a [`Span`]: its name as a character sequence
/// and its interval.
pub struct SpanView {
    pub gengou: Seq<char>,
    pub span: NaiveDateSpan,
}

impl View for Span {
    type V = SpanView;

    open spec fn view(&self) -> SpanView {
        SpanView { gengou: self.gengou@, span: self.span }
    }
}

/// The era records of one naming tradition over one overarching interval,
/// tagged with the tradition's single-character "initial".
#[derive(Clone, Debug, PartialEq)]
pub struct SpanList {
    pub span: NaiveDateSpan,
    pub initial: char,
    pub spans: Vec<Span>,
}

/// The mathematical value of a [`SpanList`].
pub struct SpanListView {
    pub span: NaiveDateSpan,
    pub initial: char,
    pub spans: Seq<SpanView>,
}

impl View for SpanList {
    type V = SpanListView;

    open spec fn view(&self) -> SpanListView {
        SpanListView { span: self.span, initial: self.initial, spans: spans_view(self.spans@) }
    }
}

/// The views of a sequence of era records.
pub open spec fn spans_view(spans: Seq<Span>) -> Seq<SpanView> {
    spans.map_values(|s: Span| s@)
}

/// The timeline: one entry per historical period boundary, sorted ascending
/// by interval, each holding the period groups of that window keyed (and
/// sorted) by their initials.
pub type SpanListArray = Vec<(NaiveDateSpan, Vec<SpanList>)>;

/// The views of a sequence of period groups.
pub open spec fn groups_view(gs: Seq<SpanList>) -> Seq<SpanListView> {
    gs.map_values(|g: SpanList| g@)
}

/// The mathematical value of a timeline.
pub open spec fn timeline_view(tl: Seq<(NaiveDateSpan, Vec<SpanList>)>) -> Seq<
    (NaiveDateSpan, Seq<SpanListView>),
> {
    tl.map_values(|e: (NaiveDateSpan, Vec<SpanList>)| (e.0, groups_view(e.1@)))
}

/// Every record interval of the group runs forwards.
pub open spec fn group_wf(g: SpanListView) -> bool {
    forall|k: int| 0 <= k < g.spans.len() ==> span_wf(#[trigger] g.spans[k].span)
}

/// The groups of one timeline entry: sorted strictly by initial (so at most
/// one group per initial) and each well-formed.
pub open spec fn groups_wf(gs: Seq<SpanListView>) -> bool {
    (forall|i: int, j: int|
        0 <= i < j < gs.len() ==> (#[trigger] gs[i].initial as u32) < (
        #[trigger] gs[j].initial as u32)) && (forall|i: int|
        0 <= i < gs.len() ==> group_wf(#[trigger] gs[i]))
}

/// The timeline invariant the loader establishes: entries sorted strictly by
/// interval, each entry's groups well-formed.
pub open spec fn timeline_wf(tl: Seq<(NaiveDateSpan, Seq<SpanListView>)>) -> bool {
    (forall|i: int, j: int|
        0 <= i < j < tl.len() ==> span_lt(#[trigger] tl[i].0, #[trigger] tl[j].0)) && (forall|
        i: int,
    |
        0 <= i < tl.len() ==> groups_wf(#[trigger] tl[i].1))
}

/// Strict lexicographic order on `(start, end)`.
pub open spec fn span_lt(a: NaiveDateSpan, b: NaiveDateSpan) -> bool {
    date_lt(a.start, b.start) || (a.start == b.start && date_lt(a.end, b.end))
}

/// A well-formed interval does not run backwards.
pub open spec fn span_wf(s: NaiveDateSpan) -> bool {
    date_le(s.start, s.end)
}

/// Whether the interval contains the date, inclusive on both ends.
pub open spec fn span_contains(s: NaiveDateSpan, d: Date) -> bool {
    date_le(s.start, d) && date_le(d, s.end)
}

impl NaiveDateSpan {
    pub fn new(start: Date, end: Date) -> (r: NaiveDateSpan)
        ensures
            r == (NaiveDateSpan { start, end }),
    {
        NaiveDateSpan { start, end }
    }

    pub fn start(&self) -> (r: &Date)
        ensures
            *r == self.start,
    {
        &self.start
    }

    pub fn end(&self) -> (r: &Date)
        ensures
            *r == self.end,
    {
        &self.end
    }

    pub fn lt(&self, other: &NaiveDateSpan) -> (r: bool)
        ensures
            r == span_lt(*self, *other),
    {
        self.start.lt(&other.start) || (self.start == other.start && self.end.lt(&other.end))
    }
}

impl Span {
    pub fn new(gengou: String, start: Date, end: Date) -> (r: Span)
        ensures
            r@ == (SpanView { gengou: gengou@, span: NaiveDateSpan { start, end } }),
    {
        Span { gengou, span: NaiveDateSpan::new(start, end) }
    }

    pub fn gengou(&self) -> (r: &str)
        ensures
            r@ == self@.gengou,
    {
        self.gengou.as_str()
    }

    pub fn span(&self) -> (r: &NaiveDateSpan)
        ensures
            *r == self@.span,
    {
        &self.span
    }

    /// A copy whose mathematical value equals this record's.
    pub fn duplicate(&self) -> (r: Span)
        ensures
            r@ == self@,
    {
        Span { gengou: self.gengou.clone(), span: self.span }
    }
}

impl SpanList {
    pub fn new(span: NaiveDateSpan, initial: char, spans: Vec<Span>) -> (r: SpanList)
        ensures
            r@ == (SpanListView { span, initial, spans: spans_view(spans@) }),
    {
        SpanList { span, initial, spans }
    }

    pub fn span(&self) -> (r: &NaiveDateSpan)
        ensures
            *r == self@.span,
    {
        &self.span
    }

    pub fn initial(&self) -> (r: &char)
        ensures
            *r == self@.initial,
    {
        &self.initial
    }

    pub fn spans(&self) -> (r: &Vec<Span>)
        ensures
            spans_view(r@) == self@.spans,
    {
        &self.spans
    }
}

/// Why a definition file was rejected.
#[derive(Clone, Copy, Debug, PartialEq, Eq, Structural)]
pub enum ParseError {
    /// A non-blank line did not split into exactly three fields.
    LineFormat,
    /// A date field was neither a literal date nor the sentinel.
    DateFormat,
}

/// The message of each [`ParseError`] variant.
pub open spec fn parse_error_message(e: ParseError) -> Seq<char> {
    match e {
        ParseError::LineFormat => "line format is invalid. the format is 'gengou,%Y-%m-%d,%Y-%m-%d'."@,
        ParseError::DateFormat => "date format is invalid. the format is '%Y-%m-%d' or '****' (current date)"@,
    }
}

impl ParseError {
    pub fn message(&self) -> (r: &'static str)
        ensures
            r@ == parse_error_message(*self),
    {
        match self {
            ParseError::LineFormat => "line format is invalid. the format is 'gengou,%Y-%m-%d,%Y-%m-%d'.",
            ParseError::DateFormat => "date format is invalid. the format is '%Y-%m-%d' or '****' (current date)",
        }
    }
}

/// A definition file's base name is relevant when it starts with the `00`
/// prefix marker and its first underscore is followed by at least one more
/// character (that character is the group's initial).
pub open spec fn target_filestem(s: Seq<char>) -> bool {
    s.len() >= 2 && s[0] == '0' && s[1] == '0' && match crate::text::find_char_in(s, '_', 0) {
        Some(p) => p + 1 < s.len(),
        None => false,
    }
}

/// Whether a base name names a definition file the loader reads.
pub fn is_target_filestem(s: &str) -> (r: bool)
    ensures
        r == target_filestem(s@),
{
    let n = s.unicode_len();
    if n < 2 || s.get_char(0) != '0' || s.get_char(1) != '0' {
        return false;
    }
    match crate::text::find_char(s, '_') {
        Some(p) => p + 1 < n,
        None => false,
    }
}

/// The initial encoded in a base name: the character directly after the
/// first underscore, if there is one.
pub open spec fn initial_of_filestem(s: Seq<char>) -> Option<char> {
    match crate::text::find_char_in(s, '_', 0) {
        Some(p) => if p + 1 < s.len() {
            Some(s[p + 1])
        } else {
            None
        },
        None => None,
    }
}

/// The classification character after the first underscore of a base name.
pub fn get_initial_char_after_underbar(s: &str) -> (r: Option<char>)
    ensures
        r == initial_of_filestem(s@),
{
    let n = s.unicode_len();
    match crate::text::find_char(s, '_') {
        Some(p) => if p + 1 < n {
            Some(s.get_char(p + 1))
        } else {
            None
        },
        None => None,
    }
}

/// The count of consecutive ASCII digits at position `i`.
pub open spec fn digit_run(s: Seq<char>, i: int) -> int
    decreases s.len() - i,
{
    if i < 0 || i >= s.len() || !is_digit_char(s[i]) {
        0
    } else {
        1 + digit_run(s, i + 1)
    }
}

/// The value of the `n` digits at position `i`.
pub open spec fn digits_value(s: Seq<char>, i: int, n: int) -> int
    recommends
        0 <= i,
        i + n <= s.len(),
    decreases n,
{
    if n <= 0 {
        0
    } else {
        digits_value(s, i, n - 1) * 10 + digit_val(s[i + n - 1])
    }
}

/// The `%Y-%m-%d` grammar: one to four year digits, a dash, one or two
/// month digits, a dash, one or two day digits, with nothing left over.
pub open spec fn scan_ymd(s: Seq<char>) -> Option<(int, int, int)> {
    let yr = digit_run(s, 0);
    let yl = if yr > 4 {
        4
    } else {
        yr
    };
    if yl < 1 || yl >= s.len() || s[yl] != '-' {
        None
    } else {
        let mr = digit_run(s, yl + 1);
        let ml = if mr > 2 {
            2
        } else {
            mr
        };
        let p2 = yl + 1 + ml;
        if ml < 1 || p2 >= s.len() || s[p2] != '-' {
            None
        } else {
            let dr = digit_run(s, p2 + 1);
            let dl = if dr > 2 {
                2
            } else {
                dr
            };
            if dl < 1 || p2 + 1 + dl != s.len() {
                None
            } else {
                Some(
                    (
                        digits_value(s, 0, yl),
                        digits_value(s, yl + 1, ml),
                        digits_value(s, p2 + 1, dl),
                    ),
                )
            }
        }
    }
}

/// What a date field means: a calendar-valid literal date, or the four-star
/// sentinel standing for the load-time current date; anything else is a
/// format error.
pub open spec fn parse_datetime_spec(s: Seq<char>, today: Date) -> Result<Date, ParseError> {
    match scan_ymd(s) {
        Some((y, m, d)) => if valid_ymd(y, m, d) {
            Ok(Date { year: y as i32, month: m as u32, day: d as u32 })
        } else {
            Err(ParseError::DateFormat)
        },
        None => if s == seq!['*', '*', '*', '*'] {
            Ok(today)
        } else {
            Err(ParseError::DateFormat)
        },
    }
}

proof fn lemma_digit_run_at(s: Seq<char>, start: int, k: int)
    requires
        0 <= start,
        start + k <= s.len(),
        0 <= k,
        forall|j: int| start <= j < start + k ==> is_digit_char(s[j]),
        start + k == s.len() || !is_digit_char(s[start + k]),
    ensures
        digit_run(s, start) == k,
    decreases k,
{
    if k > 0 {
        lemma_digit_run_at(s, start + 1, k - 1);
    }
}

/// The length of the digit run at `from`.
#[verifier::loop_isolation(false)]
fn digit_run_from(s: &str, from: usize) -> (r: usize)
    requires
        from <= s@.len(),
    ensures
        r == digit_run(s@, from as int),
        from + r <= s@.len(),
{
    let n = s.unicode_len();
    let mut i = from;
    while i < n && is_digit(s.get_char(i))
        invariant
            from <= i <= n,
            forall|j: int| from <= j < i ==> is_digit_char(s@[j]),
        decreases n - i,
    {
        i += 1;
    }
    proof {
        lemma_digit_run_at(s@, from as int, i - from);
    }
    i - from
}

/// The value of the `len` digits at `from`; at most nine digits, so the
/// value fits.
#[verifier::loop_isolation(false)]
fn read_digits(s: &str, from: usize, len: usize) -> (r: u32)
    requires
        from + len <= s@.len(),
        len <= 9,
        forall|j: int| from <= j < from + len ==> is_digit_char(s@[j]),
    ensures
        r == digits_value(s@, from as int, len as int),
        r < 1000000000,
        r < pow10_spec(len as nat),
{
    let n = s.unicode_len();
    let mut v: u32 = 0;
    let mut k: usize = 0;
    while k < len
        invariant
            0 <= k <= len,
            v == digits_value(s@, from as int, k as int),
            v < pow10_spec(k as nat),
        decreases len - k,
    {
        proof {
            lemma_pow10_values();
            lemma_pow10_mono(k as nat, 8);
            assert(pow10_spec((k + 1) as nat) == 10 * pow10_spec(k as nat));
        }
        v = v * 10 + digit_of(s.get_char(from + k));
        k += 1;
    }
    proof {
        lemma_pow10_values();
        lemma_pow10_mono(len as nat, 9);
    }
    v
}

/// Ten to the `k`-th power.
pub open spec fn pow10_spec(k: nat) -> int
    decreases k,
{
    if k == 0 {
        1
    } else {
        10 * pow10_spec((k - 1) as nat)
    }
}

proof fn lemma_pow10_values()
    ensures
        pow10_spec(0) == 1,
        pow10_spec(1) == 10,
        pow10_spec(2) == 100,
        pow10_spec(3) == 1000,
        pow10_spec(4) == 10000,
        pow10_spec(5) == 100000,
        pow10_spec(6) == 1000000,
        pow10_spec(7) == 10000000,
        pow10_spec(8) == 100000000,
        pow10_spec(9) == 1000000000,
{
    assert(pow10_spec(0) == 1);
    assert(pow10_spec(1) == 10);
    assert(pow10_spec(2) == 100);
    assert(pow10_spec(3) == 1000);
    assert(pow10_spec(4) == 10000);
    assert(pow10_spec(5) == 100000);
    assert(pow10_spec(6) == 1000000);
    assert(pow10_spec(7) == 10000000);
    assert(pow10_spec(8) == 100000000);
    assert(pow10_spec(9) == 1000000000);
}

proof fn lemma_digit_run_digits(s: Seq<char>, start: int)
    requires
        0 <= start <= s.len(),
    ensures
        start + digit_run(s, start) <= s.len(),
        forall|j: int| start <= j < start + digit_run(s, start) ==> is_digit_char(s[j]),
    decreases s.len() - start,
{
    if start < s.len() && is_digit_char(s[start]) {
        lemma_digit_run_digits(s, start + 1);
    }
}

proof fn lemma_pow10_mono(a: nat, b: nat)
    requires
        a <= b,
    ensures
        pow10_spec(a) <= pow10_spec(b),
        pow10_spec(a) >= 1,
    decreases b,
{
    if b > 0 {
        if a == b {
            lemma_pow10_mono((a - 1) as nat, (b - 1) as nat);
        } else {
            lemma_pow10_mono(a, (b - 1) as nat);
        }
    }
}

/// Reads one date field: the literal `%Y-%m-%d` format, checked against the
/// calendar, or the `****` sentinel resolving to `today`.
pub fn parse_datetime(s: &str, today: Date) -> (r: Result<Date, ParseError>)
    ensures
        match r {
            Ok(d) => parse_datetime_spec(s@, today) == Ok::<Date, ParseError>(d)
                && date_from_load(d, today),
            Err(e) => parse_datetime_spec(s@, today) == Err::<Date, ParseError>(e),
        },
{
    let n = s.unicode_len();
    let scanned: Option<(u32, u32, u32)> = {
        let yr = digit_run_from(s, 0);
        let yl = if yr > 4 {
            4
        } else {
            yr
        };
        if yl < 1 || yl >= n || s.get_char(yl) != '-' {
            None
        } else {
            let mr = digit_run_from(s, yl + 1);
            let ml = if mr > 2 {
                2
            } else {
                mr
            };
            let p2 = yl + 1 + ml;
            if ml < 1 || p2 >= n || s.get_char(p2) != '-' {
                None
            } else {
                let dr = digit_run_from(s, p2 + 1);
                let dl = if dr > 2 {
                    2
                } else {
                    dr
                };
                if dl < 1 || p2 + 1 + dl != n {
                    None
                } else {
                    proof {
                        lemma_digit_run_digits(s@, 0);
                        lemma_digit_run_digits(s@, yl + 1);
                        lemma_digit_run_digits(s@, p2 + 1);
                        lemma_pow10_values();
                    }
                    let y = read_digits(s, 0, yl);
                    let m = read_digits(s, yl + 1, ml);
                    let d = read_digits(s, p2 + 1, dl);
                    proof {
                        assert(scan_ymd(s@) == Some((y as int, m as int, d as int)));
                    }
                    Some((y, m, d))
                }
            }
        }
    };
    match scanned {
        Some((y, m, d)) => {
            proof {
                assert(scan_ymd(s@) == Some((y as int, m as int, d as int)));
            }
            if ymd_is_valid(y as i32, m, d) {
                Ok(Date::new(y as i32, m, d))
            } else {
                Err(ParseError::DateFormat)
            }
        },
        None => {
            proof {
                assert(scan_ymd(s@) is None);
            }
            if str_eq(s, "****") {
                proof {
                    reveal_strlit("****");
                    assert("****"@ =~= seq!['*', '*', '*', '*']);
                }
                Ok(today)
            } else {
                proof {
                    reveal_strlit("****");
                    assert("****"@ =~= seq!['*', '*', '*', '*']);
                }
                Err(ParseError::DateFormat)
            }
        },
    }
}

/// A date the loader can produce: a parsed literal date (whose year has at
/// most four digits) or the load-time current date.
pub open spec fn date_from_load(d: Date, today: Date) -> bool {
    (0 <= d.year <= 9999) || d == today
}

/// Every record endpoint of the group is a loader-produced date.
pub open spec fn group_dates_ok(g: SpanListView, today: Date) -> bool {
    forall|k: int|
        0 <= k < g.spans.len() ==> date_from_load((#[trigger] g.spans[k]).span.start, today)
            && date_from_load(g.spans[k].span.end, today)
}

/// Every record endpoint anywhere in the timeline is a loader-produced date.
pub open spec fn timeline_dates_ok(
    tl: Seq<(NaiveDateSpan, Seq<SpanListView>)>,
    today: Date,
) -> bool {
    forall|i: int, j: int|
        0 <= i < tl.len() && 0 <= j < tl[i].1.len() ==> group_dates_ok(
            #[trigger] tl[i].1[j],
            today,
        )
}

/// A definition line with its comment suffix removed.
pub open spec fn strip_comment(s: Seq<char>) -> Seq<char> {
    match find_two_slashes(s, 0) {
        Some(p) => s.subrange(0, p),
        None => s,
    }
}

/// What one definition line means: nothing for a blank or comment-only
/// line; otherwise exactly three comma-separated fields — era name, start
/// date, end date — each trimmed, with reversed endpoints swapped back.
pub open spec fn parse_line_spec(s: Seq<char>, today: Date) -> Result<
    Option<SpanView>,
    ParseError,
> {
    let body = trim_spec(strip_comment(s));
    if body.len() == 0 {
        Ok(None)
    } else {
        let fs = split_fields(body);
        if fs.len() != 3 {
            Err(ParseError::LineFormat)
        } else {
            match parse_datetime_spec(trim_spec(fs[1]), today) {
                Err(e) => Err(e),
                Ok(start) => match parse_datetime_spec(trim_spec(fs[2]), today) {
                    Err(e) => Err(e),
                    Ok(end) => Ok(
                        Some(
                            SpanView {
                                gengou: trim_spec(fs[0]),
                                span: if date_lt(end, start) {
                                    NaiveDateSpan { start: end, end: start }
                                } else {
                                    NaiveDateSpan { start, end }
                                },
                            },
                        ),
                    ),
                },
            }
        }
    }
}

/// The mathematical value of a line-parse result.
pub open spec fn line_result_view(r: Result<Option<Span>, ParseError>) -> Result<
    Option<SpanView>,
    ParseError,
> {
    match r {
        Ok(None) => Ok(None),
        Ok(Some(sp)) => Ok(Some(sp@)),
        Err(e) => Err(e),
    }
}

/// Parses one definition line: comment suffix stripped, whitespace trimmed,
/// blank lines skipped, `name,start,end` split and read, endpoints swapped
/// when reversed.
pub fn parse_line(s: &str, today: Date) -> (r: Result<Option<Span>, ParseError>)
    ensures
        line_result_view(r) == parse_line_spec(s@, today),
        match r {
            Ok(Some(sp)) => date_from_load(sp@.span.start, today) && date_from_load(
                sp@.span.end,
                today,
            ),
            _ => true,
        },
{
    let body_full: &str = match find_comment(s) {
        Some(point) => s.substring_char(0, point),
        None => s,
    };
    let body = trim_str(body_full);
    proof {
        assert(body@ == trim_spec(strip_comment(s@)));
    }
    if body.unicode_len() == 0 {
        return Ok(None);
    }
    let fields = split_on_char(body, ',');
    proof {
        assert(crate::text::strings_view(fields@) == split_fields(body@));
    }
    if fields.len() != 3 {
        return Err(ParseError::LineFormat);
    }
    proof {
        assert(fields@[1]@ == split_fields(body@)[1]);
        assert(fields@[2]@ == split_fields(body@)[2]);
        assert(fields@[0]@ == split_fields(body@)[0]);
    }
    let start_txt = trim_str(fields[1].as_str());
    let end_txt = trim_str(fields[2].as_str());
    let start = match parse_datetime(start_txt, today) {
        Ok(d) => d,
        Err(e) => {
            return Err(e);
        },
    };
    let end = match parse_datetime(end_txt, today) {
        Ok(d) => d,
        Err(e) => {
            return Err(e);
        },
    };
    let gengou = trim_str(fields[0].as_str()).to_owned();
    if end.lt(&start) {
        Ok(Some(Span::new(gengou, end, start)))
    } else {
        Ok(Some(Span::new(gengou, start, end)))
    }
}

/// Inserts `value` into `list` directly after the longest prefix of
/// elements not strictly greater than it, scanning from the right and
/// stopping at the first element `e` with `method(&value, &e)` false: with
/// `method` a strict order on sorted input this is a stable insertion-sort
/// step — a new element lands after existing equal ones, keeping their
/// arrival order.
pub fn insertion_sort<T, F: Fn(&T, &T) -> bool>(list: &mut Vec<T>, value: T, method: F)
    requires
        forall|x: &T, y: &T| #[trigger] call_requires(method, (x, y)),
    ensures
        exists|i: int|
            0 <= i <= old(list)@.len() && final(list)@ == old(list)@.insert(i, value) && (i > 0
                ==> call_ensures(method, (&value, &old(list)@[i - 1]), false)) && (forall|j: int|
                i <= j < old(list)@.len() ==> call_ensures(
                    method,
                    (&value, &old(list)@[j]),
                    true,
                )),
{
    let mut target_index = list.len();
    let mut scanning = true;
    while scanning && target_index > 0
        invariant
            0 <= target_index <= list@.len(),
            list@ == old(list)@,
            forall|x: &T, y: &T| #[trigger] call_requires(method, (x, y)),
            forall|j: int|
                target_index <= j < list@.len() ==> call_ensures(
                    method,
                    (&value, &list@[j]),
                    true,
                ),
            !scanning ==> target_index > 0 && call_ensures(
                method,
                (&value, &list@[target_index - 1]),
                false,
            ),
        decreases target_index + (if scanning {
            1int
        } else {
            0int
        }),
    {
        if method(&value, &list[target_index - 1]) {
            target_index -= 1;
        } else {
            scanning = false;
        }
    }
    let ghost i = target_index as int;
    list.insert(target_index, value);
    proof {
        assert(0 <= i <= old(list)@.len() && final(list)@ == old(list)@.insert(i, value) && (i
            > 0 ==> call_ensures(method, (&value, &old(list)@[i - 1]), false)) && (forall|j: int|
            i <= j < old(list)@.len() ==> call_ensures(method, (&value, &old(list)@[j]), true)));
    }
}

/// Where a stable insertion-sort step places a record: directly after the
/// longest prefix of records not strictly greater than it, so records with
/// equal intervals keep the order in which they arrived.
pub open spec fn insert_span(list: Seq<SpanView>, v: SpanView) -> Seq<SpanView>
    decreases list.len(),
{
    if list.len() == 0 {
        seq![v]
    } else if span_lt(v.span, list.last().span) {
        insert_span(list.drop_last(), v).push(list.last())
    } else {
        list.push(v)
    }
}

proof fn lemma_insert_span_at(list: Seq<SpanView>, v: SpanView, i: int)
    requires
        0 <= i <= list.len(),
        i > 0 ==> !span_lt(v.span, list[i - 1].span),
        forall|j: int| i <= j < list.len() ==> span_lt(v.span, #[trigger] list[j].span),
    ensures
        insert_span(list, v) == list.insert(i, v),
    decreases list.len(),
{
    if list.len() == 0 {
        assert(insert_span(list, v) =~= list.insert(0, v));
    } else if span_lt(v.span, list.last().span) {
        assert(i < list.len());
        lemma_insert_span_at(list.drop_last(), v, i);
        assert(insert_span(list.drop_last(), v).push(list.last()) =~= list.insert(i, v));
    } else {
        assert(i == list.len());
        assert(list.push(v) =~= list.insert(i, v));
    }
}

/// The records accumulated once the lines from index `i` on are parsed into
/// `acc`; the first malformed line aborts the whole file.
pub open spec fn parse_lines_from(
    lines: Seq<Seq<char>>,
    today: Date,
    i: int,
    acc: Seq<SpanView>,
) -> Result<Seq<SpanView>, ParseError>
    decreases lines.len() - i,
{
    if i < 0 || i >= lines.len() {
        Ok(acc)
    } else {
        match parse_line_spec(lines[i], today) {
            Err(e) => Err(e),
            Ok(None) => parse_lines_from(lines, today, i + 1, acc),
            Ok(Some(sp)) => parse_lines_from(lines, today, i + 1, insert_span(acc, sp)),
        }
    }
}

/// What a file body means: its records in ascending interval order under
/// the overarching interval `(first.start, last.end)`; a body with no
/// records contributes nothing.
pub open spec fn parse_contents_spec(contents: Seq<char>, today: Date) -> Result<
    Option<(NaiveDateSpan, Seq<SpanView>)>,
    ParseError,
> {
    match parse_lines_from(crate::text::split_lines(contents), today, 0, seq![]) {
        Err(e) => Err(e),
        Ok(spans) => if spans.len() == 0 {
            Ok(None)
        } else {
            Ok(
                Some(
                    (
                        NaiveDateSpan {
                            start: spans.first().span.start,
                            end: spans.last().span.end,
                        },
                        spans,
                    ),
                ),
            )
        },
    }
}

/// The mathematical value of a file-parse result.
pub open spec fn contents_result_view(
    r: Result<Option<(NaiveDateSpan, Vec<Span>)>, ParseError>,
) -> Result<Option<(NaiveDateSpan, Seq<SpanView>)>, ParseError> {
    match r {
        Ok(None) => Ok(None),
        Ok(Some((sp, spans))) => Ok(Some((sp, spans_view(spans@)))),
        Err(e) => Err(e),
    }
}

/// Ascending interval order, duplicates allowed.
pub open spec fn spans_sorted(spans: Seq<SpanView>) -> bool {
    forall|a: int, b: int|
        0 <= a < b < spans.len() ==> !span_lt(#[trigger] spans[b].span, #[trigger] spans[a].span)
}

/// Parses a whole definition file body line by line, keeping the records in
/// ascending interval order; the overarching interval is the bound from the
/// first record's start to the last record's end.
#[verifier::loop_isolation(false)]
pub fn parse_contents(contents: &str, today: Date) -> (r: Result<
    Option<(NaiveDateSpan, Vec<Span>)>,
    ParseError,
>)
    ensures
        contents_result_view(r) == parse_contents_spec(contents@, today),
        match r {
            Ok(Some((sp, spans))) => spans@.len() > 0 && spans_sorted(spans_view(spans@)) && (
            forall|k: int| 0 <= k < spans@.len() ==> span_wf(#[trigger] spans@[k]@.span)) && (
            forall|k: int|
                0 <= k < spans@.len() ==> date_from_load((#[trigger] spans@[k]@).span.start, today)
                    && date_from_load(spans@[k]@.span.end, today)),
            _ => true,
        },
{
    let lines = lines_of(contents);
    let ghost lv = lines@.map_values(|l: String| l@);
    let mut spans: Vec<Span> = Vec::new();
    proof {
        assert(spans_view(spans@) =~= Seq::<SpanView>::empty());
        assert(Seq::<SpanView>::empty() =~= seq![]);
    }
    let mut i: usize = 0;
    while i < lines.len()
        invariant
            0 <= i <= lines@.len(),
            parse_lines_from(lv, today, 0, seq![]) == parse_lines_from(
                lv,
                today,
                i as int,
                spans_view(spans@),
            ),
            spans_sorted(spans_view(spans@)),
            forall|k: int| 0 <= k < spans@.len() ==> span_wf(#[trigger] spans@[k]@.span),
            forall|k: int|
                0 <= k < spans@.len() ==> date_from_load((#[trigger] spans@[k]@).span.start, today)
                    && date_from_load(spans@[k]@.span.end, today),
        decreases lines@.len() - i,
    {
        proof {
            assert(lv[i as int] == lines@[i as int]@);
        }
        match parse_line(lines[i].as_str(), today) {
            Err(e) => {
                return Err(e);
            },
            Ok(None) => {},
            Ok(Some(line_span)) => {
                let ghost old_list = spans@;
                let ghost old_views = spans_view(spans@);
                let ghost vspan = line_span;
                let ghost v = line_span@;
                proof {
                    assert(span_wf(v.span));
                }
                let method = |target: &Span, value: &Span| -> (r: bool)
                    ensures
                        r == span_lt(target@.span, value@.span),
                    { target.span().lt(value.span()) };
                insertion_sort(&mut spans, line_span, method);
                proof {
                    let pos = choose|p: int|
                        0 <= p <= old_list.len() && spans@ == old_list.insert(p, vspan) && (p > 0
                            ==> call_ensures(method, (&vspan, &old_list[p - 1]), false)) && (forall|
                            j: int,
                        |
                            p <= j < old_list.len() ==> call_ensures(
                                method,
                                (&vspan, &old_list[j]),
                                true,
                            ));
                    assert(spans@ == old_list.insert(pos, vspan));
                    assert(pos > 0 ==> !span_lt(v.span, old_views[pos - 1].span));
                    assert forall|j: int| pos <= j < old_views.len() implies span_lt(
                        v.span,
                        #[trigger] old_views[j].span,
                    ) by {
                        assert(call_ensures(method, (&vspan, &old_list[j]), true));
                    }
                    assert(spans_view(spans@) =~= old_views.insert(pos, v));
                    lemma_insert_span_at(old_views, v, pos);
                    let nv = spans_view(spans@);
                    assert forall|a: int, b: int| 0 <= a < b < nv.len() implies !span_lt(
                        #[trigger] nv[b].span,
                        #[trigger] nv[a].span,
                    ) by {
                        if b < pos {
                        } else if a < pos && b == pos {
                            assert(!span_lt(v.span, old_views[pos - 1].span));
                            if a < pos - 1 {
                                assert(!span_lt(old_views[pos - 1].span, old_views[a].span));
                            }
                        } else if a < pos && b > pos {
                            assert(nv[b] == old_views[b - 1]);
                            assert(!span_lt(old_views[b - 1].span, old_views[a].span));
                        } else if a == pos {
                            assert(nv[b] == old_views[b - 1]);
                            assert(span_lt(v.span, old_views[b - 1].span));
                        } else {
                            assert(nv[a] == old_views[a - 1] && nv[b] == old_views[b - 1]);
                        }
                    }
                    assert forall|k: int| 0 <= k < spans@.len() implies span_wf(
                        #[trigger] spans@[k]@.span,
                    ) by {
                        assert(spans@[k]@ == nv[k]);
                        if k < pos {
                            assert(nv[k] == old_views[k]);
                        } else if k > pos {
                            assert(nv[k] == old_views[k - 1]);
                        }
                    }
                    assert forall|k: int| 0 <= k < spans@.len() implies date_from_load(
                        (#[trigger] spans@[k]@).span.start,
                        today,
                    ) && date_from_load(spans@[k]@.span.end, today) by {
                        assert(spans@[k]@ == nv[k]);
                        if k < pos {
                            assert(nv[k] == old_views[k]);
                            assert(old_views[k] == old_list[k]@);
                        } else if k > pos {
                            assert(nv[k] == old_views[k - 1]);
                            assert(old_views[k - 1] == old_list[k - 1]@);
                        }
                    }
                }
            },
        }
        i += 1;
    }
    if spans.len() == 0 {
        Ok(None)
    } else {
        let start = *spans[0].span().start();
        let end = *spans[spans.len() - 1].span().end();
        let bound = NaiveDateSpan::new(start, end);
        proof {
            assert(spans_view(spans@).first() == spans@[0]@);
            assert(spans_view(spans@).last() == spans@[spans@.len() - 1]@);
        }
        Ok(Some((bound, spans)))
    }
}

/// What one definition file contributes: nothing when its base name is not
/// relevant or its body holds no records; otherwise one period group under
/// the initial encoded in the base name.
pub open spec fn parse_file_spec(stem: Seq<char>, contents: Seq<char>, today: Date) -> Result<
    Option<SpanListView>,
    ParseError,
> {
    if !target_filestem(stem) {
        Ok(None)
    } else {
        match initial_of_filestem(stem) {
            None => Ok(None),
            Some(initial) => match parse_contents_spec(contents, today) {
                Err(e) => Err(e),
                Ok(None) => Ok(None),
                Ok(Some((sp, spans))) => Ok(Some(SpanListView { span: sp, initial, spans })),
            },
        }
    }
}

/// The mathematical value of a file result.
pub open spec fn file_result_view(r: Result<Option<SpanList>, ParseError>) -> Result<
    Option<SpanListView>,
    ParseError,
> {
    match r {
        Ok(None) => Ok(None),
        Ok(Some(g)) => Ok(Some(g@)),
        Err(e) => Err(e),
    }
}

/// Parses one definition file, given its base name and text body: the base
/// name decides relevance and the initial, the body the records.
pub fn parse_span_list_file(stem: &str, contents: &str, today: Date) -> (r: Result<
    Option<SpanList>,
    ParseError,
>)
    ensures
        file_result_view(r) == parse_file_spec(stem@, contents@, today),
        match r {
            Ok(Some(g)) => group_wf(g@) && group_dates_ok(g@, today),
            _ => true,
        },
{
    if !is_target_filestem(stem) {
        return Ok(None);
    }
    let initial = match get_initial_char_after_underbar(stem) {
        Some(i) => i,
        None => {
            return Ok(None);
        },
    };
    match parse_contents(contents, today) {
        Err(e) => Err(e),
        Ok(None) => Ok(None),
        Ok(Some((sp, spans))) => Ok(Some(SpanList::new(sp, initial, spans))),
    }
}

/// One definition file as the loader receives it: the file's base name and
/// its text body.
pub struct SourceFile {
    pub stem: String,
    pub contents: String,
}

/// The mathematical value of a list of definition files.
pub open spec fn files_view(fs: Seq<SourceFile>) -> Seq<(Seq<char>, Seq<char>)> {
    fs.map_values(|f: SourceFile| (f.stem@, f.contents@))
}

/// Where a period group lands among one entry's groups: before the first
/// initial not below its own, replacing a group with the same initial.
pub open spec fn groups_insert(gs: Seq<SpanListView>, g: SpanListView) -> Seq<SpanListView>
    decreases gs.len(),
{
    if gs.len() == 0 {
        seq![g]
    } else if (gs[0].initial as u32) < (g.initial as u32) {
        seq![gs[0]] + groups_insert(gs.drop_first(), g)
    } else if gs[0].initial == g.initial {
        seq![g] + gs.drop_first()
    } else {
        seq![g] + gs
    }
}

/// Where a period group lands in the timeline: merged into the entry with
/// exactly its interval if one exists, else as a new entry at the sorted
/// position.
pub open spec fn timeline_insert(
    tl: Seq<(NaiveDateSpan, Seq<SpanListView>)>,
    g: SpanListView,
) -> Seq<(NaiveDateSpan, Seq<SpanListView>)>
    decreases tl.len(),
{
    if tl.len() == 0 {
        seq![(g.span, seq![g])]
    } else if span_lt(tl[0].0, g.span) {
        seq![tl[0]] + timeline_insert(tl.drop_first(), g)
    } else if tl[0].0 == g.span {
        seq![(tl[0].0, groups_insert(tl[0].1, g))] + tl.drop_first()
    } else {
        seq![(g.span, seq![g])] + tl
    }
}

/// The timeline accumulated once the files from index `i` on are loaded
/// into `acc`; the first malformed file aborts the whole load.
pub open spec fn load_spans_from(
    files: Seq<(Seq<char>, Seq<char>)>,
    today: Date,
    i: int,
    acc: Seq<(NaiveDateSpan, Seq<SpanListView>)>,
) -> Result<Seq<(NaiveDateSpan, Seq<SpanListView>)>, ParseError>
    decreases files.len() - i,
{
    if i < 0 || i >= files.len() {
        Ok(acc)
    } else {
        match parse_file_spec(files[i].0, files[i].1, today) {
            Err(e) => Err(e),
            Ok(None) => load_spans_from(files, today, i + 1, acc),
            Ok(Some(g)) => load_spans_from(files, today, i + 1, timeline_insert(acc, g)),
        }
    }
}

/// What loading a list of definition files yields: every relevant file's
/// group merged into the sorted timeline, in file order.
pub open spec fn load_spans_spec(files: Seq<(Seq<char>, Seq<char>)>, today: Date) -> Result<
    Seq<(NaiveDateSpan, Seq<SpanListView>)>,
    ParseError,
> {
    load_spans_from(files, today, 0, seq![])
}

proof fn lemma_groups_insert_at(gs: Seq<SpanListView>, g: SpanListView, p: int)
    requires
        0 <= p <= gs.len(),
        forall|j: int| 0 <= j < p ==> (#[trigger] gs[j].initial as u32) < (g.initial as u32),
        p < gs.len() ==> !((gs[p].initial as u32) < (g.initial as u32)),
    ensures
        p < gs.len() && gs[p].initial == g.initial ==> groups_insert(gs, g) == gs.update(p, g),
        !(p < gs.len() && gs[p].initial == g.initial) ==> groups_insert(gs, g) == gs.insert(
            p,
            g,
        ),
    decreases gs.len(),
{
    if gs.len() == 0 {
        assert(groups_insert(gs, g) =~= gs.insert(0, g));
    } else if (gs[0].initial as u32) < (g.initial as u32) {
        assert(p > 0);
        lemma_groups_insert_at(gs.drop_first(), g, p - 1);
        if p < gs.len() && gs[p].initial == g.initial {
            assert(seq![gs[0]] + gs.drop_first().update(p - 1, g) =~= gs.update(p, g));
        } else {
            assert(seq![gs[0]] + gs.drop_first().insert(p - 1, g) =~= gs.insert(p, g));
        }
    } else if gs[0].initial == g.initial {
        assert(p == 0);
        assert(seq![g] + gs.drop_first() =~= gs.update(0, g));
    } else {
        assert(p == 0);
        assert(seq![g] + gs =~= gs.insert(0, g));
    }
}

proof fn lemma_timeline_insert_at(tl: Seq<(NaiveDateSpan, Seq<SpanListView>)>, g: SpanListView, p: int)
    requires
        0 <= p <= tl.len(),
        forall|j: int| 0 <= j < p ==> span_lt(#[trigger] tl[j].0, g.span),
        p < tl.len() ==> !span_lt(tl[p].0, g.span),
    ensures
        p < tl.len() && tl[p].0 == g.span ==> timeline_insert(tl, g) == tl.update(
            p,
            (tl[p].0, groups_insert(tl[p].1, g)),
        ),
        !(p < tl.len() && tl[p].0 == g.span) ==> timeline_insert(tl, g) == tl.insert(
            p,
            (g.span, seq![g]),
        ),
    decreases tl.len(),
{
    if tl.len() == 0 {
        assert(timeline_insert(tl, g) =~= tl.insert(0, (g.span, seq![g])));
    } else if span_lt(tl[0].0, g.span) {
        assert(p > 0);
        lemma_timeline_insert_at(tl.drop_first(), g, p - 1);
        if p < tl.len() && tl[p].0 == g.span {
            assert(seq![tl[0]] + tl.drop_first().update(p - 1, (tl[p].0, groups_insert(tl[p].1, g)))
                =~= tl.update(p, (tl[p].0, groups_insert(tl[p].1, g))));
        } else {
            assert(seq![tl[0]] + tl.drop_first().insert(p - 1, (g.span, seq![g])) =~= tl.insert(
                p,
                (g.span, seq![g]),
            ));
        }
    } else if tl[0].0 == g.span {
        assert(p == 0);
        assert(seq![(tl[0].0, groups_insert(tl[0].1, g))] + tl.drop_first() =~= tl.update(
            0,
            (tl[0].0, groups_insert(tl[0].1, g)),
        ));
    } else {
        assert(p == 0);
        assert(seq![(g.span, seq![g])] + tl =~= tl.insert(0, (g.span, seq![g])));
    }
}

/// Builds the timeline from a list of definition files: each relevant file
/// contributes one period group, merged into the entry with exactly its
/// interval (overwriting a group with the same initial) or opening a new
/// entry at the sorted position.
#[verifier::loop_isolation(false)]
#[verifier::rlimit(80)]
pub fn load_spans(files: &Vec<SourceFile>, today: Date) -> (r: Result<SpanListArray, ParseError>)
    ensures
        match r {
            Ok(tl) => load_spans_spec(files_view(files@), today) == Ok::<
                Seq<(NaiveDateSpan, Seq<SpanListView>)>,
                ParseError,
            >(timeline_view(tl@)) && timeline_wf(timeline_view(tl@)) && timeline_dates_ok(
                timeline_view(tl@),
                today,
            ),
            Err(e) => load_spans_spec(files_view(files@), today) == Err::<
                Seq<(NaiveDateSpan, Seq<SpanListView>)>,
                ParseError,
            >(e),
        },
{
    let ghost fv = files_view(files@);
    let mut arr: SpanListArray = Vec::new();
    proof {
        assert(timeline_view(arr@) =~= Seq::<(NaiveDateSpan, Seq<SpanListView>)>::empty());
        assert(Seq::<(NaiveDateSpan, Seq<SpanListView>)>::empty() =~= seq![]);
    }
    let mut i: usize = 0;
    while i < files.len()
        invariant
            0 <= i <= files@.len(),
            load_spans_from(fv, today, 0, seq![]) == load_spans_from(
                fv,
                today,
                i as int,
                timeline_view(arr@),
            ),
            timeline_wf(timeline_view(arr@)),
            timeline_dates_ok(timeline_view(arr@), today),
        decreases files@.len() - i,
    {
        proof {
            assert(fv[i as int] == (files@[i as int].stem@, files@[i as int].contents@));
        }
        match parse_span_list_file(files[i].stem.as_str(), files[i].contents.as_str(), today) {
            Err(e) => {
                return Err(e);
            },
            Ok(None) => {},
            Ok(Some(span_list)) => {
                let ghost g = span_list@;
                let ghost old_tl = timeline_view(arr@);
                let g_span = *span_list.span();
                let g_initial = *span_list.initial();
                let n_arr = arr.len();
                let mut pos: usize = 0;
                while pos < n_arr && arr[pos].0.lt(&g_span)
                    invariant
                        0 <= pos <= n_arr == arr@.len(),
                        forall|j: int| 0 <= j < pos ==> span_lt(#[trigger] arr@[j].0, g.span),
                    decreases n_arr - pos,
                {
                    pos += 1;
                }
                proof {
                    assert forall|j: int| 0 <= j < pos implies span_lt(
                        #[trigger] old_tl[j].0,
                        g.span,
                    ) by {
                        assert(old_tl[j].0 == arr@[j].0);
                    }
                    assert(pos < arr@.len() ==> old_tl[pos as int].0 == arr@[pos as int].0);
                }
                if pos < arr.len() && arr[pos].0 == g_span {
                    let mut entry = arr.remove(pos);
                    let ghost old_groups_vec = entry.1@;
                    let ghost old_groups = groups_view(entry.1@);
                    proof {
                        assert(old_groups == old_tl[pos as int].1);
                        assert(groups_wf(old_groups));
                    }
                    let m = entry.1.len();
                    let mut gpos: usize = 0;
                    while gpos < m && (*entry.1[gpos].initial() as u32) < (g_initial as u32)
                        invariant
                            0 <= gpos <= m == entry.1@.len(),
                            entry.1@ == old_groups_vec,
                            forall|j: int|
                                0 <= j < gpos ==> (#[trigger] old_groups[j].initial as u32) < (
                                g.initial as u32),
                        decreases m - gpos,
                    {
                        proof {
                            assert(old_groups[gpos as int] == entry.1@[gpos as int]@);
                        }
                        gpos += 1;
                    }
                    proof {
                        assert(gpos < m ==> old_groups[gpos as int] == entry.1@[gpos as int]@);
                        lemma_groups_insert_at(old_groups, g, gpos as int);
                    }
                    let replacing = gpos < entry.1.len() && *entry.1[gpos].initial() == g_initial;
                    if replacing {
                        entry.1.remove(gpos);
                        entry.1.insert(gpos, span_list);
                        proof {
                            assert(groups_view(entry.1@) =~= old_groups.update(gpos as int, g));
                        }
                    } else {
                        entry.1.insert(gpos, span_list);
                        proof {
                            assert(groups_view(entry.1@) =~= old_groups.insert(gpos as int, g));
                        }
                    }
                    let ghost new_groups = groups_view(entry.1@);
                    proof {
                        assert forall|a: int, b: int|
                            0 <= a < b < new_groups.len() implies (
                        #[trigger] new_groups[a].initial as u32) < (
                        #[trigger] new_groups[b].initial as u32) by {
                            if replacing {
                            } else {
                                if a < gpos && b == gpos {
                                } else if a == gpos && b > gpos {
                                    assert(new_groups[b] == old_groups[b - 1]);
                                } else if a < gpos && b > gpos {
                                    assert(new_groups[b] == old_groups[b - 1]);
                                } else if a > gpos {
                                    assert(new_groups[a] == old_groups[a - 1]
                                        && new_groups[b] == old_groups[b - 1]);
                                }
                            }
                        }
                        assert forall|k: int| 0 <= k < new_groups.len() implies group_wf(
                            #[trigger] new_groups[k],
                        ) by {
                            if k != gpos {
                                if k > gpos && !replacing {
                                    assert(new_groups[k] == old_groups[k - 1]);
                                }
                            }
                        }
                        assert(groups_wf(new_groups));
                        assert forall|k: int| 0 <= k < new_groups.len() implies group_dates_ok(
                            #[trigger] new_groups[k],
                            today,
                        ) by {
                            if k != gpos {
                                if k > gpos && !replacing {
                                    assert(new_groups[k] == old_groups[k - 1]);
                                    assert(group_dates_ok(old_tl[pos as int].1[k - 1], today));
                                } else {
                                    assert(new_groups[k] == old_groups[k]);
                                    assert(group_dates_ok(old_tl[pos as int].1[k], today));
                                }
                            }
                        }
                    }
                    arr.insert(pos, entry);
                    proof {
                        assert(timeline_view(arr@) =~= old_tl.update(
                            pos as int,
                            (old_tl[pos as int].0, new_groups),
                        ));
                        lemma_timeline_insert_at(old_tl, g, pos as int);
                        assert(timeline_view(arr@) == timeline_insert(old_tl, g));
                        assert(timeline_wf(timeline_view(arr@)));
                        let new_tl = timeline_view(arr@);
                        assert forall|ii: int, jj: int|
                            0 <= ii < new_tl.len() && 0 <= jj < new_tl[ii].1.len() implies group_dates_ok(
                            #[trigger] new_tl[ii].1[jj],
                            today,
                        ) by {
                            if ii == pos {
                                assert(new_tl[ii].1 == new_groups);
                            } else {
                                assert(new_tl[ii] == old_tl[ii]);
                                assert(group_dates_ok(old_tl[ii].1[jj], today));
                            }
                        }
                        assert(timeline_dates_ok(new_tl, today));
                    }
                } else {
                    let group_vec: Vec<SpanList> = vec![span_list];
                    proof {
                        assert(groups_view(group_vec@) =~= seq![g]);
                    }
                    arr.insert(pos, (g_span, group_vec));
                    proof {
                        assert(timeline_view(arr@) =~= old_tl.insert(
                            pos as int,
                            (g.span, seq![g]),
                        ));
                        lemma_timeline_insert_at(old_tl, g, pos as int);
                        assert(timeline_view(arr@) == timeline_insert(old_tl, g));
                        let new_tl = timeline_view(arr@);
                        assert forall|a: int, b: int| 0 <= a < b < new_tl.len() implies span_lt(
                            #[trigger] new_tl[a].0,
                            #[trigger] new_tl[b].0,
                        ) by {
                            if a < pos && b == pos {
                            } else if b > pos {
                                if pos < old_tl.len() {
                                    assert(!span_lt(old_tl[pos as int].0, g.span));
                                    assert(old_tl[pos as int].0 != g.span);
                                }
                                if a == pos {
                                    assert(new_tl[b] == old_tl[b - 1]);
                                    assert(!span_lt(old_tl[pos as int].0, g.span));
                                } else if a < pos {
                                    assert(new_tl[a] == old_tl[a] && new_tl[b] == old_tl[b - 1]);
                                } else {
                                    assert(new_tl[a] == old_tl[a - 1]
                                        && new_tl[b] == old_tl[b - 1]);
                                }
                            }
                        }
                        assert(timeline_wf(new_tl));
                        assert forall|ii: int, jj: int|
                            0 <= ii < new_tl.len() && 0 <= jj < new_tl[ii].1.len() implies group_dates_ok(
                            #[trigger] new_tl[ii].1[jj],
                            today,
                        ) by {
                            if ii < pos {
                                assert(new_tl[ii] == old_tl[ii]);
                                assert(group_dates_ok(old_tl[ii].1[jj], today));
                            } else if ii == pos {
                                assert(new_tl[ii].1 == seq![g]);
                            } else {
                                assert(new_tl[ii] == old_tl[ii - 1]);
                                assert(group_dates_ok(old_tl[ii - 1].1[jj], today));
                            }
                        }
                        assert(timeline_dates_ok(new_tl, today));
                    }
                }
            },
        }
        i += 1;
    }
    Ok(arr)
}

/// A definition line as the format writes it: `name,start,end`, both dates
/// as `YYYY-MM-DD`.
pub open spec fn mk_definition_line(name: Seq<char>, start: Date, end: Date) -> Seq<char> {
    name + seq![','] + crate::represent::date_chars(start) + seq![',']
        + crate::represent::date_chars(end)
}

proof fn lemma_digit_char_props(d: int)
    requires
        0 <= d <= 9,
    ensures
        is_digit_char(crate::represent::digit_char_of(d)),
        digit_val(crate::represent::digit_char_of(d)) == d,
        !crate::text::is_space_char(crate::represent::digit_char_of(d)),
        crate::represent::digit_char_of(d) != ',',
        crate::represent::digit_char_of(d) != '/',
        crate::represent::digit_char_of(d) != '-',
{
}

/// The shape of a formatted date: ten characters, digits in the year,
/// month and day positions, dashes between them.
proof fn lemma_date_chars_shape(d: Date)
    requires
        0 <= d.year <= 9999,
        0 <= d.month <= 99,
        0 <= d.day <= 99,
    ensures
        crate::represent::date_chars(d).len() == 10,
        forall|i: int|
            0 <= i < 10 && i != 4 && i != 7 ==> is_digit_char(
                #[trigger] crate::represent::date_chars(d)[i],
            ) && crate::represent::date_chars(d)[i] != ',' && crate::represent::date_chars(d)[i]
                != '/' && !crate::text::is_space_char(crate::represent::date_chars(d)[i]),
        crate::represent::date_chars(d)[4] == '-',
        crate::represent::date_chars(d)[7] == '-',
{
    let ds = crate::represent::date_chars(d);
    let y = d.year as int;
    assert(crate::represent::year_chars(y) == crate::represent::pad4(y));
    assert forall|i: int|
        0 <= i < 10 && i != 4 && i != 7 implies is_digit_char(#[trigger] ds[i]) && ds[i] != ','
        && ds[i] != '/' && !crate::text::is_space_char(ds[i]) by {
        if i < 4 {
            if i == 0 {
                lemma_digit_char_props(y / 1000 % 10);
            } else if i == 1 {
                lemma_digit_char_props(y / 100 % 10);
            } else if i == 2 {
                lemma_digit_char_props(y / 10 % 10);
            } else {
                lemma_digit_char_props(y % 10);
            }
        } else if i < 7 {
            if i == 5 {
                lemma_digit_char_props(d.month as int / 10 % 10);
            } else {
                lemma_digit_char_props(d.month as int % 10);
            }
        } else {
            if i == 8 {
                lemma_digit_char_props(d.day as int / 10 % 10);
            } else {
                lemma_digit_char_props(d.day as int % 10);
            }
        }
    }
}

proof fn lemma_digit_run_nonneg(s: Seq<char>, i: int)
    ensures
        digit_run(s, i) >= 0,
    decreases s.len() - i,
{
    if 0 <= i < s.len() && is_digit_char(s[i]) {
        lemma_digit_run_nonneg(s, i + 1);
    }
}

proof fn lemma_pad4_value(s: Seq<char>, off: int, y: int)
    requires
        0 <= y <= 9999,
        0 <= off,
        off + 4 <= s.len(),
        s[off] == crate::represent::pad4(y)[0],
        s[off + 1] == crate::represent::pad4(y)[1],
        s[off + 2] == crate::represent::pad4(y)[2],
        s[off + 3] == crate::represent::pad4(y)[3],
    ensures
        digits_value(s, off, 4) == y,
        digit_run(s, off) >= 4,
{
    lemma_digit_char_props(y / 1000 % 10);
    lemma_digit_char_props(y / 100 % 10);
    lemma_digit_char_props(y / 10 % 10);
    lemma_digit_char_props(y % 10);
    assert(crate::represent::pad4(y)[0] == crate::represent::digit_char_of(y / 1000 % 10));
    assert(crate::represent::pad4(y)[1] == crate::represent::digit_char_of(y / 100 % 10));
    assert(crate::represent::pad4(y)[2] == crate::represent::digit_char_of(y / 10 % 10));
    assert(crate::represent::pad4(y)[3] == crate::represent::digit_char_of(y % 10));
    vstd::arithmetic::div_mod::lemma_div_denominator(y, 10, 10);
    vstd::arithmetic::div_mod::lemma_div_denominator(y, 100, 10);
    assert(y == 10 * (y / 10) + y % 10);
    assert(y / 10 == 10 * (y / 10 / 10) + (y / 10) % 10);
    assert(y / 100 == 10 * (y / 100 / 10) + (y / 100) % 10);
    assert(y / 1000 % 10 == y / 1000);
    assert(digits_value(s, off, 0) == 0);
    assert(digits_value(s, off, 1) == digits_value(s, off, 0) * 10 + digit_val(s[off]));
    assert(digits_value(s, off, 2) == digits_value(s, off, 1) * 10 + digit_val(s[off + 1]));
    assert(digits_value(s, off, 3) == digits_value(s, off, 2) * 10 + digit_val(s[off + 2]));
    assert(digits_value(s, off, 4) == digits_value(s, off, 3) * 10 + digit_val(s[off + 3]));
    lemma_digit_run_nonneg(s, off + 4);
    assert(digit_run(s, off + 3) == 1 + digit_run(s, off + 4));
    assert(digit_run(s, off + 2) == 1 + digit_run(s, off + 3));
    assert(digit_run(s, off + 1) == 1 + digit_run(s, off + 2));
    assert(digit_run(s, off) == 1 + digit_run(s, off + 1));
}

proof fn lemma_pad2_value(s: Seq<char>, off: int, m: int)
    requires
        0 <= m <= 99,
        0 <= off,
        off + 2 <= s.len(),
        s[off] == crate::represent::pad2(m)[0],
        s[off + 1] == crate::represent::pad2(m)[1],
    ensures
        digits_value(s, off, 2) == m,
        digit_run(s, off) >= 2,
{
    lemma_digit_char_props(m / 10 % 10);
    lemma_digit_char_props(m % 10);
    assert(crate::represent::pad2(m)[0] == crate::represent::digit_char_of(m / 10 % 10));
    assert(crate::represent::pad2(m)[1] == crate::represent::digit_char_of(m % 10));
    assert(m == 10 * (m / 10) + m % 10);
    assert(m / 10 % 10 == m / 10);
    assert(digits_value(s, off, 0) == 0);
    assert(digits_value(s, off, 1) == digits_value(s, off, 0) * 10 + digit_val(s[off]));
    assert(digits_value(s, off, 2) == digits_value(s, off, 1) * 10 + digit_val(s[off + 1]));
    lemma_digit_run_nonneg(s, off + 2);
    assert(digit_run(s, off + 1) == 1 + digit_run(s, off + 2));
    assert(digit_run(s, off) == 1 + digit_run(s, off + 1));
}

/// Scanning a formatted date gives back exactly its year, month and day.
proof fn lemma_scan_date_chars(d: Date)
    requires
        0 <= d.year <= 9999,
        0 <= d.month <= 99,
        0 <= d.day <= 99,
    ensures
        scan_ymd(crate::represent::date_chars(d)) == Some(
            (d.year as int, d.month as int, d.day as int),
        ),
{
    let ds = crate::represent::date_chars(d);
    lemma_date_chars_shape(d);
    let y = d.year as int;
    assert(crate::represent::year_chars(y) == crate::represent::pad4(y));
    assert(ds[0] == crate::represent::pad4(y)[0]);
    assert(ds[1] == crate::represent::pad4(y)[1]);
    assert(ds[2] == crate::represent::pad4(y)[2]);
    assert(ds[3] == crate::represent::pad4(y)[3]);
    assert(ds[5] == crate::represent::pad2(d.month as int)[0]);
    assert(ds[6] == crate::represent::pad2(d.month as int)[1]);
    assert(ds[8] == crate::represent::pad2(d.day as int)[0]);
    assert(ds[9] == crate::represent::pad2(d.day as int)[1]);
    lemma_pad4_value(ds, 0, y);
    lemma_pad2_value(ds, 5, d.month as int);
    lemma_pad2_value(ds, 8, d.day as int);
    lemma_digit_run_digits(ds, 0);
    lemma_digit_run_digits(ds, 5);
    lemma_digit_run_digits(ds, 8);
    assert(digit_run(ds, 0) == 4) by {
        if digit_run(ds, 0) > 4 {
            assert(is_digit_char(ds[4]));
        }
    }
    assert(digit_run(ds, 5) == 2) by {
        if digit_run(ds, 5) > 2 {
            assert(is_digit_char(ds[7]));
        }
    }
    assert(digit_run(ds, 8) == 2) by {
        if digit_run(ds, 8) > 2 {
            assert(8 + digit_run(ds, 8) <= ds.len());
        }
    }
}

/// The round trip of one definition line: a triple written as
/// `name,start,end` parses back to the same name and, when both dates name
/// real calendar days, to the same interval — with reversed endpoints
/// swapped into order; a date outside the calendar is a format error. The
/// name must carry no separator, no comment marker and no surrounding
/// white space, and the dates must fit the format's digit ranges.
pub proof fn lemma_definition_line_round_trip(
    name: Seq<char>,
    start: Date,
    end: Date,
    today: Date,
)
    requires
        trim_spec(name) == name,
        !name.contains(','),
        forall|j: int|
            0 <= j < name.len() - 1 ==> !(#[trigger] name[j] == '/' && name[j + 1] == '/'),
        0 <= start.year <= 9999,
        0 <= start.month <= 99,
        0 <= start.day <= 99,
        0 <= end.year <= 9999,
        0 <= end.month <= 99,
        0 <= end.day <= 99,
    ensures
        parse_line_spec(mk_definition_line(name, start, end), today) == if valid_ymd(
            start.year as int,
            start.month as int,
            start.day as int,
        ) && valid_ymd(end.year as int, end.month as int, end.day as int) {
            Ok(
                Some(
                    SpanView {
                        gengou: name,
                        span: if date_lt(end, start) {
                            NaiveDateSpan { start: end, end: start }
                        } else {
                            NaiveDateSpan { start, end }
                        },
                    },
                ),
            )
        } else {
            Err::<Option<SpanView>, ParseError>(ParseError::DateFormat)
        },
{
    let line = mk_definition_line(name, start, end);
    let ds1 = crate::represent::date_chars(start);
    let ds2 = crate::represent::date_chars(end);
    let nl = name.len() as int;
    lemma_date_chars_shape(start);
    lemma_date_chars_shape(end);
    assert(line.len() == nl + 22);
    let p1 = nl;
    let p2 = nl + 11;

    // no comment marker anywhere in the line
    assert forall|j: int| 0 <= j < line.len() - 1 implies !(#[trigger] line[j] == '/' && line[
        j + 1] == '/') by {
        if j < nl - 1 {
            assert(line[j] == name[j] && line[j + 1] == name[j + 1]);
        } else if j >= nl {
            assert(line[j] != '/');
        }
    }
    crate::text::lemma_no_two_slashes(line, 0);
    assert(strip_comment(line) == line);

    // the line is already trimmed: both end characters are non-space
    assert(!crate::text::is_space_char(line[0])) by {
        if nl > 0 {
            assert(line[0] == name[0]);
            if crate::text::is_space_char(name[0]) {
                crate::text::lemma_trim_start_len(name);
                crate::text::lemma_trim_end_len(crate::text::trim_start_spec(name));
            }
        } else {
            assert(line[0] == ',');
        }
    }
    assert(line.last() == ds2[9]);
    assert(!crate::text::is_space_char(line.last()));
    assert(trim_spec(line) == line) by {
        assert(crate::text::trim_start_spec(line) == line);
        assert(crate::text::trim_end_spec(line) == line);
    }

    // the two separators are the only commas
    assert(line[p1] == ',' && line[p2] == ',');
    assert forall|j: int| 0 <= j < p1 implies line[j] != ',' by {
        assert(line[j] == name[j]);
        assert(!name.contains(',') ==> name[j] != ',');
    }
    assert forall|j: int| p1 < j < p2 implies line[j] != ',' by {
        assert(line[j] == ds1[j - (nl + 1)]);
    }
    assert forall|j: int| p2 < j < line.len() implies line[j] != ',' by {
        assert(line[j] == ds2[j - (nl + 12)]);
    }
    crate::text::lemma_split_until(line, ',', 0, 0, p1);
    crate::text::lemma_split_until(line, ',', p1 + 1, p1 + 1, p2);
    crate::text::lemma_split_no_sep(line, ',', p2 + 1, p2 + 1);
    let fs = split_fields(line);
    assert(line.subrange(0, p1) =~= name);
    assert(line.subrange(p1 + 1, p2) =~= ds1);
    assert(line.subrange(p2 + 1, line.len() as int) =~= ds2);
    assert(fs =~= seq![name, ds1, ds2]);
    assert(fs.len() == 3);
    assert(fs[0] == name && fs[1] == ds1 && fs[2] == ds2);

    // the date fields are already trimmed
    assert(trim_spec(ds1) == ds1) by {
        lemma_digit_char_props(start.year as int / 1000 % 10);
        assert(crate::represent::year_chars(start.year as int) == crate::represent::pad4(
            start.year as int,
        ));
        assert(!crate::text::is_space_char(ds1[0]));
        assert(!crate::text::is_space_char(ds1.last()));
        assert(crate::text::trim_start_spec(ds1) == ds1);
        assert(crate::text::trim_end_spec(ds1) == ds1);
    }
    assert(trim_spec(ds2) == ds2) by {
        assert(!crate::text::is_space_char(ds2[0]));
        assert(!crate::text::is_space_char(ds2.last()));
        assert(crate::text::trim_start_spec(ds2) == ds2);
        assert(crate::text::trim_end_spec(ds2) == ds2);
    }

    lemma_scan_date_chars(start);
    lemma_scan_date_chars(end);
    assert(parse_datetime_spec(ds1, today) == if valid_ymd(
        start.year as int,
        start.month as int,
        start.day as int,
    ) {
        Ok::<Date, ParseError>(start)
    } else {
        Err::<Date, ParseError>(ParseError::DateFormat)
    });
    assert(parse_datetime_spec(ds2, today) == if valid_ymd(
        end.year as int,
        end.month as int,
        end.day as int,
    ) {
        Ok::<Date, ParseError>(end)
    } else {
        Err::<Date, ParseError>(ParseError::DateFormat)
    });
    assert(line.len() > 0 && trim_spec(strip_comment(line)).len() > 0);
}

} // verus!
