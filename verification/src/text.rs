//! Character and string helpers shared by the parser and the formatter:
//! whitespace trimming, character search, field and line splitting, and
//! decimal integer reading.

use vstd::prelude::*;
use vstd::string::StrSliceExecFns;

verus! {

/// Relies on `String::push`: appends one character at the end of the string.
#[verifier::external_body]
pub(crate) fn push_char(s: &mut String, c: char)
    ensures
        final(s)@ == old(s)@.push(c),
{
    s.push(c);
}

/// The Unicode white-space characters, as `char::is_whitespace` counts them.
pub open spec fn is_space_char(c: char) -> bool {
    c == ' ' || c == '\t' || c == '\n' || c == '\r' || (c as u32) == 0x0B || (c as u32) == 0x0C
        || (c as u32) == 0x85 || (c as u32) == 0xA0 || (c as u32) == 0x1680 || (0x2000 <= (
    c as u32) && (c as u32) <= 0x200A) || (c as u32) == 0x2028 || (c as u32) == 0x2029 || (
    c as u32) == 0x202F || (c as u32) == 0x205F || (c as u32) == 0x3000
}

pub fn is_space(c: char) -> (r: bool)
    ensures
        r == is_space_char(c),
{
    let u = c as u32;
    c == ' ' || c == '\t' || c == '\n' || c == '\r' || u == 0x0B || u == 0x0C || u == 0x85 || u
        == 0xA0 || u == 0x1680 || (0x2000 <= u && u <= 0x200A) || u == 0x2028 || u == 0x2029 || u
        == 0x202F || u == 0x205F || u == 0x3000
}

/// The sequence with its leading white space removed.
pub open spec fn trim_start_spec(s: Seq<char>) -> Seq<char>
    decreases s.len(),
{
    if s.len() > 0 && is_space_char(s[0]) {
        trim_start_spec(s.drop_first())
    } else {
        s
    }
}

/// The sequence with its trailing white space removed.
pub open spec fn trim_end_spec(s: Seq<char>) -> Seq<char>
    decreases s.len(),
{
    if s.len() > 0 && is_space_char(s.last()) {
        trim_end_spec(s.drop_last())
    } else {
        s
    }
}

/// The sequence with white space removed from both ends, as `str::trim`.
pub open spec fn trim_spec(s: Seq<char>) -> Seq<char> {
    trim_end_spec(trim_start_spec(s))
}

proof fn lemma_trim_start_at(s: Seq<char>, k: int)
    requires
        0 <= k <= s.len(),
        forall|j: int| 0 <= j < k ==> is_space_char(s[j]),
        k == s.len() || !is_space_char(s[k]),
    ensures
        trim_start_spec(s) == s.subrange(k, s.len() as int),
    decreases k,
{
    if k == 0 {
        assert(s.subrange(0, s.len() as int) =~= s);
    } else {
        lemma_trim_start_at(s.drop_first(), k - 1);
        assert(s.drop_first().subrange(k - 1, s.drop_first().len() as int) =~= s.subrange(
            k,
            s.len() as int,
        ));
    }
}

proof fn lemma_trim_end_at(s: Seq<char>, k: int)
    requires
        0 <= k <= s.len(),
        forall|j: int| k <= j < s.len() ==> is_space_char(s[j]),
        k == 0 || !is_space_char(s[k - 1]),
    ensures
        trim_end_spec(s) == s.subrange(0, k),
    decreases s.len() - k,
{
    if k == s.len() {
        assert(s.subrange(0, k) =~= s);
    } else {
        lemma_trim_end_at(s.drop_last(), k);
        assert(s.drop_last().subrange(0, k) =~= s.subrange(0, k));
    }
}

/// The trimmed slice of `s`, as `str::trim` yields it.
pub fn trim_str<'a>(s: &'a str) -> (r: &'a str)
    ensures
        r@ == trim_spec(s@),
{
    let n = s.unicode_len();
    let mut lo: usize = 0;
    while lo < n && is_space(s.get_char(lo))
        invariant
            0 <= lo <= n == s@.len(),
            forall|j: int| 0 <= j < lo ==> is_space_char(s@[j]),
        decreases n - lo,
    {
        lo += 1;
    }
    let mut hi: usize = n;
    while hi > lo && is_space(s.get_char(hi - 1))
        invariant
            lo <= hi <= n == s@.len(),
            forall|j: int| hi <= j < n ==> is_space_char(s@[j]),
        decreases hi,
    {
        hi -= 1;
    }
    proof {
        lemma_trim_start_at(s@, lo as int);
        let mid = s@.subrange(lo as int, n as int);
        lemma_trim_end_at(mid, hi - lo);
        assert(mid.subrange(0, hi - lo) =~= s@.subrange(lo as int, hi as int));
    }
    s.substring_char(lo, hi)
}

/// The position of the first occurrence of two consecutive `/` characters at
/// or after `i`, if any: the comment marker of a definition line.
pub open spec fn find_two_slashes(s: Seq<char>, i: int) -> Option<int>
    recommends
        0 <= i,
    decreases s.len() - i,
{
    if i < 0 || i + 2 > s.len() {
        None
    } else if s[i] == '/' && s[i + 1] == '/' {
        Some(i)
    } else {
        find_two_slashes(s, i + 1)
    }
}

/// Finds the comment marker `//`, as `str::find` does on that pattern.
pub fn find_comment(s: &str) -> (r: Option<usize>)
    ensures
        match r {
            Some(p) => find_two_slashes(s@, 0) == Some(p as int) && p + 2 <= s@.len(),
            None => find_two_slashes(s@, 0) is None,
        },
{
    let n = s.unicode_len();
    let mut i: usize = 0;
    while n >= 2 && i <= n - 2
        invariant
            0 <= i,
            i <= n == s@.len(),
            find_two_slashes(s@, 0) == find_two_slashes(s@, i as int),
        decreases n - i,
    {
        if s.get_char(i) == '/' && s.get_char(i + 1) == '/' {
            return Some(i);
        }
        i += 1;
    }
    None
}

/// The position of the first occurrence of `c` at or after `i`.
pub open spec fn find_char_in(s: Seq<char>, c: char, i: int) -> Option<int>
    recommends
        0 <= i,
    decreases s.len() - i,
{
    if i < 0 || i >= s.len() {
        None
    } else if s[i] == c {
        Some(i)
    } else {
        find_char_in(s, c, i + 1)
    }
}

/// Finds a character, as `str::find` does on a character pattern.
pub fn find_char(s: &str, c: char) -> (r: Option<usize>)
    ensures
        match r {
            Some(p) => find_char_in(s@, c, 0) == Some(p as int) && p < s@.len(),
            None => find_char_in(s@, c, 0) is None,
        },
{
    let n = s.unicode_len();
    let mut i: usize = 0;
    while i < n
        invariant
            0 <= i <= n == s@.len(),
            find_char_in(s@, c, 0) == find_char_in(s@, c, i as int),
        decreases n - i,
    {
        if s.get_char(i) == c {
            return Some(i);
        }
        i += 1;
    }
    None
}

/// Whether `c` occurs in `s`, as `str::contains` on a single character.
pub fn contains_char(s: &str, c: char) -> (r: bool)
    ensures
        r == s@.contains(c),
{
    let n = s.unicode_len();
    let mut i: usize = 0;
    while i < n
        invariant
            i <= n == s@.len(),
            forall|j: int| 0 <= j < i ==> s@[j] != c,
        decreases n - i,
    {
        if s.get_char(i) == c {
            return true;
        }
        i += 1;
    }
    false
}

/// The fields of `s[start..]` split at `c`, scanning from position `i`, as
/// `str::split` yields them on a character pattern.
pub open spec fn split_at_char_from(s: Seq<char>, c: char, i: int, start: int) -> Seq<Seq<char>>
    recommends
        0 <= start <= i <= s.len(),
    decreases s.len() - i,
{
    if i < 0 || i >= s.len() {
        seq![s.subrange(start, s.len() as int)]
    } else if s[i] == c {
        seq![s.subrange(start, i)] + split_at_char_from(s, c, i + 1, i + 1)
    } else {
        split_at_char_from(s, c, i + 1, start)
    }
}

/// The fields of `s` split at `c`.
pub open spec fn split_at_char(s: Seq<char>, c: char) -> Seq<Seq<char>> {
    split_at_char_from(s, c, 0, 0)
}

/// The comma-separated fields of `s`.
pub open spec fn split_fields(s: Seq<char>) -> Seq<Seq<char>> {
    split_at_char_from(s, ',', 0, 0)
}

/// Splits `s` at every occurrence of `c`, as `str::split` does on a
/// character pattern.
pub fn split_on_char(s: &str, c: char) -> (r: Vec<String>)
    ensures
        strings_view(r@) == split_at_char(s@, c),
{
    let n = s.unicode_len();
    let mut r: Vec<String> = Vec::new();
    let mut i: usize = 0;
    let mut start: usize = 0;
    while i < n
        invariant
            0 <= start <= i <= n == s@.len(),
            split_at_char(s@, c) == r@.map_values(|f: String| f@) + split_at_char_from(
                s@,
                c,
                i as int,
                start as int,
            ),
        decreases n - i,
    {
        if s.get_char(i) == c {
            let field = s.substring_char(start, i).to_owned();
            proof {
                assert(r@.push(field).map_values(|f: String| f@) =~= r@.map_values(
                    |f: String| f@,
                ).push(field@));
            }
            r.push(field);
            start = i + 1;
        }
        i += 1;
    }
    let field = s.substring_char(start, n).to_owned();
    proof {
        assert(r@.push(field).map_values(|f: String| f@) =~= r@.map_values(
            |f: String| f@,
        ).push(field@));
        assert(seq![field@] =~= Seq::<Seq<char>>::empty().push(field@));
    }
    r.push(field);
    proof {
        assert(strings_view(r@) =~= r@.map_values(|f: String| f@));
    }
    r
}

/// One chunk of a line split: the text between `start` and the line break at
/// `i`, with a single carriage return immediately before the break removed.
pub open spec fn line_chunk(s: Seq<char>, start: int, i: int) -> Seq<char>
    recommends
        0 <= start <= i <= s.len(),
{
    if i > start && s[i - 1] == '\r' {
        s.subrange(start, i - 1)
    } else {
        s.subrange(start, i)
    }
}

/// The lines of `s[start..]`, scanning from position `i`, as `str::lines`
/// yields them: split at `\n`, a preceding `\r` stripped, no empty final
/// line after a terminating break.
pub open spec fn split_lines_from(s: Seq<char>, i: int, start: int) -> Seq<Seq<char>>
    recommends
        0 <= start <= i <= s.len(),
    decreases s.len() - i,
{
    if i < 0 || i >= s.len() {
        if start >= s.len() {
            seq![]
        } else {
            seq![s.subrange(start, s.len() as int)]
        }
    } else if s[i] == '\n' {
        seq![line_chunk(s, start, i)] + split_lines_from(s, i + 1, i + 1)
    } else {
        split_lines_from(s, i + 1, start)
    }
}

/// The lines of `s`, as `str::lines` yields them.
pub open spec fn split_lines(s: Seq<char>) -> Seq<Seq<char>> {
    split_lines_from(s, 0, 0)
}

/// Splits `s` into lines, as `str::lines`.
pub fn lines_of(s: &str) -> (r: Vec<String>)
    ensures
        r@.map_values(|l: String| l@) == split_lines(s@),
{
    let n = s.unicode_len();
    let mut r: Vec<String> = Vec::new();
    let mut i: usize = 0;
    let mut start: usize = 0;
    while i < n
        invariant
            0 <= start <= i <= n == s@.len(),
            split_lines(s@) == r@.map_values(|l: String| l@) + split_lines_from(
                s@,
                i as int,
                start as int,
            ),
        decreases n - i,
    {
        if s.get_char(i) == '\n' {
            let stop = if i > start && s.get_char(i - 1) == '\r' {
                i - 1
            } else {
                i
            };
            let line = s.substring_char(start, stop).to_owned();
            proof {
                assert(r@.push(line).map_values(|l: String| l@) =~= r@.map_values(
                    |l: String| l@,
                ).push(line@));
            }
            r.push(line);
            start = i + 1;
        }
        i += 1;
    }
    if start < n {
        let line = s.substring_char(start, n).to_owned();
        proof {
            assert(r@.push(line).map_values(|l: String| l@) =~= r@.map_values(
                |l: String| l@,
            ).push(line@));
            assert(seq![line@] =~= Seq::<Seq<char>>::empty().push(line@));
        }
        r.push(line);
    }
    r
}

/// The views of a sequence of strings.
pub open spec fn strings_view(v: Seq<String>) -> Seq<Seq<char>> {
    v.map_values(|s: String| s@)
}

/// Character-wise string equality.
pub fn str_eq(a: &str, b: &str) -> (r: bool)
    ensures
        r == (a@ == b@),
{
    let na = a.unicode_len();
    let nb = b.unicode_len();
    if na != nb {
        return false;
    }
    let mut i: usize = 0;
    while i < na
        invariant
            i <= na == a@.len(),
            na == nb == b@.len(),
            forall|j: int| 0 <= j < i ==> a@[j] == b@[j],
        decreases na - i,
    {
        if a.get_char(i) != b.get_char(i) {
            return false;
        }
        i += 1;
    }
    proof {
        assert(a@ =~= b@);
    }
    true
}

pub(crate) proof fn lemma_trim_start_len(s: Seq<char>)
    ensures
        trim_start_spec(s).len() <= s.len(),
        s.len() > 0 && is_space_char(s[0]) ==> trim_start_spec(s).len() < s.len(),
    decreases s.len(),
{
    if s.len() > 0 && is_space_char(s[0]) {
        lemma_trim_start_len(s.drop_first());
    }
}

pub(crate) proof fn lemma_trim_end_len(s: Seq<char>)
    ensures
        trim_end_spec(s).len() <= s.len(),
    decreases s.len(),
{
    if s.len() > 0 && is_space_char(s.last()) {
        lemma_trim_end_len(s.drop_last());
    }
}

pub(crate) proof fn lemma_no_two_slashes(s: Seq<char>, i: int)
    requires
        0 <= i,
        forall|j: int| 0 <= j < s.len() - 1 ==> !(#[trigger] s[j] == '/' && s[j + 1] == '/'),
    ensures
        find_two_slashes(s, i) is None,
    decreases s.len() - i,
{
    if i + 2 <= s.len() {
        lemma_no_two_slashes(s, i + 1);
    }
}

pub(crate) proof fn lemma_split_no_sep(s: Seq<char>, c: char, i: int, start: int)
    requires
        0 <= start <= i <= s.len(),
        forall|j: int| i <= j < s.len() ==> s[j] != c,
    ensures
        split_at_char_from(s, c, i, start) == seq![s.subrange(start, s.len() as int)],
    decreases s.len() - i,
{
    if i < s.len() {
        lemma_split_no_sep(s, c, i + 1, start);
    }
}

pub(crate) proof fn lemma_split_until(s: Seq<char>, c: char, i: int, start: int, p: int)
    requires
        0 <= start <= i <= p < s.len(),
        s[p] == c,
        forall|j: int| i <= j < p ==> s[j] != c,
    ensures
        split_at_char_from(s, c, i, start) == seq![s.subrange(start, p)] + split_at_char_from(
            s,
            c,
            p + 1,
            p + 1,
        ),
    decreases p - i,
{
    if i < p {
        lemma_split_until(s, c, i + 1, start, p);
    }
}

/// Whether `c` is an ASCII decimal digit.
pub open spec fn is_digit_char(c: char) -> bool {
    0x30 <= (c as u32) && (c as u32) <= 0x39
}

/// The numeric value of an ASCII decimal digit.
pub open spec fn digit_val(c: char) -> int {
    (c as u32) - 0x30
}

pub fn is_digit(c: char) -> (r: bool)
    ensures
        r == is_digit_char(c),
{
    let u = c as u32;
    0x30 <= u && u <= 0x39
}

pub fn digit_of(c: char) -> (r: u32)
    requires
        is_digit_char(c),
    ensures
        r == digit_val(c),
{
    (c as u32) - 0x30
}

/// Why a decimal integer could not be read from a string; the variants and
/// their messages follow the standard library's integer parsing.
#[derive(Clone, Copy, Debug, PartialEq, Eq, Structural)]
pub enum IntError {
    Empty,
    InvalidDigit,
    PosOverflow,
    NegOverflow,
}

/// The message of each [`IntError`] variant.
pub open spec fn int_error_message(e: IntError) -> Seq<char> {
    match e {
        IntError::Empty => "cannot parse integer from empty string"@,
        IntError::InvalidDigit => "invalid digit found in string"@,
        IntError::PosOverflow => "number too large to fit in target type"@,
        IntError::NegOverflow => "number too small to fit in target type"@,
    }
}

impl IntError {
    pub fn message(&self) -> (r: &'static str)
        ensures
            r@ == int_error_message(*self),
    {
        match self {
            IntError::Empty => "cannot parse integer from empty string",
            IntError::InvalidDigit => "invalid digit found in string",
            IntError::PosOverflow => "number too large to fit in target type",
            IntError::NegOverflow => "number too small to fit in target type",
        }
    }
}

/// Reading an unsigned decimal number from `s[i..]` into accumulator `acc`,
/// failing at the first non-digit or at the first step that would exceed
/// `max`, as the standard library's integer parsing does.
pub open spec fn parse_unsigned_from(s: Seq<char>, i: int, acc: int, max: int) -> Result<
    int,
    IntError,
>
    recommends
        0 <= i <= s.len(),
    decreases s.len() - i,
{
    if i < 0 || i >= s.len() {
        Ok(acc)
    } else if !is_digit_char(s[i]) {
        Err(IntError::InvalidDigit)
    } else if acc * 10 + digit_val(s[i]) > max {
        Err(IntError::PosOverflow)
    } else {
        parse_unsigned_from(s, i + 1, acc * 10 + digit_val(s[i]), max)
    }
}

/// Reading a negated decimal number from `s[i..]`, failing below `min`.
pub open spec fn parse_negated_from(s: Seq<char>, i: int, acc: int, min: int) -> Result<
    int,
    IntError,
>
    recommends
        0 <= i <= s.len(),
    decreases s.len() - i,
{
    if i < 0 || i >= s.len() {
        Ok(acc)
    } else if !is_digit_char(s[i]) {
        Err(IntError::InvalidDigit)
    } else if acc * 10 - digit_val(s[i]) < min {
        Err(IntError::NegOverflow)
    } else {
        parse_negated_from(s, i + 1, acc * 10 - digit_val(s[i]), min)
    }
}

/// What `str::parse::<u32>` returns: an optional leading `+`, then decimal
/// digits; empty input, a stray character and overflow are the three errors.
pub open spec fn parse_u32_spec(s: Seq<char>) -> Result<int, IntError> {
    if s.len() == 0 {
        Err(IntError::Empty)
    } else if s[0] == '+' {
        if s.len() == 1 {
            Err(IntError::InvalidDigit)
        } else {
            parse_unsigned_from(s, 1, 0, u32::MAX as int)
        }
    } else {
        parse_unsigned_from(s, 0, 0, u32::MAX as int)
    }
}

/// What `str::parse::<i32>` returns: an optional sign, then decimal digits.
pub open spec fn parse_i32_spec(s: Seq<char>) -> Result<int, IntError> {
    if s.len() == 0 {
        Err(IntError::Empty)
    } else if s[0] == '+' {
        if s.len() == 1 {
            Err(IntError::InvalidDigit)
        } else {
            parse_unsigned_from(s, 1, 0, i32::MAX as int)
        }
    } else if s[0] == '-' {
        if s.len() == 1 {
            Err(IntError::InvalidDigit)
        } else {
            parse_negated_from(s, 1, 0, i32::MIN as int)
        }
    } else {
        parse_unsigned_from(s, 0, 0, i32::MAX as int)
    }
}

fn parse_unsigned_digits(s: &str, from: usize, max: u32) -> (r: Result<u32, IntError>)
    requires
        from <= s@.len(),
    ensures
        match r {
            Ok(v) => parse_unsigned_from(s@, from as int, 0, max as int) == Ok::<int, IntError>(
                v as int,
            ) && v <= max,
            Err(e) => parse_unsigned_from(s@, from as int, 0, max as int) == Err::<int, IntError>(
                e,
            ),
        },
{
    let n = s.unicode_len();
    let mut acc: u32 = 0;
    let mut i: usize = from;
    while i < n
        invariant
            from <= i <= n == s@.len(),
            acc <= max,
            parse_unsigned_from(s@, from as int, 0, max as int) == parse_unsigned_from(
                s@,
                i as int,
                acc as int,
                max as int,
            ),
        decreases n - i,
    {
        let c = s.get_char(i);
        if !is_digit(c) {
            return Err(IntError::InvalidDigit);
        }
        let d = digit_of(c);
        let wide: u64 = (acc as u64) * 10 + (d as u64);
        if wide > max as u64 {
            return Err(IntError::PosOverflow);
        }
        acc = wide as u32;
        i += 1;
    }
    Ok(acc)
}

fn parse_negated_digits(s: &str, from: usize, min: i32) -> (r: Result<i32, IntError>)
    requires
        from <= s@.len(),
        min < 0,
    ensures
        match r {
            Ok(v) => parse_negated_from(s@, from as int, 0, min as int) == Ok::<int, IntError>(
                v as int,
            ) && min <= v <= 0,
            Err(e) => parse_negated_from(s@, from as int, 0, min as int) == Err::<int, IntError>(
                e,
            ),
        },
{
    let n = s.unicode_len();
    let mut acc: i32 = 0;
    let mut i: usize = from;
    while i < n
        invariant
            from <= i <= n == s@.len(),
            min <= acc <= 0,
            min < 0,
            parse_negated_from(s@, from as int, 0, min as int) == parse_negated_from(
                s@,
                i as int,
                acc as int,
                min as int,
            ),
        decreases n - i,
    {
        let c = s.get_char(i);
        if !is_digit(c) {
            return Err(IntError::InvalidDigit);
        }
        let d = digit_of(c);
        let wide: i64 = (acc as i64) * 10 - (d as i64);
        if wide < min as i64 {
            return Err(IntError::NegOverflow);
        }
        acc = wide as i32;
        i += 1;
    }
    Ok(acc)
}

/// Reads a `u32` from decimal text, as `str::parse::<u32>`.
pub fn parse_u32(s: &str) -> (r: Result<u32, IntError>)
    ensures
        match r {
            Ok(v) => parse_u32_spec(s@) == Ok::<int, IntError>(v as int),
            Err(e) => parse_u32_spec(s@) == Err::<int, IntError>(e),
        },
{
    let n = s.unicode_len();
    if n == 0 {
        return Err(IntError::Empty);
    }
    if s.get_char(0) == '+' {
        if n == 1 {
            return Err(IntError::InvalidDigit);
        }
        parse_unsigned_digits(s, 1, u32::MAX)
    } else {
        parse_unsigned_digits(s, 0, u32::MAX)
    }
}

/// Reads an `i32` from decimal text, as `str::parse::<i32>`.
pub fn parse_i32(s: &str) -> (r: Result<i32, IntError>)
    ensures
        match r {
            Ok(v) => parse_i32_spec(s@) == Ok::<int, IntError>(v as int),
            Err(e) => parse_i32_spec(s@) == Err::<int, IntError>(e),
        },
{
    let n = s.unicode_len();
    if n == 0 {
        return Err(IntError::Empty);
    }
    let c0 = s.get_char(0);
    if c0 == '+' {
        if n == 1 {
            return Err(IntError::InvalidDigit);
        }
        match parse_unsigned_digits(s, 1, i32::MAX as u32) {
            Ok(v) => Ok(v as i32),
            Err(e) => Err(e),
        }
    } else if c0 == '-' {
        if n == 1 {
            return Err(IntError::InvalidDigit);
        }
        parse_negated_digits(s, 1, i32::MIN)
    } else {
        match parse_unsigned_digits(s, 0, i32::MAX as u32) {
            Ok(v) => Ok(v as i32),
            Err(e) => Err(e),
        }
    }
}

} // verus!
