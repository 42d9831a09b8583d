use gengou::date::Date;
use gengou::represent::{represent_by_gregorian, represent_span, to_kansuuji, u64_to_string};
use gengou::search::SearchedSpanList;
use gengou::span::{NaiveDateSpan, Span};

fn d(y: i32, m: u32, day: u32) -> Date {
    Date::new(y, m, day)
}

#[test]
fn checking_value() {
    assert_eq!(to_kansuuji(1), "一");
    assert_eq!(to_kansuuji(9), "九");
    assert_eq!(to_kansuuji(10), "十");
    assert_eq!(to_kansuuji(11), "十一");
    assert_eq!(to_kansuuji(21), "二十一");
    assert_eq!(to_kansuuji(99), "九十九");
    assert_eq!(to_kansuuji(100), "百");
    assert_eq!(to_kansuuji(999), "九百九十九");
    assert_eq!(to_kansuuji(1000), "千");
    assert_eq!(to_kansuuji(9999), "九千九百九十九");
    assert_eq!(to_kansuuji(10000), "一万");
    assert_eq!(to_kansuuji(10020), "一万二十");
    assert_eq!(to_kansuuji(1_000_020), "百万二十");
    assert_eq!(to_kansuuji(100_000_020), "一億二十");
    assert_eq!(to_kansuuji(1_0000_4423), "一億四千四百二十三");
    assert_eq!(to_kansuuji(1_8000_4423), "一億八千万四千四百二十三");
}

#[test]
fn kansuuji_of_zero_is_empty() {
    assert_eq!(to_kansuuji(0), "");
}

#[test]
fn represent_checking_value() {
    let file_span = NaiveDateSpan::new(d(100, 1, 1), d(1000, 1, 1));
    let initial = 'a';

    let result = represent_span(&file_span, initial);
    assert_eq!(result, "0100-01-01_1000-01-01_a".to_string());
}

#[test]
fn span_tag_zero_pads_all_parts() {
    let file_span = NaiveDateSpan::new(d(645, 8, 1), d(2019, 12, 31));
    assert_eq!(represent_span(&file_span, 'n'), "0645-08-01_2019-12-31_n");
}

#[test]
fn decimal_rendering_is_plain_digits() {
    assert_eq!(u64_to_string(0), "0");
    assert_eq!(u64_to_string(7), "7");
    assert_eq!(u64_to_string(51), "51");
    assert_eq!(u64_to_string(1234567890), "1234567890");
}

#[test]
fn checking_value_normal_multiple() {
    let file_span = NaiveDateSpan::new(d(100, 1, 1), d(1000, 1, 1));

    let case_a_1 = Span::new("aa".to_string(), d(100, 1, 1), d(200, 1, 1));
    let case_a_2 = Span::new("ab".to_string(), d(150, 1, 1), d(200, 1, 1));
    let spans_a = vec![case_a_1, case_a_2];

    let case_b_1 = Span::new("ba".to_string(), d(100, 1, 1), d(200, 1, 1));
    let spans_b = vec![case_b_1];

    let searched_list: SearchedSpanList =
        vec![(file_span, 'a', spans_a), (file_span, 'b', spans_b)];

    let date = d(150, 1, 1);
    let is_kansuuji = false;

    let (r_dates, r_spans) = represent_by_gregorian(&searched_list, &date, is_kansuuji);
    assert_eq!(
        r_dates,
        vec![
            "aa51年1月1日".to_string(),
            "ab元年1月1日".to_string(),
            "ba51年1月1日".to_string(),
        ]
    );
    assert_eq!(
        r_spans,
        vec![
            "0100-01-01_1000-01-01_a".to_string(),
            "0100-01-01_1000-01-01_a".to_string(),
            "0100-01-01_1000-01-01_b".to_string(),
        ]
    );
}

#[test]
fn kansuuji_mode_renders_year_month_and_day_in_words() {
    let file_span = NaiveDateSpan::new(d(100, 1, 1), d(1000, 1, 1));
    let spans = vec![Span::new("aa".to_string(), d(100, 1, 1), d(200, 1, 1))];
    let searched_list: SearchedSpanList = vec![(file_span, 'a', spans)];

    let date = d(150, 11, 21);
    let (r_dates, _) = represent_by_gregorian(&searched_list, &date, true);
    assert_eq!(r_dates, vec!["aa五十一年十一月二十一日".to_string()]);
}
