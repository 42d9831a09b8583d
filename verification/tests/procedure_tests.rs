use gengou::date::Date;
use gengou::procedure::{execute, execute_on, get_version, load, unload};
use gengou::represent::represent_by_gregorian;
use gengou::search::search_from_array;
use gengou::span::{NaiveDateSpan, SourceFile, Span, SpanList};
use gengou::text::{parse_i32, parse_u32, IntError};

fn d(y: i32, m: u32, day: u32) -> Date {
    Date::new(y, m, day)
}

fn kindai_files() -> Vec<SourceFile> {
    vec![SourceFile {
        stem: "001_kindai".to_string(),
        contents: "明治,1868-01-25,1912-07-29\n\
                   大正,1912-07-30,1926-12-24\n\
                   昭和,1926-12-25,1989-01-07\n\
                   平成,1989-01-08,2019-04-30\n\
                   令和,2019-05-01,****\n"
            .to_string(),
    }]
}

#[test]
fn end_to_end_scenario() {
    let outer = NaiveDateSpan::new(d(100, 1, 1), d(1000, 1, 1));
    let group_a = SpanList::new(
        outer,
        'a',
        vec![
            Span::new("aa".to_string(), d(100, 1, 1), d(200, 1, 1)),
            Span::new("ab".to_string(), d(150, 1, 1), d(200, 1, 1)),
        ],
    );
    let group_b = SpanList::new(
        outer,
        'b',
        vec![Span::new("ba".to_string(), d(100, 1, 1), d(200, 1, 1))],
    );
    let array = vec![(outer, vec![group_a, group_b])];

    let date = d(150, 1, 1);
    let hits = search_from_array(&array, &date, &vec![]);
    let (r_dates, r_spans) = represent_by_gregorian(&hits, &date, false);

    assert_eq!(
        r_dates,
        vec![
            "aa51年1月1日".to_string(),
            "ab元年1月1日".to_string(),
            "ba51年1月1日".to_string(),
        ]
    );
    assert_eq!(
        r_spans,
        vec![
            "0100-01-01_1000-01-01_a".to_string(),
            "0100-01-01_1000-01-01_a".to_string(),
            "0100-01-01_1000-01-01_b".to_string(),
        ]
    );
}

#[test]
fn version_is_fixed() {
    assert_eq!(get_version(), "0.1.0");
    load(".");
    unload(".");
}

#[test]
fn execute_on_resolves_a_plain_date() {
    let today = d(2026, 1, 15);
    let response = execute_on(&kindai_files(), &vec!["1920".to_string(), "5".to_string(), "3".to_string()], today);
    assert_eq!(response.result, "大正9年5月3日");
    assert_eq!(
        response.values,
        vec![
            "大正9年5月3日".to_string(),
            "1868-01-25_2026-01-15_k".to_string(),
        ]
    );
}

#[test]
fn execute_on_reports_missing_arguments() {
    let today = d(2026, 1, 15);
    let response = execute_on(&kindai_files(), &vec!["1920".to_string()], today);
    assert_eq!(
        response.result,
        "Error: arguments are not enough. arguments are required >= 3."
    );
    assert!(response.values.is_empty());
}

#[test]
fn execute_on_reports_non_numeric_arguments() {
    let today = d(2026, 1, 15);
    let args = vec!["19x0".to_string(), "5".to_string(), "3".to_string()];
    let response = execute_on(&kindai_files(), &args, today);
    assert_eq!(response.result, "Error: invalid digit found in string");

    let args = vec!["".to_string(), "5".to_string(), "3".to_string()];
    let response = execute_on(&kindai_files(), &args, today);
    assert_eq!(
        response.result,
        "Error: cannot parse integer from empty string"
    );
}

#[test]
fn execute_on_reports_invalid_calendar_dates() {
    let today = d(2026, 1, 15);
    let args = vec!["2001".to_string(), "2".to_string(), "30".to_string()];
    let response = execute_on(&kindai_files(), &args, today);
    assert_eq!(response.result, "Error: target date is invalid.");
}

#[test]
fn execute_on_reports_malformed_definition_files() {
    let today = d(2026, 1, 15);
    let files = vec![SourceFile {
        stem: "001_bad".to_string(),
        contents: "明治,1868_01-25,1912-07-29\n".to_string(),
    }];
    let args = vec!["1920".to_string(), "5".to_string(), "3".to_string()];
    let response = execute_on(&files, &args, today);
    assert_eq!(
        response.result,
        "Error: date format is invalid. the format is '%Y-%m-%d' or '****' (current date)"
    );

    let files = vec![SourceFile {
        stem: "001_bad".to_string(),
        contents: "明治,1868-01-25\n".to_string(),
    }];
    let response = execute_on(&files, &args, today);
    assert_eq!(
        response.result,
        "Error: line format is invalid. the format is 'gengou,%Y-%m-%d,%Y-%m-%d'."
    );
}

#[test]
fn execute_on_yields_empty_result_without_matches() {
    let today = d(2026, 1, 15);
    let args = vec!["1800".to_string(), "5".to_string(), "3".to_string()];
    let response = execute_on(&kindai_files(), &args, today);
    assert_eq!(response.result, "");
    assert!(response.values.is_empty());
}

#[test]
fn execute_on_clamps_future_dates_but_keeps_requested_year() {
    let today = d(2026, 1, 15);
    let args = vec!["9000".to_string(), "1".to_string(), "1".to_string()];
    let response = execute_on(&kindai_files(), &args, today);
    assert_eq!(response.result, "令和6982年1月1日");
}

#[test]
fn execute_on_mode_bang_resolves_the_literal_date() {
    let today = d(2026, 1, 15);
    let args = vec![
        "9000".to_string(),
        "1".to_string(),
        "1".to_string(),
        "!".to_string(),
    ];
    let response = execute_on(&kindai_files(), &args, today);
    assert_eq!(response.result, "");
    assert!(response.values.is_empty());
}

#[test]
fn execute_on_mode_k_renders_traditional_numerals() {
    let today = d(2026, 1, 15);
    let args = vec![
        "1920".to_string(),
        "5".to_string(),
        "3".to_string(),
        "k".to_string(),
    ];
    let response = execute_on(&kindai_files(), &args, today);
    assert_eq!(response.result, "大正九年五月三日");
}

#[test]
fn execute_on_selector_picks_one_tradition() {
    let today = d(2026, 1, 15);
    let files = vec![
        SourceFile {
            stem: "002_nantyou".to_string(),
            contents: "元徳,1329-09-30,1394-08-10\n".to_string(),
        },
        SourceFile {
            stem: "002_hokutyou".to_string(),
            contents: "元徳,1329-09-30,1394-08-10\n".to_string(),
        },
    ];
    let args = vec![
        "1340".to_string(),
        "6".to_string(),
        "2".to_string(),
        "Gi*".to_string(),
        "n".to_string(),
    ];
    let response = execute_on(&files, &args, today);
    assert_eq!(response.result, "元徳12年6月2日");
    assert_eq!(
        response.values,
        vec![
            "元徳12年6月2日".to_string(),
            "1329-09-30_1394-08-10_n".to_string(),
        ]
    );
}

#[test]
fn execute_uses_the_system_clock_for_the_sentinel() {
    let files = vec![SourceFile {
        stem: "001_x".to_string(),
        contents: "x,1900-01-01,****\n".to_string(),
    }];
    let args = vec!["1950".to_string(), "6".to_string(), "15".to_string()];
    let response = execute(&files, &args);
    assert_eq!(response.result, "x51年6月15日");
}

#[test]
fn integer_parsing_error_variants() {
    assert_eq!(parse_u32("4294967295"), Ok(4294967295));
    assert_eq!(parse_u32("4294967296"), Err(IntError::PosOverflow));
    assert_eq!(parse_u32(""), Err(IntError::Empty));
    assert_eq!(parse_u32("-1"), Err(IntError::InvalidDigit));
    assert_eq!(parse_u32("+12"), Ok(12));
    assert_eq!(parse_i32("-2147483648"), Ok(-2147483648));
    assert_eq!(parse_i32("-2147483649"), Err(IntError::NegOverflow));
    assert_eq!(parse_i32("2147483648"), Err(IntError::PosOverflow));
    assert_eq!(parse_i32("+"), Err(IntError::InvalidDigit));
    assert_eq!(
        IntError::NegOverflow.message(),
        "number too small to fit in target type"
    );
}
