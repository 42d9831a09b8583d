use gengou::date::Date;
use gengou::span::{
    get_initial_char_after_underbar, insertion_sort, is_target_filestem, load_spans,
    parse_contents, parse_datetime, parse_line, parse_span_list_file, NaiveDateSpan, SourceFile,
    Span,
};

fn d(y: i32, m: u32, day: u32) -> Date {
    Date::new(y, m, day)
}

#[test]
fn return_true_if_it_is_target_filename() {
    assert!(is_target_filestem("001_asuka_nara_heian"));
}

#[test]
fn return_false_if_it_does_not_start_with_0() {
    assert!(!is_target_filestem("1_asuka_nara_heian"));
}

#[test]
fn return_false_if_it_does_not_contain_underbar() {
    assert!(!is_target_filestem("001-asuka-nara-heian"));
}

#[test]
fn return_false_if_there_are_no_char_next_underbar() {
    assert!(!is_target_filestem("001_"));
}

#[test]
fn return_char_when_next_char_exists() {
    let result = get_initial_char_after_underbar("001_asuka_nara_heian");
    assert_eq!(result, Some('a'));
}

#[test]
fn return_none_when_next_char_does_not_exist() {
    let result = get_initial_char_after_underbar("001_");
    assert_eq!(result, None);
}

#[test]
fn when_last_greater_then_value() {
    let mut list = vec![2, 4, 6];
    let value = 5;
    let method = |v1: &i32, v2: &i32| v1 < v2;

    insertion_sort(&mut list, value, method);

    assert_eq!(list, vec![2, 4, 5, 6]);
}

#[test]
fn when_last_less_then_value() {
    let mut list = vec![2, 4, 6];
    let value = 7;
    let method = |v1: &i32, v2: &i32| v1 < v2;

    insertion_sort(&mut list, value, method);

    assert_eq!(list, vec![2, 4, 6, 7]);
}

#[test]
fn when_first_greater_then_value() {
    let mut list = vec![2, 4, 6];
    let value = 1;
    let method = |v1: &i32, v2: &i32| v1 < v2;

    insertion_sort(&mut list, value, method);

    assert_eq!(list, vec![1, 2, 4, 6]);
}

#[test]
fn when_first_less_then_value() {
    let mut list = vec![2, 4, 6];
    let value = 3;
    let method = |v1: &i32, v2: &i32| v1 < v2;

    insertion_sort(&mut list, value, method);

    assert_eq!(list, vec![2, 3, 4, 6]);
}

#[test]
fn stable_insertion_keeps_equal_keys_in_arrival_order() {
    let mut list = vec![(4, "a"), (4, "b")];
    let value = (4, "c");
    let method = |v1: &(i32, &str), v2: &(i32, &str)| v1.0 < v2.0;

    insertion_sort(&mut list, value, method);

    assert_eq!(list, vec![(4, "a"), (4, "b"), (4, "c")]);
}

#[test]
fn equal_interval_records_keep_line_order() {
    let case = "first,0100-01-01,0200-01-01\n\
                second,0100-01-01,0200-01-01\n\
                third,0100-01-01,0200-01-01\n";
    let (span, spans) = parse_contents(case, d(2026, 1, 15)).unwrap().unwrap();

    assert_eq!(span.start(), &d(100, 1, 1));
    assert_eq!(span.end(), &d(200, 1, 1));
    let names: Vec<&str> = spans.iter().map(|s| s.gengou()).collect();
    assert_eq!(names, vec!["first", "second", "third"]);
}

#[test]
fn success_when_valid_format_str() {
    let today = d(2026, 1, 15);
    let result = parse_datetime("645-08-01", today).unwrap();
    assert_eq!(result.year, 645);
    assert_eq!(result.month, 8);
    assert_eq!(result.day, 1);

    let result = parse_datetime("0645-08-01", today).unwrap();
    assert_eq!(result.year, 645);
    assert_eq!(result.month, 8);
    assert_eq!(result.day, 1);
}

#[test]
fn success_when_valid_current_date_str() {
    let today = d(2026, 1, 15);
    let result = parse_datetime("****", today).unwrap();
    assert_eq!(result, today);
}

#[test]
fn failed_when_invalid_alphabetic_format_str() {
    assert!(parse_datetime("aaa-bb-cc", d(2026, 1, 15)).is_err());
}

#[test]
fn failed_when_invalid_symbol_format_str() {
    assert!(parse_datetime("645_08_01", d(2026, 1, 15)).is_err());
}

#[test]
fn rejects_calendar_invalid_dates() {
    let today = d(2026, 1, 15);
    assert!(parse_datetime("2001-02-29", today).is_err());
    assert!(parse_datetime("2000-02-29", today).is_ok());
    assert!(parse_datetime("2001-13-01", today).is_err());
    assert!(parse_datetime("2001-00-01", today).is_err());
    assert!(parse_datetime("2001-04-31", today).is_err());
}

#[test]
fn success_and_return_none_when_only_comment() {
    let case = " // comment";
    let result = parse_line(case, d(2026, 1, 15)).unwrap();
    assert!(result.is_none());
}

#[test]
fn success_and_return_none_when_empty_line() {
    let case = "";
    let result = parse_line(case, d(2026, 1, 15)).unwrap();
    assert!(result.is_none());
}

#[test]
fn success_and_return_some_when_valid_line() {
    let today = d(2026, 1, 15);
    let case = ",655-02-15,686-08-17 // comment";
    let result = parse_line(case, today).unwrap().unwrap();
    assert_eq!(result.gengou(), "");
    assert_eq!(result.span().start(), &d(655, 2, 15));
    assert_eq!(result.span().end(), &d(686, 8, 17));

    let case = "大化,645-08-01,650-03-25";
    let result = parse_line(case, today).unwrap().unwrap();
    assert_eq!(result.gengou(), "大化");
    assert_eq!(result.span().start(), &d(645, 8, 1));
    assert_eq!(result.span().end(), &d(650, 3, 25));
}

#[test]
fn failed_when_invalid_lines_parts() {
    let case = ",655-02-15";
    assert!(parse_line(case, d(2026, 1, 15)).is_err());
}

#[test]
fn failed_when_invalid_dateformat() {
    let case = ",655-02-15,686_08-17";
    assert!(parse_line(case, d(2026, 1, 15)).is_err());
}

#[test]
fn line_round_trip_reverses_swapped_endpoints() {
    let today = d(2026, 1, 15);
    let forward = parse_line("寿永,1182-06-29,1184-05-27", today).unwrap().unwrap();
    assert_eq!(forward.gengou(), "寿永");
    assert_eq!(forward.span().start(), &d(1182, 6, 29));
    assert_eq!(forward.span().end(), &d(1184, 5, 27));

    let reversed = parse_line("寿永,1184-05-27,1182-06-29", today).unwrap().unwrap();
    assert_eq!(reversed.gengou(), "寿永");
    assert_eq!(reversed.span().start(), &d(1182, 6, 29));
    assert_eq!(reversed.span().end(), &d(1184, 5, 27));
}

#[test]
fn success_when_valid_contents() {
    let case = r#"// 1868-10-23_****
    // コメント
    // 書式:
    // 元号(なかった時期は空文字),yyyy-mm-dd(始期),yyyy-mm-dd(終期)(改行)
    // 先頭から順に処理されます
    // ユリウス暦であった1573-08-25以前の日付は、グレゴリオ暦に変換してあります。
    // 明治以降
    明治,1868-01-25,1912-07-29
    大正,1912-07-30,1926-12-24
    昭和,1926-12-25,1989-01-07
    平成,1989-01-08,2019-04-30
    令和,2019-05-01,****
    "#;
    let now = d(2026, 1, 15);
    let (span, spans) = parse_contents(case, now).unwrap().unwrap();

    assert_eq!(span.start(), &d(1868, 1, 25));
    assert_eq!(span.end(), &now);

    let expect = vec![
        Span::new("明治".to_string(), d(1868, 1, 25), d(1912, 7, 29)),
        Span::new("大正".to_string(), d(1912, 7, 30), d(1926, 12, 24)),
        Span::new("昭和".to_string(), d(1926, 12, 25), d(1989, 1, 7)),
        Span::new("平成".to_string(), d(1989, 1, 8), d(2019, 4, 30)),
        Span::new("令和".to_string(), d(2019, 5, 1), now),
    ];

    assert_eq!(spans.len(), expect.len());
    for (r, e) in spans.iter().zip(expect.iter()) {
        assert_eq!(r.gengou(), e.gengou());
        assert_eq!(r.span().start(), e.span().start());
        assert_eq!(r.span().end(), e.span().end());
    }
}

#[test]
fn success_when_valid_randomize_contents() {
    let case = r#"
令和,****,2019-05-01
平成,2019-04-30,1989-01-08
明治,1912-07-29,1868-01-25
昭和,1989-01-07,1926-12-25
大正,1926-12-24,1912-07-30
    "#;
    let now = d(2026, 1, 15);
    let (span, spans) = parse_contents(case, now).unwrap().unwrap();

    assert_eq!(span.start(), &d(1868, 1, 25));
    assert_eq!(span.end(), &now);

    let expect = vec![
        Span::new("明治".to_string(), d(1868, 1, 25), d(1912, 7, 29)),
        Span::new("大正".to_string(), d(1912, 7, 30), d(1926, 12, 24)),
        Span::new("昭和".to_string(), d(1926, 12, 25), d(1989, 1, 7)),
        Span::new("平成".to_string(), d(1989, 1, 8), d(2019, 4, 30)),
        Span::new("令和".to_string(), d(2019, 5, 1), now),
    ];

    assert_eq!(spans.len(), expect.len());
    for (r, e) in spans.iter().zip(expect.iter()) {
        assert_eq!(r.gengou(), e.gengou());
        assert_eq!(r.span().start(), e.span().start());
        assert_eq!(r.span().end(), e.span().end());
    }
}

#[test]
fn failed_when_containing_invalid_line() {
    let case = r#"
令和,2019-05-01,****
平成,1989-01-08,2019-04-30
明治,1868_01-25,1912-07-29
昭和,1926-12-25,1989-01-07
大正,1912-07-30,1926-12-24
    "#;
    assert!(parse_contents(case, d(2026, 1, 15)).is_err());
}

#[test]
fn success_and_return_none_when_empty_data() {
    let case = r#"
// 令和,2019-05-01,****
//平成,1989-01-08,2019-04-30
//明治,1868-01-25,1912-07-29
//昭和,1926-12-25,1989-01-07
//大正,1912-07-30,1926-12-24
    "#;
    assert!(parse_contents(case, d(2026, 1, 15)).unwrap().is_none());
}

fn nantyou_contents() -> &'static str {
    "元徳,1329-09-30,1331-09-18\n\
     元弘,1331-09-18,1334-03-13\n\
     建武,1334-03-13,1336-04-19\n\
     延元,1336-04-19,1340-06-02\n\
     興国,1340-06-02,1347-01-28\n\
     正平,1347-01-28,1370-08-24\n\
     建徳,1370-08-24,1372-05-09\n\
     文中,1372-05-09,1375-07-04\n\
     天授,1375-07-04,1381-03-14\n\
     弘和,1381-03-14,1384-05-26\n\
     元中,1384-05-26,1392-11-27\n\
     明徳,1392-11-27,1394-08-10\n"
}

#[test]
fn success_when_valid_path_to_file() {
    let today = d(2026, 1, 15);
    let result = parse_span_list_file("002_nantyou", nantyou_contents(), today)
        .unwrap()
        .unwrap();

    assert_eq!(result.initial(), &'n');
    assert_eq!(result.span().start(), &d(1329, 9, 30));
    assert_eq!(result.span().end(), &d(1394, 8, 10));

    let expect = vec![
        Span::new("元徳".to_string(), d(1329, 9, 30), d(1331, 9, 18)),
        Span::new("元弘".to_string(), d(1331, 9, 18), d(1334, 3, 13)),
        Span::new("建武".to_string(), d(1334, 3, 13), d(1336, 4, 19)),
        Span::new("延元".to_string(), d(1336, 4, 19), d(1340, 6, 2)),
        Span::new("興国".to_string(), d(1340, 6, 2), d(1347, 1, 28)),
        Span::new("正平".to_string(), d(1347, 1, 28), d(1370, 8, 24)),
        Span::new("建徳".to_string(), d(1370, 8, 24), d(1372, 5, 9)),
        Span::new("文中".to_string(), d(1372, 5, 9), d(1375, 7, 4)),
        Span::new("天授".to_string(), d(1375, 7, 4), d(1381, 3, 14)),
        Span::new("弘和".to_string(), d(1381, 3, 14), d(1384, 5, 26)),
        Span::new("元中".to_string(), d(1384, 5, 26), d(1392, 11, 27)),
        Span::new("明徳".to_string(), d(1392, 11, 27), d(1394, 8, 10)),
    ];

    assert_eq!(result.spans().len(), expect.len());
    for (r, e) in result.spans().iter().zip(expect.iter()) {
        assert_eq!(r.gengou(), e.gengou());
        assert_eq!(r.span().start(), e.span().start());
        assert_eq!(r.span().end(), e.span().end());
    }
}

#[test]
fn success_when_valid_path_to_file_checking_value() {
    let today = d(2026, 1, 15);
    let contents = "元徳,1329-09-30,1332-05-23\n明徳,1390-04-12,1394-08-10\n";
    let result = parse_span_list_file("002_hokutyou", contents, today).unwrap().unwrap();

    assert_eq!(result.initial(), &'h');
    assert_eq!(result.span().start(), &d(1329, 9, 30));
    assert_eq!(result.span().end(), &d(1394, 8, 10));
}

#[test]
fn success_and_return_none_when_the_file_is_not_target() {
    let today = d(2026, 1, 15);
    let result = parse_span_list_file("README", "some text", today).unwrap();
    assert!(result.is_none());
}

#[test]
fn load_merges_groups_sharing_one_interval() {
    let today = d(2026, 1, 15);
    let files = vec![
        SourceFile {
            stem: "001_asuka".to_string(),
            contents: "大化,0645-08-01,0650-03-25\n白雉,0650-03-25,0655-02-15\n".to_string(),
        },
        SourceFile {
            stem: "002_nantyou".to_string(),
            contents: nantyou_contents().to_string(),
        },
        SourceFile {
            stem: "002_hokutyou".to_string(),
            contents: "元徳,1329-09-30,1332-05-23\n明徳,1390-04-12,1394-08-10\n".to_string(),
        },
        SourceFile {
            stem: "notes".to_string(),
            contents: "irrelevant".to_string(),
        },
    ];
    let result = load_spans(&files, today).unwrap();

    assert_eq!(result.len(), 2);
    assert_eq!(result[0].0, NaiveDateSpan::new(d(645, 8, 1), d(655, 2, 15)));
    assert_eq!(result[0].1.len(), 1);
    assert_eq!(result[0].1[0].initial(), &'a');
    assert_eq!(
        result[1].0,
        NaiveDateSpan::new(d(1329, 9, 30), d(1394, 8, 10))
    );
    assert_eq!(result[1].1.len(), 2);
    assert_eq!(result[1].1[0].initial(), &'h');
    assert_eq!(result[1].1[1].initial(), &'n');
}

#[test]
fn load_overwrites_group_with_same_interval_and_initial() {
    let today = d(2026, 1, 15);
    let files = vec![
        SourceFile {
            stem: "001_x".to_string(),
            contents: "first,0100-01-01,0200-01-01\n".to_string(),
        },
        SourceFile {
            stem: "002_x".to_string(),
            contents: "second,0100-01-01,0200-01-01\n".to_string(),
        },
    ];
    let result = load_spans(&files, today).unwrap();

    assert_eq!(result.len(), 1);
    assert_eq!(result[0].1.len(), 1);
    assert_eq!(result[0].1[0].spans()[0].gengou(), "second");
}

#[test]
fn load_propagates_format_errors() {
    let today = d(2026, 1, 15);
    let files = vec![SourceFile {
        stem: "001_x".to_string(),
        contents: "only-one-field\n".to_string(),
    }];
    assert!(load_spans(&files, today).is_err());
}
