use gengou::date::Date;
use gengou::search::{search_from_array, search_from_list, SearchedSpanList};
use gengou::span::{NaiveDateSpan, Span, SpanList, SpanListArray};

fn d(y: i32, m: u32, day: u32) -> Date {
    Date::new(y, m, day)
}

fn sp(name: &str, start: Date, end: Date) -> Span {
    Span::new(name.to_string(), start, end)
}

fn case_list() -> Vec<Span> {
    vec![
        sp("a", d(100, 1, 1), d(200, 1, 1)),
        sp("b", d(200, 1, 1), d(300, 1, 1)),
        sp("c", d(300, 1, 1), d(400, 1, 1)),
        sp("d", d(500, 1, 1), d(600, 1, 1)),
        sp("e", d(700, 1, 1), d(800, 1, 1)),
        sp("f", d(900, 1, 1), d(1000, 1, 1)),
    ]
}

fn case_list_upper() -> Vec<Span> {
    vec![
        sp("A", d(100, 1, 1), d(200, 1, 1)),
        sp("B", d(200, 1, 1), d(300, 1, 1)),
        sp("C", d(300, 1, 1), d(400, 1, 1)),
        sp("D", d(500, 1, 1), d(600, 1, 1)),
        sp("E", d(700, 1, 1), d(800, 1, 1)),
        sp("F", d(900, 1, 1), d(1000, 1, 1)),
    ]
}

fn two_group_array() -> (NaiveDateSpan, SpanListArray) {
    let date_span = NaiveDateSpan::new(d(100, 1, 1), d(1000, 1, 1));
    let groups = vec![
        SpanList::new(date_span, 'a', case_list()),
        SpanList::new(date_span, 'b', case_list_upper()),
    ];
    (date_span, vec![(date_span, groups)])
}

#[test]
fn return_single_element_when_only_one_element_matches() {
    let (date_span, array) = two_group_array();
    let date = d(150, 1, 1);
    let selector = vec!["b".to_string()];

    let result = search_from_array(&array, &date, &selector);

    let expect: SearchedSpanList =
        vec![(date_span, 'b', vec![sp("A", d(100, 1, 1), d(200, 1, 1))])];
    assert_eq!(result, expect);
}

#[test]
fn return_multiple_elements_when_all_elements_match() {
    let (date_span, array) = two_group_array();
    let date = d(150, 1, 1);
    let selector = vec!["*".to_string()];

    let result = search_from_array(&array, &date, &selector);

    let expect: SearchedSpanList = vec![
        (date_span, 'a', vec![sp("a", d(100, 1, 1), d(200, 1, 1))]),
        (date_span, 'b', vec![sp("A", d(100, 1, 1), d(200, 1, 1))]),
    ];
    assert_eq!(result, expect);
}

#[test]
fn return_multiple_elements_when_selector_default() {
    let (date_span, array) = two_group_array();
    let date = d(150, 1, 1);
    let selector: Vec<String> = vec![];

    let result = search_from_array(&array, &date, &selector);

    let expect: SearchedSpanList = vec![
        (date_span, 'a', vec![sp("a", d(100, 1, 1), d(200, 1, 1))]),
        (date_span, 'b', vec![sp("A", d(100, 1, 1), d(200, 1, 1))]),
    ];
    assert_eq!(result, expect);
}

#[test]
fn multi_character_token_matches_several_initials() {
    let (date_span, array) = two_group_array();
    let date = d(150, 1, 1);

    let both = search_from_array(&array, &date, &vec!["ab".to_string()]);
    let expect: SearchedSpanList = vec![
        (date_span, 'a', vec![sp("a", d(100, 1, 1), d(200, 1, 1))]),
        (date_span, 'b', vec![sp("A", d(100, 1, 1), d(200, 1, 1))]),
    ];
    assert_eq!(both, expect);

    let none = search_from_array(&array, &date, &vec!["x".to_string()]);
    assert_eq!(none, vec![]);

    let empty_token = search_from_array(&array, &date, &vec!["".to_string()]);
    assert_eq!(empty_token, expect);
}

#[test]
fn date_outside_every_entry_yields_nothing() {
    let (_, array) = two_group_array();
    let result = search_from_array(&array, &d(1200, 1, 1), &vec![]);
    assert_eq!(result, vec![]);
}

#[test]
fn return_single_element_when_only_one_element_matches_middle() {
    let case_list = case_list();

    let result = search_from_list(&case_list, &d(350, 1, 1));

    assert_eq!(result, vec![sp("c", d(300, 1, 1), d(400, 1, 1))]);
}

#[test]
fn return_multiple_elements_when_multiple_elements_match_border() {
    let case_list = case_list();

    let result = search_from_list(&case_list, &d(300, 1, 1));

    assert_eq!(
        result,
        vec![
            sp("b", d(200, 1, 1), d(300, 1, 1)),
            sp("c", d(300, 1, 1), d(400, 1, 1)),
        ]
    );
}

#[test]
fn return_single_element_when_only_element_matches_border_start() {
    let case_list = case_list();

    let result = search_from_list(&case_list, &d(500, 1, 1));

    assert_eq!(result, vec![sp("d", d(500, 1, 1), d(600, 1, 1))]);
}

#[test]
fn return_single_element_when_only_element_matches_border_start_top() {
    let case_list = case_list();

    let result = search_from_list(&case_list, &d(100, 1, 1));

    assert_eq!(result, vec![sp("a", d(100, 1, 1), d(200, 1, 1))]);
}

#[test]
fn return_single_element_when_only_element_matches_border_start_bottom() {
    let case_list = case_list();

    let result = search_from_list(&case_list, &d(1000, 1, 1));

    assert_eq!(result, vec![sp("f", d(900, 1, 1), d(1000, 1, 1))]);
}

#[test]
fn return_single_element_when_only_element_matches_border_end() {
    let case_list = case_list();

    let result = search_from_list(&case_list, &d(600, 1, 1));

    assert_eq!(result, vec![sp("d", d(500, 1, 1), d(600, 1, 1))]);
}

#[test]
fn return_nothing_when_no_match_spans_middle() {
    let case_list = case_list();

    let result = search_from_list(&case_list, &d(450, 1, 1));

    assert_eq!(result, vec![]);
}

#[test]
fn return_nothing_when_no_match_spans_top() {
    let case_list = case_list();

    let result = search_from_list(&case_list, &d(50, 1, 1));

    assert_eq!(result, vec![]);
}

#[test]
fn return_nothing_when_no_match_spans_bottom() {
    let case_list = case_list();

    let result = search_from_list(&case_list, &d(1100, 1, 1));

    assert_eq!(result, vec![]);
}
