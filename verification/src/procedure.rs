//! The caller-facing procedure layer: the load/unload/version entry points
//! and the execute request that resolves one query date against the era
//! definitions.

use crate::date::{current_date, date_le, date_lt, valid_ymd, ymd_is_valid, Date};
use crate::represent::{displays_from, represent_by_gregorian, representable, tags_from};
use crate::search::{
    lemma_search_from_dates, search_from_array, search_spec, searched_view, selector_views,
    started_by,
};
use crate::span::{
    date_from_load, files_view, load_spans, load_spans_spec, parse_error_message,
    timeline_dates_ok, timeline_view, timeline_wf, NaiveDateSpan, SourceFile, SpanListView,
};
use crate::text::{
    contains_char, int_error_message, parse_i32, parse_i32_spec, parse_u32, parse_u32_spec,
    split_at_char, split_on_char, strings_view,
};
use vstd::prelude::*;
use vstd::string::{StrSliceExecFns, StringExecFns};

verus! {

/// Called when the host loads the module; nothing to prepare.
pub fn load(_path: &str) {
}

/// Called when the host unloads the module; nothing to release.
pub fn unload(_path: &str) {
}

/// The version identity of the library.
pub open spec fn version_spec() -> Seq<char> {
    "0.1.0"@
}

/// The semantic-version string of the library.
pub fn get_version() -> (r: String)
    ensures
        r@ == version_spec(),
{
    "0.1.0".to_owned()
}

/// The reply to one request: the primary result text, and — when at least
/// one match exists — the two comma-joined value lists (all display
/// strings, all span tags).
pub struct ExecuteResponse {
    pub result: String,
    pub values: Vec<String>,
}

/// The mathematical value of a response.
pub open spec fn response_view(r: ExecuteResponse) -> (Seq<char>, Seq<Seq<char>>) {
    (r.result@, strings_view(r.values@))
}

/// `Error: ` followed by the failure's message.
pub open spec fn error_text(msg: Seq<char>) -> Seq<char> {
    "Error: "@ + msg
}

/// The comma-joined concatenation of a list of strings.
pub open spec fn join_comma_spec(items: Seq<Seq<char>>) -> Seq<char>
    decreases items.len(),
{
    if items.len() == 0 {
        Seq::<char>::empty()
    } else if items.len() == 1 {
        items[0]
    } else {
        items[0] + seq![','] + join_comma_spec(items.drop_first())
    }
}

proof fn lemma_join_push(items: Seq<Seq<char>>, x: Seq<char>)
    ensures
        join_comma_spec(items.push(x)) == if items.len() == 0 {
            x
        } else {
            join_comma_spec(items) + seq![','] + x
        },
    decreases items.len(),
{
    if items.len() == 0 {
        assert(items.push(x)[0] == x);
        assert(join_comma_spec(items.push(x)) == x);
    } else {
        assert(items.push(x).drop_first() =~= items.drop_first().push(x));
        lemma_join_push(items.drop_first(), x);
        if items.len() == 1 {
            assert(join_comma_spec(items) == items[0]);
        }
    }
}

/// Joins strings with a comma between them, as `[String]::join(",")`.
#[verifier::loop_isolation(false)]
pub fn join_comma(items: &Vec<String>) -> (r: String)
    ensures
        r@ == join_comma_spec(strings_view(items@)),
{
    let ghost iv = strings_view(items@);
    let mut r = String::new();
    let mut i: usize = 0;
    while i < items.len()
        invariant
            0 <= i <= items@.len(),
            r@ == join_comma_spec(iv.take(i as int)),
        decreases items@.len() - i,
    {
        if i > 0 {
            r.append(",");
        }
        r.append(items[i].as_str());
        proof {
            reveal_strlit(",");
            assert(iv.take(i as int).push(iv[i as int]) =~= iv.take(i + 1));
            lemma_join_push(iv.take(i as int), iv[i as int]);
            assert(","@ =~= seq![',']);
        }
        i += 1;
    }
    proof {
        assert(iv.take(iv.len() as int) =~= iv);
    }
    r
}

/// The full request semantics: build the timeline from the definition
/// files, read the year, month and day arguments, apply the mode token and
/// the selector, search — clamping a future query to today when the mode
/// allows — and render the matches against the requested date itself.
pub open spec fn execute_spec(
    files: Seq<(Seq<char>, Seq<char>)>,
    args: Seq<Seq<char>>,
    today: Date,
) -> (Seq<char>, Seq<Seq<char>>) {
    match load_spans_spec(files, today) {
        Err(e) => (error_text(parse_error_message(e)), seq![]),
        Ok(tl) => if args.len() < 3 {
            ("Error: arguments are not enough. arguments are required >= 3."@, seq![])
        } else {
            match parse_i32_spec(args[0]) {
                Err(e) => (error_text(int_error_message(e)), seq![]),
                Ok(y) => match parse_u32_spec(args[1]) {
                    Err(e) => (error_text(int_error_message(e)), seq![]),
                    Ok(m) => match parse_u32_spec(args[2]) {
                        Err(e) => (error_text(int_error_message(e)), seq![]),
                        Ok(d) => if !valid_ymd(y, m, d) {
                            ("Error: target date is invalid."@, seq![])
                        } else {
                            execute_resolved_spec(tl, args, today, Date {
                                year: y as i32,
                                month: m as u32,
                                day: d as u32,
                            })
                        },
                    },
                },
            }
        },
    }
}

/// The semantics of a request whose timeline and date already parsed: mode,
/// selector, clamped search and rendering.
pub open spec fn execute_resolved_spec(
    tl: Seq<(NaiveDateSpan, Seq<SpanListView>)>,
    args: Seq<Seq<char>>,
    today: Date,
    date: Date,
) -> (Seq<char>, Seq<Seq<char>>) {
    let mode = if args.len() > 3 {
        args[3]
    } else {
        "Gi*"@
    };
    let future_clamp = if mode.contains('*') {
        true
    } else if mode.contains('!') {
        false
    } else {
        true
    };
    let kansuuji_mode = if mode.contains('i') {
        false
    } else if mode.contains('k') {
        true
    } else {
        false
    };
    let sel = split_at_char(
        if args.len() > 4 {
            args[4]
        } else {
            Seq::<char>::empty()
        },
        '_',
    );
    let target = if future_clamp && date_lt(today, date) {
        today
    } else {
        date
    };
    let hits = search_spec(tl, target, sel);
    let dates = displays_from(hits, date, kansuuji_mode, 0);
    let tags = tags_from(hits, 0);
    let result = if dates.len() > 0 {
        dates[0]
    } else {
        Seq::<char>::empty()
    };
    let joined = join_comma_spec(dates);
    if joined.len() > 0 {
        (result, seq![joined, join_comma_spec(tags)])
    } else {
        (result, seq![])
    }
}

fn error_response(msg: &str) -> (r: ExecuteResponse)
    ensures
        response_view(r) == (error_text(msg@), Seq::<Seq<char>>::empty()),
{
    let mut text = "Error: ".to_owned();
    text.append(msg);
    let r = ExecuteResponse { result: text, values: Vec::new() };
    proof {
        assert(strings_view(r.values@) =~= Seq::<Seq<char>>::empty());
    }
    r
}

/// Handles one request against already-read definition files, the
/// positional argument list, and the date standing for today.
pub fn execute_on(files: &Vec<SourceFile>, args: &Vec<String>, today: Date) -> (r:
    ExecuteResponse)
    requires
        -262143 <= today.year <= 262142,
    ensures
        response_view(r) == execute_spec(files_view(files@), strings_view(args@), today),
{
    let ghost fv = files_view(files@);
    let ghost av = strings_view(args@);
    let span_list_array = match load_spans(files, today) {
        Ok(t) => t,
        Err(e) => {
            return error_response(e.message());
        },
    };
    let ghost tl = timeline_view(span_list_array@);
    if args.len() < 3 {
        let r = ExecuteResponse {
            result: "Error: arguments are not enough. arguments are required >= 3.".to_owned(),
            values: Vec::new(),
        };
        proof {
            assert(strings_view(r.values@) =~= Seq::<Seq<char>>::empty());
            assert(Seq::<Seq<char>>::empty() =~= seq![]);
        }
        return r;
    }
    proof {
        assert(av[0] == args@[0]@ && av[1] == args@[1]@ && av[2] == args@[2]@);
    }
    let year = match parse_i32(args[0].as_str()) {
        Ok(v) => v,
        Err(e) => {
            return error_response(e.message());
        },
    };
    let month = match parse_u32(args[1].as_str()) {
        Ok(v) => v,
        Err(e) => {
            return error_response(e.message());
        },
    };
    let day = match parse_u32(args[2].as_str()) {
        Ok(v) => v,
        Err(e) => {
            return error_response(e.message());
        },
    };
    if !ymd_is_valid(year, month, day) {
        let r = ExecuteResponse {
            result: "Error: target date is invalid.".to_owned(),
            values: Vec::new(),
        };
        proof {
            assert(strings_view(r.values@) =~= Seq::<Seq<char>>::empty());
            assert(Seq::<Seq<char>>::empty() =~= seq![]);
        }
        return r;
    }
    let date = Date::new(year, month, day);
    let mode: &str = if args.len() > 3 {
        args[3].as_str()
    } else {
        "Gi*"
    };
    proof {
        assert(args@.len() > 3 ==> mode@ == av[3]);
    }
    let mut should_search_future = true;
    if contains_char(mode, '*') {
        should_search_future = true;
    } else if contains_char(mode, '!') {
        should_search_future = false;
    }
    let mut is_kansuuji = false;
    if contains_char(mode, 'i') {
        is_kansuuji = false;
    } else if contains_char(mode, 'k') {
        is_kansuuji = true;
    }
    let selector_text: &str = if args.len() > 4 {
        args[4].as_str()
    } else {
        ""
    };
    proof {
        reveal_strlit("");
        assert(""@ =~= Seq::<char>::empty());
        assert(args@.len() > 4 ==> selector_text@ == av[4]);
    }
    let selector = split_on_char(selector_text, '_');
    let search_target = if should_search_future && today.lt(&date) {
        today
    } else {
        date
    };
    let hits = search_from_array(&span_list_array, &search_target, &selector);
    let ghost sel = selector_views(selector@);
    let ghost hview = searched_view(hits@);
    proof {
        lemma_search_from_dates(tl, search_target, sel, 0, today);
        assert forall|i: int, k: int|
            0 <= i < hview.len() && 0 <= k < hview[i].2.len() implies (
        #[trigger] hview[i].2[k]).span.start.year <= date.year && date.year - hview[i].2[
            k].span.start.year + 1 <= u32::MAX by {
            assert(started_by(hview[i].2[k], search_target));
            assert(date_from_load(hview[i].2[k].span.start, today));
            assert(date_le(hview[i].2[k].span.start, search_target));
            if should_search_future && date_lt(today, date) {
                assert(search_target == today);
            } else {
                assert(search_target == date);
            }
        }
        assert(representable(hview, date));
    }
    let (r_dates, r_spans) = represent_by_gregorian(&hits, &date, is_kansuuji);
    let result: String = if r_dates.len() > 0 {
        r_dates[0].clone()
    } else {
        String::new()
    };
    let value_1 = join_comma(&r_dates);
    let value_2 = join_comma(&r_spans);
    proof {
        assert(strings_view(r_dates@) == displays_from(hview, date, is_kansuuji, 0));
        assert(r_dates@.len() > 0 ==> r_dates@[0]@ == strings_view(r_dates@)[0]);
    }
    if value_1.unicode_len() > 0 {
        let r = ExecuteResponse { result, values: vec![value_1, value_2] };
        proof {
            assert(strings_view(r.values@) =~= seq![value_1@, value_2@]);
        }
        r
    } else {
        let r = ExecuteResponse { result, values: Vec::new() };
        proof {
            assert(strings_view(r.values@) =~= Seq::<Seq<char>>::empty());
            assert(Seq::<Seq<char>>::empty() =~= seq![]);
        }
        r
    }
}

/// Handles one request, taking the current local date from the system
/// clock: whatever date the clock reports, the reply follows the request
/// semantics at that date.
pub fn execute(files: &Vec<SourceFile>, args: &Vec<String>) -> (r: ExecuteResponse)
    ensures
        exists|today: Date|
            (-262143 <= today.year <= 262142 && 1 <= today.month <= 12 && 1 <= today.day <= 31)
                && response_view(r) == execute_spec(
                files_view(files@),
                strings_view(args@),
                today,
            ),
{
    let today = current_date();
    let r = execute_on(files, args, today);
    proof {
        assert((-262143 <= today.year <= 262142 && 1 <= today.month <= 12 && 1 <= today.day
            <= 31) && response_view(r) == execute_spec(
            files_view(files@),
            strings_view(args@),
            today,
        ));
    }
    r
}

} // verus!
