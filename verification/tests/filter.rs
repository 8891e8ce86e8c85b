use pt_fuser::analysis::filter::{
    filter_traces, run_filter, times_are_known, try_filter_traces, Filter, Setting,
};
use pt_fuser::analysis::finder::{matching_frames, named_frames, select_frames};
use pt_fuser::trace::{
    BuilderResult, Event, Frame, Metrics, MetricsRange, RootFrame, SymbolInfo, Trace,
    TraceBuilder, TraceError,
};
use regex::Regex;

fn at(n: u64) -> Metrics {
    Metrics {
        ts: n,
        cycles: n,
        insn_count: n,
    }
}

fn range(start: u64, end: u64) -> MetricsRange {
    MetricsRange::new(at(start), at(end))
}

fn symbol(name: &str) -> SymbolInfo {
    SymbolInfo {
        name: name.to_string(),
        offset: 0,
        size: 0,
    }
}

fn builder_of(result: BuilderResult) -> TraceBuilder {
    match result {
        BuilderResult::Builder(builder) => builder,
        BuilderResult::Completed(_) => panic!("Expected builder"),
    }
}

/// main 0..length, with work 10..20 (which calls work_inner 12..14) and idle 30..40,
/// and errors at the given times.
fn sample(length: u64, errors: &[u64]) -> Trace {
    let mut builder = TraceBuilder::new(at(0), symbol("main"));
    builder.new_event(
        TraceError::DataCollectionError.id(),
        "Error".to_string(),
        "Data collection error".to_string(),
    );
    for error in errors {
        builder.event_occured(TraceError::DataCollectionError.id(), at(*error));
    }
    builder.push_frame(at(10), symbol("work"));
    builder.push_frame(at(12), symbol("work_inner"));
    let builder = builder_of(builder.complete_frame(at(14)).unwrap());
    let mut builder = builder_of(builder.complete_frame(at(20)).unwrap());
    builder.push_frame(at(30), symbol("idle"));
    let builder = builder_of(builder.complete_frame(at(40)).unwrap());
    match builder.complete_frame(at(length)).unwrap() {
        BuilderResult::Completed(trace) => trace,
        BuilderResult::Builder(_) => panic!("Expected trace"),
    }
}

fn lengths(traces: &[Trace]) -> Vec<u64> {
    traces
        .iter()
        .map(|trace| trace.root_frame().metrics().total_time())
        .collect()
}

fn filter(text: &str) -> Filter {
    text.parse::<Filter>().unwrap()
}

fn refusal(text: &str) -> String {
    Filter::from_str(text).unwrap_err()
}

#[test]
fn filters_are_read() {
    let read =
        filter("target=^work$,errors_min=1, errors_max=+20 ,duration_min=0,duration_max=18446744073709551615");
    assert_eq!(read.target.unwrap().as_str(), "^work$");
    assert_eq!(read.errors_min, Some(1));
    assert_eq!(read.errors_max, Some(20));
    assert_eq!(read.duration_min, Some(0));
    assert_eq!(read.duration_max, Some(u64::MAX));
}

#[test]
fn what_is_not_set_stays_open() {
    let read = filter("errors_max=4294967295");
    assert!(read.target.is_none());
    assert_eq!(read.errors_min, None);
    assert_eq!(read.errors_max, Some(u32::MAX));
    assert_eq!(read.duration_min, None);
    assert_eq!(read.duration_max, None);
    let open = Filter::default();
    assert!(open.target.is_none());
    assert_eq!(open.errors_max, None);
}

#[test]
fn only_the_first_equals_sign_separates() {
    assert_eq!(filter("target=a=b").target.unwrap().as_str(), "a=b");
    assert_eq!(filter("target=").target.unwrap().as_str(), "");
}

#[test]
fn later_settings_replace_earlier_ones() {
    let read = filter("errors_min=1,errors_max=2,errors_min=3");
    assert_eq!(read.errors_min, Some(3));
    assert_eq!(read.errors_max, Some(2));
}

#[test]
fn parts_without_an_equals_sign_are_refused() {
    assert_eq!(refusal("errors_min"), "Invalid filter part: errors_min");
    assert_eq!(refusal("errors_min=1, \u{3000}x\u{2003}"), "Invalid filter part: x");
}

#[test]
fn a_setting_may_have_its_comma_at_the_end() {
    for text in ["errors_min=1,", "errors_min=1, ", " errors_min=1 ,\t"] {
        let read = filter(text);
        assert!(read.target.is_none());
        assert_eq!(read.errors_min, Some(1));
        assert_eq!(read.errors_max, None);
        assert_eq!(read.duration_min, None);
        assert_eq!(read.duration_max, None);
    }
    let read = filter("target=a, errors_max=2, duration_min=3,");
    assert_eq!(read.target.unwrap().as_str(), "a");
    assert_eq!(read.errors_max, Some(2));
    assert_eq!(read.duration_min, Some(3));
    assert_eq!(filter("errors_max=2,duration_max=4").duration_max, Some(4));
}

#[test]
fn a_blank_text_sets_nothing() {
    for text in ["", " ", "\t\u{3000}"] {
        let read = filter(text);
        assert!(read.target.is_none());
        assert_eq!(read.errors_min, None);
        assert_eq!(read.errors_max, None);
        assert_eq!(read.duration_min, None);
        assert_eq!(read.duration_max, None);
    }
}

#[test]
fn other_blank_parts_are_refused() {
    for text in [
        ",",
        ",errors_min=1",
        "errors_min=1,,",
        "errors_min=1, ,errors_max=2",
        "duration_max=5,",
        "errors_min=1, duration_max=5 , ",
        "errors_max=2,errors_min=1,",
        "errors_min=1,errors_min=1,",
        "duration_max=5,errors_min=1,",
    ] {
        assert_eq!(refusal(text), "Invalid filter part: ");
    }
    let read = filter("errors_max=2,errors_min=1");
    assert_eq!(read.errors_max, Some(2));
    assert_eq!(read.errors_min, Some(1));
    let invalid = "x".parse::<u64>().unwrap_err();
    assert_eq!(
        refusal("duration_max=x,"),
        format!("Invalid number for duration_max: {}", invalid)
    );
}

#[test]
fn unknown_keywords_are_refused() {
    assert_eq!(refusal("colour=red"), "Unknown filter keyword: colour");
    assert_eq!(refusal("errors_min =1"), "Unknown filter keyword: errors_min ");
    assert_eq!(refusal("=1"), "Unknown filter keyword: ");
}

#[test]
fn invalid_numbers_are_refused() {
    let invalid = "".parse::<u32>().unwrap_err().to_string();
    assert_eq!(
        refusal("errors_min="),
        format!("Invalid number for errors_min: {}", invalid)
    );
    let invalid = "1x".parse::<u32>().unwrap_err().to_string();
    assert_eq!(
        refusal("errors_max=1x"),
        format!("Invalid number for errors_max: {}", invalid)
    );
    let large = "4294967296".parse::<u32>().unwrap_err().to_string();
    assert_eq!(
        refusal("errors_min=4294967296"),
        format!("Invalid number for errors_min: {}", large)
    );
    let negative = "-1".parse::<u64>().unwrap_err().to_string();
    assert_eq!(
        refusal("duration_min=-1"),
        format!("Invalid number for duration_min: {}", negative)
    );
    let large = "18446744073709551616".parse::<u64>().unwrap_err().to_string();
    assert_eq!(
        refusal("duration_max=18446744073709551616"),
        format!("Invalid number for duration_max: {}", large)
    );
    assert!(Filter::from_str("duration_min= 1").is_err());
    assert!(Filter::from_str("duration_min=+").is_err());
    assert!(Filter::from_str("duration_min=1_000").is_err());
}

#[test]
fn invalid_targets_are_refused() {
    let error = Regex::new("(").unwrap_err();
    assert_eq!(refusal("target=("), format!("Invalid regex: {}", error));
    assert_eq!(
        Setting::from_target(Err(error.clone())).unwrap_err(),
        format!("Invalid regex: {}", error)
    );
}

#[test]
fn the_first_bad_part_is_reported() {
    assert_eq!(
        refusal("errors_min=1,what,errors_max=x"),
        "Invalid filter part: what"
    );
}

#[test]
fn settings_are_applied() {
    let mut own = Filter::default();
    own.apply(Setting::DurationMax(5));
    own.apply(Setting::ErrorsMin(6));
    own.apply(Setting::Target(Regex::new("x").unwrap()));
    assert_eq!(own.duration_max, Some(5));
    assert_eq!(own.errors_min, Some(6));
    assert_eq!(own.target.unwrap().as_str(), "x");
}

#[test]
fn help_names_every_keyword() {
    for keyword in ["target=regex", "errors_min", "errors_max", "duration_min", "duration_max"] {
        assert!(Filter::HELP.contains(keyword));
    }
    assert!(!Filter::HELP.contains("  "));
}

#[test]
fn an_open_filter_keeps_everything() {
    let traces = vec![sample(50, &[]), sample(60, &[1, 2])];
    assert_eq!(lengths(&filter_traces(traces, &Filter::default())), vec![50, 60]);
}

#[test]
fn bounds_on_time_are_for_the_root_frame() {
    let traces = vec![sample(50, &[]), sample(60, &[]), sample(70, &[])];
    assert_eq!(
        lengths(&filter_traces(traces, &filter("duration_min=60"))),
        vec![60, 70]
    );
    let traces = vec![sample(50, &[]), sample(60, &[]), sample(70, &[])];
    assert_eq!(
        lengths(&filter_traces(traces, &filter("duration_max=60"))),
        vec![50, 60]
    );
}

#[test]
fn bounds_on_time_are_for_every_matching_frame() {
    let keep = |text: &str| lengths(&filter_traces(vec![sample(50, &[])], &filter(text))).len();
    assert_eq!(keep("target=^work$,duration_min=10,duration_max=10"), 1);
    assert_eq!(keep("target=work,duration_min=10"), 0);
    assert_eq!(keep("target=work,duration_min=2"), 1);
    assert_eq!(keep("target=nothing,duration_min=1000"), 1);
}

#[test]
fn errors_are_counted_in_matching_frames() {
    let keep = |text: &str| {
        lengths(&filter_traces(
            vec![sample(50, &[5, 10, 13, 20, 35, 49])],
            &filter(text),
        ))
        .len()
    };
    // In `work` lie 10 and 13; 20 is its end. 13 lies in `work_inner` too.
    assert_eq!(keep("target=work,errors_min=2,errors_max=2"), 1);
    assert_eq!(keep("target=work,errors_min=3"), 0);
    assert_eq!(keep("target=work,errors_max=1"), 0);
    assert_eq!(keep("target=work_inner,errors_min=1,errors_max=1"), 1);
    assert_eq!(keep("target=work|idle,errors_min=3,errors_max=3"), 1);
    assert_eq!(keep("errors_min=6,errors_max=6"), 1);
}

#[test]
fn a_trace_without_the_event_has_no_errors() {
    let build = || match TraceBuilder::new(at(0), symbol("main"))
        .complete_frame(at(9))
        .unwrap()
    {
        BuilderResult::Completed(trace) => trace,
        BuilderResult::Builder(_) => panic!("Expected trace"),
    };
    assert_eq!(filter_traces(vec![build()], &filter("errors_max=0")).len(), 1);
    assert_eq!(filter_traces(vec![build()], &filter("errors_min=1")).len(), 0);
}

#[test]
fn the_order_of_filters_makes_no_difference() {
    let traces = || {
        vec![
            sample(50, &[1]),
            sample(60, &[]),
            sample(70, &[1, 2]),
            sample(80, &[3]),
        ]
    };
    let long = filter("duration_min=60");
    let faulty = filter("errors_min=1");
    let one = filter_traces(filter_traces(traces(), &long), &faulty);
    let other = filter_traces(filter_traces(traces(), &faulty), &long);
    assert_eq!(lengths(&one), vec![70, 80]);
    assert_eq!(lengths(&other), vec![70, 80]);
}

#[test]
fn run_filter_takes_what_it_is_given() {
    let mut errors = Event::new(0, "e".to_string(), "d".to_string());
    for n in [1, 4, 6, 9] {
        errors.add_occurence(at(n));
    }
    let frames = vec![range(0, 5), range(6, 8)];
    let mut own = Filter::default();
    own.errors_min = Some(3);
    own.errors_max = Some(3);
    assert!(run_filter(&frames, &own, Some(&errors)));
    assert!(!run_filter(&frames, &own, None));
    own.duration_min = Some(3);
    assert!(!run_filter(&frames, &own, Some(&errors)));
}

#[test]
fn frames_are_found_in_the_order_they_began() {
    let trace = sample(50, &[]);
    let frames = named_frames(trace.root_frame());
    let names: Vec<&str> = frames
        .iter()
        .map(|frame| frame.symbol().name.as_str())
        .collect();
    assert_eq!(names, vec!["main", "work", "work_inner", "idle"]);
    assert_eq!(
        select_frames(&frames, &vec![false, true, false, true]),
        vec![range(10, 20), range(30, 40)]
    );
    let regex = Regex::new("^work").unwrap();
    assert_eq!(
        matching_frames(trace.root_frame(), &regex),
        vec![range(10, 20), range(12, 14)]
    );
}

#[test]
fn parsed_bounds_become_settings() {
    assert!(matches!(
        Setting::from_errors(true, Ok(7)),
        Ok(Setting::ErrorsMin(7))
    ));
    assert!(matches!(
        Setting::from_errors(false, Ok(8)),
        Ok(Setting::ErrorsMax(8))
    ));
    assert!(matches!(
        Setting::from_duration(true, Ok(9)),
        Ok(Setting::DurationMin(9))
    ));
    assert!(matches!(
        Setting::from_duration(false, Ok(10)),
        Ok(Setting::DurationMax(10))
    ));
    let error = "x".parse::<u32>().unwrap_err();
    assert_eq!(
        Setting::from_errors(false, Err(error.clone())).unwrap_err(),
        format!("Invalid number for errors_max: {}", error)
    );
    assert_eq!(
        Setting::from_duration(true, Err(error.clone())).unwrap_err(),
        format!("Invalid number for duration_min: {}", error)
    );
}

#[test]
fn only_the_clock_counts_for_time() {
    let mut backwards = range(0, 10);
    backwards.start.cycles = 99;
    let trace = Trace::new(RootFrame::new(backwards), Vec::new());
    assert!(!trace.root_frame().check_invariant());
    let kept = filter_traces(vec![trace], &filter("duration_min=10"));
    assert_eq!(lengths(&kept), vec![10]);
    assert!(filter_traces(kept, &filter("duration_min=11")).is_empty());
}

#[test]
fn every_setting_before_the_last_one_has_its_comma() {
    assert_eq!(
        refusal("target=a,errors_min=1,errors_max=2,duration_min=3,duration_max=4,"),
        "Invalid filter part: "
    );
    let read = filter("target=a,errors_min=1,errors_max=2,duration_min=3,");
    assert_eq!(read.target.unwrap().as_str(), "a");
    assert_eq!(read.errors_min, Some(1));
    assert_eq!(read.errors_max, Some(2));
    assert_eq!(read.duration_min, Some(3));
    assert_eq!(read.duration_max, None);
    assert_eq!(refusal("colour=red,"), "Unknown filter keyword: colour");
}

fn backwards() -> Trace {
    Trace::new(RootFrame::new(range(10, 0)), Vec::new())
}

#[test]
fn times_are_asked_only_of_frames_that_count() {
    let bounded = filter("duration_max=50");
    assert!(try_filter_traces(vec![sample(50, &[]), backwards()], &bounded).is_none());
    let kept = try_filter_traces(vec![sample(50, &[]), sample(60, &[])], &bounded).unwrap();
    assert_eq!(lengths(&kept), vec![50]);
    let targeted = filter("target=work,duration_max=50");
    let kept = try_filter_traces(vec![backwards(), sample(60, &[])], &targeted).unwrap();
    assert_eq!(kept.len(), 2);
    let untimed = filter("errors_max=0");
    assert_eq!(filter_traces(vec![backwards()], &untimed).len(), 1);
}

#[test]
fn a_frame_out_of_time_ends_the_asking() {
    let bounded = filter("duration_max=5");
    let frames = vec![range(0, 6), range(9, 8)];
    assert!(times_are_known(&frames, &bounded));
    assert!(!run_filter(&frames, &bounded, None));
    assert!(!times_are_known(&vec![range(0, 5), range(9, 8)], &bounded));
    assert!(times_are_known(&vec![range(9, 8)], &Filter::default()));
}
