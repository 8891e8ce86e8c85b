use pt_fuser::analysis::count::count_occurences;
use pt_fuser::analysis::histogram::{
    add_histogram_datapoint, histogram_data, histogram_data_named, try_histogram_data, Action,
};
use pt_fuser::trace::{
    BuilderResult, Event, Metrics, MetricsRange, RootFrame, SymbolInfo, Trace, TraceBuilder,
    TraceError,
};
use regex::Regex;

fn at(n: u64) -> Metrics {
    Metrics {
        ts: n,
        cycles: n,
        insn_count: n,
    }
}

fn range(start: u64, end: u64) -> MetricsRange {
    MetricsRange::new(at(start), at(end))
}

fn symbol(name: &str) -> SymbolInfo {
    SymbolInfo {
        name: name.to_string(),
        offset: 0,
        size: 0,
    }
}

fn events(times: &[u64]) -> Event {
    let mut event = Event::new(0, "Error".to_string(), "An error".to_string());
    for time in times {
        event.add_occurence(at(*time));
    }
    event
}

fn trace(end: u64, call: (u64, u64), errors: &[u64]) -> Trace {
    let mut builder = TraceBuilder::new(at(0), symbol("main"));
    if !errors.is_empty() {
        builder.new_event(
            TraceError::DataCollectionError.id(),
            "Error".to_string(),
            "An error".to_string(),
        );
    }
    for error in errors {
        builder.event_occured(TraceError::DataCollectionError.id(), at(*error));
    }
    builder.push_frame(at(call.0), symbol("call"));
    let builder = match builder.complete_frame(at(call.1)).unwrap() {
        BuilderResult::Builder(builder) => builder,
        BuilderResult::Completed(_) => panic!("Expected builder"),
    };
    match builder.complete_frame(at(end)).unwrap() {
        BuilderResult::Completed(trace) => trace,
        BuilderResult::Builder(_) => panic!("Expected trace"),
    }
}

#[test]
fn occurences_count_once_even_in_nested_frames() {
    let frames = vec![range(0, 10), range(2, 5), range(4, 5), range(12, 14)];
    let readings = vec![at(0), at(3), at(4), at(10), at(11), at(13), at(14)];
    assert_eq!(count_occurences(&frames, &readings), 4);
    assert_eq!(count_occurences(&vec![], &readings), 0);
    assert_eq!(count_occurences(&frames, &vec![]), 0);
}

#[test]
fn errors_make_one_figure_for_all_frames() {
    let mut data: Vec<u64> = vec![7];
    let errors = events(&[1, 2, 8]);
    let frames = vec![range(0, 2), range(5, 9)];
    add_histogram_datapoint(&frames, Some(&errors), &mut data, &Action::Error);
    add_histogram_datapoint(&frames, None, &mut data, &Action::Error);
    add_histogram_datapoint(&vec![], Some(&errors), &mut data, &Action::Error);
    assert_eq!(data, vec![7, 2, 0, 0]);
}

#[test]
fn latencies_make_one_figure_for_each_frame() {
    let mut data: Vec<u64> = vec![7];
    let frames = vec![range(0, 2), range(5, 9)];
    add_histogram_datapoint(&frames, None, &mut data, &Action::Latency);
    assert_eq!(data, vec![7, 2, 4]);
}

#[test]
fn figures_come_trace_by_trace() {
    let traces = vec![
        trace(20, (5, 8), &[6, 7, 15]),
        trace(30, (10, 20), &[]),
    ];
    assert_eq!(histogram_data(&traces, None, Action::Error), vec![3, 0]);
    assert_eq!(histogram_data(&traces, None, Action::Latency), vec![20, 30]);
    let call = Regex::new("call").unwrap();
    assert_eq!(histogram_data(&traces, Some(&call), Action::Error), vec![2, 0]);
    assert_eq!(histogram_data(&traces, Some(&call), Action::Latency), vec![3, 10]);
    let nothing = Regex::new("nothing").unwrap();
    assert_eq!(histogram_data(&traces, Some(&nothing), Action::Error), vec![0, 0]);
    assert!(histogram_data(&traces, Some(&nothing), Action::Latency).is_empty());
}

#[test]
fn figures_can_be_asked_for_by_name() {
    let traces = vec![
        trace(20, (5, 8), &[6, 7, 15]),
        trace(30, (10, 20), &[]),
    ];
    assert_eq!(
        histogram_data_named(&traces, None, Action::Latency),
        Ok(Some(vec![20, 30]))
    );
    assert_eq!(
        histogram_data_named(&traces, Some("^ca"), Action::Latency),
        Ok(Some(vec![3, 10]))
    );
    assert_eq!(
        histogram_data_named(&traces, Some("^ca"), Action::Error),
        Ok(Some(vec![2, 0]))
    );
    let error = Regex::new("(").unwrap_err();
    assert_eq!(
        histogram_data_named(&traces, Some("("), Action::Error),
        Err(error.to_string())
    );
}

#[test]
fn latencies_are_known_of_frames_that_run_forwards() {
    let traces = vec![
        trace(20, (5, 8), &[]),
        Trace::new(RootFrame::new(range(10, 0)), Vec::new()),
    ];
    let call = Regex::new("call").unwrap();
    assert_eq!(try_histogram_data(&traces, None, Action::Latency), None);
    assert_eq!(try_histogram_data(&traces, None, Action::Error), Some(vec![0, 0]));
    assert_eq!(
        try_histogram_data(&traces, Some(&call), Action::Latency),
        Some(vec![3])
    );
    assert_eq!(histogram_data_named(&traces, None, Action::Latency), Ok(None));
}
