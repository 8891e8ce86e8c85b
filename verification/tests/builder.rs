use pt_fuser::trace::builder::IncompleteFrame;
use pt_fuser::trace::{
    BuilderResult, Chunk, Frame, FrameError, Metrics, MetricsRange, NamedFrame, SymbolInfo, Trace,
    TraceBuilder,
};

const fn at(n: u64) -> Metrics {
    Metrics {
        ts: n,
        cycles: n * 3,
        insn_count: n * 2,
    }
}

const METRICS_ONE: Metrics = Metrics {
    ts: 1,
    cycles: 1,
    insn_count: 1,
};

const SAMPLE_RANGE: MetricsRange = MetricsRange {
    start: at(100),
    end: at(200),
};

const INNER_RANGE1: MetricsRange = MetricsRange {
    start: at(110),
    end: at(130),
};

const INNER_RANGE2: MetricsRange = MetricsRange {
    start: at(150),
    end: at(180),
};

fn plus(a: Metrics, b: Metrics) -> Metrics {
    Metrics {
        ts: a.ts + b.ts,
        cycles: a.cycles + b.cycles,
        insn_count: a.insn_count + b.insn_count,
    }
}

fn minus(a: Metrics, b: Metrics) -> Metrics {
    Metrics {
        ts: a.ts - b.ts,
        cycles: a.cycles - b.cycles,
        insn_count: a.insn_count - b.insn_count,
    }
}

fn symbol(name: &str) -> SymbolInfo {
    SymbolInfo {
        name: name.to_string(),
        offset: 0,
        size: 0,
    }
}

fn test_symbol() -> SymbolInfo {
    symbol("test_symbol")
}

fn extract_builder(result: BuilderResult) -> TraceBuilder {
    match result {
        BuilderResult::Builder(builder) => builder,
        BuilderResult::Completed(_) => panic!("Expected builder, got completed trace"),
    }
}

fn extract_trace(result: BuilderResult) -> Trace {
    match result {
        BuilderResult::Builder(_) => panic!("Expected completed trace"),
        BuilderResult::Completed(trace) => trace,
    }
}

fn extract_frame_chunk(chunk: &Chunk) -> &NamedFrame {
    match chunk {
        Chunk::Frame(frame) => frame,
        _ => panic!("Expected frame chunk"),
    }
}

#[test]
fn complete_empty_frame() {
    let incomplete = IncompleteFrame {
        start_metrics: SAMPLE_RANGE.start,
        child_frames: Vec::new(),
        symbol: test_symbol(),
    };
    let completed = incomplete.complete(SAMPLE_RANGE.end).unwrap();
    assert_eq!(completed.chunks().len(), 1);
    assert!(completed.check_invariant());
}

#[test]
fn complete_frame_with_chunks() {
    let inner1 = NamedFrame::new(INNER_RANGE1, test_symbol());
    let inner2 = NamedFrame::new(INNER_RANGE2, test_symbol());
    let incomplete = IncompleteFrame {
        start_metrics: SAMPLE_RANGE.start,
        child_frames: vec![inner1, inner2],
        symbol: test_symbol(),
    };
    let completed = incomplete.complete(SAMPLE_RANGE.end).unwrap();
    assert_eq!(completed.chunks().len(), 5);
    assert!(completed.check_invariant());
}

#[test]
fn build_trace_simple() {
    let builder = TraceBuilder::new(SAMPLE_RANGE.start, test_symbol());
    let result = builder.complete_frame(SAMPLE_RANGE.end).unwrap();
    match result {
        BuilderResult::Completed(trace) => {
            assert_eq!(trace.root.chunks().len(), 1);
            assert_eq!(
                trace.root.chunks()[0].total_time(),
                SAMPLE_RANGE.total_time()
            );
            match &trace.root.chunks()[0] {
                Chunk::Frame(frame) => {
                    assert_eq!(frame.metrics(), &SAMPLE_RANGE);
                    assert_eq!(frame.chunks().len(), 1);
                    assert!(matches!(&frame.chunks()[0], Chunk::Straightline(_)));
                }
                _ => panic!("Expected frame chunk"),
            }
        }
        BuilderResult::Builder(_) => panic!("Expected trace to be completed"),
    }
}

#[test]
fn build_trace_nested() {
    let mut builder = TraceBuilder::new(SAMPLE_RANGE.start, test_symbol());
    builder.push_frame(INNER_RANGE1.start, test_symbol());
    let mut builder = extract_builder(builder.complete_frame(INNER_RANGE1.end).unwrap());
    builder.push_frame(INNER_RANGE2.start, test_symbol());
    builder.push_frame(INNER_RANGE2.start, test_symbol());
    let builder = extract_builder(builder.complete_frame(INNER_RANGE2.end).unwrap());
    let builder = extract_builder(builder.complete_frame(SAMPLE_RANGE.end).unwrap());
    match builder.complete_frame(SAMPLE_RANGE.end).unwrap() {
        BuilderResult::Completed(trace) => {
            assert_eq!(trace.root.chunks().len(), 1);
            match trace.root.chunks()[0] {
                Chunk::Frame(ref frame) => {
                    assert_eq!(frame.chunks().len(), 4);
                    assert!(matches!(&frame.chunks()[0], Chunk::Straightline(_)));
                    assert!(matches!(&frame.chunks()[2], Chunk::Straightline(_)));

                    match &frame.chunks()[1] {
                        Chunk::Frame(frame) => {
                            assert_eq!(frame.metrics(), &INNER_RANGE1);
                            assert_eq!(frame.chunks().len(), 1);
                            assert!(matches!(&frame.chunks()[0], Chunk::Straightline(_)));
                        }
                        _ => panic!("Expected frame chunk in position 1"),
                    }

                    match &frame.chunks()[3] {
                        Chunk::Frame(frame) => {
                            assert_eq!(
                                frame.metrics(),
                                &MetricsRange::new(INNER_RANGE2.start, SAMPLE_RANGE.end)
                            );
                            assert_eq!(frame.chunks().len(), 2);
                            assert!(matches!(&frame.chunks()[1], Chunk::Straightline(_)));

                            match &frame.chunks()[0] {
                                Chunk::Frame(inner_frame) => {
                                    assert_eq!(inner_frame.metrics(), &INNER_RANGE2);
                                    assert_eq!(inner_frame.chunks().len(), 1);
                                    assert!(matches!(
                                        &inner_frame.chunks()[0],
                                        Chunk::Straightline(_)
                                    ));
                                }
                                _ => panic!("Expected frame chunk in nested position 0"),
                            }
                        }
                        _ => panic!("Expected frame chunk in position 3"),
                    }
                }
                _ => panic!("Expected frame chunk"),
            }
        }
        BuilderResult::Builder(_) => panic!("Expected trace to be completed"),
    }
}

#[test]
fn build_trace_pauses() {
    let builder = TraceBuilder::new(SAMPLE_RANGE.start, test_symbol());
    let paused = builder
        .pause(plus(SAMPLE_RANGE.start, METRICS_ONE))
        .unwrap();
    let mut resumed = paused.resume(INNER_RANGE1.start);

    resumed.push_frame(plus(INNER_RANGE1.start, METRICS_ONE), test_symbol());
    let paused = resumed.pause(INNER_RANGE1.end).unwrap();

    let resumed = paused.resume(INNER_RANGE2.start);
    let builder = extract_builder(
        resumed
            .complete_frame(minus(INNER_RANGE2.end, METRICS_ONE))
            .unwrap(),
    );

    match builder.complete_frame(INNER_RANGE2.end).unwrap() {
        BuilderResult::Builder(_) => panic!("Expected completed trace"),
        BuilderResult::Completed(trace) => {
            assert_eq!(trace.root_frame().chunks().len(), 5);
            assert_eq!(
                trace.root_frame().metrics(),
                &MetricsRange::new(SAMPLE_RANGE.start, INNER_RANGE2.end)
            );

            let frame1 = extract_frame_chunk(&trace.root_frame().chunks()[0]);
            assert_eq!(frame1.chunks().len(), 1);
            assert_eq!(
                frame1.metrics(),
                &MetricsRange::new(SAMPLE_RANGE.start, plus(SAMPLE_RANGE.start, METRICS_ONE))
            );

            let frame2 = extract_frame_chunk(&trace.root_frame().chunks()[2]);
            assert_eq!(frame2.chunks().len(), 2);
            assert_eq!(
                frame2.metrics(),
                &MetricsRange::new(INNER_RANGE1.start, INNER_RANGE1.end)
            );

            let nested_frame1 = extract_frame_chunk(&frame2.chunks()[1]);
            assert_eq!(nested_frame1.chunks().len(), 1);
            assert_eq!(
                nested_frame1.metrics(),
                &MetricsRange::new(plus(INNER_RANGE1.start, METRICS_ONE), INNER_RANGE1.end)
            );

            let frame3 = extract_frame_chunk(&trace.root_frame().chunks()[4]);
            assert_eq!(frame3.chunks().len(), 2);
            assert_eq!(
                frame3.metrics(),
                &MetricsRange::new(INNER_RANGE2.start, INNER_RANGE2.end)
            );

            let nested_frame2 = extract_frame_chunk(&frame3.chunks()[0]);
            assert_eq!(nested_frame2.chunks().len(), 1);
            assert_eq!(
                nested_frame2.metrics(),
                &MetricsRange::new(INNER_RANGE2.start, minus(INNER_RANGE2.end, METRICS_ONE))
            );
        }
    }
}

#[test]
fn add_events() {
    let mut builder = TraceBuilder::new(SAMPLE_RANGE.start, test_symbol());
    builder.new_event(10, "Event 1".to_string(), "Description 1".to_string());
    builder.new_event(20, "Event 2".to_string(), "Description 2".to_string());

    builder.event_occured(10, INNER_RANGE2.start);
    builder.event_occured(20, INNER_RANGE1.end);
    builder.event_occured(10, INNER_RANGE1.start);

    let result = builder.complete_frame(SAMPLE_RANGE.end).unwrap();
    match result {
        BuilderResult::Completed(trace) => {
            assert_eq!(trace.events.len(), 2);
            if trace.events[0].id() == 10 && trace.events[1].id() == 20 {
                assert_eq!(trace.events[0].occurences().len(), 2);
                assert_eq!(trace.events[1].occurences().len(), 1);
            } else if trace.events[0].id() == 20 && trace.events[1].id() == 10 {
                assert_eq!(trace.events[0].occurences().len(), 1);
                assert_eq!(trace.events[1].occurences().len(), 2);
            } else {
                panic!("Unexpected event IDs");
            }
        }
        BuilderResult::Builder(_) => panic!("Expected trace to be completed"),
    }
}

#[test]
fn frame_symbol_order() {
    let mut builder = TraceBuilder::new(
        SAMPLE_RANGE.start,
        SymbolInfo {
            name: "top level".to_string(),
            offset: 0,
            size: 0,
        },
    );
    builder.push_frame(
        INNER_RANGE1.start,
        SymbolInfo {
            name: "2nd level".to_string(),
            offset: 0,
            size: 0,
        },
    );
    builder.push_frame(
        plus(INNER_RANGE1.start, METRICS_ONE),
        SymbolInfo {
            name: "3rd level".to_string(),
            offset: 0,
            size: 0,
        },
    );
    assert_eq!(builder.get_frame_symbol(0).name, "3rd level");
    assert_eq!(builder.get_frame_symbol(1).name, "2nd level");
    assert_eq!(builder.get_frame_symbol(2).name, "top level");
}

#[test]
#[should_panic]
fn non_monotonic_fails() {
    let mut builder = TraceBuilder::new(SAMPLE_RANGE.start, test_symbol());
    let metrics = minus(SAMPLE_RANGE.start, METRICS_ONE);
    assert!(builder.ensure_monotonic(metrics));
    builder.push_frame(metrics, test_symbol());
}

#[test]
#[should_panic]
fn non_monotonic_fails3() {
    let mut builder = TraceBuilder::new(SAMPLE_RANGE.start, test_symbol());
    builder.push_frame(INNER_RANGE2.start, test_symbol());
    let metrics = minus(INNER_RANGE2.start, METRICS_ONE);
    assert!(builder.ensure_monotonic(metrics));
    assert!(builder.complete_frame(metrics).is_ok());
}

#[test]
fn every_counter_must_be_monotonic() {
    let builder = TraceBuilder::new(at(100), test_symbol());
    assert!(builder.ensure_monotonic(at(100)));
    assert!(builder.ensure_monotonic(at(101)));
    let start = at(100);
    assert!(!builder.ensure_monotonic(Metrics { ts: 99, ..start }));
    assert!(!builder.ensure_monotonic(Metrics { cycles: 299, ..start }));
    assert!(!builder.ensure_monotonic(Metrics {
        insn_count: 199,
        ..start
    }));
}

#[test]
fn depth_follows_calls_and_returns() {
    let mut builder = TraceBuilder::new(at(0), symbol("main"));
    assert_eq!(builder.callstack_depth(), 1);
    builder.push_frame(at(1), symbol("f"));
    builder.push_frame(at(2), symbol("g"));
    assert_eq!(builder.callstack_depth(), 3);
    let builder = extract_builder(builder.complete_frame(at(3)).unwrap());
    assert_eq!(builder.callstack_depth(), 2);
    assert_eq!(builder.get_frame_symbol(0).name, "f");
    assert_eq!(builder.get_frame_symbol(1).name, "main");
}

#[test]
fn pausing_keeps_the_callstack() {
    let mut builder = TraceBuilder::new(at(0), symbol("main"));
    builder.push_frame(at(1), symbol("f"));
    builder.push_frame(at(2), symbol("g"));
    let resumed = builder.pause(at(5)).unwrap().resume(at(9));
    assert_eq!(resumed.callstack_depth(), 3);
    assert_eq!(resumed.get_frame_symbol(0).name, "g");
    assert_eq!(resumed.get_frame_symbol(1).name, "f");
    assert_eq!(resumed.get_frame_symbol(2).name, "main");
    assert!(!resumed.ensure_monotonic(at(8)));
    assert!(resumed.ensure_monotonic(at(9)));
}

#[test]
fn segments_stand_in_order_with_pauses_between() {
    let builder = TraceBuilder::new(at(0), symbol("main"));
    let builder = builder.pause(at(2)).unwrap().resume(at(5));
    let builder = builder.pause(at(7)).unwrap().resume(at(7));
    let trace = extract_trace(builder.complete_frame(at(9)).unwrap());
    let chunks = trace.root_frame().chunks();
    assert_eq!(chunks.len(), 4);
    assert_eq!(chunks[0].metrics(), MetricsRange::new(at(0), at(2)));
    assert_eq!(chunks[1], Chunk::Pause(MetricsRange::new(at(2), at(5))));
    assert_eq!(chunks[2].metrics(), MetricsRange::new(at(5), at(7)));
    assert_eq!(chunks[3].metrics(), MetricsRange::new(at(7), at(9)));
    assert!(matches!(chunks[2], Chunk::Frame(_)));
    assert!(trace.root_frame().check_invariant());
}

#[test]
fn calls_that_take_no_time_keep_their_order() {
    let mut builder = TraceBuilder::new(at(0), symbol("main"));
    for name in ["a", "b"] {
        builder.push_frame(at(0), symbol(name));
        builder = extract_builder(builder.complete_frame(at(0)).unwrap());
    }
    builder.push_frame(at(0), symbol("c"));
    builder = extract_builder(builder.complete_frame(at(4)).unwrap());
    builder.push_frame(at(4), symbol("d"));
    builder = extract_builder(builder.complete_frame(at(4)).unwrap());
    let trace = extract_trace(builder.complete_frame(at(4)).unwrap());
    let main = extract_frame_chunk(&trace.root_frame().chunks()[0]);
    let names: Vec<&str> = main
        .chunks()
        .iter()
        .map(|chunk| extract_frame_chunk(chunk).symbol().name.as_str())
        .collect();
    assert_eq!(names, vec!["a", "b", "c", "d"]);
    assert!(main.check_invariant());
}

#[test]
fn resuming_too_early_is_an_error() {
    let builder = TraceBuilder::new(at(10), symbol("main"));
    let builder = builder.pause(at(20)).unwrap().resume(at(15));
    match builder.complete_frame(at(30)) {
        Ok(_) => panic!("Expected an error"),
        Err(error) => assert_eq!(
            error,
            FrameError::NoRoom {
                parent: MetricsRange::new(at(10), at(30)),
                child: MetricsRange::new(at(15), at(30)),
            }
        ),
    }
}

#[test]
fn pausing_too_early_is_an_error() {
    let mut builder = TraceBuilder::new(at(10), symbol("main"));
    builder.push_frame(at(20), symbol("f"));
    match builder.pause(at(15)) {
        Ok(_) => panic!("Expected an error"),
        Err(error) => assert_eq!(
            error,
            FrameError::NoRoom {
                parent: MetricsRange::new(at(10), at(15)),
                child: MetricsRange::new(at(20), at(15)),
            }
        ),
    }
}

#[test]
fn a_segment_that_runs_backwards_is_refused_in_the_end() {
    let builder = TraceBuilder::new(at(10), symbol("main"));
    let builder = builder.pause(at(5)).unwrap().resume(at(20));
    match builder.complete_frame(at(30)) {
        Ok(_) => panic!("Expected an error"),
        Err(error) => assert_eq!(
            error,
            FrameError::NoRoom {
                parent: MetricsRange::new(at(10), at(30)),
                child: MetricsRange::new(at(10), at(5)),
            }
        ),
    }
}

#[test]
fn occurences_are_sorted() {
    let mut builder = TraceBuilder::new(at(0), symbol("main"));
    builder.new_event(7, "Event".to_string(), "Something".to_string());
    builder.new_event(7, "Twin".to_string(), "The same id".to_string());
    builder.event_occured(7, at(30));
    builder.event_occured(7, at(10));
    builder.event_occured(8, at(15));
    builder.event_occured(7, at(20));
    builder.event_occured(7, at(10));
    let trace = extract_trace(builder.complete_frame(at(40)).unwrap());
    for event in trace.events() {
        assert_eq!(event.occurences(), &vec![at(10), at(10), at(20), at(30)]);
    }
    let found = trace.get_event(7).unwrap();
    assert_eq!(found.name(), "Event");
    assert_eq!(found.description(), "Something");
    assert!(trace.get_event(8).is_none());
}

/// main from 0 on, with a pause from 3 to 4; then main calls f, which calls g and h,
/// and only g returns.
fn in_the_midst_of_calls() -> TraceBuilder {
    let builder = TraceBuilder::new(at(0), symbol("main"));
    let mut builder = builder.pause(at(3)).unwrap().resume(at(4));
    builder.push_frame(at(5), symbol("f"));
    builder.push_frame(at(6), symbol("g"));
    builder = extract_builder(builder.complete_frame(at(7)).unwrap());
    builder.push_frame(at(8), symbol("h"));
    builder
}

#[test]
fn pausing_records_what_returning_would() {
    let mut returning = in_the_midst_of_calls();
    while returning.callstack_depth() > 1 {
        returning = extract_builder(returning.complete_frame(at(9)).unwrap());
    }
    let returned = extract_trace(returning.complete_frame(at(9)).unwrap());

    let mut resumed = in_the_midst_of_calls().pause(at(9)).unwrap().resume(at(10));
    while resumed.callstack_depth() > 1 {
        resumed = extract_builder(resumed.complete_frame(at(10)).unwrap());
    }
    let paused = extract_trace(resumed.complete_frame(at(10)).unwrap());

    let last = returned.root_frame().chunks().last().unwrap();
    assert_eq!(last.metrics(), MetricsRange::new(at(4), at(9)));
    assert_eq!(returned.root_frame().chunks().len(), 3);
    for i in 0..3 {
        assert_eq!(returned.root_frame().chunks()[i], paused.root_frame().chunks()[i]);
    }
}

#[test]
fn a_segment_at_the_very_end_stays_behind() {
    let builder = TraceBuilder::new(at(10), symbol("main"));
    let builder = builder.pause(at(20)).unwrap().resume(at(30));
    let builder = builder.pause(at(30)).unwrap().resume(at(25));
    let trace = extract_trace(builder.complete_frame(at(30)).unwrap());
    let ranges: Vec<MetricsRange> = trace
        .root_frame()
        .chunks()
        .iter()
        .map(|chunk| chunk.metrics())
        .collect();
    assert_eq!(
        ranges,
        vec![
            MetricsRange::new(at(10), at(20)),
            MetricsRange::new(at(20), at(25)),
            MetricsRange::new(at(25), at(30)),
            MetricsRange::new(at(30), at(30)),
        ]
    );
}
