use pt_fuser::trace::{
    Chunk, Event, Frame, FrameError, Metrics, MetricsRange, NamedFrame, RootFrame, SymbolInfo,
};

fn at(n: u64) -> Metrics {
    Metrics {
        ts: n,
        cycles: n,
        insn_count: n,
    }
}

fn range(start: u64, end: u64) -> MetricsRange {
    MetricsRange::new(at(start), at(end))
}

fn frame(start: u64, end: u64) -> NamedFrame {
    NamedFrame::new(
        range(start, end),
        SymbolInfo {
            name: "f".to_string(),
            offset: 4,
            size: 8,
        },
    )
}

#[test]
fn readings_are_ordered_by_time_then_cycles_then_instructions() {
    let base = at(5);
    assert!(base < Metrics { ts: 6, cycles: 0, insn_count: 0 });
    assert!(base < Metrics { ts: 5, cycles: 6, insn_count: 0 });
    assert!(base < Metrics { ts: 5, cycles: 5, insn_count: 6 });
    assert!(base >= at(5));
    assert!(!(base < at(5)));
    assert!(base > Metrics { ts: 4, cycles: 9, insn_count: 9 });
}

#[test]
fn a_range_takes_the_time_between_its_ends() {
    assert_eq!(range(3, 10).total_time(), 7);
    assert_eq!(range(3, 3).total_time(), 0);
}

#[test]
fn a_child_splits_the_gap_it_goes_into() {
    let mut parent = frame(0, 10);
    parent.add_child(frame(4, 6)).unwrap();
    assert_eq!(
        parent.chunks(),
        &vec![
            Chunk::Straightline(range(0, 4)),
            Chunk::Frame(frame(4, 6)),
            Chunk::Straightline(range(6, 10)),
        ]
    );
    assert!(parent.check_invariant());
}

#[test]
fn a_child_that_fills_a_gap_leaves_none() {
    let mut root = RootFrame::new(range(0, 10));
    root.add_child(frame(0, 5)).unwrap();
    root.add_child(frame(5, 10)).unwrap();
    assert_eq!(
        root.chunks(),
        &vec![Chunk::Frame(frame(0, 5)), Chunk::Frame(frame(5, 10))]
    );
    assert!(root.check_invariant());
}

#[test]
fn children_must_fit() {
    let mut parent = frame(10, 20);
    parent.add_child(frame(12, 15)).unwrap();
    for child in [range(9, 11), range(18, 21), range(14, 16), range(17, 16)] {
        let error = parent
            .add_child(frame(child.start.ts, child.end.ts))
            .unwrap_err();
        assert_eq!(
            error,
            FrameError::NoRoom {
                parent: range(10, 20),
                child,
            }
        );
    }
    assert_eq!(parent.chunks().len(), 3);
}

#[test]
fn a_root_refuses_overlapping_segments() {
    let mut root = RootFrame::new(range(0, 10));
    root.add_child(frame(2, 6)).unwrap();
    assert_eq!(
        root.add_child(frame(5, 8)),
        Err(FrameError::NoRoom {
            parent: range(0, 10),
            child: range(5, 8),
        })
    );
    assert_eq!(root.chunks().len(), 3);
}

#[test]
fn frames_that_run_backwards_are_not_intact() {
    assert!(!frame(5, 3).check_invariant());
    assert!(frame(3, 3).check_invariant());
    assert!(!RootFrame::new(range(5, 3)).check_invariant());
}

#[test]
fn a_frame_knows_its_symbol() {
    let own = frame(0, 1);
    assert_eq!(own.symbol().name, "f");
    assert_eq!(own.symbol().offset, 4);
    assert_eq!(own.symbol().size, 8);
    assert_eq!(own.symbol().clone(), *own.symbol());
}

#[test]
fn a_new_event_has_not_occurred() {
    let mut event = Event::new(3, "name".to_string(), "description".to_string());
    assert_eq!(event.id(), 3);
    assert!(event.occurences().is_empty());
    event.add_occurence(at(2));
    event.add_occurence(at(1));
    assert_eq!(event.occurences(), &vec![at(1), at(2)]);
}
