use pt_fuser::perfetto::convert_to_perfetto;
use pt_fuser::perfetto::packet::{
    create_event, ChildTracksOrdering, Data, EventName, EventType, NameField, SequenceFlags,
    TracePacket, TrackDescriptor, TrackEvent,
};
use pt_fuser::perfetto::Converter;
use pt_fuser::trace::{
    BuilderResult, Chunk, Metrics, MetricsRange, NamedFrame, SymbolInfo, Trace, TraceBuilder,
};

fn at(n: u64) -> Metrics {
    Metrics {
        ts: n,
        cycles: n,
        insn_count: n,
    }
}

fn symbol(name: &str) -> SymbolInfo {
    SymbolInfo {
        name: name.to_string(),
        offset: 0,
        size: 0,
    }
}

fn builder_of(result: BuilderResult) -> TraceBuilder {
    match result {
        BuilderResult::Builder(builder) => builder,
        BuilderResult::Completed(_) => panic!("Expected builder"),
    }
}

fn trace_of(result: BuilderResult) -> Trace {
    match result {
        BuilderResult::Completed(trace) => trace,
        BuilderResult::Builder(_) => panic!("Expected trace"),
    }
}

fn announced(iid: u64, name: &str) -> Option<EventName> {
    Some(EventName {
        iid,
        name: name.to_string(),
    })
}

fn event(
    timestamp: u64,
    sequence_id: u32,
    event_type: EventType,
    track_uuid: u64,
    name_field: Option<NameField>,
    interned_name: Option<EventName>,
) -> TracePacket {
    TracePacket {
        trusted_packet_sequence_id: sequence_id,
        sequence_flags: SequenceFlags::SeqNeedsIncrementalState,
        previous_packet_dropped: None,
        first_packet_on_sequence: None,
        timestamp,
        interned_name,
        data: Data::TrackEvent(TrackEvent {
            event_type,
            track_uuid,
            name_field,
        }),
    }
}

fn begin(timestamp: u64, iid: u64, interned_name: Option<EventName>) -> TracePacket {
    event(
        timestamp,
        2,
        EventType::SliceBegin,
        20,
        Some(NameField::NameIid(iid)),
        interned_name,
    )
}

fn end(timestamp: u64) -> TracePacket {
    event(timestamp, 2, EventType::SliceEnd, 20, None, None)
}

fn track(timestamp: u64, sequence_id: u32, descriptor: TrackDescriptor) -> TracePacket {
    TracePacket {
        trusted_packet_sequence_id: sequence_id,
        sequence_flags: SequenceFlags::SeqIncrementalStateCleared,
        previous_packet_dropped: Some(true),
        first_packet_on_sequence: Some(true),
        timestamp,
        interned_name: None,
        data: Data::TrackDescriptor(descriptor),
    }
}

fn opening(start: u64, finish: u64) -> Vec<TracePacket> {
    vec![
        track(
            start,
            1,
            TrackDescriptor {
                parent_uuid: None,
                uuid: 10,
                name: "Process".to_string(),
                description: None,
                child_ordering: Some(ChildTracksOrdering::Explicit),
                sibling_order_rank: None,
            },
        ),
        event(
            start,
            1,
            EventType::SliceBegin,
            10,
            Some(NameField::Name("Overall Latency".to_string())),
            None,
        ),
        event(finish, 1, EventType::SliceEnd, 10, None, None),
        track(
            start,
            2,
            TrackDescriptor {
                parent_uuid: Some(10),
                uuid: 20,
                name: "Trace".to_string(),
                description: None,
                child_ordering: None,
                sibling_order_rank: Some(i32::MAX),
            },
        ),
    ]
}

#[test]
fn frames_become_nested_slices() {
    let mut builder = TraceBuilder::new(at(0), symbol("main"));
    for start in [1, 5] {
        builder.push_frame(at(start), symbol("f"));
        builder = builder_of(builder.complete_frame(at(start + 2)).unwrap());
    }
    let trace = trace_of(builder.complete_frame(at(9)).unwrap());
    let mut expected = opening(0, 9);
    expected.push(begin(0, 1, announced(1, "main")));
    expected.push(begin(1, 2, announced(2, "f")));
    expected.push(end(3));
    expected.push(begin(5, 2, None));
    expected.push(end(7));
    expected.push(end(9));
    assert_eq!(convert_to_perfetto(&trace), expected);
}

#[test]
fn segments_become_slices_with_a_gap_between_them() {
    let mut builder = TraceBuilder::new(at(0), symbol("main"));
    builder.push_frame(at(1), symbol("f"));
    let builder = builder.pause(at(4)).unwrap().resume(at(6));
    let builder = builder_of(builder.complete_frame(at(8)).unwrap());
    let trace = trace_of(builder.complete_frame(at(9)).unwrap());
    let mut expected = opening(0, 9);
    expected.push(begin(0, 1, announced(1, "main")));
    expected.push(begin(1, 2, announced(2, "f")));
    expected.push(end(4));
    expected.push(end(4));
    expected.push(begin(6, 1, None));
    expected.push(begin(6, 2, None));
    expected.push(end(8));
    expected.push(end(9));
    assert_eq!(convert_to_perfetto(&trace), expected);
}

#[test]
fn a_pause_closes_and_reopens_the_open_slices() {
    let mut converter = Converter::new();
    let mut open: Vec<u64> = vec![4, 2];
    let pause = Chunk::Pause(MetricsRange::new(at(10), at(15)));
    let packets = converter.process_chunks(&vec![pause], &mut open);
    assert_eq!(
        packets,
        vec![end(10), end(10), begin(15, 4, None), begin(15, 2, None)]
    );
    assert_eq!(open, vec![4, 2]);
}

#[test]
fn names_keep_their_numbers_from_frame_to_frame() {
    let mut converter = Converter::new();
    let mut open: Vec<u64> = Vec::new();
    let frame = |start: u64, name: &str| {
        NamedFrame::new(MetricsRange::new(at(start), at(start + 1)), symbol(name))
    };
    assert_eq!(
        converter.process_frame(&frame(1, "a"), &mut open),
        vec![begin(1, 1, announced(1, "a")), end(2)]
    );
    assert_eq!(
        converter.process_frame(&frame(3, "b"), &mut open),
        vec![begin(3, 2, announced(2, "b")), end(4)]
    );
    assert_eq!(
        converter.process_frame(&frame(5, "a"), &mut open),
        vec![begin(5, 1, None), end(6)]
    );
    assert!(open.is_empty());
}

#[test]
fn events_have_tracks_of_their_own() {
    let mut builder = TraceBuilder::new(at(0), symbol("main"));
    builder.new_event(0, "Lost".to_string(), "Data was lost".to_string());
    builder.new_event(5, "Never".to_string(), "It never happened".to_string());
    builder.new_event(0xffff_fffc, "Last".to_string(), "The last one".to_string());
    builder.event_occured(0, at(7));
    builder.event_occured(0, at(3));
    builder.event_occured(0xffff_fffc, at(5));
    let trace = trace_of(builder.complete_frame(at(9)).unwrap());
    let mut expected = opening(0, 9);
    expected.push(begin(0, 1, announced(1, "main")));
    expected.push(end(9));
    for (id, name, description, rank, times) in [
        (0u32, "Lost", "Data was lost", i32::MIN, vec![3, 7]),
        (0xffff_fffc, "Last", "The last one", i32::MAX - 3, vec![5]),
    ] {
        let mut packet = track(
            times[0],
            3 + id,
            TrackDescriptor {
                parent_uuid: Some(10),
                uuid: 30 + id as u64,
                name: name.to_string(),
                description: Some(description.to_string()),
                child_ordering: None,
                sibling_order_rank: Some(rank),
            },
        );
        packet.interned_name = announced(1, description);
        expected.push(packet);
        for time in times {
            expected.push(event(
                time,
                3 + id,
                EventType::Instant,
                30 + id as u64,
                Some(NameField::NameIid(1)),
                None,
            ));
        }
    }
    assert_eq!(convert_to_perfetto(&trace), expected);
}

#[test]
fn an_occurence_is_an_instant() {
    assert_eq!(
        create_event(8, 2),
        event(8, 5, EventType::Instant, 32, Some(NameField::NameIid(1)), None)
    );
}
