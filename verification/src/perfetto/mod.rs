//! Traces as Perfetto timelines.
use vstd::prelude::*;

use crate::analysis::finder;
use crate::trace::event;
use crate::trace::event::EventView;
use crate::trace::layout::FrameView;
use crate::trace::{Event, Frame, Trace, TraceView};

pub mod converter;
pub mod packet;
pub mod reader;
pub mod timeline;

pub use converter::Converter;
pub use packet::TracePacket;

use packet::{ChildTracksOrdering, EventName, EventNameView, EventType, NameField, NameView};
use packet::{PacketView, TrackView};

verus! {

pub const GLOBAL_TRACK_ID: u64 = 10;

pub const GLOBAL_SEQUENCE_ID: u32 = 1;

pub const GLOBAL_TRACK_NAME: &'static str = "Process";

pub const GLOBAL_SLICE_NAME: &'static str = "Overall Latency";

pub const TRACE_TRACK_NAME: &'static str = "Trace";

/// The rank of an event's track: 0 to `u32::MAX` becomes `i32::MIN` to `i32::MAX`, in
/// the same order.
pub open spec fn rank_of(event_id: u32) -> int {
    event_id - 0x8000_0000
}

/// The rank of an event's track.
fn rank(event_id: u32) -> (rank: i32)
    ensures
        rank == rank_of(event_id),
{
    assert((event_id ^ 0x8000_0000u32) as i32 == event_id as i64 - 0x8000_0000i64) by (bit_vector);
    (event_id ^ 0x8000_0000) as i32
}

/// The packets for an event: its track when it first occurred, and an instant for
/// every occurence. There are none if it never occurred.
pub open spec fn event_packets(event: EventView) -> Seq<PacketView> {
    if event.occurences.len() == 0 {
        seq![]
    } else {
        seq![
            PacketView::track(
                event.occurences.first().ts,
                (packet::ERROR_SEQUENCE_ID_BASE + event.id) as u32,
                TrackView {
                    parent_uuid: Some(GLOBAL_TRACK_ID),
                    uuid: (packet::ERROR_TRACK_ID_BASE + event.id) as u64,
                    name: event.name,
                    description: Some(event.description),
                    child_ordering: None,
                    sibling_order_rank: Some(rank_of(event.id)),
                },
                Some(EventNameView { iid: 1, name: event.description }),
            ),
        ] + Seq::new(
            event.occurences.len(),
            |i: int|
                PacketView::event(
                    event.occurences[i].ts,
                    (packet::ERROR_SEQUENCE_ID_BASE + event.id) as u32,
                    EventType::Instant,
                    (packet::ERROR_TRACK_ID_BASE + event.id) as u64,
                    Some(NameView::NameIid(1)),
                    None,
                ),
        )
    }
}

/// The packets for a list of events.
pub open spec fn events_packets(events: Seq<EventView>) -> Seq<PacketView>
    decreases events.len(),
{
    if events.len() == 0 {
        seq![]
    } else {
        events_packets(events.drop_last()) + event_packets(events.last())
    }
}

/// The packets that set up the timeline: a track for the whole trace with one
/// slice, and below it a track for the frames.
pub open spec fn opening_packets(start: u64, end: u64) -> Seq<PacketView> {
    seq![
        PacketView::track(
            start,
            GLOBAL_SEQUENCE_ID,
            TrackView {
                parent_uuid: None,
                uuid: GLOBAL_TRACK_ID,
                name: GLOBAL_TRACK_NAME@,
                description: None,
                child_ordering: Some(ChildTracksOrdering::Explicit),
                sibling_order_rank: None,
            },
            None,
        ),
        PacketView::event(
            start,
            GLOBAL_SEQUENCE_ID,
            EventType::SliceBegin,
            GLOBAL_TRACK_ID,
            Some(NameView::Name(GLOBAL_SLICE_NAME@)),
            None,
        ),
        PacketView::event(
            end,
            GLOBAL_SEQUENCE_ID,
            EventType::SliceEnd,
            GLOBAL_TRACK_ID,
            None,
            None,
        ),
        PacketView::track(
            start,
            converter::TRACE_SEQUENCE_ID,
            TrackView {
                parent_uuid: Some(GLOBAL_TRACK_ID),
                uuid: converter::TRACE_TRACK_ID,
                name: TRACE_TRACK_NAME@,
                description: None,
                child_ordering: None,
                sibling_order_rank: Some(i32::MAX as int),
            },
            None,
        ),
    ]
}

/// The packets for the frames of a trace.
pub open spec fn slice_packets(trace: TraceView) -> Seq<PacketView> {
    converter::chunk_packets(converter::ConverterView::fresh(), trace.root.chunks, seq![]).0
}

/// The timeline of a trace.
pub open spec fn timeline_of(trace: TraceView) -> Seq<PacketView> {
    opening_packets(trace.root.metrics.start.ts, trace.root.metrics.end.ts) + slice_packets(trace)
        + events_packets(trace.events)
}

/// There is a sequence for the event, if it needs one.
pub open spec fn has_sequence(event: EventView) -> bool {
    event.occurences.len() > 0 ==> event.id <= packet::LARGEST_EVENT_ID
}

/// Adds the packets for an event.
fn push_event(packets: &mut Vec<TracePacket>, event: &Event)
    requires
        has_sequence(event@),
    ensures
        packet::packet_views(final(packets)@) == packet::packet_views(old(packets)@)
            + event_packets(event@),
{
    let ghost before = packet::packet_views(packets@);
    let ghost own = event_packets(event@);
    let occurences = event.occurences();
    if occurences.len() == 0 {
        assert(before + own =~= before);
        return;
    }
    let mut event_start = packet::create_track(
        occurences[0].ts,
        packet::ERROR_SEQUENCE_ID_BASE + event.id(),
        packet::ERROR_TRACK_ID_BASE + event.id() as u64,
        event.name().clone(),
        Some(event.description().clone()),
        Some(GLOBAL_TRACK_ID),
        None,
        Some(rank(event.id())),
    );
    event_start.interned_name = Some(EventName { iid: 1, name: event.description().clone() });
    packets.push(event_start);
    assert(event_start@ == own[0]);
    assert(packet::packet_views(packets@) =~= before + own.take(1));
    let mut i: usize = 0;
    while i < occurences.len()
        invariant
            i <= occurences@.len(),
            occurences@ == event@.occurences,
            event@.id <= packet::LARGEST_EVENT_ID,
            own == event_packets(event@),
            own.len() == occurences@.len() + 1,
            packet::packet_views(packets@) == before + own.take(i + 1),
        decreases occurences@.len() - i,
    {
        let ghost so_far = packet::packet_views(packets@);
        packets.push(packet::create_event(occurences[i].ts, event.id()));
        assert(packet::packet_views(packets@) =~= so_far.push(own[i + 1]));
        assert(so_far.push(own[i + 1]) =~= before + own.take(i + 2));
        i += 1;
    }
    assert(own.take(i + 1) =~= own);
}

/// The timeline of a trace: one slice for the whole of it, one slice for each
/// frame, with gaps where tracing was paused, and a track for each kind of event
/// that occurred.
pub fn convert_to_perfetto(trace: &Trace) -> (packets: Vec<TracePacket>)
    requires
        forall|i: int| 0 <= i < trace@.events.len() ==> has_sequence(#[trigger] trace@.events[i]),
    ensures
        packet::packet_views(packets@) == timeline_of(trace@),
        packets@.len() == timeline_of(trace@).len(),
        forall|i: int|
            0 <= i < packets@.len() ==> (#[trigger] packets@[i])@ == timeline_of(trace@)[i],
{
    let mut converter = Converter::new();
    let root = trace.root_frame();
    let start = root.metrics().start.ts;
    let end = root.metrics().end.ts;

    let mut packets: Vec<TracePacket> = Vec::new();
    packets.push(
        packet::create_track(
            start,
            GLOBAL_SEQUENCE_ID,
            GLOBAL_TRACK_ID,
            GLOBAL_TRACK_NAME.to_owned(),
            None,
            None,
            Some(ChildTracksOrdering::Explicit),
            None,
        ),
    );
    packets.push(
        packet::create_slice_begin(
            start,
            GLOBAL_SEQUENCE_ID,
            GLOBAL_TRACK_ID,
            NameField::Name(GLOBAL_SLICE_NAME.to_owned()),
        ),
    );
    packets.push(packet::create_slice_end(end, GLOBAL_SEQUENCE_ID, GLOBAL_TRACK_ID));
    packets.push(
        packet::create_track(
            start,
            converter::TRACE_SEQUENCE_ID,
            converter::TRACE_TRACK_ID,
            TRACE_TRACK_NAME.to_owned(),
            None,
            Some(GLOBAL_TRACK_ID),
            None,
            Some(i32::MAX),
        ),
    );
    assert(packet::packet_views(packets@) =~= opening_packets(start, end));

    let mut no_slices: Vec<u64> = Vec::new();
    assert(converter::iids(no_slices@) =~= Seq::<nat>::empty());
    let mut slices = converter.process_chunks(root.chunks(), &mut no_slices);
    let ghost opened = packet::packet_views(packets@);
    let ghost sliced = packet::packet_views(slices@);
    packets.append(&mut slices);
    assert(packet::packet_views(packets@) =~= opened + sliced);

    let events = trace.events();
    let ghost views = trace@.events;
    let ghost framed = packet::packet_views(packets@);
    let mut i: usize = 0;
    assert(framed + events_packets(views.take(0)) =~= framed);
    while i < events.len()
        invariant
            i <= events@.len(),
            views == event::event_views(events@),
            forall|j: int| 0 <= j < views.len() ==> has_sequence(#[trigger] views[j]),
            packet::packet_views(packets@) == framed + events_packets(views.take(i as int)),
        decreases events@.len() - i,
    {
        assert(views.take(i + 1).drop_last() =~= views.take(i as int));
        assert(views.take(i + 1).last() == events@[i as int]@);
        assert(has_sequence(views[i as int]));
        push_event(&mut packets, &events[i]);
        assert(packet::packet_views(packets@) =~= framed + events_packets(views.take(i + 1)));
        i += 1;
    }
    assert(views.take(i as int) =~= views);
    assert forall|j: int| 0 <= j < packets@.len() implies (#[trigger] packets@[j])@ == timeline_of(
        trace@,
    )[j] by {
        assert(packet::packet_views(packets@)[j] == packets@[j]@);
    }
    packets
}

/// Tracks of events are ranked as their ids are, and every rank fits.
pub proof fn law_ranks_keep_order(a: u32, b: u32)
    ensures
        a < b <==> rank_of(a) < rank_of(b),
        i32::MIN <= rank_of(a) <= i32::MAX,
        rank_of(0) == i32::MIN,
        rank_of(u32::MAX) == i32::MAX,
        rank_of(a) - rank_of(b) == a - b,
{
}

/// There is a sequence for an event that occurred if its number fits behind those of
/// the whole trace and of the frames.
pub proof fn law_sequences_must_fit(event: EventView)
    ensures
        has_sequence(event) <==> event.occurences.len() == 0 || event.id + 3 <= u32::MAX,
{
}

/// Every kind of event has a sequence and a track of its own, and none of them is
/// that of the frames or of the whole trace.
pub proof fn law_tracks_are_distinct(a: EventView, b: EventView, i: int, j: int)
    requires
        has_sequence(a),
        has_sequence(b),
        a.id != b.id,
        0 <= i < event_packets(a).len(),
        0 <= j < event_packets(b).len(),
    ensures
        event_packets(a)[i].trusted_packet_sequence_id
            != event_packets(b)[j].trusted_packet_sequence_id,
        event_packets(a)[i].trusted_packet_sequence_id != converter::TRACE_SEQUENCE_ID,
        event_packets(a)[i].trusted_packet_sequence_id != GLOBAL_SEQUENCE_ID,
        event_packets(a)[i].track_uuid() != event_packets(b)[j].track_uuid(),
        event_packets(a)[i].track_uuid() != converter::TRACE_TRACK_ID,
        event_packets(a)[i].track_uuid() != GLOBAL_TRACK_ID,
{
}

/// The packets of an event use no name that they have not announced, and they are
/// in the order of time if the event's occurences are sorted.
pub proof fn law_event_packets_are_sound(event: EventView)
    ensures
        timeline::numbers_through(event_packets(event), Set::empty()) is Some,
        event::sorted(event.occurences) ==> timeline::clock_through(
            event_packets(event),
            0,
        ) is Some,
{
    let packets = event_packets(event);
    if packets.len() > 0 {
        timeline::lemma_instants_named(packets.drop_first(), set![1nat]);
        assert(Set::<nat>::empty().insert(1) =~= set![1nat]);
        if event::sorted(event.occurences) {
            assert forall|i: int, j: int| 0 <= i < j < packets.len() implies (
            #[trigger] packets[i]).timestamp <= (#[trigger] packets[j]).timestamp by {
                assert(!event.occurences[j - 1].sorts_before(event.occurences[0]) || j == 1);
                if i > 0 {
                    assert(!event.occurences[j - 1].sorts_before(event.occurences[i - 1]));
                }
            }
            timeline::lemma_clock_sorted(packets, 0);
        }
    }
}

/// Among the slices of the frames, every one that begins also ends, and every name
/// is announced when it first comes up, and only then. If the trace is intact, they
/// are in the order of time.
pub proof fn law_slices_are_sound(trace: TraceView)
    ensures
        timeline::depth_through(slice_packets(trace), 0) == Some(0nat),
        timeline::numbers_through(slice_packets(trace), Set::empty()) is Some,
        trace.root.intact() ==> (timeline::clock_through(
            slice_packets(trace),
            trace.root.metrics.start.ts as int,
        ) matches Some(end) && end <= trace.root.metrics.end.ts),
{
    let fresh = converter::ConverterView::fresh();
    let none = Seq::<nat>::empty();
    timeline::law_chunk_slices_balance(fresh, trace.root.chunks, none);
    timeline::law_chunk_names_announced(fresh, trace.root.chunks, none);
    assert(timeline::numbers_given(fresh) =~= Set::<nat>::empty());
    if trace.root.intact() {
        timeline::law_chunk_packets_in_time(
            fresh,
            trace.root.chunks,
            none,
            trace.root.metrics.start,
            trace.root.metrics.start.ts as int,
        );
    }
}

/// The names of a trace's frames are numbered in the order in which the frames are
/// found.
pub proof fn law_names_are_numbered_in_order(trace: TraceView)
    ensures
        converter::chunk_packets(
            converter::ConverterView::fresh(),
            trace.root.chunks,
            seq![],
        ).1 == converter::ConverterView::fresh().with_names(
            timeline::names_of(finder::frames_in(trace.root.chunks)),
        ),
{
    timeline::law_chunk_names_numbered(
        converter::ConverterView::fresh(),
        trace.root.chunks,
        seq![],
    );
}

/// No two events that occurred have the same id.
pub open spec fn ids_distinct(events: Seq<EventView>) -> bool {
    forall|i: int, j: int|
        0 <= i < j < events.len() && (#[trigger] events[i]).occurences.len() > 0 && (
        #[trigger] events[j]).occurences.len() > 0 ==> events[i].id != events[j].id
}

/// The packet is on the sequence and the track of an event that occurred.
pub open spec fn of_event(packet: PacketView, event: EventView) -> bool {
    &&& event.occurences.len() > 0
    &&& packet.trusted_packet_sequence_id == packet::ERROR_SEQUENCE_ID_BASE + event.id
    &&& packet.track_uuid() == packet::ERROR_TRACK_ID_BASE + event.id
}

/// The packet is on the sequence and the track of one of the events.
pub open spec fn of_some_event(packet: PacketView, events: Seq<EventView>) -> bool {
    exists|k: int| 0 <= k < events.len() && of_event(packet, #[trigger] events[k])
}

proof fn lemma_event_tracks(event: EventView)
    requires
        has_sequence(event),
    ensures
        timeline::tracks_distinct(event_packets(event)),
        timeline::events_on_tracks(event_packets(event)),
        forall|i: int|
            0 <= i < event_packets(event).len() ==> of_event(
                #[trigger] event_packets(event)[i],
                event,
            ),
{
    let packets = event_packets(event);
    assert forall|j: int| 0 <= j < packets.len() && (
    #[trigger] packets[j]).data is TrackEvent implies timeline::on_declared_track(packets, j) by {
        assert(timeline::declares(
            packets[0],
            packets[j].trusted_packet_sequence_id,
            packets[j].track_uuid(),
        ));
    }
}

proof fn lemma_events_tracks(events: Seq<EventView>)
    requires
        ids_distinct(events),
        forall|i: int| 0 <= i < events.len() ==> has_sequence(#[trigger] events[i]),
    ensures
        timeline::tracks_distinct(events_packets(events)),
        timeline::events_on_tracks(events_packets(events)),
        forall|i: int|
            0 <= i < events_packets(events).len() ==> of_some_event(
                #[trigger] events_packets(events)[i],
                events,
            ),
    decreases events.len(),
{
    if events.len() > 0 {
        let top = events.len() - 1;
        let fewer = events.drop_last();
        let a = events_packets(fewer);
        let b = event_packets(events.last());
        let all = events_packets(events);
        assert(events[top] == events.last());
        assert forall|i: int| 0 <= i < fewer.len() implies #[trigger] fewer[i] == events[i] by {}
        assert forall|i: int| 0 <= i < fewer.len() implies has_sequence(#[trigger] fewer[i]) by {
            assert(has_sequence(events[i]));
        }
        assert(ids_distinct(fewer)) by {
            assert forall|i: int, j: int|
                0 <= i < j < fewer.len() && (#[trigger] fewer[i]).occurences.len() > 0 && (
                #[trigger] fewer[j]).occurences.len() > 0 implies fewer[i].id != fewer[j].id by {
                assert(events[i].id != events[j].id);
            }
        }
        lemma_events_tracks(fewer);
        lemma_event_tracks(events.last());
        timeline::lemma_on_tracks_concat(a, b);
        assert forall|i: int, j: int|
            0 <= i < a.len() && 0 <= j < b.len() && (#[trigger] a[i]).data is TrackDescriptor && (
            #[trigger] b[j]).data is TrackDescriptor implies {
            &&& a[i].track_uuid() != b[j].track_uuid()
            &&& a[i].trusted_packet_sequence_id != b[j].trusted_packet_sequence_id
        } by {
            assert(of_some_event(a[i], fewer));
            let k = choose|k: int| 0 <= k < fewer.len() && of_event(a[i], #[trigger] fewer[k]);
            assert(of_event(b[j], events.last()));
            assert(events[k].id != events[top].id);
        }
        timeline::lemma_distinct_concat(a, b);
        assert forall|i: int| 0 <= i < all.len() implies of_some_event(
            #[trigger] all[i],
            events,
        ) by {
            if i < a.len() {
                assert(all[i] == a[i]);
                assert(of_some_event(a[i], fewer));
                let k = choose|k: int|
                    0 <= k < fewer.len() && of_event(a[i], #[trigger] fewer[k]);
                assert(of_event(all[i], events[k]));
            } else {
                assert(all[i] == b[i - a.len()]);
                assert(of_event(all[i], events[top]));
            }
        }
    }
}

/// In the timeline of a trace whose events have ids of their own, every track is
/// declared once and on a sequence of its own, and everything that happens, happens
/// on a track that was declared before, on the same sequence.
pub proof fn law_timelines_declare_their_tracks(trace: TraceView)
    requires
        ids_distinct(trace.events),
        forall|i: int| 0 <= i < trace.events.len() ==> has_sequence(#[trigger] trace.events[i]),
    ensures
        timeline::tracks_distinct(timeline_of(trace)),
        timeline::events_on_tracks(timeline_of(trace)),
{
    let opening = opening_packets(trace.root.metrics.start.ts, trace.root.metrics.end.ts);
    let slices = slice_packets(trace);
    let events = events_packets(trace.events);
    let framed = opening + slices;
    timeline::law_chunk_packets_share_a_track(
        converter::ConverterView::fresh(),
        trace.root.chunks,
        seq![],
    );
    lemma_events_tracks(trace.events);
    assert forall|j: int| 0 <= j < framed.len() && (
    #[trigger] framed[j]).data is TrackEvent implies timeline::on_declared_track(framed, j) by {
        if j < opening.len() {
            assert(framed[j] == opening[j]);
            assert(timeline::declares(framed[0], GLOBAL_SEQUENCE_ID, GLOBAL_TRACK_ID));
        } else {
            assert(framed[j] == slices[j - opening.len()]);
            assert(timeline::on_frame_track(framed[j]));
            assert(timeline::declares(
                framed[3],
                converter::TRACE_SEQUENCE_ID,
                converter::TRACE_TRACK_ID,
            ));
        }
    }
    assert forall|i: int| 0 <= i < framed.len() && (
    #[trigger] framed[i]).data is TrackDescriptor implies i == 0 || i == 3 by {
        if i >= opening.len() {
            assert(framed[i] == slices[i - opening.len()]);
        }
    }
    assert(framed[0] == opening[0] && framed[3] == opening[3]);
    assert(timeline::tracks_distinct(framed));
    assert forall|i: int, j: int|
        0 <= i < framed.len() && 0 <= j < events.len() && (
        #[trigger] framed[i]).data is TrackDescriptor && (
        #[trigger] events[j]).data is TrackDescriptor implies {
        &&& framed[i].track_uuid() != events[j].track_uuid()
        &&& framed[i].trusted_packet_sequence_id != events[j].trusted_packet_sequence_id
    } by {
        assert(of_some_event(events[j], trace.events));
    }
    timeline::lemma_on_tracks_concat(framed, events);
    timeline::lemma_distinct_concat(framed, events);
}

/// A viewer that reads the packets for the frames of a trace shows every frame of the
/// trace, each under its own symbol's name and from its start to its end, with gaps for
/// the pauses in it, and nothing else. No slice stays open.
pub proof fn law_traces_show_their_frames(trace: TraceView)
    ensures
        reader::Reader::fresh().read_all(slice_packets(trace)).open.len() == 0,
        reader::Reader::fresh().read_all(slice_packets(trace)).done == reader::pieces_of_all(
            finder::frames_in(trace.root.chunks),
        ),
{
    broadcast use vstd::multiset::group_multiset_axioms;

    let fresh = reader::Reader::fresh();
    let none = Seq::<nat>::empty();
    reader::law_chunks_show_under_their_own_names(
        fresh,
        converter::ConverterView::fresh(),
        trace.root.chunks,
        none,
    );
    let after = fresh.read_all(slice_packets(trace));
    assert(after.done =~= reader::pieces_of_all(finder::frames_in(trace.root.chunks)));
}

/// Where no frame of the trace has a pause in it, the slices that a viewer shows are
/// those of the frames: one for each, under its own symbol's name, from its start to its
/// end.
pub proof fn law_every_frame_shows_as_a_slice(trace: TraceView)
    requires
        forall|i: int|
            0 <= i < finder::frames_in(trace.root.chunks).len() ==> reader::pauses_of(
                #[trigger] finder::frames_in(trace.root.chunks)[i],
            ).len() == 0,
    ensures
        reader::Reader::fresh().read_all(slice_packets(trace)).done == finder::frames_in(
            trace.root.chunks,
        ).map_values(
            |frame: FrameView|
                reader::Shown {
                    name: Some(frame.symbol.name),
                    begin: frame.metrics.start.ts,
                    end: frame.metrics.end.ts,
                },
        ).to_multiset(),
{
    law_traces_show_their_frames(trace);
    lemma_slices_of_frames(finder::frames_in(trace.root.chunks));
}

proof fn lemma_slices_of_frames(frames: Seq<FrameView>)
    requires
        forall|i: int|
            0 <= i < frames.len() ==> reader::pauses_of(#[trigger] frames[i]).len() == 0,
    ensures
        reader::pieces_of_all(frames) == frames.map_values(
            |frame: FrameView|
                reader::Shown {
                    name: Some(frame.symbol.name),
                    begin: frame.metrics.start.ts,
                    end: frame.metrics.end.ts,
                },
        ).to_multiset(),
    decreases frames.len(),
{
    broadcast use vstd::multiset::group_multiset_axioms;

    let shown = |frame: FrameView|
        reader::Shown {
            name: Some(frame.symbol.name),
            begin: frame.metrics.start.ts,
            end: frame.metrics.end.ts,
        };
    let slices = frames.map_values(shown);
    slices.to_multiset_ensures();
    if frames.len() > 0 {
        let fewer = frames.drop_last();
        let earlier = fewer.map_values(shown);
        assert forall|i: int| 0 <= i < fewer.len() implies reader::pauses_of(
            #[trigger] fewer[i],
        ).len() == 0 by {
            assert(fewer[i] == frames[i]);
        }
        lemma_slices_of_frames(fewer);
        reader::law_frames_without_pauses_show_as_one_slice(frames[frames.len() - 1]);
        earlier.to_multiset_ensures();
        assert(slices =~= earlier.push(shown(frames.last())));
        assert(reader::pieces_of_all(frames) =~= slices.to_multiset());
    } else {
        assert(slices.to_multiset() =~= vstd::multiset::Multiset::<reader::Shown>::empty());
    }
}

/// The timeline of a trace is four packets that set it up, the packets for its chunks,
/// and the packets for its events. The four are the track of the whole trace with one
/// slice from its start to its end, and below it the track of the frames.
pub proof fn law_timelines_are_set_up(trace: TraceView)
    ensures
        ({
            let packets = timeline_of(trace);
            let slices = converter::chunk_packets(
                converter::ConverterView::fresh(),
                trace.root.chunks,
                seq![],
            ).0;
            let start = trace.root.metrics.start.ts;
            let end = trace.root.metrics.end.ts;
            &&& packets.len() == 4 + slices.len() + events_packets(trace.events).len()
            &&& packets.subrange(4, 4 + slices.len() as int) == slices
            &&& packets.skip(4 + slices.len() as int) == events_packets(trace.events)
            &&& packets[0].trusted_packet_sequence_id == 1
            &&& packets[0].timestamp == start
            &&& packets[0].interned_name is None
            &&& packets[0].data matches packet::DataView::TrackDescriptor(track) && track.uuid == 10
                && track.name == "Process"@ && track.parent_uuid is None
                && track.description is None && track.child_ordering == Some(
                ChildTracksOrdering::Explicit,
            ) && track.sibling_order_rank is None
            &&& packets[1].trusted_packet_sequence_id == 1
            &&& packets[1].timestamp == start
            &&& packets[1].interned_name is None
            &&& packets[1].data == (packet::DataView::TrackEvent {
                event_type: EventType::SliceBegin,
                track_uuid: 10,
                name_field: Some(NameView::Name("Overall Latency"@)),
            })
            &&& packets[2].trusted_packet_sequence_id == 1
            &&& packets[2].timestamp == end
            &&& packets[2].interned_name is None
            &&& packets[2].data == (packet::DataView::TrackEvent {
                event_type: EventType::SliceEnd,
                track_uuid: 10,
                name_field: None,
            })
            &&& packets[3].trusted_packet_sequence_id == 2
            &&& packets[3].timestamp == start
            &&& packets[3].interned_name is None
            &&& packets[3].data matches packet::DataView::TrackDescriptor(track) && track.uuid == 20
                && track.name == "Trace"@ && track.parent_uuid == Some(10u64)
                && track.description is None && track.child_ordering is None
                && track.sibling_order_rank == Some(0x7fff_ffffint)
        }),
{
    let packets = timeline_of(trace);
    let opening = opening_packets(trace.root.metrics.start.ts, trace.root.metrics.end.ts);
    let slices = slice_packets(trace);
    assert forall|i: int| 0 <= i < 4 implies #[trigger] packets[i] == opening[i] by {}
    assert(packets.subrange(4, 4 + slices.len() as int) =~= slices);
    assert(packets.skip(4 + slices.len() as int) =~= events_packets(trace.events));
}

/// The packets for an event that occurred are its track, when it first occurred, with
/// its name and description, and an instant on that track for every occurence, in
/// order. There are none for an event that never occurred. Those for a list of events
/// come one event after the other.
pub proof fn law_events_show_every_occurence(
    event: EventView,
    earlier: Seq<EventView>,
    later: Seq<EventView>,
)
    requires
        has_sequence(event),
    ensures
        ({
            let packets = event_packets(event);
            &&& event.occurences.len() == 0 ==> packets.len() == 0
            &&& event.occurences.len() > 0 ==> {
                &&& packets.len() == 1 + event.occurences.len()
                &&& packets[0].timestamp == event.occurences[0].ts
                &&& packets[0].trusted_packet_sequence_id == 3 + event.id
                &&& packets[0].interned_name matches Some(announced) && announced.iid == 1
                    && announced.name == event.description
                &&& packets[0].data matches packet::DataView::TrackDescriptor(track) && track.uuid
                    == 30 + event.id && track.name == event.name && track.description == Some(
                    event.description,
                ) && track.parent_uuid == Some(10u64) && track.child_ordering is None
                    && track.sibling_order_rank == Some(event.id - 0x8000_0000)
                &&& forall|i: int|
                    0 <= i < event.occurences.len() ==> {
                        let shown = #[trigger] packets[i + 1];
                        &&& shown.timestamp == event.occurences[i].ts
                        &&& shown.trusted_packet_sequence_id == 3 + event.id
                        &&& shown.interned_name is None
                        &&& shown.data matches packet::DataView::TrackEvent {
                            event_type,
                            track_uuid,
                            name_field,
                        } && event_type == EventType::Instant && track_uuid == 30 + event.id
                            && name_field == Some(NameView::NameIid(1))
                    }
            }
        }),
        events_packets(earlier + later) == events_packets(earlier) + events_packets(later),
        events_packets(seq![event]) == event_packets(event),
        events_packets(Seq::empty()).len() == 0,
    decreases later.len(),
{
    reveal_with_fuel(events_packets, 2);
    assert(seq![event].drop_last() =~= Seq::<EventView>::empty());
    assert(events_packets(seq![event]) =~= event_packets(event));
    if later.len() == 0 {
        assert(earlier + later =~= earlier);
    } else {
        law_events_show_every_occurence(event, earlier, later.drop_last());
        assert((earlier + later).drop_last() =~= earlier + later.drop_last());
        assert((earlier + later).last() == later.last());
    }
    assert(events_packets(earlier + later) =~= events_packets(earlier) + events_packets(later));
}

} // verus!
