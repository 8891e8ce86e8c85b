//! What holds of the slices that frames are turned into.
use vstd::prelude::*;

use super::converter;
use super::converter::ConverterView;
use super::packet::{DataView, EventType, NameView, PacketView};
use crate::analysis::finder;
use crate::trace::layout;
use crate::trace::layout::{ChunkView, FrameView};
use crate::trace::Metrics;

verus! {

/// How many slices are open after a packet, if it ends none that is not open.
pub open spec fn depth_after(packet: PacketView, depth: nat) -> Option<nat> {
    match packet.data {
        DataView::TrackEvent { event_type: EventType::SliceBegin, .. } => Some(depth + 1),
        DataView::TrackEvent { event_type: EventType::SliceEnd, .. } => if depth > 0 {
            Some((depth - 1) as nat)
        } else {
            None
        },
        _ => Some(depth),
    }
}

/// How many slices are open after the packets, if none of them ends one that is
/// not open.
pub open spec fn depth_through(packets: Seq<PacketView>, depth: nat) -> Option<nat>
    decreases packets.len(),
{
    if packets.len() == 0 {
        Some(depth)
    } else {
        match depth_after(packets.first(), depth) {
            Some(next) => depth_through(packets.drop_first(), next),
            None => None,
        }
    }
}

proof fn lemma_depth_concat(a: Seq<PacketView>, b: Seq<PacketView>, depth: nat)
    ensures
        depth_through(a + b, depth) == match depth_through(a, depth) {
            Some(mid) => depth_through(b, mid),
            None => None,
        },
    decreases a.len(),
{
    if a.len() == 0 {
        assert(a + b =~= b);
    } else {
        assert((a + b).drop_first() =~= a.drop_first() + b);
        assert((a + b).first() == a.first());
        if let Some(next) = depth_after(a.first(), depth) {
            lemma_depth_concat(a.drop_first(), b, next);
        }
    }
}

proof fn lemma_depth_ends(packets: Seq<PacketView>, timestamp: u64)
    requires
        forall|i: int|
            0 <= i < packets.len() ==> #[trigger] packets[i] == converter::slice_end(timestamp),
    ensures
        depth_through(packets, packets.len()) == Some(0nat),
    decreases packets.len(),
{
    if packets.len() > 0 {
        assert(packets.first() == packets[0]);
        assert forall|i: int| 0 <= i < packets.drop_first().len() implies #[trigger] packets.drop_first()[i]
            == converter::slice_end(timestamp) by {
            assert(packets.drop_first()[i] == packets[i + 1]);
        }
        lemma_depth_ends(packets.drop_first(), timestamp);
    }
}

proof fn lemma_depth_begins(packets: Seq<PacketView>, depth: nat)
    requires
        forall|i: int|
            0 <= i < packets.len() ==> (#[trigger] packets[i]).data matches DataView::TrackEvent {
                event_type: EventType::SliceBegin,
                ..
            },
    ensures
        depth_through(packets, depth) == Some(depth + packets.len()),
    decreases packets.len(),
{
    if packets.len() > 0 {
        assert(packets.first() == packets[0]);
        assert forall|i: int| 0 <= i < packets.drop_first().len() implies (
        #[trigger] packets.drop_first()[i]).data matches DataView::TrackEvent {
            event_type: EventType::SliceBegin,
            ..
        } by {
            assert(packets.drop_first()[i] == packets[i + 1]);
        }
        lemma_depth_begins(packets.drop_first(), depth + 1);
    }
}

/// The slices of a frame are nested: every one that begins also ends, and none of
/// the slices around it is closed but for the time of a pause.
pub proof fn law_frame_slices_balance(known: ConverterView, frame: FrameView, open: Seq<nat>)
    ensures
        depth_through(converter::frame_packets(known, frame, open).0, open.len()) == Some(
            open.len(),
        ),
    decreases frame,
{
    reveal_with_fuel(depth_through, 2);
    let name = frame.symbol.name;
    let iid = known.iid(name);
    let now = known.with_name(name);
    let inner = converter::chunk_packets(now, frame.chunks, open.push(iid)).0;
    let begin = seq![
        converter::slice_begin(frame.metrics.start.ts, iid, known.announcement(name)),
    ];
    let end = seq![converter::slice_end(frame.metrics.end.ts)];
    law_chunk_slices_balance(now, frame.chunks, open.push(iid));
    lemma_depth_concat(begin + inner, end, open.len());
    lemma_depth_concat(begin, inner, open.len());
    assert(begin.drop_first() =~= Seq::<PacketView>::empty());
    assert(end.drop_first() =~= Seq::<PacketView>::empty());
}

/// The slices of chunks are nested, and leave those around them open.
pub proof fn law_chunk_slices_balance(known: ConverterView, chunks: Seq<ChunkView>, open: Seq<nat>)
    ensures
        depth_through(converter::chunk_packets(known, chunks, open).0, open.len()) == Some(
            open.len(),
        ),
    decreases chunks,
{
    if chunks.len() > 0 {
        let top = chunks.len() - 1;
        let (earlier, now) = converter::chunk_packets(known, chunks.drop_last(), open);
        law_chunk_slices_balance(known, chunks.drop_last(), open);
        match chunks.last() {
            ChunkView::Frame(frame) => {
                assert(decreases_to!(chunks => chunks[top]));
                assert(decreases_to!(chunks[top] => chunks[top]->Frame_0));
                law_frame_slices_balance(now, frame, open);
                lemma_depth_concat(
                    earlier,
                    converter::frame_packets(now, frame, open).0,
                    open.len(),
                );
            },
            ChunkView::Straightline(_) => {},
            ChunkView::Pause(pause) => {
                let ends = Seq::new(open.len(), |i: int| converter::slice_end(pause.start.ts));
                let begins = Seq::new(
                    open.len(),
                    |i: int| converter::slice_begin(pause.end.ts, open[i], None),
                );
                lemma_depth_ends(ends, pause.start.ts);
                lemma_depth_begins(begins, 0);
                lemma_depth_concat(ends, begins, open.len());
                lemma_depth_concat(earlier, converter::pause_packets(open, pause), open.len());
            },
        }
    }
}

/// The time after the packets, if none of them is earlier than `at` or than one in
/// front of it.
pub open spec fn clock_through(packets: Seq<PacketView>, at: int) -> Option<int>
    decreases packets.len(),
{
    if packets.len() == 0 {
        Some(at)
    } else if at <= packets.first().timestamp {
        clock_through(packets.drop_first(), packets.first().timestamp as int)
    } else {
        None
    }
}

proof fn lemma_clock_concat(a: Seq<PacketView>, b: Seq<PacketView>, at: int)
    ensures
        clock_through(a + b, at) == match clock_through(a, at) {
            Some(mid) => clock_through(b, mid),
            None => None,
        },
    decreases a.len(),
{
    if a.len() == 0 {
        assert(a + b =~= b);
    } else {
        assert((a + b).drop_first() =~= a.drop_first() + b);
        assert((a + b).first() == a.first());
        lemma_clock_concat(a.drop_first(), b, a.first().timestamp as int);
    }
}

proof fn lemma_clock_same(packets: Seq<PacketView>, timestamp: u64, at: int)
    requires
        forall|i: int| 0 <= i < packets.len() ==> (#[trigger] packets[i]).timestamp == timestamp,
        at <= timestamp,
    ensures
        clock_through(packets, at) == Some(
            if packets.len() > 0 {
                timestamp as int
            } else {
                at
            },
        ),
    decreases packets.len(),
{
    if packets.len() > 0 {
        assert(packets.first() == packets[0]);
        assert forall|i: int| 0 <= i < packets.drop_first().len() implies (
        #[trigger] packets.drop_first()[i]).timestamp == timestamp by {
            assert(packets.drop_first()[i] == packets[i + 1]);
        }
        lemma_clock_same(packets.drop_first(), timestamp, timestamp as int);
    }
}

/// Packets whose timestamps are sorted are in the order of time.
pub(crate) proof fn lemma_clock_sorted(packets: Seq<PacketView>, at: int)
    requires
        packets.len() > 0 ==> at <= packets.first().timestamp,
        forall|i: int, j: int|
            0 <= i < j < packets.len() ==> (#[trigger] packets[i]).timestamp <= (
            #[trigger] packets[j]).timestamp,
    ensures
        clock_through(packets, at) is Some,
    decreases packets.len(),
{
    if packets.len() > 0 {
        let rest = packets.drop_first();
        assert forall|i: int, j: int| 0 <= i < j < rest.len() implies (
        #[trigger] rest[i]).timestamp <= (#[trigger] rest[j]).timestamp by {
            assert(packets[i + 1].timestamp <= packets[j + 1].timestamp);
        }
        if rest.len() > 0 {
            assert(packets[0].timestamp <= packets[1].timestamp);
        }
        lemma_clock_sorted(rest, packets.first().timestamp as int);
    }
}

/// The packets of an intact frame are in the order of time, and end when it does.
pub proof fn law_frame_packets_in_time(
    known: ConverterView,
    frame: FrameView,
    open: Seq<nat>,
    at: int,
)
    requires
        frame.intact(),
        at <= frame.metrics.start.ts,
    ensures
        clock_through(converter::frame_packets(known, frame, open).0, at) == Some(
            frame.metrics.end.ts as int,
        ),
    decreases frame,
{
    reveal_with_fuel(clock_through, 2);
    let name = frame.symbol.name;
    let iid = known.iid(name);
    let now = known.with_name(name);
    let inner = converter::chunk_packets(now, frame.chunks, open.push(iid)).0;
    let begin = seq![
        converter::slice_begin(frame.metrics.start.ts, iid, known.announcement(name)),
    ];
    let end = seq![converter::slice_end(frame.metrics.end.ts)];
    law_chunk_packets_in_time(
        now,
        frame.chunks,
        open.push(iid),
        frame.metrics.start,
        frame.metrics.start.ts as int,
    );
    lemma_clock_concat(begin + inner, end, at);
    lemma_clock_concat(begin, inner, at);
    assert(begin.drop_first() =~= Seq::<PacketView>::empty());
    assert(end.drop_first() =~= Seq::<PacketView>::empty());
}

/// The packets of chunks without holes and overlaps are in the order of time, and
/// none comes after the end of the last chunk.
pub proof fn law_chunk_packets_in_time(
    known: ConverterView,
    chunks: Seq<ChunkView>,
    open: Seq<nat>,
    start: Metrics,
    at: int,
)
    requires
        layout::walk(chunks, start) is Some,
        layout::all_intact(chunks),
        at <= start.ts,
    ensures
        clock_through(converter::chunk_packets(known, chunks, open).0, at) matches Some(end) && at
            <= end <= layout::walk(chunks, start)->0.ts,
    decreases chunks,
{
    if chunks.len() > 0 {
        let top = chunks.len() - 1;
        layout::lemma_walk_through(chunks, start, top);
        assert(chunks.take(top) =~= chunks.drop_last());
        assert(chunks.take(top + 1) =~= chunks);
        assert forall|i: int| 0 <= i < chunks.drop_last().len() implies (
        #[trigger] chunks.drop_last()[i]).intact() by {
            assert(chunks.drop_last()[i] == chunks[i]);
        }
        assert(chunks[top].intact());
        let (earlier, now) = converter::chunk_packets(known, chunks.drop_last(), open);
        law_chunk_packets_in_time(known, chunks.drop_last(), open, start, at);
        let mid = clock_through(earlier, at)->0;
        match chunks.last() {
            ChunkView::Frame(frame) => {
                assert(decreases_to!(chunks => chunks[top]));
                assert(decreases_to!(chunks[top] => chunks[top]->Frame_0));
                law_frame_packets_in_time(now, frame, open, mid);
                lemma_clock_concat(earlier, converter::frame_packets(now, frame, open).0, at);
            },
            ChunkView::Straightline(_) => {},
            ChunkView::Pause(pause) => {
                let ends = Seq::new(open.len(), |i: int| converter::slice_end(pause.start.ts));
                let begins = Seq::new(
                    open.len(),
                    |i: int| converter::slice_begin(pause.end.ts, open[i], None),
                );
                lemma_clock_same(ends, pause.start.ts, mid);
                lemma_clock_same(begins, pause.end.ts, clock_through(ends, mid)->0);
                lemma_clock_concat(ends, begins, mid);
                lemma_clock_concat(earlier, converter::pause_packets(open, pause), at);
            },
        }
    }
}

/// The numbers that stand for a name after a packet, if it announces no number
/// again and uses none that does not stand for a name.
pub open spec fn numbers_after(packet: PacketView, numbers: Set<nat>) -> Option<Set<nat>> {
    let now = match packet.interned_name {
        Some(announced) => numbers.insert(announced.iid),
        None => numbers,
    };
    let again = packet.interned_name matches Some(announced) && numbers.contains(announced.iid);
    match packet.data {
        DataView::TrackEvent { name_field: Some(NameView::NameIid(iid)), .. } => if again
            || !now.contains(iid) {
            None
        } else {
            Some(now)
        },
        _ => if again {
            None
        } else {
            Some(now)
        },
    }
}

/// The numbers that stand for a name after the packets, if none of them announces
/// a number again or uses one that does not stand for a name.
pub open spec fn numbers_through(packets: Seq<PacketView>, numbers: Set<nat>) -> Option<Set<nat>>
    decreases packets.len(),
{
    if packets.len() == 0 {
        Some(numbers)
    } else {
        match numbers_after(packets.first(), numbers) {
            Some(next) => numbers_through(packets.drop_first(), next),
            None => None,
        }
    }
}

proof fn lemma_numbers_concat(a: Seq<PacketView>, b: Seq<PacketView>, numbers: Set<nat>)
    ensures
        numbers_through(a + b, numbers) == match numbers_through(a, numbers) {
            Some(mid) => numbers_through(b, mid),
            None => None,
        },
    decreases a.len(),
{
    if a.len() == 0 {
        assert(a + b =~= b);
    } else {
        assert((a + b).drop_first() =~= a.drop_first() + b);
        assert((a + b).first() == a.first());
        if let Some(next) = numbers_after(a.first(), numbers) {
            lemma_numbers_concat(a.drop_first(), b, next);
        }
    }
}

proof fn lemma_numbers_plain(packets: Seq<PacketView>, numbers: Set<nat>)
    requires
        forall|i: int|
            0 <= i < packets.len() ==> numbers_after(#[trigger] packets[i], numbers) == Some(
                numbers,
            ),
    ensures
        numbers_through(packets, numbers) == Some(numbers),
    decreases packets.len(),
{
    if packets.len() > 0 {
        assert(packets.first() == packets[0]);
        assert forall|i: int| 0 <= i < packets.drop_first().len() implies numbers_after(
            #[trigger] packets.drop_first()[i],
            numbers,
        ) == Some(numbers) by {
            assert(packets.drop_first()[i] == packets[i + 1]);
        }
        lemma_numbers_plain(packets.drop_first(), numbers);
    }
}

/// Packets that announce nothing and use only numbers that stand for a name.
pub(crate) proof fn lemma_instants_named(packets: Seq<PacketView>, numbers: Set<nat>)
    requires
        forall|i: int|
            0 <= i < packets.len() ==> (#[trigger] packets[i]).interned_name is None && (
            packets[i].data matches DataView::TrackEvent {
                name_field: Some(NameView::NameIid(iid)),
                ..
            } && numbers.contains(iid)),
    ensures
        numbers_through(packets, numbers) == Some(numbers),
{
    lemma_numbers_plain(packets, numbers);
}

/// The numbers that names have been given so far.
pub open spec fn numbers_given(known: ConverterView) -> Set<nat> {
    Set::new(|iid: nat| 1 <= iid <= known.last_iid)
}

/// All of the open slices have a name that is known.
pub open spec fn all_given(known: ConverterView, open: Seq<nat>) -> bool {
    forall|i: int| 0 <= i < open.len() ==> 1 <= #[trigger] open[i] <= known.last_iid
}

/// The packets of a frame announce every name when it first comes up, and only
/// then. Names that were known before keep their numbers.
pub proof fn law_frame_names_announced(known: ConverterView, frame: FrameView, open: Seq<nat>)
    requires
        known.wf(),
        all_given(known, open),
    ensures
        converter::frame_packets(known, frame, open).1.wf(),
        known.keeps_numbers(converter::frame_packets(known, frame, open).1),
        known.last_iid <= converter::frame_packets(known, frame, open).1.last_iid,
        numbers_through(converter::frame_packets(known, frame, open).0, numbers_given(known))
            == Some(numbers_given(converter::frame_packets(known, frame, open).1)),
    decreases frame,
{
    reveal_with_fuel(numbers_through, 2);
    let name = frame.symbol.name;
    let iid = known.iid(name);
    let now = known.with_name(name);
    converter::lemma_with_name_wf(known, name);
    let (inner, after) = converter::chunk_packets(now, frame.chunks, open.push(iid));
    let begin = seq![
        converter::slice_begin(frame.metrics.start.ts, iid, known.announcement(name)),
    ];
    let end = seq![converter::slice_end(frame.metrics.end.ts)];
    assert(now.names.contains_key(name));
    law_chunk_names_announced(now, frame.chunks, open.push(iid));
    assert(begin.drop_first() =~= Seq::<PacketView>::empty());
    assert(end.drop_first() =~= Seq::<PacketView>::empty());
    assert(numbers_through(begin, numbers_given(known)) == Some(numbers_given(now))) by {
        if known.names.contains_key(name) {
            assert(numbers_given(known).contains(iid));
        } else {
            assert(numbers_given(now) =~= numbers_given(known).insert(iid));
        }
    }
    lemma_numbers_concat(begin + inner, end, numbers_given(known));
    lemma_numbers_concat(begin, inner, numbers_given(known));
}

/// The packets of chunks announce every name when it first comes up, and only
/// then. Names that were known before keep their numbers.
pub proof fn law_chunk_names_announced(
    known: ConverterView,
    chunks: Seq<ChunkView>,
    open: Seq<nat>,
)
    requires
        known.wf(),
        all_given(known, open),
    ensures
        converter::chunk_packets(known, chunks, open).1.wf(),
        known.keeps_numbers(converter::chunk_packets(known, chunks, open).1),
        known.last_iid <= converter::chunk_packets(known, chunks, open).1.last_iid,
        numbers_through(converter::chunk_packets(known, chunks, open).0, numbers_given(known))
            == Some(numbers_given(converter::chunk_packets(known, chunks, open).1)),
    decreases chunks,
{
    if chunks.len() > 0 {
        let top = chunks.len() - 1;
        let (earlier, now) = converter::chunk_packets(known, chunks.drop_last(), open);
        law_chunk_names_announced(known, chunks.drop_last(), open);
        match chunks.last() {
            ChunkView::Frame(frame) => {
                assert(decreases_to!(chunks => chunks[top]));
                assert(decreases_to!(chunks[top] => chunks[top]->Frame_0));
                law_frame_names_announced(now, frame, open);
                lemma_numbers_concat(
                    earlier,
                    converter::frame_packets(now, frame, open).0,
                    numbers_given(known),
                );
            },
            ChunkView::Straightline(_) => {},
            ChunkView::Pause(pause) => {
                let blank = converter::pause_packets(open, pause);
                assert forall|i: int| 0 <= i < blank.len() implies numbers_after(
                    #[trigger] blank[i],
                    numbers_given(now),
                ) == Some(numbers_given(now)) by {
                    if i >= open.len() {
                        assert(1 <= open[i - open.len()] <= now.last_iid);
                    }
                }
                lemma_numbers_plain(blank, numbers_given(now));
                lemma_numbers_concat(earlier, blank, numbers_given(known));
            },
        }
    }
}

/// The names of the symbols of a list of frames.
pub open spec fn names_of(frames: Seq<FrameView>) -> Seq<Seq<char>> {
    frames.map_values(|frame: FrameView| frame.symbol.name)
}

proof fn lemma_with_names_concat(known: ConverterView, a: Seq<Seq<char>>, b: Seq<Seq<char>>)
    ensures
        known.with_names(a + b) == known.with_names(a).with_names(b),
    decreases b.len(),
{
    if b.len() == 0 {
        assert(a + b =~= a);
    } else {
        assert((a + b).drop_last() =~= a + b.drop_last());
        assert((a + b).last() == b.last());
        lemma_with_names_concat(known, a, b.drop_last());
    }
}

/// Names are numbered in the order in which the frames come up, each frame in front
/// of those it called.
pub proof fn law_frame_names_numbered(known: ConverterView, frame: FrameView, open: Seq<nat>)
    ensures
        converter::frame_packets(known, frame, open).1 == known.with_names(
            names_of(finder::frames_from(frame)),
        ),
    decreases frame,
{
    let name = frame.symbol.name;
    let here = seq![name];
    let below = names_of(finder::frames_in(frame.chunks));
    law_chunk_names_numbered(known.with_name(name), frame.chunks, open.push(known.iid(name)));
    reveal_with_fuel(ConverterView::with_names, 2);
    assert(here.drop_last() =~= Seq::<Seq<char>>::empty());
    assert(known.with_names(here) == known.with_name(name));
    assert(names_of(finder::frames_from(frame)) =~= here + below);
    lemma_with_names_concat(known, here, below);
}

/// Names are numbered in the order in which the frames in the chunks come up, each
/// frame in front of those it called.
pub proof fn law_chunk_names_numbered(known: ConverterView, chunks: Seq<ChunkView>, open: Seq<nat>)
    ensures
        converter::chunk_packets(known, chunks, open).1 == known.with_names(
            names_of(finder::frames_in(chunks)),
        ),
    decreases chunks,
{
    if chunks.len() > 0 {
        let top = chunks.len() - 1;
        let now = converter::chunk_packets(known, chunks.drop_last(), open).1;
        let earlier = finder::frames_in(chunks.drop_last());
        law_chunk_names_numbered(known, chunks.drop_last(), open);
        if let ChunkView::Frame(frame) = chunks.last() {
            assert(decreases_to!(chunks => chunks[top]));
            assert(decreases_to!(chunks[top] => chunks[top]->Frame_0));
            law_frame_names_numbered(now, frame, open);
            let own = finder::frames_from(frame);
            assert(names_of(finder::frames_in(chunks)) =~= names_of(earlier) + names_of(own));
            lemma_with_names_concat(known, names_of(earlier), names_of(own));
        }
    }
}

/// The packet declares a track on a sequence.
pub open spec fn declares(packet: PacketView, sequence_id: u32, track_uuid: u64) -> bool {
    &&& packet.data is TrackDescriptor
    &&& packet.trusted_packet_sequence_id == sequence_id
    &&& packet.track_uuid() == track_uuid
}

/// Every track is declared once, and every sequence declares one track.
pub open spec fn tracks_distinct(packets: Seq<PacketView>) -> bool {
    forall|i: int, j: int|
        0 <= i < j < packets.len() && (#[trigger] packets[i]).data is TrackDescriptor && (
        #[trigger] packets[j]).data is TrackDescriptor ==> {
            &&& packets[i].track_uuid() != packets[j].track_uuid()
            &&& packets[i].trusted_packet_sequence_id != packets[j].trusted_packet_sequence_id
        }
}

/// The packet at index `j` is about a track that a packet in front of it declares, on
/// the same sequence.
pub open spec fn on_declared_track(packets: Seq<PacketView>, j: int) -> bool {
    exists|i: int|
        0 <= i < j && declares(
            #[trigger] packets[i],
            packets[j].trusted_packet_sequence_id,
            packets[j].track_uuid(),
        )
}

/// Everything that happens, happens on a track that was declared before, on the same
/// sequence.
pub open spec fn events_on_tracks(packets: Seq<PacketView>) -> bool {
    forall|j: int|
        0 <= j < packets.len() && (#[trigger] packets[j]).data is TrackEvent ==> on_declared_track(
            packets,
            j,
        )
}

/// Packets in front of others leave the tracks declared that those are on.
pub(crate) proof fn lemma_on_tracks_concat(a: Seq<PacketView>, b: Seq<PacketView>)
    requires
        events_on_tracks(a),
        events_on_tracks(b),
    ensures
        events_on_tracks(a + b),
{
    let all = a + b;
    assert forall|j: int| 0 <= j < all.len() && (
    #[trigger] all[j]).data is TrackEvent implies on_declared_track(all, j) by {
        if j < a.len() {
            assert(all[j] == a[j]);
            assert(on_declared_track(a, j));
            let i = choose|i: int|
                0 <= i < j && declares(
                    #[trigger] a[i],
                    a[j].trusted_packet_sequence_id,
                    a[j].track_uuid(),
                );
            assert(declares(all[i], all[j].trusted_packet_sequence_id, all[j].track_uuid()));
        } else {
            let k = j - a.len();
            assert(all[j] == b[k]);
            assert(on_declared_track(b, k));
            let i = choose|i: int|
                0 <= i < k && declares(
                    #[trigger] b[i],
                    b[k].trusted_packet_sequence_id,
                    b[k].track_uuid(),
                );
            assert(all[i + a.len()] == b[i]);
            assert(declares(
                all[i + a.len()],
                all[j].trusted_packet_sequence_id,
                all[j].track_uuid(),
            ));
        }
    }
}

/// Two lists of packets that share no track and no sequence keep their tracks
/// distinct.
pub(crate) proof fn lemma_distinct_concat(a: Seq<PacketView>, b: Seq<PacketView>)
    requires
        tracks_distinct(a),
        tracks_distinct(b),
        forall|i: int, j: int|
            0 <= i < a.len() && 0 <= j < b.len() && (#[trigger] a[i]).data is TrackDescriptor && (
            #[trigger] b[j]).data is TrackDescriptor ==> {
                &&& a[i].track_uuid() != b[j].track_uuid()
                &&& a[i].trusted_packet_sequence_id != b[j].trusted_packet_sequence_id
            },
    ensures
        tracks_distinct(a + b),
{
    let all = a + b;
    assert forall|i: int, j: int|
        0 <= i < j < all.len() && (#[trigger] all[i]).data is TrackDescriptor && (
        #[trigger] all[j]).data is TrackDescriptor implies {
        &&& all[i].track_uuid() != all[j].track_uuid()
        &&& all[i].trusted_packet_sequence_id != all[j].trusted_packet_sequence_id
    } by {
        if j < a.len() {
            assert(all[i] == a[i] && all[j] == a[j]);
        } else if i < a.len() {
            assert(all[i] == a[i] && all[j] == b[j - a.len()]);
        } else {
            assert(all[i] == b[i - a.len()] && all[j] == b[j - a.len()]);
        }
    }
}

/// The packet says what happens on the track of the frames.
pub open spec fn on_frame_track(packet: PacketView) -> bool {
    &&& packet.data is TrackEvent
    &&& packet.trusted_packet_sequence_id == converter::TRACE_SEQUENCE_ID
    &&& packet.track_uuid() == converter::TRACE_TRACK_ID
}

/// All packets of a frame are on the track of the frames.
pub proof fn law_frame_packets_share_a_track(known: ConverterView, frame: FrameView, open: Seq<nat>)
    ensures
        forall|i: int|
            0 <= i < converter::frame_packets(known, frame, open).0.len() ==> on_frame_track(
                #[trigger] converter::frame_packets(known, frame, open).0[i],
            ),
    decreases frame,
{
    let name = frame.symbol.name;
    let now = known.with_name(name);
    let inner = converter::chunk_packets(now, frame.chunks, open.push(known.iid(name))).0;
    let all = converter::frame_packets(known, frame, open).0;
    law_chunk_packets_share_a_track(now, frame.chunks, open.push(known.iid(name)));
    assert forall|i: int| 0 <= i < all.len() implies on_frame_track(#[trigger] all[i]) by {
        if 0 < i < all.len() - 1 {
            assert(all[i] == inner[i - 1]);
        }
    }
}

/// All packets of chunks are on the track of the frames.
pub proof fn law_chunk_packets_share_a_track(
    known: ConverterView,
    chunks: Seq<ChunkView>,
    open: Seq<nat>,
)
    ensures
        forall|i: int|
            0 <= i < converter::chunk_packets(known, chunks, open).0.len() ==> on_frame_track(
                #[trigger] converter::chunk_packets(known, chunks, open).0[i],
            ),
    decreases chunks,
{
    if chunks.len() > 0 {
        let top = chunks.len() - 1;
        let (earlier, now) = converter::chunk_packets(known, chunks.drop_last(), open);
        let all = converter::chunk_packets(known, chunks, open).0;
        law_chunk_packets_share_a_track(known, chunks.drop_last(), open);
        let own = match chunks.last() {
            ChunkView::Frame(frame) => {
                assert(decreases_to!(chunks => chunks[top]));
                assert(decreases_to!(chunks[top] => chunks[top]->Frame_0));
                law_frame_packets_share_a_track(now, frame, open);
                converter::frame_packets(now, frame, open).0
            },
            ChunkView::Straightline(_) => seq![],
            ChunkView::Pause(pause) => converter::pause_packets(open, pause),
        };
        assert(all =~= earlier + own);
        assert forall|i: int| 0 <= i < all.len() implies on_frame_track(#[trigger] all[i]) by {
            if i < earlier.len() {
                assert(all[i] == earlier[i]);
            } else {
                assert(all[i] == own[i - earlier.len()]);
            }
        }
    }
}

} // verus!
