//! Turning frames into the slices of a timeline.
use vstd::hash_map::StringHashMap;
use vstd::prelude::*;

use super::packet;
use super::packet::{EventName, EventNameView, EventType, NameField, NameView, PacketView, TracePacket};
use crate::trace::frame;
use crate::trace::layout::{ChunkView, FrameView};
use crate::trace::{Chunk, Frame, MetricsRange, NamedFrame};

verus! {

pub const TRACE_TRACK_ID: u64 = 20;

pub const TRACE_SEQUENCE_ID: u32 = 2;

/// Turns frames into slices, and gives every name a number when it first comes up.
pub struct Converter {
    interned_names: StringHashMap<u64>,
    last_iid: u64,
}

/// The names that have come up so far with their numbers, as mathematical values.
pub struct ConverterView {
    pub names: Map<Seq<char>, nat>,
    pub last_iid: nat,
}

impl View for Converter {
    type V = ConverterView;

    closed spec fn view(&self) -> ConverterView {
        ConverterView {
            names: self.interned_names@.map_values(|iid: u64| iid as nat),
            last_iid: self.last_iid as nat,
        }
    }
}

impl ConverterView {
    /// No name has come up yet.
    pub open spec fn fresh() -> ConverterView {
        ConverterView { names: Map::empty(), last_iid: 0 }
    }

    /// The names have the numbers from 1 on, each its own.
    pub open spec fn wf(self) -> bool {
        &&& self.names.dom().finite()
        &&& self.last_iid == self.names.dom().len()
        &&& forall|name: Seq<char>|
            #[trigger] self.names.contains_key(name) ==> 1 <= self.names[name] <= self.last_iid
        &&& forall|a: Seq<char>, b: Seq<char>|
            #[trigger] self.names.contains_key(a) && #[trigger] self.names.contains_key(b)
                && self.names[a] == self.names[b] ==> a == b
    }

    /// Every name known so far has the same number later on.
    pub open spec fn keeps_numbers(self, later: ConverterView) -> bool {
        forall|name: Seq<char>| #[trigger]
            self.names.contains_key(name) ==> later.names.contains_key(name) && later.names[name]
                == self.names[name]
    }

    /// The converter once `name` has come up.
    pub open spec fn with_name(self, name: Seq<char>) -> ConverterView {
        if self.names.contains_key(name) {
            self
        } else {
            ConverterView {
                names: self.names.insert(name, self.last_iid + 1),
                last_iid: self.last_iid + 1,
            }
        }
    }

    /// The converter once `names` have come up, one after the other.
    pub open spec fn with_names(self, names: Seq<Seq<char>>) -> ConverterView
        decreases names.len(),
    {
        if names.len() == 0 {
            self
        } else {
            self.with_names(names.drop_last()).with_name(names.last())
        }
    }

    /// The number of `name`, once it has come up.
    pub open spec fn iid(self, name: Seq<char>) -> nat {
        self.with_name(name).names[name]
    }

    /// What has to be announced when `name` comes up: its number, if it is new.
    pub open spec fn announcement(self, name: Seq<char>) -> Option<EventNameView> {
        if self.names.contains_key(name) {
            None
        } else {
            Some(EventNameView { iid: self.last_iid + 1, name })
        }
    }
}

/// The packet with which a slice begins on the track of the trace.
pub open spec fn slice_begin(timestamp: u64, iid: nat, announced: Option<EventNameView>) -> PacketView {
    PacketView::event(
        timestamp,
        TRACE_SEQUENCE_ID,
        EventType::SliceBegin,
        TRACE_TRACK_ID,
        Some(NameView::NameIid(iid)),
        announced,
    )
}

/// The packet with which the innermost slice ends on the track of the trace.
pub open spec fn slice_end(timestamp: u64) -> PacketView {
    PacketView::event(
        timestamp,
        TRACE_SEQUENCE_ID,
        EventType::SliceEnd,
        TRACE_TRACK_ID,
        None,
        None,
    )
}

/// The packets for a pause: all slices that are open end when it begins, and begin
/// again when it is over, so that it shows as a blank gap.
pub open spec fn pause_packets(open: Seq<nat>, pause: MetricsRange) -> Seq<PacketView> {
    Seq::new(open.len(), |i: int| slice_end(pause.start.ts)) + Seq::new(
        open.len(),
        |i: int| slice_begin(pause.end.ts, open[i], None),
    )
}

/// The packets for a frame that runs while the slices `open` are open, and the
/// names known afterwards.
pub open spec fn frame_packets(known: ConverterView, frame: FrameView, open: Seq<nat>) -> (
    Seq<PacketView>,
    ConverterView,
)
    decreases frame,
{
    let name = frame.symbol.name;
    let iid = known.iid(name);
    let (inner, after) = chunk_packets(known.with_name(name), frame.chunks, open.push(iid));
    (
        seq![slice_begin(frame.metrics.start.ts, iid, known.announcement(name))] + inner + seq![
            slice_end(frame.metrics.end.ts),
        ],
        after,
    )
}

/// The packets for chunks that come while the slices `open` are open, and the names
/// known afterwards.
pub open spec fn chunk_packets(known: ConverterView, chunks: Seq<ChunkView>, open: Seq<nat>) -> (
    Seq<PacketView>,
    ConverterView,
)
    decreases chunks,
{
    if chunks.len() == 0 {
        (seq![], known)
    } else {
        let (earlier, now) = chunk_packets(known, chunks.drop_last(), open);
        match chunks.last() {
            ChunkView::Frame(frame) => {
                let (own, after) = frame_packets(now, frame, open);
                (earlier + own, after)
            },
            ChunkView::Straightline(_) => (earlier, now),
            ChunkView::Pause(pause) => (earlier + pause_packets(open, pause), now),
        }
    }
}

/// The numbers of a list of names, as mathematical values.
pub open spec fn iids(numbers: Seq<u64>) -> Seq<nat> {
    numbers.map_values(|iid: u64| iid as nat)
}

/// Numbers stay unique as names come up.
pub(crate) proof fn lemma_with_name_wf(known: ConverterView, name: Seq<char>)
    requires
        known.wf(),
    ensures
        known.with_name(name).wf(),
        known.keeps_numbers(known.with_name(name)),
        known.with_name(name).names.contains_key(name),
{
    let after = known.with_name(name);
    if !known.names.contains_key(name) {
        assert(after.names.dom() =~= known.names.dom().insert(name));
    }
}

impl Converter {
    pub fn new() -> (converter: Converter)
        ensures
            converter@ == ConverterView::fresh(),
            converter@.wf(),
    {
        let converter = Converter { interned_names: StringHashMap::new(), last_iid: 0 };
        assert(converter@.names =~= Map::<Seq<char>, nat>::empty());
        converter
    }

    /// The number of `name`, and what has to be announced if it is new.
    fn intern(&mut self, name: &String) -> (result: (u64, Option<EventName>))
        requires
            old(self)@.wf(),
        ensures
            final(self)@ == old(self)@.with_name(name@),
            final(self)@.wf(),
            result.0 as nat == old(self)@.iid(name@),
            match result.1 {
                Some(announced) => old(self)@.announcement(name@) == Some(announced@),
                None => old(self)@.announcement(name@) is None,
            },
    {
        proof {
            lemma_with_name_wf(self@, name@);
        }
        match self.interned_names.get(name.as_str()) {
            Some(iid) => (*iid, None),
            None => {
                let ghost before = *self;
                let iid = self.last_iid.wrapping_add(1);
                self.interned_names.insert(name.clone(), iid);
                proof {
                    broadcast use vstd::hash_map::group_hash_map_axioms;
                    // The map holds one name more than before and still has a length
                    // that fits, so the new number fits too.
                    assert(self.interned_names@.dom() =~= before.interned_names@.dom().insert(
                        name@,
                    ));
                    assert(before@.names.dom() =~= before.interned_names@.dom());
                    assert(self.interned_names.spec_len() == before.last_iid + 1);
                }
                self.last_iid = iid;
                assert(self@.names =~= before@.names.insert(name@, iid as nat));
                (iid, Some(EventName { iid, name: name.clone() }))
            },
        }
    }

    /// The packets for a frame that runs while the slices of `stack_iid` are open.
    pub fn process_frame(&mut self, frame: &NamedFrame, stack_iid: &mut Vec<u64>) -> (packets: Vec<
        TracePacket,
    >)
        requires
            old(self)@.wf(),
        ensures
            packet::packet_views(packets@) == frame_packets(
                old(self)@,
                frame@,
                iids(old(stack_iid)@),
            ).0,
            final(self)@ == frame_packets(old(self)@, frame@, iids(old(stack_iid)@)).1,
            forall|i: int|
                0 <= i < packets@.len() ==> (#[trigger] packets@[i])@ == frame_packets(
                    old(self)@,
                    frame@,
                    iids(old(stack_iid)@),
                ).0[i],
            packets@.len() == frame_packets(old(self)@, frame@, iids(old(stack_iid)@)).0.len(),
            final(self)@.wf(),
            final(stack_iid)@ == old(stack_iid)@,
        decreases frame@,
    {
        let ghost known = self@;
        let ghost open = stack_iid@;
        let mut packets: Vec<TracePacket> = Vec::new();
        let (iid, announced) = self.intern(&frame.symbol().name);
        let mut slice_begin = packet::create_slice_begin(
            frame.metrics().start.ts,
            TRACE_SEQUENCE_ID,
            TRACE_TRACK_ID,
            NameField::NameIid(iid),
        );
        slice_begin.interned_name = announced;
        packets.push(slice_begin);

        stack_iid.push(iid);
        assert(iids(stack_iid@) =~= iids(open).push(iid as nat));
        assert(decreases_to!(frame@ => frame@.chunks));
        let mut inner = self.process_chunks(frame.chunks(), stack_iid);
        packets.append(&mut inner);
        stack_iid.pop();
        assert(stack_iid@ =~= open);

        packets.push(
            packet::create_slice_end(frame.metrics().end.ts, TRACE_SEQUENCE_ID, TRACE_TRACK_ID),
        );
        assert(packet::packet_views(packets@) =~= frame_packets(known, frame@, iids(open)).0);
        assert forall|i: int| 0 <= i < packets@.len() implies (#[trigger] packets@[i])@
            == frame_packets(known, frame@, iids(open)).0[i] by {
            assert(packet::packet_views(packets@)[i] == packets@[i]@);
        }
        packets
    }

    /// The packets for chunks that come while the slices of `stack_iid` are open.
    pub fn process_chunks(&mut self, chunks: &Vec<Chunk>, stack_iid: &mut Vec<u64>) -> (packets:
        Vec<TracePacket>)
        requires
            old(self)@.wf(),
        ensures
            packet::packet_views(packets@) == chunk_packets(
                old(self)@,
                frame::chunk_views(chunks@),
                iids(old(stack_iid)@),
            ).0,
            final(self)@ == chunk_packets(
                old(self)@,
                frame::chunk_views(chunks@),
                iids(old(stack_iid)@),
            ).1,
            packets@.len() == chunk_packets(
                old(self)@,
                frame::chunk_views(chunks@),
                iids(old(stack_iid)@),
            ).0.len(),
            forall|i: int|
                0 <= i < packets@.len() ==> (#[trigger] packets@[i])@ == chunk_packets(
                    old(self)@,
                    frame::chunk_views(chunks@),
                    iids(old(stack_iid)@),
                ).0[i],
            final(self)@.wf(),
            final(stack_iid)@ == old(stack_iid)@,
        decreases frame::chunk_views(chunks@),
    {
        let ghost known = self@;
        let ghost open = iids(stack_iid@);
        let ghost views = frame::chunk_views(chunks@);
        let mut packets: Vec<TracePacket> = Vec::new();
        let mut i: usize = 0;
        assert(packet::packet_views(packets@) =~= chunk_packets(known, views.take(0), open).0);
        while i < chunks.len()
            invariant
                i <= chunks@.len(),
                views == frame::chunk_views(chunks@),
                open == iids(stack_iid@),
                stack_iid@ == old(stack_iid)@,
                self@.wf(),
                self@ == chunk_packets(known, views.take(i as int), open).1,
                packet::packet_views(packets@) == chunk_packets(
                    known,
                    views.take(i as int),
                    open,
                ).0,
            decreases chunks@.len() - i,
        {
            let ghost before = packet::packet_views(packets@);
            let ghost next = views.take(i + 1);
            assert(next.drop_last() =~= views.take(i as int));
            assert(next.last() == chunks@[i as int]@);
            match &chunks[i] {
                Chunk::Frame(child) => {
                    proof {
                        assert(views[i as int] == ChunkView::Frame(child@));
                        assert(decreases_to!(views => views[i as int]));
                        assert(decreases_to!(views[i as int] => views[i as int]->Frame_0));
                    }
                    let mut inner = self.process_frame(child, stack_iid);
                    let ghost own = packet::packet_views(inner@);
                    packets.append(&mut inner);
                    assert(packet::packet_views(packets@) =~= before + own);
                },
                Chunk::Straightline(_) => {},
                Chunk::Pause(pause) => {
                    push_pause(&mut packets, stack_iid, pause);
                },
            }
            i += 1;
        }
        assert(views.take(i as int) =~= views);
        assert forall|j: int| 0 <= j < packets@.len() implies (#[trigger] packets@[j])@
            == chunk_packets(known, views, open).0[j] by {
            assert(packet::packet_views(packets@)[j] == packets@[j]@);
        }
        packets
    }
}

/// Adds the packets for a pause.
fn push_pause(packets: &mut Vec<TracePacket>, stack_iid: &Vec<u64>, pause: &MetricsRange)
    ensures
        packet::packet_views(final(packets)@) == packet::packet_views(old(packets)@)
            + pause_packets(iids(stack_iid@), *pause),
{
    let ghost before = packet::packet_views(packets@);
    let ghost open = iids(stack_iid@);
    let depth = stack_iid.len();
    let ghost ends = Seq::new(open.len(), |i: int| slice_end(pause.start.ts));
    let ghost begins = Seq::new(open.len(), |i: int| slice_begin(pause.end.ts, open[i], None));
    let mut i: usize = 0;
    assert(packet::packet_views(packets@) =~= before + ends.take(0));
    while i < depth
        invariant
            i <= depth == open.len(),
            ends == Seq::new(open.len(), |i: int| slice_end(pause.start.ts)),
            packet::packet_views(packets@) == before + ends.take(i as int),
        decreases depth - i,
    {
        let ghost so_far = packet::packet_views(packets@);
        packets.push(
            packet::create_slice_end(pause.start.ts, TRACE_SEQUENCE_ID, TRACE_TRACK_ID),
        );
        assert(packet::packet_views(packets@) =~= so_far.push(ends[i as int]));
        assert(so_far.push(ends[i as int]) =~= before + ends.take(i + 1));
        i += 1;
    }
    assert(ends.take(i as int) =~= ends);
    let mut k: usize = 0;
    assert(packet::packet_views(packets@) =~= before + ends + begins.take(0));
    while k < depth
        invariant
            k <= depth == open.len(),
            open == iids(stack_iid@),
            begins == Seq::new(open.len(), |i: int| slice_begin(pause.end.ts, open[i], None)),
            packet::packet_views(packets@) == before + ends + begins.take(k as int),
        decreases depth - k,
    {
        let ghost so_far = packet::packet_views(packets@);
        packets.push(
            packet::create_slice_begin(
                pause.end.ts,
                TRACE_SEQUENCE_ID,
                TRACE_TRACK_ID,
                NameField::NameIid(stack_iid[k]),
            ),
        );
        assert(packet::packet_views(packets@) =~= so_far.push(begins[k as int]));
        assert(so_far.push(begins[k as int]) =~= before + ends + begins.take(k + 1));
        k += 1;
    }
    assert(begins.take(k as int) =~= begins);
    assert(before + ends + begins =~= before + pause_packets(open, *pause));
}

/// A name keeps the number that it has. A new name gets the number behind the last one
/// and is announced with it, and no other name is touched.
pub proof fn law_names_get_the_next_number(known: ConverterView, name: Seq<char>, other: Seq<char>)
    ensures
        known.names.contains_key(name) ==> known.with_name(name) == known && known.iid(name)
            == known.names[name] && known.announcement(name) is None,
        !known.names.contains_key(name) ==> known.iid(name) == known.last_iid + 1
            && known.with_name(name).last_iid == known.last_iid + 1 && (known.announcement(
            name,
        ) matches Some(announced) && announced.iid == known.last_iid + 1 && announced.name == name),
        known.with_name(name).names.contains_key(name),
        known.with_name(name).names[name] == known.iid(name),
        other != name ==> (known.with_name(name).names.contains_key(other)
            <==> known.names.contains_key(other)) && (known.names.contains_key(other)
            ==> known.with_name(name).names[other] == known.names[other]),
        ConverterView::fresh().last_iid == 0,
        !ConverterView::fresh().names.contains_key(name),
{
}

/// Where and when a slice begins and ends.
pub proof fn law_slices_are_on_the_track_of_the_frames(
    timestamp: u64,
    iid: nat,
    announced: Option<EventNameView>,
)
    ensures
        slice_begin(timestamp, iid, announced) == (PacketView {
            trusted_packet_sequence_id: 2,
            sequence_flags: packet::SequenceFlags::SeqNeedsIncrementalState,
            previous_packet_dropped: None,
            first_packet_on_sequence: None,
            timestamp,
            interned_name: announced,
            data: packet::DataView::TrackEvent {
                event_type: EventType::SliceBegin,
                track_uuid: 20,
                name_field: Some(NameView::NameIid(iid)),
            },
        }),
        slice_end(timestamp) == (PacketView {
            trusted_packet_sequence_id: 2,
            sequence_flags: packet::SequenceFlags::SeqNeedsIncrementalState,
            previous_packet_dropped: None,
            first_packet_on_sequence: None,
            timestamp,
            interned_name: None,
            data: packet::DataView::TrackEvent {
                event_type: EventType::SliceEnd,
                track_uuid: 20,
                name_field: None,
            },
        }),
{
}

/// The packets for a frame begin with the slice of the frame, under the number of its
/// own symbol's name, and end with the end of that slice. What stands between them is
/// for the chunks of the frame, with that slice open too.
pub proof fn law_frames_enclose_their_chunks(
    known: ConverterView,
    frame: FrameView,
    open: Seq<nat>,
)
    ensures
        ({
            let (packets, later) = frame_packets(known, frame, open);
            let named = known.with_name(frame.symbol.name);
            let iid = named.names[frame.symbol.name];
            let (inner, after) = chunk_packets(named, frame.chunks, open.push(iid));
            let last = packets.len() - 1;
            &&& packets.len() == inner.len() + 2
            &&& packets[0].timestamp == frame.metrics.start.ts
            &&& packets[0].data == (packet::DataView::TrackEvent {
                event_type: EventType::SliceBegin,
                track_uuid: 20,
                name_field: Some(NameView::NameIid(iid)),
            })
            &&& packets[0].interned_name is Some <==> !known.names.contains_key(frame.symbol.name)
            &&& packets[0].interned_name matches Some(announced) ==> announced.iid == iid
                && announced.name == frame.symbol.name
            &&& packets.subrange(1, last) == inner
            &&& packets[last].timestamp == frame.metrics.end.ts
            &&& packets[last].data == (packet::DataView::TrackEvent {
                event_type: EventType::SliceEnd,
                track_uuid: 20,
                name_field: None,
            })
            &&& later == after
        }),
{
    let packets = frame_packets(known, frame, open).0;
    let iid = known.with_name(frame.symbol.name).names[frame.symbol.name];
    let inner = chunk_packets(
        known.with_name(frame.symbol.name),
        frame.chunks,
        open.push(iid),
    ).0;
    assert(packets.subrange(1, packets.len() - 1) =~= inner);
}

/// The packets for chunks are those for each of them, one after the other: those of a
/// frame, none for straightline code, and for a pause the end of every open slice when
/// it begins and the beginning of every one, from the outermost to the innermost, when
/// it is over.
pub proof fn law_chunks_are_converted_one_by_one(
    known: ConverterView,
    earlier: Seq<ChunkView>,
    later: Seq<ChunkView>,
    frame: FrameView,
    range: MetricsRange,
    open: Seq<nat>,
)
    ensures
        ({
            let (first, now) = chunk_packets(known, earlier, open);
            let (second, after) = chunk_packets(now, later, open);
            chunk_packets(known, earlier + later, open) == (first + second, after)
        }),
        chunk_packets(known, seq![ChunkView::Frame(frame)], open) == frame_packets(
            known,
            frame,
            open,
        ),
        chunk_packets(known, seq![ChunkView::Straightline(range)], open).0.len() == 0,
        chunk_packets(known, seq![ChunkView::Straightline(range)], open).1 == known,
        ({
            let (packets, after) = chunk_packets(known, seq![ChunkView::Pause(range)], open);
            &&& after == known
            &&& packets.len() == 2 * open.len()
            &&& forall|i: int|
                0 <= i < open.len() ==> #[trigger] packets[i] == slice_end(range.start.ts)
            &&& forall|i: int|
                open.len() <= i < packets.len() ==> #[trigger] packets[i] == slice_begin(
                    range.end.ts,
                    open[i - open.len()],
                    None,
                )
        }),
    decreases later.len(),
{
    reveal_with_fuel(chunk_packets, 2);
    let none = Seq::<ChunkView>::empty();
    assert(seq![ChunkView::Frame(frame)].drop_last() =~= none);
    assert(seq![ChunkView::Straightline(range)].drop_last() =~= none);
    assert(seq![ChunkView::Pause(range)].drop_last() =~= none);
    assert(Seq::<PacketView>::empty() + frame_packets(known, frame, open).0 =~= frame_packets(
        known,
        frame,
        open,
    ).0);
    assert(Seq::<PacketView>::empty() + pause_packets(open, range) =~= pause_packets(open, range));
    let (first, now) = chunk_packets(known, earlier, open);
    let (second, after) = chunk_packets(now, later, open);
    if later.len() == 0 {
        assert(earlier + later =~= earlier);
        assert(first + second =~= first);
    } else {
        law_chunks_are_converted_one_by_one(
            known,
            earlier,
            later.drop_last(),
            frame,
            range,
            open,
        );
        assert((earlier + later).drop_last() =~= earlier + later.drop_last());
        assert((earlier + later).last() == later.last());
        assert(chunk_packets(known, earlier + later, open).0 =~= first + second);
    }
}

} // verus!
