//! The packets of a Perfetto timeline, as far as traces need them.
use vstd::prelude::*;

verus! {

/// What a packet does with the state that its sequence has built up.
#[derive(Debug, Clone, Copy, PartialEq, Eq, Hash, Structural)]
pub enum SequenceFlags {
    /// The state is empty from here on.
    SeqIncrementalStateCleared,
    /// The packet makes sense only together with the state.
    SeqNeedsIncrementalState,
}

/// How the tracks below a track are ordered.
#[derive(Debug, Clone, Copy, PartialEq, Eq, Hash, Structural)]
pub enum ChildTracksOrdering {
    Lexicographic,
    Chronological,
    /// By the rank that each of them has.
    Explicit,
}

/// What happens on a track.
#[derive(Debug, Clone, Copy, PartialEq, Eq, Hash, Structural)]
pub enum EventType {
    SliceBegin,
    SliceEnd,
    Instant,
}

/// A name: spelled out, or by the number under which its sequence knows it.
#[derive(Debug, PartialEq, Eq, Hash)]
pub enum NameField {
    NameIid(u64),
    Name(String),
}

/// A name, and the number under which its sequence knows it from now on.
#[derive(Debug, PartialEq, Eq, Hash)]
pub struct EventName {
    pub iid: u64,
    pub name: String,
}

/// A line of the timeline.
#[derive(Debug, PartialEq, Eq, Hash)]
pub struct TrackDescriptor {
    pub parent_uuid: Option<u64>,
    pub uuid: u64,
    pub name: String,
    pub description: Option<String>,
    pub child_ordering: Option<ChildTracksOrdering>,
    pub sibling_order_rank: Option<i32>,
}

/// Something that happens on a line of the timeline.
#[derive(Debug, PartialEq, Eq, Hash)]
pub struct TrackEvent {
    pub event_type: EventType,
    pub track_uuid: u64,
    pub name_field: Option<NameField>,
}

/// What a packet is about.
#[derive(Debug, PartialEq, Eq, Hash)]
pub enum Data {
    TrackDescriptor(TrackDescriptor),
    TrackEvent(TrackEvent),
}

/// A packet of a timeline.
#[derive(Debug, PartialEq, Eq, Hash)]
pub struct TracePacket {
    pub trusted_packet_sequence_id: u32,
    pub sequence_flags: SequenceFlags,
    pub previous_packet_dropped: Option<bool>,
    pub first_packet_on_sequence: Option<bool>,
    pub timestamp: u64,
    pub interned_name: Option<EventName>,
    pub data: Data,
}

/// A name as a mathematical value.
pub enum NameView {
    NameIid(nat),
    Name(Seq<char>),
}

/// An announced name as a mathematical value.
pub struct EventNameView {
    pub iid: nat,
    pub name: Seq<char>,
}

/// A line of the timeline as a mathematical value.
pub struct TrackView {
    pub parent_uuid: Option<u64>,
    pub uuid: u64,
    pub name: Seq<char>,
    pub description: Option<Seq<char>>,
    pub child_ordering: Option<ChildTracksOrdering>,
    pub sibling_order_rank: Option<int>,
}

/// What a packet is about, as a mathematical value.
pub enum DataView {
    TrackDescriptor(TrackView),
    TrackEvent { event_type: EventType, track_uuid: u64, name_field: Option<NameView> },
}

/// A packet as a mathematical value.
pub struct PacketView {
    pub trusted_packet_sequence_id: u32,
    pub sequence_flags: SequenceFlags,
    pub previous_packet_dropped: Option<bool>,
    pub first_packet_on_sequence: Option<bool>,
    pub timestamp: u64,
    pub interned_name: Option<EventNameView>,
    pub data: DataView,
}

impl View for NameField {
    type V = NameView;

    open spec fn view(&self) -> NameView {
        match self {
            NameField::NameIid(iid) => NameView::NameIid(*iid as nat),
            NameField::Name(name) => NameView::Name(name@),
        }
    }
}

impl View for EventName {
    type V = EventNameView;

    open spec fn view(&self) -> EventNameView {
        EventNameView { iid: self.iid as nat, name: self.name@ }
    }
}

impl View for TrackDescriptor {
    type V = TrackView;

    open spec fn view(&self) -> TrackView {
        TrackView {
            parent_uuid: self.parent_uuid,
            uuid: self.uuid,
            name: self.name@,
            description: match self.description {
                Some(description) => Some(description@),
                None => None,
            },
            child_ordering: self.child_ordering,
            sibling_order_rank: match self.sibling_order_rank {
                Some(rank) => Some(rank as int),
                None => None,
            },
        }
    }
}

impl View for Data {
    type V = DataView;

    open spec fn view(&self) -> DataView {
        match self {
            Data::TrackDescriptor(track) => DataView::TrackDescriptor(track@),
            Data::TrackEvent(event) => DataView::TrackEvent {
                event_type: event.event_type,
                track_uuid: event.track_uuid,
                name_field: match event.name_field {
                    Some(name) => Some(name@),
                    None => None,
                },
            },
        }
    }
}

impl View for TracePacket {
    type V = PacketView;

    open spec fn view(&self) -> PacketView {
        PacketView {
            trusted_packet_sequence_id: self.trusted_packet_sequence_id,
            sequence_flags: self.sequence_flags,
            previous_packet_dropped: self.previous_packet_dropped,
            first_packet_on_sequence: self.first_packet_on_sequence,
            timestamp: self.timestamp,
            interned_name: match self.interned_name {
                Some(name) => Some(name@),
                None => None,
            },
            data: self.data@,
        }
    }
}

/// The views of a list of packets.
pub open spec fn packet_views(packets: Seq<TracePacket>) -> Seq<PacketView> {
    Seq::new(packets.len(), |i: int| packets[i]@)
}

impl PacketView {
    /// The number of the track that the packet is about.
    pub open spec fn track_uuid(self) -> u64 {
        match self.data {
            DataView::TrackDescriptor(track) => track.uuid,
            DataView::TrackEvent { track_uuid, .. } => track_uuid,
        }
    }

    /// A packet that opens a sequence with a line of the timeline.
    pub open spec fn track(
        timestamp: u64,
        sequence_id: u32,
        track: TrackView,
        interned_name: Option<EventNameView>,
    ) -> PacketView {
        PacketView {
            trusted_packet_sequence_id: sequence_id,
            sequence_flags: SequenceFlags::SeqIncrementalStateCleared,
            previous_packet_dropped: Some(true),
            first_packet_on_sequence: Some(true),
            timestamp,
            interned_name,
            data: DataView::TrackDescriptor(track),
        }
    }

    /// A packet that says what happens on a line of the timeline.
    pub open spec fn event(
        timestamp: u64,
        sequence_id: u32,
        event_type: EventType,
        track_uuid: u64,
        name_field: Option<NameView>,
        interned_name: Option<EventNameView>,
    ) -> PacketView {
        PacketView {
            trusted_packet_sequence_id: sequence_id,
            sequence_flags: SequenceFlags::SeqNeedsIncrementalState,
            previous_packet_dropped: None,
            first_packet_on_sequence: None,
            timestamp,
            interned_name,
            data: DataView::TrackEvent { event_type, track_uuid, name_field },
        }
    }
}

/// A packet that opens a sequence with a line of the timeline.
pub fn create_track(
    timestamp: u64,
    sequence_id: u32,
    uuid: u64,
    name: String,
    desc: Option<String>,
    parent_uuid: Option<u64>,
    child_ordering: Option<ChildTracksOrdering>,
    sibling_order_rank: Option<i32>,
) -> (packet: TracePacket)
    ensures
        packet@ == PacketView::track(
            timestamp,
            sequence_id,
            TrackView {
                parent_uuid,
                uuid,
                name: name@,
                description: match desc {
                    Some(desc) => Some(desc@),
                    None => None,
                },
                child_ordering,
                sibling_order_rank: match sibling_order_rank {
                    Some(rank) => Some(rank as int),
                    None => None,
                },
            },
            None,
        ),
        packet.trusted_packet_sequence_id == sequence_id,
        packet.sequence_flags == SequenceFlags::SeqIncrementalStateCleared,
        packet.previous_packet_dropped == Some(true),
        packet.first_packet_on_sequence == Some(true),
        packet.timestamp == timestamp,
        packet.interned_name is None,
        packet.data matches Data::TrackDescriptor(track) && track.uuid == uuid && track.name@
            == name@ && track.description == desc && track.parent_uuid == parent_uuid
            && track.child_ordering == child_ordering && track.sibling_order_rank
            == sibling_order_rank,
{
    let description = TrackDescriptor {
        parent_uuid,
        uuid,
        name,
        description: desc,
        child_ordering,
        sibling_order_rank,
    };
    TracePacket {
        trusted_packet_sequence_id: sequence_id,
        sequence_flags: SequenceFlags::SeqIncrementalStateCleared,
        previous_packet_dropped: Some(true),
        first_packet_on_sequence: Some(true),
        timestamp,
        interned_name: None,
        data: Data::TrackDescriptor(description),
    }
}

/// A packet that says what happens on a line of the timeline.
fn create_track_event(
    timestamp: u64,
    sequence_id: u32,
    event_type: EventType,
    track_uuid: u64,
    name_field: Option<NameField>,
) -> (packet: TracePacket)
    ensures
        packet@ == PacketView::event(
            timestamp,
            sequence_id,
            event_type,
            track_uuid,
            match name_field {
                Some(name) => Some(name@),
                None => None,
            },
            None,
        ),
        packet.trusted_packet_sequence_id == sequence_id,
        packet.sequence_flags == SequenceFlags::SeqNeedsIncrementalState,
        packet.previous_packet_dropped is None,
        packet.first_packet_on_sequence is None,
        packet.timestamp == timestamp,
        packet.interned_name is None,
        packet.data == Data::TrackEvent(TrackEvent { event_type, track_uuid, name_field }),
{
    TracePacket {
        trusted_packet_sequence_id: sequence_id,
        sequence_flags: SequenceFlags::SeqNeedsIncrementalState,
        previous_packet_dropped: None,
        first_packet_on_sequence: None,
        timestamp,
        interned_name: None,
        data: Data::TrackEvent(TrackEvent { event_type, track_uuid, name_field }),
    }
}

/// A packet with which a slice begins.
pub fn create_slice_begin(timestamp: u64, sequence_id: u32, track_id: u64, name: NameField) -> (packet:
    TracePacket)
    ensures
        packet@ == PacketView::event(
            timestamp,
            sequence_id,
            EventType::SliceBegin,
            track_id,
            Some(name@),
            None,
        ),
        packet.trusted_packet_sequence_id == sequence_id,
        packet.sequence_flags == SequenceFlags::SeqNeedsIncrementalState,
        packet.previous_packet_dropped is None,
        packet.first_packet_on_sequence is None,
        packet.timestamp == timestamp,
        packet.interned_name is None,
        packet.data == Data::TrackEvent(
            (TrackEvent {
                event_type: EventType::SliceBegin,
                track_uuid: track_id,
                name_field: Some(name),
            }),
        ),
{
    create_track_event(timestamp, sequence_id, EventType::SliceBegin, track_id, Some(name))
}

/// A packet with which the innermost slice ends.
pub fn create_slice_end(timestamp: u64, sequence_id: u32, track_id: u64) -> (packet: TracePacket)
    ensures
        packet@ == PacketView::event(
            timestamp,
            sequence_id,
            EventType::SliceEnd,
            track_id,
            None,
            None,
        ),
        packet.trusted_packet_sequence_id == sequence_id,
        packet.sequence_flags == SequenceFlags::SeqNeedsIncrementalState,
        packet.previous_packet_dropped is None,
        packet.first_packet_on_sequence is None,
        packet.timestamp == timestamp,
        packet.interned_name is None,
        packet.data == Data::TrackEvent(
            (TrackEvent {
                event_type: EventType::SliceEnd,
                track_uuid: track_id,
                name_field: None,
            }),
        ),
{
    create_track_event(timestamp, sequence_id, EventType::SliceEnd, track_id, None)
}

/// The number of the sequence for the first kind of event; the others follow.
pub const ERROR_SEQUENCE_ID_BASE: u32 = 3;

/// The number of the track for the first kind of event; the others follow.
pub const ERROR_TRACK_ID_BASE: u64 = 30;

/// The largest id of an event that there is a sequence for.
pub const LARGEST_EVENT_ID: u32 = 0xffff_fffc;

/// A packet for one occurence of an event.
pub fn create_event(timestamp: u64, event_id: u32) -> (packet: TracePacket)
    requires
        event_id <= LARGEST_EVENT_ID,
    ensures
        packet@ == PacketView::event(
            timestamp,
            (ERROR_SEQUENCE_ID_BASE + event_id) as u32,
            EventType::Instant,
            (ERROR_TRACK_ID_BASE + event_id) as u64,
            Some(NameView::NameIid(1)),
            None,
        ),
        packet.trusted_packet_sequence_id == 3 + event_id,
        packet.sequence_flags == SequenceFlags::SeqNeedsIncrementalState,
        packet.previous_packet_dropped is None,
        packet.first_packet_on_sequence is None,
        packet.timestamp == timestamp,
        packet.interned_name is None,
        packet.data matches Data::TrackEvent(event) && event.event_type == EventType::Instant
            && event.track_uuid == 30 + event_id && event.name_field == Some(
            NameField::NameIid(1),
        ),
{
    create_track_event(
        timestamp,
        ERROR_SEQUENCE_ID_BASE + event_id,
        EventType::Instant,
        ERROR_TRACK_ID_BASE + event_id as u64,
        Some(NameField::NameIid(1)),
    )
}

/// What the packets with which a line opens and with which something happens on it say.
pub proof fn law_packets_say_what_they_are_about(
    timestamp: u64,
    sequence_id: u32,
    track: TrackView,
    event_type: EventType,
    track_uuid: u64,
    name_field: Option<NameView>,
    interned_name: Option<EventNameView>,
)
    ensures
        PacketView::track(timestamp, sequence_id, track, interned_name) == (PacketView {
            trusted_packet_sequence_id: sequence_id,
            sequence_flags: SequenceFlags::SeqIncrementalStateCleared,
            previous_packet_dropped: Some(true),
            first_packet_on_sequence: Some(true),
            timestamp,
            interned_name,
            data: DataView::TrackDescriptor(track),
        }),
        PacketView::event(
            timestamp,
            sequence_id,
            event_type,
            track_uuid,
            name_field,
            interned_name,
        ) == (PacketView {
            trusted_packet_sequence_id: sequence_id,
            sequence_flags: SequenceFlags::SeqNeedsIncrementalState,
            previous_packet_dropped: None,
            first_packet_on_sequence: None,
            timestamp,
            interned_name,
            data: DataView::TrackEvent { event_type, track_uuid, name_field },
        }),
        PacketView::track(timestamp, sequence_id, track, interned_name).track_uuid() == track.uuid,
        PacketView::event(
            timestamp,
            sequence_id,
            event_type,
            track_uuid,
            name_field,
            interned_name,
        ).track_uuid() == track_uuid,
{
}

/// Nothing of a packet is lost in its view.
pub proof fn law_views_keep_the_packet(packet: TracePacket)
    ensures
        packet@.trusted_packet_sequence_id == packet.trusted_packet_sequence_id,
        packet@.sequence_flags == packet.sequence_flags,
        packet@.previous_packet_dropped == packet.previous_packet_dropped,
        packet@.first_packet_on_sequence == packet.first_packet_on_sequence,
        packet@.timestamp == packet.timestamp,
        match packet.interned_name {
            Some(name) => packet@.interned_name matches Some(own) && own.iid == name.iid
                && own.name == name.name@,
            None => packet@.interned_name is None,
        },
        match packet.data {
            Data::TrackDescriptor(track) => packet@.data matches DataView::TrackDescriptor(own)
                && own.uuid == track.uuid && own.name == track.name@ && own.parent_uuid
                == track.parent_uuid && own.child_ordering == track.child_ordering && (
            own.description is Some <==> track.description is Some) && (track.description is Some
                ==> own.description->0 == track.description->0@) && (
            own.sibling_order_rank is Some <==> track.sibling_order_rank is Some) && (
            track.sibling_order_rank is Some ==> own.sibling_order_rank->0
                == track.sibling_order_rank->0),
            Data::TrackEvent(event) => packet@.data matches DataView::TrackEvent {
                event_type,
                track_uuid,
                name_field,
            } && event_type == event.event_type && track_uuid == event.track_uuid && match event.name_field {
                Some(NameField::NameIid(iid)) => name_field matches Some(NameView::NameIid(own))
                    && own == iid,
                Some(NameField::Name(name)) => name_field matches Some(NameView::Name(own)) && own
                    == name@,
                None => name_field is None,
            },
        },
{
}

} // verus!
