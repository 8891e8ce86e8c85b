//! What a viewer shows of the packets for frames: which slices, under which names.
use vstd::multiset::Multiset;
use vstd::prelude::*;

use super::converter;
use super::converter::ConverterView;
use super::packet::{DataView, EventType, NameView, PacketView};
use crate::analysis::finder;
use crate::trace::layout::{ChunkView, FrameView};
use crate::trace::MetricsRange;

verus! {

/// A slice that a viewer shows: its name, if it was announced, and when it began and
/// ended.
pub struct Shown {
    pub name: Option<Seq<char>>,
    pub begin: u64,
    pub end: u64,
}

/// A viewer: the names that were announced to it under their numbers, the slices that
/// are open, from the outermost to the innermost, and those that have ended.
#[verifier::ext_equal]
pub struct Reader {
    pub names: Map<nat, Seq<char>>,
    pub open: Seq<(Option<Seq<char>>, u64)>,
    pub done: Multiset<Shown>,
}

impl Reader {
    /// A viewer that has read nothing.
    pub open spec fn fresh() -> Reader {
        Reader { names: Map::empty(), open: seq![], done: Multiset::empty() }
    }

    /// The names that the viewer knows once it has read the packet.
    pub open spec fn hears(self, packet: PacketView) -> Map<nat, Seq<char>> {
        match packet.interned_name {
            Some(announced) => self.names.insert(announced.iid, announced.name),
            None => self.names,
        }
    }

    /// The viewer has read the packet. A slice that ends is the innermost one.
    pub open spec fn read(self, packet: PacketView) -> Reader {
        let names = self.hears(packet);
        match packet.data {
            DataView::TrackEvent {
                event_type: EventType::SliceBegin,
                name_field: Some(NameView::NameIid(iid)),
                ..
            } => Reader {
                names,
                open: self.open.push(
                    (
                        if names.contains_key(iid) {
                            Some(names[iid])
                        } else {
                            None
                        },
                        packet.timestamp,
                    ),
                ),
                done: self.done,
            },
            DataView::TrackEvent { event_type: EventType::SliceEnd, .. } => Reader {
                names,
                open: self.open.drop_last(),
                done: self.done.insert(
                    Shown {
                        name: self.open.last().0,
                        begin: self.open.last().1,
                        end: packet.timestamp,
                    },
                ),
            },
            _ => Reader { names, ..self },
        }
    }

    /// The viewer has read the packets, one after the other.
    pub open spec fn read_all(self, packets: Seq<PacketView>) -> Reader
        decreases packets.len(),
    {
        if packets.len() == 0 {
            self
        } else {
            self.read_all(packets.drop_last()).read(packets.last())
        }
    }

    /// The viewer knows every name that the converter has given a number, under that
    /// number, and no other number.
    pub open spec fn knows(self, known: ConverterView) -> bool {
        &&& forall|name: Seq<char>| #[trigger]
            known.names.contains_key(name) ==> self.names.contains_key(known.names[name])
                && self.names[known.names[name]] == name
        &&& forall|iid: nat| #[trigger] self.names.contains_key(iid) ==> iid <= known.last_iid
    }

    /// The slices that are open are those with the given numbers.
    pub open spec fn has_open(self, open: Seq<nat>) -> bool {
        &&& self.open.len() == open.len()
        &&& forall|i: int|
            0 <= i < open.len() ==> self.names.contains_key(#[trigger] open[i]) && self.open[i].0
                == Some(self.names[open[i]])
    }
}

proof fn lemma_read_concat(reader: Reader, a: Seq<PacketView>, b: Seq<PacketView>)
    ensures
        reader.read_all(a + b) == reader.read_all(a).read_all(b),
    decreases b.len(),
{
    if b.len() == 0 {
        assert(a + b =~= a);
    } else {
        assert((a + b).drop_last() =~= a + b.drop_last());
        assert((a + b).last() == b.last());
        lemma_read_concat(reader, a, b.drop_last());
    }
}

proof fn lemma_read_one(reader: Reader, packet: PacketView)
    ensures
        reader.read_all(seq![packet]) == reader.read(packet),
{
    reveal_with_fuel(Reader::read_all, 2);
    assert(seq![packet].drop_last() =~= Seq::<PacketView>::empty());
}

/// All pauses in the chunks, at every depth, in order.
pub open spec fn pauses_in(chunks: Seq<ChunkView>) -> Seq<MetricsRange>
    decreases chunks,
{
    if chunks.len() == 0 {
        seq![]
    } else {
        let earlier = pauses_in(chunks.drop_last());
        match chunks.last() {
            ChunkView::Frame(frame) => earlier + pauses_of(frame),
            ChunkView::Straightline(_) => earlier,
            ChunkView::Pause(pause) => earlier.push(pause),
        }
    }
}

/// All pauses in the frame, at every depth, in order.
pub open spec fn pauses_of(frame: FrameView) -> Seq<MetricsRange>
    decreases frame,
{
    pauses_in(frame.chunks)
}

/// A slice that began at `begin`, with gaps for the pauses: the pieces that have ended,
/// and when the piece that is open began.
pub open spec fn cut(name: Option<Seq<char>>, begin: u64, pauses: Seq<MetricsRange>) -> (
    Multiset<Shown>,
    u64,
)
    decreases pauses.len(),
{
    if pauses.len() == 0 {
        (Multiset::empty(), begin)
    } else {
        let (pieces, from) = cut(name, begin, pauses.drop_last());
        (
            pieces.insert(Shown { name, begin: from, end: pauses.last().start.ts }),
            pauses.last().end.ts,
        )
    }
}

/// What should be shown of a frame: its own name, from its start to its end, with gaps
/// for the pauses in it.
pub open spec fn pieces_of(frame: FrameView) -> Multiset<Shown> {
    let (pieces, from) = cut(
        Some(frame.symbol.name),
        frame.metrics.start.ts,
        pauses_of(frame),
    );
    pieces.insert(Shown { name: Some(frame.symbol.name), begin: from, end: frame.metrics.end.ts })
}

/// What should be shown of a list of frames.
pub open spec fn pieces_of_all(frames: Seq<FrameView>) -> Multiset<Shown>
    decreases frames.len(),
{
    if frames.len() == 0 {
        Multiset::empty()
    } else {
        pieces_of_all(frames.drop_last()).add(pieces_of(frames.last()))
    }
}

/// The pieces of open slices that end when the pauses come.
pub open spec fn pieces_of_open(
    open: Seq<(Option<Seq<char>>, u64)>,
    pauses: Seq<MetricsRange>,
) -> Multiset<Shown>
    decreases open.len(),
{
    if open.len() == 0 {
        Multiset::empty()
    } else {
        pieces_of_open(open.drop_last(), pauses).add(
            cut(open.last().0, open.last().1, pauses).0,
        )
    }
}

/// The open slices after the pauses: the same names, begun again.
pub open spec fn reopened(
    open: Seq<(Option<Seq<char>>, u64)>,
    pauses: Seq<MetricsRange>,
) -> Seq<(Option<Seq<char>>, u64)> {
    open.map_values(
        |slice: (Option<Seq<char>>, u64)| (slice.0, cut(slice.0, slice.1, pauses).1),
    )
}

proof fn lemma_cut_concat(
    name: Option<Seq<char>>,
    begin: u64,
    a: Seq<MetricsRange>,
    b: Seq<MetricsRange>,
)
    ensures
        cut(name, begin, a + b).1 == cut(name, cut(name, begin, a).1, b).1,
        cut(name, begin, a + b).0 == cut(name, begin, a).0.add(
            cut(name, cut(name, begin, a).1, b).0,
        ),
    decreases b.len(),
{
    broadcast use vstd::multiset::group_multiset_axioms;

    if b.len() == 0 {
        assert(a + b =~= a);
        assert(cut(name, begin, a + b).0 =~= cut(name, begin, a).0.add(
            cut(name, cut(name, begin, a).1, b).0,
        ));
    } else {
        assert((a + b).drop_last() =~= a + b.drop_last());
        assert((a + b).last() == b.last());
        lemma_cut_concat(name, begin, a, b.drop_last());
        assert(cut(name, begin, a + b).0 =~= cut(name, begin, a).0.add(
            cut(name, cut(name, begin, a).1, b).0,
        ));
    }
}

proof fn lemma_open_concat(
    open: Seq<(Option<Seq<char>>, u64)>,
    a: Seq<MetricsRange>,
    b: Seq<MetricsRange>,
)
    ensures
        reopened(open, a + b) == reopened(reopened(open, a), b),
        pieces_of_open(open, a + b) == pieces_of_open(open, a).add(
            pieces_of_open(reopened(open, a), b),
        ),
    decreases open.len(),
{
    broadcast use vstd::multiset::group_multiset_axioms;

    assert forall|i: int| 0 <= i < open.len() implies reopened(open, a + b)[i] == reopened(
        reopened(open, a),
        b,
    )[i] by {
        lemma_cut_concat(open[i].0, open[i].1, a, b);
    }
    assert(reopened(open, a + b) =~= reopened(reopened(open, a), b));
    if open.len() > 0 {
        let outer = open.drop_last();
        let inner = open.last();
        lemma_open_concat(outer, a, b);
        lemma_cut_concat(inner.0, inner.1, a, b);
        assert(reopened(open, a).drop_last() =~= reopened(outer, a));
        assert(reopened(open, a).last() == (inner.0, cut(inner.0, inner.1, a).1));
    }
    assert(pieces_of_open(open, a + b) =~= pieces_of_open(open, a).add(
        pieces_of_open(reopened(open, a), b),
    ));
}

proof fn lemma_pieces_concat(a: Seq<FrameView>, b: Seq<FrameView>)
    ensures
        pieces_of_all(a + b) == pieces_of_all(a).add(pieces_of_all(b)),
    decreases b.len(),
{
    broadcast use vstd::multiset::group_multiset_axioms;

    if b.len() == 0 {
        assert(a + b =~= a);
    } else {
        assert((a + b).drop_last() =~= a + b.drop_last());
        assert((a + b).last() == b.last());
        lemma_pieces_concat(a, b.drop_last());
    }
    assert(pieces_of_all(a + b) =~= pieces_of_all(a).add(pieces_of_all(b)));
}

/// Reading that all open slices end.
proof fn lemma_read_ends(reader: Reader, pause: MetricsRange, ends: Seq<PacketView>)
    requires
        ends.len() == reader.open.len(),
        forall|i: int|
            0 <= i < ends.len() ==> #[trigger] ends[i] == converter::slice_end(pause.start.ts),
    ensures
        reader.read_all(ends) == (Reader {
            names: reader.names,
            open: seq![],
            done: reader.done.add(pieces_of_open(reader.open, seq![pause])),
        }),
    decreases ends.len(),
{
    broadcast use vstd::multiset::group_multiset_axioms;

    reveal_with_fuel(cut, 2);
    if ends.len() == 0 {
        assert(reader.open =~= Seq::empty());
        assert(reader.read_all(ends).done =~= reader.done.add(
            pieces_of_open(reader.open, seq![pause]),
        ));
    } else {
        let one = seq![ends[0]];
        let rest = ends.drop_first();
        let next = reader.read(ends[0]);
        assert(ends =~= one + rest);
        lemma_read_concat(reader, one, rest);
        lemma_read_one(reader, ends[0]);
        assert forall|i: int| 0 <= i < rest.len() implies #[trigger] rest[i]
            == converter::slice_end(pause.start.ts) by {
            assert(rest[i] == ends[i + 1]);
        }
        lemma_read_ends(next, pause, rest);
        let inner = reader.open.last();
        assert(seq![pause].drop_last() =~= Seq::<MetricsRange>::empty());
        assert(cut(inner.0, inner.1, seq![pause]).0 =~= Multiset::empty().insert(
            Shown { name: inner.0, begin: inner.1, end: pause.start.ts },
        ));
        assert(next.done.add(pieces_of_open(next.open, seq![pause])) =~= reader.done.add(
            pieces_of_open(reader.open, seq![pause]),
        ));
    }
}

/// Reading that slices begin under numbers that are known.
proof fn lemma_read_begins(
    reader: Reader,
    pause: MetricsRange,
    open: Seq<nat>,
    begins: Seq<PacketView>,
)
    requires
        reader.open.len() == 0,
        begins.len() == open.len(),
        forall|i: int|
            0 <= i < begins.len() ==> #[trigger] begins[i] == converter::slice_begin(
                pause.end.ts,
                open[i],
                None,
            ),
        forall|i: int| 0 <= i < open.len() ==> reader.names.contains_key(#[trigger] open[i]),
    ensures
        reader.read_all(begins) == (Reader {
            names: reader.names,
            open: Seq::new(open.len(), |i: int| (Some(reader.names[open[i]]), pause.end.ts)),
            done: reader.done,
        }),
    decreases begins.len(),
{
    if begins.len() == 0 {
        assert(reader.open =~= Seq::new(
            open.len(),
            |i: int| (Some(reader.names[open[i]]), pause.end.ts),
        ));
    } else {
        let fewer = open.drop_last();
        let earlier = begins.drop_last();
        assert forall|i: int| 0 <= i < earlier.len() implies #[trigger] earlier[i]
            == converter::slice_begin(pause.end.ts, fewer[i], None) by {
            assert(earlier[i] == begins[i]);
        }
        assert forall|i: int| 0 <= i < fewer.len() implies reader.names.contains_key(
            #[trigger] fewer[i],
        ) by {
            assert(fewer[i] == open[i]);
        }
        lemma_read_begins(reader, pause, fewer, earlier);
        assert(begins.last() == begins[begins.len() - 1]);
        assert(reader.names.contains_key(open[open.len() - 1]));
        assert(reader.read_all(begins).open =~= Seq::new(
            open.len(),
            |i: int| (Some(reader.names[open[i]]), pause.end.ts),
        ));
    }
}

/// A pause shows as a gap: every open slice ends when it begins, and begins again under
/// the same name when it is over.
pub proof fn law_pauses_show_as_gaps(reader: Reader, open: Seq<nat>, pause: MetricsRange)
    requires
        reader.has_open(open),
    ensures
        reader.read_all(converter::pause_packets(open, pause)) == (Reader {
            names: reader.names,
            open: reopened(reader.open, seq![pause]),
            done: reader.done.add(pieces_of_open(reader.open, seq![pause])),
        }),
        forall|i: int|
            0 <= i < reader.open.len() ==> #[trigger] reopened(reader.open, seq![pause])[i] == (
                reader.open[i].0,
                pause.end.ts,
            ),
{
    let ends = Seq::new(open.len(), |i: int| converter::slice_end(pause.start.ts));
    let begins = Seq::new(
        open.len(),
        |i: int| converter::slice_begin(pause.end.ts, open[i], None),
    );
    lemma_read_concat(reader, ends, begins);
    lemma_read_ends(reader, pause, ends);
    let closed = reader.read_all(ends);
    lemma_read_begins(closed, pause, open, begins);
    let after = closed.read_all(begins);
    assert(converter::pause_packets(open, pause) =~= ends + begins);
    assert forall|i: int| 0 <= i < reader.open.len() implies #[trigger] reopened(
        reader.open,
        seq![pause],
    )[i] == (reader.open[i].0, pause.end.ts) by {
        reveal_with_fuel(cut, 2);
    }
    assert forall|i: int| 0 <= i < open.len() implies after.open[i] == reopened(
        reader.open,
        seq![pause],
    )[i] by {
        assert(reader.names.contains_key(open[i]));
    }
    assert(after.open =~= reopened(reader.open, seq![pause]));
}

/// A viewer that reads the packets for a frame shows the frame and every frame below it,
/// each under its own symbol's name and from its start to its end, with gaps for the
/// pauses in it. Slices that were open before stay open, with the same gaps.
pub proof fn law_frames_show_under_their_own_names(
    reader: Reader,
    known: ConverterView,
    frame: FrameView,
    open: Seq<nat>,
)
    requires
        known.wf(),
        reader.knows(known),
        reader.has_open(open),
    ensures
        ({
            let (packets, later) = converter::frame_packets(known, frame, open);
            let after = reader.read_all(packets);
            &&& later.wf()
            &&& after.knows(later)
            &&& after.has_open(open)
            &&& reader.names.submap_of(after.names)
            &&& after.open == reopened(reader.open, pauses_of(frame))
            &&& after.done == reader.done.add(
                pieces_of_open(reader.open, pauses_of(frame)),
            ).add(pieces_of_all(finder::frames_from(frame)))
        }),
    decreases frame,
{
    broadcast use vstd::multiset::group_multiset_axioms;

    let name = frame.symbol.name;
    let iid = known.iid(name);
    let now = known.with_name(name);
    let pauses = pauses_of(frame);
    let (inner, later) = converter::chunk_packets(now, frame.chunks, open.push(iid));
    let begin = converter::slice_begin(frame.metrics.start.ts, iid, known.announcement(name));
    let end = converter::slice_end(frame.metrics.end.ts);
    converter::lemma_with_name_wf(known, name);
    assert(now.names.contains_key(name));

    let begun = reader.read(begin);
    assert(begun.names.contains_key(iid) && begun.names[iid] == name);
    assert(begun.knows(now)) by {
        assert forall|other: Seq<char>| #[trigger]
            now.names.contains_key(other) implies begun.names.contains_key(now.names[other])
            && begun.names[now.names[other]] == other by {
            if other != name {
                assert(known.names.contains_key(other));
            }
        }
    }
    assert(reader.names.submap_of(begun.names));
    let slice = (Some(name), frame.metrics.start.ts);
    assert(begun.open == reader.open.push(slice));
    assert(begun.has_open(open.push(iid))) by {
        assert forall|i: int| 0 <= i < open.push(iid).len() implies begun.names.contains_key(
            #[trigger] open.push(iid)[i],
        ) && begun.open[i].0 == Some(begun.names[open.push(iid)[i]]) by {
            if i < open.len() {
                assert(open.push(iid)[i] == open[i]);
                assert(reader.names.contains_key(open[i]));
            }
        }
    }
    law_chunks_show_under_their_own_names(begun, now, frame.chunks, open.push(iid));
    let held = begun.read_all(inner);
    let after = held.read(end);
    lemma_read_concat(reader, seq![begin] + inner, seq![end]);
    lemma_read_concat(reader, seq![begin], inner);
    lemma_read_one(reader, begin);
    lemma_read_one(held, end);

    assert(begun.open.drop_last() =~= reader.open);
    assert(begun.open.last() == slice);
    assert(reopened(begun.open, pauses).drop_last() =~= reopened(reader.open, pauses));
    assert(held.open.last() == (slice.0, cut(slice.0, slice.1, pauses).1));
    assert(after.open =~= reopened(reader.open, pauses));
    assert(after.has_open(open)) by {
        assert forall|i: int| 0 <= i < open.len() implies after.names.contains_key(
            #[trigger] open[i],
        ) && after.open[i].0 == Some(after.names[open[i]]) by {
            assert(open.push(iid)[i] == open[i]);
        }
    }
    lemma_pieces_concat(seq![frame], finder::frames_in(frame.chunks));
    reveal_with_fuel(pieces_of_all, 2);
    assert(seq![frame].drop_last() =~= Seq::<FrameView>::empty());
    assert(pieces_of_all(seq![frame]) =~= pieces_of(frame));
    assert(after.done =~= reader.done.add(pieces_of_open(reader.open, pauses)).add(
        pieces_of_all(finder::frames_from(frame)),
    ));
    assert(reader.names.submap_of(after.names)) by {
        assert forall|n: nat| reader.names.contains_key(n) implies #[trigger] after.names.contains_key(
            n,
        ) && after.names[n] == reader.names[n] by {
            assert(begun.names.contains_key(n));
        }
    }
}

/// A viewer that reads the packets for chunks shows every frame in them, each under its
/// own symbol's name and from its start to its end, with gaps for the pauses in it.
/// Slices that were open before stay open, with gaps for the pauses in the chunks.
pub proof fn law_chunks_show_under_their_own_names(
    reader: Reader,
    known: ConverterView,
    chunks: Seq<ChunkView>,
    open: Seq<nat>,
)
    requires
        known.wf(),
        reader.knows(known),
        reader.has_open(open),
    ensures
        ({
            let (packets, later) = converter::chunk_packets(known, chunks, open);
            let after = reader.read_all(packets);
            &&& later.wf()
            &&& after.knows(later)
            &&& after.has_open(open)
            &&& reader.names.submap_of(after.names)
            &&& after.open == reopened(reader.open, pauses_in(chunks))
            &&& after.done == reader.done.add(
                pieces_of_open(reader.open, pauses_in(chunks)),
            ).add(pieces_of_all(finder::frames_in(chunks)))
        }),
    decreases chunks,
{
    broadcast use vstd::multiset::group_multiset_axioms;

    let none = Seq::<MetricsRange>::empty();
    lemma_no_pauses(reader.open);
    if chunks.len() == 0 {
        assert(pauses_in(chunks) =~= none);
        assert(finder::frames_in(chunks) =~= Seq::<FrameView>::empty());
        assert(reader.done =~= reader.done.add(pieces_of_open(reader.open, none)).add(
            pieces_of_all(Seq::empty()),
        ));
    } else {
        let top = chunks.len() - 1;
        let fewer = chunks.drop_last();
        let (earlier, now) = converter::chunk_packets(known, fewer, open);
        law_chunks_show_under_their_own_names(reader, known, fewer, open);
        let mid = reader.read_all(earlier);
        match chunks.last() {
            ChunkView::Frame(frame) => {
                assert(decreases_to!(chunks => chunks[top]));
                assert(decreases_to!(chunks[top] => chunks[top]->Frame_0));
                let own = converter::frame_packets(now, frame, open).0;
                law_frames_show_under_their_own_names(mid, now, frame, open);
                lemma_read_concat(reader, earlier, own);
                lemma_open_concat(reader.open, pauses_in(fewer), pauses_of(frame));
                lemma_pieces_concat(finder::frames_in(fewer), finder::frames_from(frame));
                let after = mid.read_all(own);
                assert(after.done =~= reader.done.add(
                    pieces_of_open(reader.open, pauses_in(chunks)),
                ).add(pieces_of_all(finder::frames_in(chunks))));
                assert(after.open == reopened(reader.open, pauses_in(chunks)));
                assert(reader.names.submap_of(after.names)) by {
                    assert forall|n: nat| reader.names.contains_key(
                        n,
                    ) implies #[trigger] after.names.contains_key(n) && after.names[n]
                        == reader.names[n] by {
                        assert(mid.names.contains_key(n));
                    }
                }
            },
            ChunkView::Straightline(_) => {
                assert(pauses_in(chunks) == pauses_in(fewer));
                assert(finder::frames_in(chunks) == finder::frames_in(fewer));
            },
            ChunkView::Pause(pause) => {
                let own = converter::pause_packets(open, pause);
                law_pauses_show_as_gaps(mid, open, pause);
                lemma_read_concat(reader, earlier, own);
                assert(pauses_in(chunks) =~= pauses_in(fewer) + seq![pause]);
                lemma_open_concat(reader.open, pauses_in(fewer), seq![pause]);
                let after = mid.read_all(own);
                assert(after.done =~= reader.done.add(
                    pieces_of_open(reader.open, pauses_in(chunks)),
                ).add(pieces_of_all(finder::frames_in(chunks))));
                assert(after.has_open(open)) by {
                    assert forall|i: int| 0 <= i < open.len() implies after.names.contains_key(
                        #[trigger] open[i],
                    ) && after.open[i].0 == Some(after.names[open[i]]) by {
                        assert(mid.names.contains_key(open[i]));
                    }
                }
            },
        }
    }
}

proof fn lemma_no_pauses(open: Seq<(Option<Seq<char>>, u64)>)
    ensures
        reopened(open, Seq::empty()) == open,
        pieces_of_open(open, Seq::empty()) == Multiset::<Shown>::empty(),
    decreases open.len(),
{
    broadcast use vstd::multiset::group_multiset_axioms;

    assert(reopened(open, Seq::empty()) =~= open);
    if open.len() > 0 {
        lemma_no_pauses(open.drop_last());
    }
    assert(pieces_of_open(open, Seq::empty()) =~= Multiset::<Shown>::empty());
}

/// What should be shown of a frame without pauses is one slice: its own symbol's name,
/// from its start to its end.
pub proof fn law_frames_without_pauses_show_as_one_slice(frame: FrameView)
    requires
        pauses_of(frame).len() == 0,
    ensures
        pieces_of(frame) == Multiset::empty().insert(
            Shown {
                name: Some(frame.symbol.name),
                begin: frame.metrics.start.ts,
                end: frame.metrics.end.ts,
            },
        ),
{
}

} // verus!
