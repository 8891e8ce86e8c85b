//! Finding frames in a trace.
use regex::Regex;
use vstd::prelude::*;

use super::count;
use super::pattern;
use crate::trace::frame;
use crate::trace::layout;
use crate::trace::layout::{ChunkView, FrameView};
use crate::trace::{Chunk, Frame, Metrics, MetricsRange, NamedFrame, RootFrame, Trace, TraceView};

verus! {

/// The frame and all frames below it, each in front of those it called.
pub open spec fn frames_from(frame: FrameView) -> Seq<FrameView>
    decreases frame,
{
    seq![frame] + frames_in(frame.chunks)
}

/// All frames in the chunks, each in front of those it called.
pub open spec fn frames_in(chunks: Seq<ChunkView>) -> Seq<FrameView>
    decreases chunks,
{
    if chunks.len() == 0 {
        seq![]
    } else {
        let earlier = frames_in(chunks.drop_last());
        match chunks.last() {
            ChunkView::Frame(frame) => earlier + frames_from(frame),
            _ => earlier,
        }
    }
}

/// The views of a list of frames.
pub open spec fn frame_views(frames: Seq<&NamedFrame>) -> Seq<FrameView> {
    Seq::new(frames.len(), |i: int| frames[i]@)
}

/// Appends all frames in the chunks to `found`.
fn collect_frames<'a>(chunks: &'a Vec<Chunk>, found: &mut Vec<&'a NamedFrame>)
    ensures
        frame_views(final(found)@) == frame_views(old(found)@) + frames_in(
            frame::chunk_views(chunks@),
        ),
    decreases frame::chunk_views(chunks@),
{
    let ghost views = frame::chunk_views(chunks@);
    let ghost before = frame_views(found@);
    let mut i: usize = 0;
    assert(views.take(0) =~= Seq::<ChunkView>::empty());
    assert(before + frames_in(views.take(0)) =~= before);
    while i < chunks.len()
        invariant
            i <= chunks@.len(),
            views == frame::chunk_views(chunks@),
            frame_views(found@) == before + frames_in(views.take(i as int)),
        decreases chunks@.len() - i,
    {
        assert(views.take(i + 1).drop_last() =~= views.take(i as int));
        assert(views.take(i + 1).last() == chunks@[i as int]@);
        if let Chunk::Frame(frame) = &chunks[i] {
            let ghost so_far = frame_views(found@);
            found.push(frame);
            assert(frame_views(found@) =~= so_far + seq![frame@]);
            proof {
                assert(views[i as int] == ChunkView::Frame(frame@));
                assert(decreases_to!(views => views[i as int]));
                assert(decreases_to!(views[i as int] => views[i as int]->Frame_0));
                assert(decreases_to!(frame@ => frame@.chunks));
            }
            collect_frames(frame.chunks(), found);
            assert(frame_views(found@) =~= so_far + frames_from(frame@));
            assert(frame_views(found@) =~= before + frames_in(views.take(i + 1)));
        }
        i += 1;
    }
    assert(views.take(i as int) =~= views);
}

/// All named frames of a trace, each in front of those it called.
pub fn named_frames<'a>(root: &'a RootFrame) -> (frames: Vec<&'a NamedFrame>)
    ensures
        frame_views(frames@) == frames_in(root@.chunks),
        frames@.len() == frames_in(root@.chunks).len(),
        forall|i: int|
            0 <= i < frames@.len() ==> (#[trigger] frames@[i])@ == frames_in(root@.chunks)[i],
{
    let mut frames: Vec<&'a NamedFrame> = Vec::new();
    collect_frames(root.chunks(), &mut frames);
    assert(frame_views(frames@) =~= frames_in(root@.chunks));
    assert forall|i: int| 0 <= i < frames@.len() implies (#[trigger] frames@[i])@ == frames_in(
        root@.chunks,
    )[i] by {
        assert(frame_views(frames@)[i] == frames@[i]@);
    }
    frames
}

/// The stretches of those frames that were hit.
pub open spec fn selected(frames: Seq<FrameView>, hits: Seq<bool>) -> Seq<MetricsRange>
    decreases frames.len(),
{
    if frames.len() == 0 {
        seq![]
    } else {
        let earlier = selected(frames.drop_last(), hits.drop_last());
        if hits.last() {
            earlier.push(frames.last().metrics)
        } else {
            earlier
        }
    }
}

/// The stretches of those frames that were hit.
pub fn select_frames(frames: &Vec<&NamedFrame>, hits: &Vec<bool>) -> (ranges: Vec<MetricsRange>)
    requires
        frames@.len() == hits@.len(),
    ensures
        ranges@ == selected(frame_views(frames@), hits@),
{
    let mut ranges: Vec<MetricsRange> = Vec::new();
    let ghost views = frame_views(frames@);
    let mut i: usize = 0;
    while i < frames.len()
        invariant
            i <= frames@.len() == hits@.len(),
            views == frame_views(frames@),
            ranges@ == selected(views.take(i as int), hits@.take(i as int)),
        decreases frames@.len() - i,
    {
        assert(views.take(i + 1).drop_last() =~= views.take(i as int));
        assert(hits@.take(i + 1).drop_last() =~= hits@.take(i as int));
        assert(views.take(i + 1).last() == frames@[i as int]@);
        if hits[i] {
            ranges.push(*frames[i].metrics());
        }
        i += 1;
    }
    assert(views.take(i as int) =~= views);
    assert(hits@.take(i as int) =~= hits@);
    ranges
}

/// Which of the frames have a symbol whose name the expression matches.
pub open spec fn hits_of(frames: Seq<FrameView>, regex: Regex) -> Seq<bool> {
    frames.map_values(|frame: FrameView| pattern::matches_in(regex, frame.symbol.name))
}

/// The stretches of the frames whose symbol's name the expression matches.
pub open spec fn matching(chunks: Seq<ChunkView>, regex: Regex) -> Seq<MetricsRange> {
    selected(frames_in(chunks), hits_of(frames_in(chunks), regex))
}

/// The stretches of the frames whose symbol's name the expression matches, each
/// in front of those of the frames it called.
pub fn matching_frames(root: &RootFrame, regex: &Regex) -> (ranges: Vec<MetricsRange>)
    ensures
        ranges@ == matching(root@.chunks, *regex),
        ranges@ == frames_in(root@.chunks).filter(
            |frame: FrameView| pattern::matches_in(*regex, frame.symbol.name),
        ).map_values(|frame: FrameView| frame.metrics),
{
    proof {
        law_frames_match_by_their_own_name(root@.chunks, *regex);
    }
    let frames = named_frames(root);
    let ghost views = frame_views(frames@);
    let mut hits: Vec<bool> = Vec::new();
    let mut i: usize = 0;
    while i < frames.len()
        invariant
            i <= frames@.len(),
            views == frame_views(frames@),
            hits@ == hits_of(views.take(i as int), *regex),
        decreases frames@.len() - i,
    {
        let found = regex.is_match(frames[i].symbol().name.as_str());
        hits.push(found);
        assert(hits@ =~= hits_of(views.take(i + 1), *regex));
        i += 1;
    }
    assert(views.take(i as int) =~= views);
    select_frames(&frames, &hits)
}

/// The stretches of a list of frames.
pub open spec fn ranges_of(frames: Seq<FrameView>) -> Seq<MetricsRange> {
    frames.map_values(|frame: FrameView| frame.metrics)
}

/// The frames are intact, lie between `start` and `end`, and none begins before
/// one that stands in front of it.
pub open spec fn well_ordered(frames: Seq<FrameView>, start: Metrics, end: Metrics) -> bool {
    &&& start.reaches(end)
    &&& forall|i: int|
        0 <= i < frames.len() ==> {
            &&& (#[trigger] frames[i]).intact()
            &&& (MetricsRange { start, end }).spans(frames[i].metrics)
        }
    &&& forall|i: int, j: int|
        0 <= i < j < frames.len() ==> (#[trigger] frames[i]).metrics.start.reaches(
            (#[trigger] frames[j]).metrics.start,
        )
}

proof fn lemma_frames_from_ordered(frame: FrameView)
    requires
        frame.intact(),
    ensures
        well_ordered(frames_from(frame), frame.metrics.start, frame.metrics.end),
    decreases frame,
{
    lemma_frames_in_ordered(frame.chunks, frame.metrics.start);
    let below = frames_in(frame.chunks);
    let all = frames_from(frame);
    assert forall|i: int, j: int| 0 <= i < j < all.len() implies (
    #[trigger] all[i]).metrics.start.reaches((#[trigger] all[j]).metrics.start) by {
        assert(all[j] == below[j - 1]);
        if i > 0 {
            assert(all[i] == below[i - 1]);
        }
    }
    assert forall|i: int| 0 <= i < all.len() implies (#[trigger] all[i]).intact()
        && frame.metrics.spans(all[i].metrics) by {
        if i > 0 {
            assert(all[i] == below[i - 1]);
        }
    }
}

proof fn lemma_frames_in_ordered(chunks: Seq<ChunkView>, start: Metrics)
    requires
        layout::walk(chunks, start) is Some,
        layout::all_intact(chunks),
    ensures
        well_ordered(frames_in(chunks), start, layout::walk(chunks, start)->0),
    decreases chunks,
{
    let end = layout::walk(chunks, start)->0;
    if chunks.len() > 0 {
        let top = chunks.len() - 1;
        layout::lemma_walk_through(chunks, start, top);
        assert(chunks.take(top) =~= chunks.drop_last());
        assert(chunks.take(top + 1) =~= chunks);
        let mid = chunks[top].range().start;
        assert forall|i: int| 0 <= i < chunks.drop_last().len() implies (
        #[trigger] chunks.drop_last()[i]).intact() by {
            assert(chunks.drop_last()[i] == chunks[i]);
        }
        lemma_frames_in_ordered(chunks.drop_last(), start);
        let earlier = frames_in(chunks.drop_last());
        let all = frames_in(chunks);
        assert(chunks[top].intact());
        if let ChunkView::Frame(frame) = chunks.last() {
            assert(decreases_to!(chunks => chunks[top]));
            assert(decreases_to!(chunks[top] => chunks[top]->Frame_0));
            lemma_frames_from_ordered(frame);
            let own = frames_from(frame);
            assert forall|i: int, j: int| 0 <= i < j < all.len() implies (
            #[trigger] all[i]).metrics.start.reaches((#[trigger] all[j]).metrics.start) by {
                if j >= earlier.len() {
                    assert(all[j] == own[j - earlier.len()]);
                    if i >= earlier.len() {
                        assert(all[i] == own[i - earlier.len()]);
                    } else {
                        assert(all[i] == earlier[i]);
                        assert(all[i].metrics.start.reaches(mid));
                    }
                } else {
                    assert(all[i] == earlier[i] && all[j] == earlier[j]);
                }
            }
            assert forall|i: int| 0 <= i < all.len() implies (#[trigger] all[i]).intact() && (
            MetricsRange { start, end }).spans(all[i].metrics) by {
                if i < earlier.len() {
                    assert(all[i] == earlier[i]);
                } else {
                    assert(all[i] == own[i - earlier.len()]);
                }
            }
        }
    }
}

/// The frames of an intact trace are found in the order in which they began, and
/// all of them are intact.
pub proof fn law_frames_are_found_in_order(root: layout::RootView)
    requires
        root.intact(),
    ensures
        well_ordered(frames_in(root.chunks), root.metrics.start, root.metrics.end),
        count::starts_sorted(ranges_of(frames_in(root.chunks))),
{
    lemma_frames_in_ordered(root.chunks, root.metrics.start);
}

/// The stretch is that of one of the frames.
pub open spec fn range_among(frames: Seq<FrameView>, range: MetricsRange) -> bool {
    exists|k: int| 0 <= k < frames.len() && (#[trigger] frames[k]).metrics == range
}

proof fn lemma_selected_from(frames: Seq<FrameView>, hits: Seq<bool>, i: int)
    requires
        0 <= i < selected(frames, hits).len(),
    ensures
        range_among(frames, selected(frames, hits)[i]),
    decreases frames.len(),
{
    let earlier = selected(frames.drop_last(), hits.drop_last());
    let all = selected(frames, hits);
    if i < earlier.len() {
        assert(all[i] == earlier[i]);
        lemma_selected_from(frames.drop_last(), hits.drop_last(), i);
        let k = choose|k: int|
            0 <= k < frames.drop_last().len() && (#[trigger] frames.drop_last()[k]).metrics
                == earlier[i];
        assert(frames[k].metrics == all[i]);
    } else {
        assert(frames[frames.len() - 1].metrics == all[i]);
    }
}

/// Frames that are selected stay in order, and are frames that were there.
pub proof fn law_selecting_keeps_order(frames: Seq<FrameView>, hits: Seq<bool>)
    requires
        count::starts_sorted(ranges_of(frames)),
    ensures
        count::starts_sorted(selected(frames, hits)),
        forall|i: int|
            0 <= i < selected(frames, hits).len() ==> range_among(
                frames,
                #[trigger] selected(frames, hits)[i],
            ),
    decreases frames.len(),
{
    assert forall|i: int| 0 <= i < selected(frames, hits).len() implies range_among(
        frames,
        #[trigger] selected(frames, hits)[i],
    ) by {
        lemma_selected_from(frames, hits, i);
    }
    if frames.len() > 0 {
        let fewer = frames.drop_last();
        let earlier = selected(fewer, hits.drop_last());
        let all = selected(frames, hits);
        assert forall|i: int, j: int| 0 <= i < j < fewer.len() implies !(
        #[trigger] ranges_of(fewer)[j]).start.sorts_before((#[trigger] ranges_of(fewer)[i]).start) by {
            assert(!ranges_of(frames)[j].start.sorts_before(ranges_of(frames)[i].start));
        }
        law_selecting_keeps_order(fewer, hits.drop_last());
        assert forall|i: int, j: int| 0 <= i < j < all.len() implies !(
        #[trigger] all[j]).start.sorts_before((#[trigger] all[i]).start) by {
            assert(all[i] == earlier[i]);
            if j < earlier.len() {
                assert(all[j] == earlier[j]);
            } else {
                lemma_selected_from(fewer, hits.drop_last(), i);
                let k = choose|k: int|
                    0 <= k < fewer.len() && (#[trigger] fewer[k]).metrics == earlier[i];
                let top = frames.len() - 1;
                assert(ranges_of(frames)[k] == earlier[i]);
                assert(ranges_of(frames)[top] == all[j]);
            }
        }
    }
}

/// The stretches of the frames of a trace that an analysis looks at: those whose
/// symbol's name the target matches, or the root frame if there is no target.
pub open spec fn frames_of_interest(trace: TraceView, target: Option<Regex>) -> Seq<MetricsRange> {
    match target {
        Some(regex) => matching(trace.root.chunks, regex),
        None => seq![trace.root.metrics],
    }
}

/// The clock runs backwards over none of the frames.
pub open spec fn clocks_ordered(frames: Seq<MetricsRange>) -> bool {
    forall|i: int| 0 <= i < frames.len() ==> (#[trigger] frames[i]).clock_ordered()
}

/// The stretches of the frames of a trace that an analysis looks at.
pub fn frames_to_analyse(trace: &Trace, target: Option<&Regex>) -> (frames: Vec<MetricsRange>)
    ensures
        frames@ == frames_of_interest(
            trace@,
            match target {
                Some(regex) => Some(*regex),
                None => None,
            },
        ),
{
    match target {
        Some(regex) => matching_frames(trace.root_frame(), regex),
        None => {
            let frames = vec![*trace.root_frame().metrics()];
            assert(frames@ =~= seq![trace@.root.metrics]);
            frames
        },
    }
}

/// The frames of an intact trace that an analysis looks at do not run backwards,
/// and are sorted by where they begin.
pub proof fn law_frames_to_analyse_run_forwards(trace: TraceView, target: Option<Regex>)
    requires
        trace.root.intact(),
    ensures
        count::starts_sorted(frames_of_interest(trace, target)),
        forall|i: int|
            0 <= i < frames_of_interest(trace, target).len() ==> (#[trigger] frames_of_interest(
                trace,
                target,
            )[i]).ordered(),
        clocks_ordered(frames_of_interest(trace, target)),
{
    if let Some(regex) = target {
        let frames = frames_in(trace.root.chunks);
        let hits = hits_of(frames, regex);
        let ranges = selected(frames, hits);
        law_frames_are_found_in_order(trace.root);
        law_selecting_keeps_order(frames, hits);
        assert forall|i: int| 0 <= i < ranges.len() implies (#[trigger] ranges[i]).ordered() by {
            assert(range_among(frames, ranges[i]));
        }
    }
}

/// Frames are found at every depth: those of a list of chunks are those of its parts,
/// one after the other, and a call is found in front of those found within it.
pub proof fn law_frames_are_found_at_every_depth(
    earlier: Seq<ChunkView>,
    later: Seq<ChunkView>,
    frame: FrameView,
    range: MetricsRange,
)
    ensures
        frames_in(earlier + later) == frames_in(earlier) + frames_in(later),
        frames_in(seq![ChunkView::Frame(frame)]) == seq![frame] + frames_in(frame.chunks),
        frames_in(seq![ChunkView::Straightline(range)]).len() == 0,
        frames_in(seq![ChunkView::Pause(range)]).len() == 0,
        frames_from(frame) == seq![frame] + frames_in(frame.chunks),
    decreases later.len(),
{
    reveal_with_fuel(frames_in, 2);
    let none = Seq::<ChunkView>::empty();
    assert(seq![ChunkView::Frame(frame)].drop_last() =~= none);
    assert(seq![ChunkView::Straightline(range)].drop_last() =~= none);
    assert(seq![ChunkView::Pause(range)].drop_last() =~= none);
    assert(frames_in(seq![ChunkView::Frame(frame)]) =~= seq![frame] + frames_in(frame.chunks));
    if later.len() == 0 {
        assert(earlier + later =~= earlier);
        assert(frames_in(earlier + later) =~= frames_in(earlier) + frames_in(later));
    } else {
        law_frames_are_found_at_every_depth(earlier, later.drop_last(), frame, range);
        assert((earlier + later).drop_last() =~= earlier + later.drop_last());
        assert((earlier + later).last() == later.last());
        assert(frames_in(earlier + later) =~= frames_in(earlier) + frames_in(later));
    }
}

/// No call is missed: every frame among the chunks is found, and so is every frame that
/// is found within it.
pub proof fn law_no_frame_is_missed(chunks: Seq<ChunkView>, i: int, inner: FrameView)
    requires
        0 <= i < chunks.len(),
        chunks[i] is Frame,
    ensures
        frames_in(chunks).contains(chunks[i]->Frame_0),
        frames_in(chunks[i]->Frame_0.chunks).contains(inner) ==> frames_in(chunks).contains(inner),
{
    let frame = chunks[i]->Frame_0;
    let head = chunks.take(i);
    let here = seq![chunks[i]];
    let tail = chunks.skip(i + 1);
    let own = seq![frame] + frames_in(frame.chunks);
    assert(chunks =~= head + here + tail);
    law_frames_are_found_at_every_depth(head + here, tail, frame, frame.metrics);
    law_frames_are_found_at_every_depth(head, here, frame, frame.metrics);
    let all = frames_in(chunks);
    let n = frames_in(head).len() as int;
    assert(all =~= frames_in(head) + own + frames_in(tail));
    assert(all[n] == frame);
    if frames_in(frame.chunks).contains(inner) {
        let k = choose|k: int|
            0 <= k < frames_in(frame.chunks).len() && frames_in(frame.chunks)[k] == inner;
        assert(own[k + 1] == inner);
        assert(all[n + k + 1] == inner);
    }
}

/// Frames are selected one by one: each that was hit is there, behind those that were
/// hit in front of it, and no other is.
pub proof fn law_selected_are_those_that_were_hit(frames: Seq<FrameView>, hits: Seq<bool>)
    requires
        frames.len() == hits.len(),
    ensures
        selected(frames, hits).len() == hits.filter(|hit: bool| hit).len(),
        forall|i: int|
            0 <= i < frames.len() && hits[i] ==> {
                let place = (#[trigger] hits.take(i)).filter(|hit: bool| hit).len();
                &&& place < selected(frames, hits).len()
                &&& selected(frames, hits)[place as int] == frames[i].metrics
            },
    decreases frames.len(),
{
    reveal_with_fuel(Seq::filter, 2);
    let was_hit = |hit: bool| hit;
    if frames.len() > 0 {
        let fewer = frames.drop_last();
        let earlier = hits.drop_last();
        let all = selected(frames, hits);
        law_selected_are_those_that_were_hit(fewer, earlier);
        assert forall|i: int| 0 <= i < frames.len() && hits[i] implies {
            let place = (#[trigger] hits.take(i)).filter(was_hit).len();
            &&& place < all.len()
            &&& all[place as int] == frames[i].metrics
        } by {
            if i < fewer.len() {
                assert(earlier.take(i) =~= hits.take(i));
                assert(earlier[i] == hits[i]);
                let place = earlier.take(i).filter(was_hit).len();
                assert(selected(fewer, earlier)[place as int] == fewer[i].metrics);
            } else {
                assert(hits.take(i) =~= earlier);
            }
        }
    }
}

proof fn lemma_selected_is_filtered(frames: Seq<FrameView>, regex: Regex)
    ensures
        selected(frames, hits_of(frames, regex)) == frames.filter(
            |frame: FrameView| pattern::matches_in(regex, frame.symbol.name),
        ).map_values(|frame: FrameView| frame.metrics),
    decreases frames.len(),
{
    reveal_with_fuel(Seq::filter, 2);
    let wanted = |frame: FrameView| pattern::matches_in(regex, frame.symbol.name);
    let range = |frame: FrameView| frame.metrics;
    if frames.len() > 0 {
        lemma_selected_is_filtered(frames.drop_last(), regex);
        assert(hits_of(frames, regex).drop_last() =~= hits_of(frames.drop_last(), regex));
    }
    assert(selected(frames, hits_of(frames, regex)) =~= frames.filter(wanted).map_values(range));
}

/// The frames that match are those whose own symbol's name the expression matches, all
/// of them and in the order in which they are found, whatever frames stand around them.
pub proof fn law_frames_match_by_their_own_name(chunks: Seq<ChunkView>, regex: Regex)
    ensures
        matching(chunks, regex) == frames_in(chunks).filter(
            |frame: FrameView| pattern::matches_in(regex, frame.symbol.name),
        ).map_values(|frame: FrameView| frame.metrics),
{
    lemma_selected_is_filtered(frames_in(chunks), regex);
}

/// A frame of the trace is among those found if its own symbol's name matches, and what
/// is found is the stretch of such a frame.
pub proof fn law_a_frame_is_found_iff_its_name_matches(chunks: Seq<ChunkView>, regex: Regex)
    ensures
        forall|frame: FrameView| #[trigger]
            frames_in(chunks).contains(frame) && pattern::matches_in(regex, frame.symbol.name)
                ==> matching(chunks, regex).contains(frame.metrics),
        forall|range: MetricsRange| #[trigger]
            matching(chunks, regex).contains(range) ==> exists|k: int|
                0 <= k < frames_in(chunks).len() && (#[trigger] frames_in(chunks)[k]).metrics
                    == range && pattern::matches_in(regex, frames_in(chunks)[k].symbol.name),
        matching(chunks, regex).len() == frames_in(chunks).filter(
            |frame: FrameView| pattern::matches_in(regex, frame.symbol.name),
        ).len(),
{
    let wanted = |frame: FrameView| pattern::matches_in(regex, frame.symbol.name);
    let frames = frames_in(chunks);
    let kept = frames.filter(wanted);
    let found = matching(chunks, regex);
    law_frames_match_by_their_own_name(chunks, regex);
    assert forall|frame: FrameView| #[trigger]
        frames.contains(frame) && pattern::matches_in(
            regex,
            frame.symbol.name,
        ) implies found.contains(frame.metrics) by {
        let i = choose|i: int| 0 <= i < frames.len() && frames[i] == frame;
        frames.lemma_filter_contains(wanted, i);
        assert(kept.contains(frame));
        let k = choose|k: int| 0 <= k < kept.len() && kept[k] == frame;
        assert(found[k] == frame.metrics);
    }
    assert forall|range: MetricsRange| #[trigger] found.contains(range) implies exists|k: int|
        0 <= k < frames.len() && (#[trigger] frames[k]).metrics == range && pattern::matches_in(
            regex,
            frames[k].symbol.name,
        ) by {
        let k = choose|k: int| 0 <= k < found.len() && found[k] == range;
        assert(found[k] == kept[k].metrics);
        frames.lemma_filter_pred(wanted, k);
        assert(kept.contains(kept[k]));
        frames.lemma_filter_contains_rev(wanted, kept[k]);
        let i = choose|i: int| 0 <= i < frames.len() && frames[i] == kept[k];
        assert(frames[i].metrics == range);
    }
}

/// An analysis looks at the root frame if there is no target, and otherwise at the
/// frames whose own symbol's name the target matches.
pub proof fn law_targets_choose_the_frames(trace: TraceView, regex: Regex)
    ensures
        frames_of_interest(trace, None) == seq![trace.root.metrics],
        frames_of_interest(trace, Some(regex)) == frames_in(trace.root.chunks).filter(
            |frame: FrameView| pattern::matches_in(regex, frame.symbol.name),
        ).map_values(|frame: FrameView| frame.metrics),
{
    law_frames_match_by_their_own_name(trace.root.chunks, regex);
}

} // verus!
