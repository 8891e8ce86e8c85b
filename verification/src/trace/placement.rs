//! Which children find room in a frame, and what becomes of the frame.
use vstd::prelude::*;

use super::layout;
use super::layout::{ChunkView, FrameError, FrameView, Gap, RootView, SymbolView};
use super::metrics::{Metrics, MetricsRange};

verus! {

/// The chunks fill the range if and only if the first begins where it does, the last
/// ends where it does, each begins where the one before it ends, and no counter runs
/// backwards over any of them.
pub proof fn law_filled_means_end_to_end(range: MetricsRange, chunks: Seq<ChunkView>)
    ensures
        layout::fills(range, chunks) <==> {
            &&& chunks.len() > 0
            &&& chunks[0].range().start == range.start
            &&& chunks[chunks.len() - 1].range().end == range.end
            &&& forall|i: int, j: int|
                0 <= i && j == i + 1 && j < chunks.len() ==> (#[trigger] chunks[i]).range().end == (
                #[trigger] chunks[j]).range().start
            &&& forall|i: int|
                0 <= i < chunks.len() ==> (#[trigger] chunks[i]).range().start.reaches(
                    chunks[i].range().end,
                )
        },
{
    if layout::fills(range, chunks) {
        assert forall|i: int, j: int| 0 <= i && j == i + 1 && j < chunks.len() implies (
        #[trigger] chunks[i]).range().end == (#[trigger] chunks[j]).range().start by {
            layout::lemma_walk_through(chunks, range.start, i);
            layout::lemma_walk_through(chunks, range.start, j);
        }
        assert forall|i: int| 0 <= i < chunks.len() implies (
        #[trigger] chunks[i]).range().start.reaches(chunks[i].range().end) by {
            layout::lemma_walk_through(chunks, range.start, i);
        }
        let top = chunks.len() - 1;
        layout::lemma_walk_through(chunks, range.start, top);
        assert(chunks.take(top + 1) =~= chunks);
        layout::lemma_walk_through(chunks, range.start, 0);
    } else if chunks.len() > 0 && chunks[0].range().start == range.start {
        if {
            &&& chunks[chunks.len() - 1].range().end == range.end
            &&& forall|i: int, j: int|
                0 <= i && j == i + 1 && j < chunks.len() ==> (#[trigger] chunks[i]).range().end == (
                #[trigger] chunks[j]).range().start
            &&& forall|i: int|
                0 <= i < chunks.len() ==> (#[trigger] chunks[i]).range().start.reaches(
                    chunks[i].range().end,
                )
        } {
            lemma_end_to_end_walks(chunks, range.start);
            layout::lemma_walk_reaches(chunks, range.start);
        }
    }
}

proof fn lemma_end_to_end_walks(chunks: Seq<ChunkView>, at: Metrics)
    requires
        chunks.len() > 0,
        chunks[0].range().start == at,
        forall|i: int, j: int|
            0 <= i && j == i + 1 && j < chunks.len() ==> (#[trigger] chunks[i]).range().end == (
            #[trigger] chunks[j]).range().start,
        forall|i: int|
            0 <= i < chunks.len() ==> (#[trigger] chunks[i]).range().start.reaches(
                chunks[i].range().end,
            ),
    ensures
        layout::walk(chunks, at) == Some(chunks[chunks.len() - 1].range().end),
    decreases chunks.len(),
{
    reveal_with_fuel(layout::walk, 2);
    let rest = chunks.drop_first();
    assert(chunks.first() == chunks[0]);
    assert(chunks[0].range().ordered());
    assert(layout::walk(chunks, at) == layout::walk(rest, chunks[0].range().end));
    if rest.len() > 0 {
        assert(rest[rest.len() - 1] == chunks[chunks.len() - 1]);
        assert(chunks[0].range().end == chunks[1].range().start);
        assert forall|i: int, j: int| 0 <= i && j == i + 1 && j < rest.len() implies (
        #[trigger] rest[i]).range().end == (#[trigger] rest[j]).range().start by {
            assert(chunks[i + 1].range().end == chunks[j + 1].range().start);
        }
        assert forall|i: int| 0 <= i < rest.len() implies (
        #[trigger] rest[i]).range().start.reaches(rest[i].range().end) by {
            assert(chunks[i + 1].range().start.reaches(chunks[i + 1].range().end));
        }
        lemma_end_to_end_walks(rest, chunks[0].range().end);
    }
}

/// A frame is intact if and only if its chunks fill it and every frame among them is
/// intact too.
pub proof fn law_intact_means_filled_at_every_depth(frame: FrameView)
    ensures
        frame.intact() <==> {
            &&& layout::fills(frame.metrics, frame.chunks)
            &&& forall|i: int|
                0 <= i < frame.chunks.len() ==> ((
                #[trigger] frame.chunks[i]) matches ChunkView::Frame(inner) ==> inner.intact())
        },
{
    if layout::fills(frame.metrics, frame.chunks) {
        if forall|i: int|
            0 <= i < frame.chunks.len() ==> ((
            #[trigger] frame.chunks[i]) matches ChunkView::Frame(inner) ==> inner.intact()) {
            assert forall|i: int| 0 <= i < frame.chunks.len() implies (
            #[trigger] frame.chunks[i]).intact() by {}
        }
        if frame.intact() {
            assert forall|i: int| 0 <= i < frame.chunks.len() implies ((
            #[trigger] frame.chunks[i]) matches ChunkView::Frame(inner) ==> inner.intact()) by {
                assert(frame.chunks[i].intact());
            }
        }
    }
}

/// A root is intact if and only if its chunks fill it and every frame among them is
/// intact.
pub proof fn law_intact_roots_are_filled(root: RootView)
    ensures
        root.intact() <==> {
            &&& layout::fills(root.metrics, root.chunks)
            &&& forall|i: int|
                0 <= i < root.chunks.len() ==> ((
                #[trigger] root.chunks[i]) matches ChunkView::Frame(inner) ==> inner.intact())
        },
{
    if layout::fills(root.metrics, root.chunks) {
        if forall|i: int|
            0 <= i < root.chunks.len() ==> ((
            #[trigger] root.chunks[i]) matches ChunkView::Frame(inner) ==> inner.intact()) {
            assert forall|i: int| 0 <= i < root.chunks.len() implies (
            #[trigger] root.chunks[i]).intact() by {}
        }
        if root.intact() {
            assert forall|i: int| 0 <= i < root.chunks.len() implies ((
            #[trigger] root.chunks[i]) matches ChunkView::Frame(inner) ==> inner.intact()) by {
                assert(root.chunks[i].intact());
            }
        }
    }
}

/// A chunk takes up the stretch that it was made for: that of its frame, or its own.
pub proof fn law_chunks_take_up_their_stretch(frame: FrameView, range: MetricsRange)
    ensures
        ChunkView::Frame(frame).range() == frame.metrics,
        ChunkView::Straightline(range).range() == range,
        ChunkView::Pause(range).range() == range,
{
}

/// A new frame has one chunk: straightline code for a call, a pause for a root.
pub proof fn law_new_frames_have_one_chunk(range: MetricsRange, symbol: SymbolView)
    ensures
        FrameView::leaf(range, symbol).metrics == range,
        FrameView::leaf(range, symbol).symbol == symbol,
        FrameView::leaf(range, symbol).chunks == seq![ChunkView::Straightline(range)],
        RootView::blank(range).metrics == range,
        RootView::blank(range).chunks == seq![ChunkView::Pause(range)],
{
}

/// The frames of chunks are the chunks that are frames, in order.
pub proof fn law_frames_are_the_chunks_that_are_frames(chunks: Seq<ChunkView>)
    ensures
        layout::frames_of(chunks) == chunks.filter(|chunk: ChunkView| chunk is Frame).map_values(
            |chunk: ChunkView| chunk->Frame_0,
        ),
    decreases chunks.len(),
{
    reveal_with_fuel(Seq::filter, 2);
    let is_frame = |chunk: ChunkView| chunk is Frame;
    let inner = |chunk: ChunkView| chunk->Frame_0;
    if chunks.len() == 0 {
        assert(layout::frames_of(chunks) =~= chunks.filter(is_frame).map_values(inner));
    } else {
        let last = seq![chunks.last()];
        reveal_with_fuel(layout::frames_of, 2);
        law_frames_are_the_chunks_that_are_frames(chunks.drop_last());
        assert(chunks =~= chunks.drop_last() + last);
        layout::lemma_frames_of_concat(chunks.drop_last(), last);
        assert(last.drop_first() =~= Seq::<ChunkView>::empty());
        assert(layout::frames_of(chunks) =~= chunks.filter(is_frame).map_values(inner));
    }
}

/// The frames after a child was taken in are those from before with the child among
/// them.
pub open spec fn one_more(before: Seq<ChunkView>, child: FrameView, after: Seq<ChunkView>) -> bool {
    exists|i: int|
        0 <= i <= layout::frames_of(before).len() && layout::frames_of(after) == #[trigger] (
        layout::frames_of(before).insert(i, child))
}

/// There is nothing but frames and gaps of the one kind, and no two gaps stand next to
/// each other.
pub open spec fn well_laid(gap: Gap, chunks: Seq<ChunkView>) -> bool {
    &&& forall|i: int|
        0 <= i < chunks.len() ==> (#[trigger] chunks[i]) is Frame || chunks[i] == gap.over(
            chunks[i].range(),
        )
    &&& forall|i: int, j: int|
        0 <= i && j == i + 1 && j < chunks.len() ==> (#[trigger] chunks[i]) is Frame || (
        #[trigger] chunks[j]) is Frame
}

/// One of the two stretches is over before the other begins.
pub open spec fn apart(a: MetricsRange, b: MetricsRange) -> bool {
    a.end.reaches(b.start) || b.end.reaches(a.start)
}

/// No frame among the chunks overlaps the stretch.
pub open spec fn free_for(chunks: Seq<ChunkView>, range: MetricsRange) -> bool {
    forall|i: int|
        0 <= i < chunks.len() ==> ((#[trigger] chunks[i]) matches ChunkView::Frame(frame)
            ==> apart(frame.metrics, range))
}

/// A frame put between two lists of chunks, in place of chunks without frames.
proof fn lemma_one_more(
    before: Seq<ChunkView>,
    i: int,
    j: int,
    a: Seq<ChunkView>,
    child: FrameView,
    b: Seq<ChunkView>,
)
    requires
        0 <= i <= j <= before.len(),
        layout::frames_of(before.subrange(i, j)).len() == 0,
        layout::frames_of(a).len() == 0,
        layout::frames_of(b).len() == 0,
    ensures
        one_more(
            before,
            child,
            before.take(i) + a + seq![ChunkView::Frame(child)] + b + before.skip(j),
        ),
{
    reveal_with_fuel(layout::frames_of, 2);
    let here = seq![ChunkView::Frame(child)];
    let head = before.take(i);
    let tail = before.skip(j);
    let after = head + a + here + b + tail;
    assert(here.drop_first() =~= Seq::<ChunkView>::empty());
    assert(layout::frames_of(here) =~= seq![child]);
    assert(before =~= head + before.subrange(i, j) + tail);
    layout::lemma_frames_of_concat(head + before.subrange(i, j), tail);
    layout::lemma_frames_of_concat(head, before.subrange(i, j));
    layout::lemma_frames_of_concat(head + a + here + b, tail);
    layout::lemma_frames_of_concat(head + a + here, b);
    layout::lemma_frames_of_concat(head + a, here);
    layout::lemma_frames_of_concat(head, a);
    let k = layout::frames_of(head).len() as int;
    assert(layout::frames_of(after) =~= layout::frames_of(before).insert(k, child));
}

proof fn lemma_gaps_hold_no_frames(gap: Gap, start: Metrics, end: Metrics)
    ensures
        layout::frames_of(gap.between(start, end)).len() == 0,
{
    layout::lemma_no_frames(gap.between(start, end));
}

/// What becomes of chunks when a gap among them is split.
proof fn lemma_split(gap: Gap, chunks: Seq<ChunkView>, i: int, child: FrameView)
    requires
        0 <= i < chunks.len(),
        chunks[i].has_room(gap, child.metrics),
    ensures
        one_more(chunks, child, layout::split_at(chunks, i, gap, child)),
        well_laid(gap, chunks) ==> well_laid(gap, layout::split_at(chunks, i, gap, child)),
{
    let range = chunks[i].range();
    let a = gap.between(range.start, child.metrics.start);
    let b = gap.between(child.metrics.end, range.end);
    let here = seq![ChunkView::Frame(child)];
    let after = layout::split_at(chunks, i, gap, child);
    lemma_gaps_hold_no_frames(gap, range.start, child.metrics.start);
    lemma_gaps_hold_no_frames(gap, child.metrics.end, range.end);
    assert(chunks.subrange(i, i + 1) =~= seq![chunks[i]]);
    layout::lemma_no_frames(chunks.subrange(i, i + 1));
    assert(after =~= chunks.take(i) + a + here + b + chunks.skip(i + 1));
    lemma_one_more(chunks, i, i + 1, a, child, b);
    if well_laid(gap, chunks) {
        let m = i + a.len();
        let n = m + 1 + b.len();
        assert(i > 0 ==> chunks[i - 1] is Frame) by {
            if i > 0 {
                assert(chunks[i - 1] is Frame || chunks[i] is Frame);
            }
        }
        assert(i + 1 < chunks.len() ==> chunks[i + 1] is Frame) by {
            if i + 1 < chunks.len() {
                assert(chunks[i] is Frame || chunks[i + 1] is Frame);
            }
        }
        assert(after[m] == ChunkView::Frame(child));
        assert forall|k: int| 0 <= k < after.len() implies (#[trigger] after[k]) is Frame
            || after[k] == gap.over(after[k].range()) by {
            if k < i {
                assert(after[k] == chunks[k]);
            } else if k < m {
                assert(after[k] == a[k - i]);
            } else if m < k < n {
                assert(after[k] == b[k - m - 1]);
            } else if k >= n {
                assert(after[k] == chunks[k - n + i + 1]);
            }
        }
        assert forall|k: int, l: int| 0 <= k && l == k + 1 && l < after.len() implies (
        #[trigger] after[k]) is Frame || (#[trigger] after[l]) is Frame by {
            if l < i {
                assert(after[k] == chunks[k] && after[l] == chunks[l]);
            } else if l == i {
                assert(after[k] == chunks[i - 1]);
            } else if k >= n {
                assert(after[k] == chunks[k - n + i + 1] && after[l] == chunks[l - n + i + 1]);
            } else if k == n - 1 && k > m {
                assert(after[l] == chunks[i + 1]);
            }
        }
    }
}

/// What becomes of chunks when a frame slips in between two of them.
proof fn lemma_slip_in(gap: Gap, chunks: Seq<ChunkView>, i: int, child: FrameView)
    requires
        0 <= i <= chunks.len(),
    ensures
        one_more(chunks, child, chunks.insert(i, ChunkView::Frame(child))),
        well_laid(gap, chunks) ==> well_laid(gap, chunks.insert(i, ChunkView::Frame(child))),
{
    let none = Seq::<ChunkView>::empty();
    let here = seq![ChunkView::Frame(child)];
    let after = chunks.insert(i, ChunkView::Frame(child));
    assert(chunks.subrange(i, i) =~= none);
    assert(after =~= chunks.take(i) + none + here + none + chunks.skip(i));
    lemma_one_more(chunks, i, i, none, child, none);
    if well_laid(gap, chunks) {
        assert forall|k: int| 0 <= k < after.len() implies (#[trigger] after[k]) is Frame
            || after[k] == gap.over(after[k].range()) by {
            if k < i {
                assert(after[k] == chunks[k]);
            } else if k > i {
                assert(after[k] == chunks[k - 1]);
            }
        }
        assert forall|k: int, l: int| 0 <= k && l == k + 1 && l < after.len() implies (
        #[trigger] after[k]) is Frame || (#[trigger] after[l]) is Frame by {
            if l < i {
                assert(after[k] == chunks[k] && after[l] == chunks[l]);
            } else if k > i {
                assert(after[k] == chunks[k - 1] && after[l] == chunks[l - 1]);
            }
        }
    }
}

/// Whichever way a child is put in, it is one more frame among those that were there,
/// and gaps stay of their kind and as long as they can be.
proof fn lemma_put(whole: MetricsRange, chunks: Seq<ChunkView>, gap: Gap, child: FrameView)
    ensures
        layout::put_first(whole, chunks, gap, child) matches Ok(after) ==> one_more(
            chunks,
            child,
            after,
        ) && (well_laid(gap, chunks) ==> well_laid(gap, after)),
        layout::put_last(whole, chunks, gap, child) matches Ok(after) ==> one_more(
            chunks,
            child,
            after,
        ) && (well_laid(gap, chunks) ==> well_laid(gap, after)),
{
    let range = child.metrics;
    let i = layout::first_opening(chunks, gap, range);
    layout::lemma_first_opening_bounds(chunks, gap, range);
    if i < chunks.len() && chunks[i].has_room(gap, range) {
        lemma_split(gap, chunks, i, child);
    } else {
        lemma_slip_in(gap, chunks, i, child);
        lemma_slip_in(gap, chunks, chunks.len() as int, child);
        assert(chunks.insert(chunks.len() as int, ChunkView::Frame(child)) =~= chunks.push(
            ChunkView::Frame(child),
        ));
    }
    let k = layout::last_opening(chunks, gap, range);
    layout::lemma_last_opening_bounds(chunks, gap, range);
    if k >= 0 && chunks[k].has_room(gap, range) {
        lemma_split(gap, chunks, k, child);
    } else {
        lemma_slip_in(gap, chunks, k + 1, child);
        lemma_slip_in(gap, chunks, 0, child);
    }
}

/// A call that takes in a child keeps its stretch, its symbol and the frames that it
/// had, in order, and has the child among them. A refusal names the two stretches.
pub proof fn law_calls_take_children_in(frame: FrameView, child: FrameView)
    ensures
        match frame.with_child(child) {
            Ok(after) => {
                &&& after.metrics == frame.metrics
                &&& after.symbol == frame.symbol
                &&& one_more(frame.chunks, child, after.chunks)
                &&& frame.metrics.spans(child.metrics)
                &&& layout::fills(frame.metrics, frame.chunks) ==> layout::fills(
                    after.metrics,
                    after.chunks,
                )
                &&& well_laid(Gap::Straightline, frame.chunks) ==> well_laid(
                    Gap::Straightline,
                    after.chunks,
                )
            },
            Err(error) => error == (FrameError::NoRoom {
                parent: frame.metrics,
                child: child.metrics,
            }),
        },
{
    lemma_put(frame.metrics, frame.chunks, Gap::Straightline, child);
    if layout::fills(frame.metrics, frame.chunks) {
        layout::law_children_keep_frames_filled(
            frame.metrics,
            frame.chunks,
            Gap::Straightline,
            child,
        );
    }
}

/// A root that takes in a child keeps its stretch and the frames that it had, in
/// order, and has the child among them. A refusal names the two stretches.
pub proof fn law_roots_take_children_in(root: RootView, child: FrameView)
    ensures
        match root.with_child(child) {
            Ok(after) => {
                &&& after.metrics == root.metrics
                &&& one_more(root.chunks, child, after.chunks)
                &&& root.metrics.spans(child.metrics)
                &&& layout::fills(root.metrics, root.chunks) ==> layout::fills(
                    after.metrics,
                    after.chunks,
                )
                &&& well_laid(Gap::Pause, root.chunks) ==> well_laid(Gap::Pause, after.chunks)
            },
            Err(error) => error == (FrameError::NoRoom {
                parent: root.metrics,
                child: child.metrics,
            }),
        },
{
    lemma_put(root.metrics, root.chunks, Gap::Pause, child);
    if layout::fills(root.metrics, root.chunks) {
        layout::law_children_keep_frames_filled(root.metrics, root.chunks, Gap::Pause, child);
    }
}

/// Chunks that fill a range come one after the other.
proof fn lemma_filled_in_order(whole: MetricsRange, chunks: Seq<ChunkView>, i: int, j: int)
    requires
        layout::fills(whole, chunks),
        0 <= i < j < chunks.len(),
    ensures
        chunks[i].range().end.reaches(chunks[j].range().start),
    decreases j - i,
{
    law_filled_means_end_to_end(whole, chunks);
    if j > i + 1 {
        lemma_filled_in_order(whole, chunks, i, j - 1);
        let k = j - 1;
        assert(chunks[k].range().end == chunks[j].range().start);
        assert(chunks[k].range().start.reaches(chunks[k].range().end));
    } else {
        assert(chunks[i].range().end == chunks[j].range().start);
    }
}

/// A child that went into the chunk at index `i`, or slipped in beside it, overlaps no
/// frame.
proof fn lemma_opening_is_free(
    whole: MetricsRange,
    chunks: Seq<ChunkView>,
    gap: Gap,
    range: MetricsRange,
    i: int,
)
    requires
        layout::fills(whole, chunks),
        range.ordered(),
        0 <= i < chunks.len(),
        layout::opens_before(chunks[i], gap, range) || layout::opens_after(chunks[i], gap, range),
    ensures
        free_for(chunks, range),
{
    law_filled_means_end_to_end(whole, chunks);
    assert forall|k: int| 0 <= k < chunks.len() implies ((
    #[trigger] chunks[k]) matches ChunkView::Frame(frame) ==> apart(frame.metrics, range)) by {
        assert(chunks[i].range().start.reaches(chunks[i].range().end));
        assert(chunks[k].range().start.reaches(chunks[k].range().end));
        if k < i {
            lemma_filled_in_order(whole, chunks, k, i);
        } else if k > i {
            lemma_filled_in_order(whole, chunks, i, k);
        }
    }
}

/// The first index from `from` on of a frame that begins after the stretch is over, or
/// the number of chunks.
spec fn next_frame(chunks: Seq<ChunkView>, range: MetricsRange, from: int) -> int
    decreases chunks.len() - from,
{
    if from < 0 || from >= chunks.len() {
        chunks.len() as int
    } else if chunks[from] is Frame && range.end.reaches(chunks[from].range().start) {
        from
    } else {
        next_frame(chunks, range, from + 1)
    }
}

proof fn lemma_next_frame(chunks: Seq<ChunkView>, range: MetricsRange, from: int)
    requires
        0 <= from <= chunks.len(),
    ensures
        from <= next_frame(chunks, range, from) <= chunks.len(),
        next_frame(chunks, range, from) < chunks.len() ==> chunks[next_frame(
            chunks,
            range,
            from,
        )] is Frame && range.end.reaches(
            chunks[next_frame(chunks, range, from)].range().start,
        ),
        forall|k: int|
            from <= k < next_frame(chunks, range, from) ==> !((#[trigger] chunks[k]) is Frame
                && range.end.reaches(chunks[k].range().start)),
    decreases chunks.len() - from,
{
    if from < chunks.len() && !(chunks[from] is Frame && range.end.reaches(
        chunks[from].range().start,
    )) {
        lemma_next_frame(chunks, range, from + 1);
    }
}

/// A stretch that overlaps no frame finds an opening, or takes no time and lies at one
/// of the two ends.
proof fn lemma_free_means_room(
    whole: MetricsRange,
    chunks: Seq<ChunkView>,
    gap: Gap,
    range: MetricsRange,
)
    requires
        layout::fills(whole, chunks),
        well_laid(gap, chunks),
        whole.spans(range),
        free_for(chunks, range),
    ensures
        layout::first_opening(chunks, gap, range) < chunks.len() || (range.start == range.end
            && range.end == whole.end),
        layout::last_opening(chunks, gap, range) >= 0 || (range.start == range.end && range.start
            == whole.start),
{
    law_filled_means_end_to_end(whole, chunks);
    let j = next_frame(chunks, range, 0);
    lemma_next_frame(chunks, range, 0);
    assert forall|k: int| 0 <= k < j && (#[trigger] chunks[k]) is Frame implies chunks[k].range().end.reaches(
        range.start,
    ) by {
        assert(apart(chunks[k].range(), range));
    }
    if j == 0 {
        assert(range.start == range.end && range.start == whole.start);
        assert(layout::opens_before(chunks[0], gap, range));
        lemma_some_first(chunks, gap, range, 0);
    } else {
        let p = j - 1;
        assert(chunks[p].range().start.reaches(chunks[p].range().end));
        if j < chunks.len() {
            assert(chunks[p].range().end == chunks[j].range().start);
        }
        if chunks[p] is Frame {
            assert(range.start == range.end && range.end == chunks[p].range().end);
            assert(layout::opens_after(chunks[p], gap, range));
            lemma_some_last(chunks, gap, range, p);
            if j < chunks.len() {
                assert(layout::opens_before(chunks[j], gap, range));
                lemma_some_first(chunks, gap, range, j);
            }
        } else {
            if p > 0 {
                let q = p - 1;
                assert(chunks[q] is Frame || chunks[p] is Frame);
                assert(chunks[q].range().end == chunks[p].range().start);
                assert(chunks[q].range().end.reaches(range.start));
            }
            assert(chunks[p].has_room(gap, range));
            lemma_some_first(chunks, gap, range, p);
            lemma_some_last(chunks, gap, range, p);
        }
    }
}

proof fn lemma_some_first(chunks: Seq<ChunkView>, gap: Gap, range: MetricsRange, i: int)
    requires
        0 <= i < chunks.len(),
        layout::opens_before(chunks[i], gap, range),
    ensures
        layout::first_opening(chunks, gap, range) <= i,
    decreases i,
{
    if i > 0 && !layout::opens_before(chunks.first(), gap, range) {
        assert(chunks.drop_first()[i - 1] == chunks[i]);
        lemma_some_first(chunks.drop_first(), gap, range, i - 1);
    }
}

proof fn lemma_some_last(chunks: Seq<ChunkView>, gap: Gap, range: MetricsRange, i: int)
    requires
        0 <= i < chunks.len(),
        layout::opens_after(chunks[i], gap, range),
    ensures
        layout::last_opening(chunks, gap, range) >= i,
    decreases chunks.len(),
{
    if i < chunks.len() - 1 && !layout::opens_after(chunks.last(), gap, range) {
        lemma_some_last(chunks.drop_last(), gap, range, i);
    }
}

/// A child at one of the two ends of a range that chunks fill overlaps no frame.
proof fn lemma_ends_are_free(whole: MetricsRange, chunks: Seq<ChunkView>, range: MetricsRange)
    requires
        layout::fills(whole, chunks),
        range.start == range.end,
        range.start == whole.start || range.end == whole.end,
    ensures
        free_for(chunks, range),
{
    law_filled_means_end_to_end(whole, chunks);
    let top = chunks.len() - 1;
    assert forall|k: int| 0 <= k < chunks.len() implies ((
    #[trigger] chunks[k]) matches ChunkView::Frame(frame) ==> apart(frame.metrics, range)) by {
        assert(chunks[k].range().start.reaches(chunks[k].range().end));
        if k > 0 {
            lemma_filled_in_order(whole, chunks, 0, k);
            assert(chunks[0].range().start.reaches(chunks[0].range().end));
        }
        if k < top {
            lemma_filled_in_order(whole, chunks, k, top);
            assert(chunks[top].range().start.reaches(chunks[top].range().end));
        }
    }
}

proof fn lemma_room(whole: MetricsRange, chunks: Seq<ChunkView>, gap: Gap, child: FrameView)
    requires
        layout::fills(whole, chunks),
        well_laid(gap, chunks),
    ensures
        layout::put_first(whole, chunks, gap, child) is Ok <==> whole.spans(child.metrics)
            && free_for(chunks, child.metrics),
        layout::put_last(whole, chunks, gap, child) is Ok <==> whole.spans(child.metrics)
            && free_for(chunks, child.metrics),
{
    let range = child.metrics;
    if whole.spans(range) {
        let i = layout::first_opening(chunks, gap, range);
        let k = layout::last_opening(chunks, gap, range);
        layout::lemma_first_opening_bounds(chunks, gap, range);
        layout::lemma_last_opening_bounds(chunks, gap, range);
        if free_for(chunks, range) {
            lemma_free_means_room(whole, chunks, gap, range);
        } else {
            if i < chunks.len() {
                lemma_opening_is_free(whole, chunks, gap, range, i);
            } else if range.start == range.end && range.end == whole.end {
                lemma_ends_are_free(whole, chunks, range);
            }
            if k >= 0 {
                lemma_opening_is_free(whole, chunks, gap, range, k);
            } else if range.start == range.end && range.start == whole.start {
                lemma_ends_are_free(whole, chunks, range);
            }
        }
    }
}

/// A child finds room in a call that its chunks fill if and only if it lies within the
/// call and overlaps none of the frames in it.
pub proof fn law_calls_have_room_for_what_overlaps_nothing(frame: FrameView, child: FrameView)
    requires
        layout::fills(frame.metrics, frame.chunks),
        well_laid(Gap::Straightline, frame.chunks),
    ensures
        frame.with_child(child) is Ok <==> frame.metrics.spans(child.metrics) && free_for(
            frame.chunks,
            child.metrics,
        ),
{
    lemma_room(frame.metrics, frame.chunks, Gap::Straightline, child);
}

/// A child finds room in a root that its chunks fill if and only if it lies within the
/// root and overlaps none of the frames in it.
pub proof fn law_roots_have_room_for_what_overlaps_nothing(root: RootView, child: FrameView)
    requires
        layout::fills(root.metrics, root.chunks),
        well_laid(Gap::Pause, root.chunks),
    ensures
        root.with_child(child) is Ok <==> root.metrics.spans(child.metrics) && free_for(
            root.chunks,
            child.metrics,
        ),
{
    lemma_room(root.metrics, root.chunks, Gap::Pause, child);
}

/// None of the frames overlaps the stretch.
pub open spec fn none_overlaps(frames: Seq<FrameView>, range: MetricsRange) -> bool {
    forall|k: int| 0 <= k < frames.len() ==> apart((#[trigger] frames[k]).metrics, range)
}

/// The frames lie within the range, and no two of them overlap.
pub open spec fn side_by_side(range: MetricsRange, frames: Seq<FrameView>) -> bool {
    &&& forall|i: int| 0 <= i < frames.len() ==> range.spans((#[trigger] frames[i]).metrics)
    &&& forall|i: int, j: int|
        0 <= i < j < frames.len() ==> apart(
            (#[trigger] frames[i]).metrics,
            (#[trigger] frames[j]).metrics,
        )
}

proof fn lemma_free_frames(chunks: Seq<ChunkView>, range: MetricsRange)
    ensures
        free_for(chunks, range) <==> none_overlaps(layout::frames_of(chunks), range),
    decreases chunks.len(),
{
    let frames = layout::frames_of(chunks);
    if chunks.len() > 0 {
        let rest = chunks.drop_first();
        let later = layout::frames_of(rest);
        lemma_free_frames(rest, range);
        assert(chunks[0] == chunks.first());
        if free_for(chunks, range) {
            assert forall|i: int| 0 <= i < rest.len() implies ((
            #[trigger] rest[i]) matches ChunkView::Frame(frame) ==> apart(
                frame.metrics,
                range,
            )) by {
                assert(rest[i] == chunks[i + 1]);
            }
            assert forall|k: int| 0 <= k < frames.len() implies apart(
                (#[trigger] frames[k]).metrics,
                range,
            ) by {
                if chunks[0] is Frame {
                    if k > 0 {
                        assert(frames[k] == later[k - 1]);
                    }
                } else {
                    assert(frames[k] == later[k]);
                }
            }
        }
        if none_overlaps(frames, range) {
            assert forall|k: int| 0 <= k < later.len() implies apart(
                (#[trigger] later[k]).metrics,
                range,
            ) by {
                if chunks[0] is Frame {
                    assert(later[k] == frames[k + 1]);
                } else {
                    assert(later[k] == frames[k]);
                }
            }
            assert forall|i: int| 0 <= i < chunks.len() implies ((
            #[trigger] chunks[i]) matches ChunkView::Frame(frame) ==> apart(
                frame.metrics,
                range,
            )) by {
                if i > 0 {
                    assert(chunks[i] == rest[i - 1]);
                } else if chunks[0] is Frame {
                    assert(frames[0] == chunks[0]->Frame_0);
                }
            }
        }
    }
}

proof fn lemma_insert_multiset(frames: Seq<FrameView>, i: int, child: FrameView)
    requires
        0 <= i <= frames.len(),
    ensures
        frames.insert(i, child).to_multiset() == frames.to_multiset().insert(child),
{
    let after = frames.insert(i, child);
    after.to_multiset_ensures();
    assert(after.remove(i) =~= frames);
    assert(after[i] == child);
    assert(after.contains(child));
    assert(after.to_multiset() =~= frames.to_multiset().insert(child));
}

/// What one more frame means for those that follow.
proof fn lemma_one_more_means(before: Seq<ChunkView>, child: FrameView, after: Seq<ChunkView>)
    requires
        one_more(before, child, after),
    ensures
        layout::frames_of(after).to_multiset() == layout::frames_of(before).to_multiset().insert(
            child,
        ),
        forall|range: MetricsRange| #[trigger]
            none_overlaps(layout::frames_of(after), range) <==> none_overlaps(
                layout::frames_of(before),
                range,
            ) && apart(child.metrics, range),
{
    let old_frames = layout::frames_of(before);
    let new_frames = layout::frames_of(after);
    let i = choose|i: int|
        0 <= i <= old_frames.len() && new_frames == #[trigger] old_frames.insert(i, child);
    lemma_insert_multiset(old_frames, i, child);
    assert forall|range: MetricsRange| #[trigger]
        none_overlaps(new_frames, range) <==> none_overlaps(old_frames, range) && apart(
            child.metrics,
            range,
        ) by {
        if none_overlaps(new_frames, range) {
            assert(new_frames[i] == child);
            assert forall|k: int| 0 <= k < old_frames.len() implies apart(
                (#[trigger] old_frames[k]).metrics,
                range,
            ) by {
                if k < i {
                    assert(new_frames[k] == old_frames[k]);
                } else {
                    assert(new_frames[k + 1] == old_frames[k]);
                }
            }
        }
        if none_overlaps(old_frames, range) && apart(child.metrics, range) {
            assert forall|k: int| 0 <= k < new_frames.len() implies apart(
                (#[trigger] new_frames[k]).metrics,
                range,
            ) by {
                if k < i {
                    assert(new_frames[k] == old_frames[k]);
                } else if k > i {
                    assert(new_frames[k] == old_frames[k - 1]);
                }
            }
        }
    }
}

proof fn lemma_roots_take_all(root: RootView, segments: Seq<FrameView>)
    requires
        layout::fills(root.metrics, root.chunks),
        well_laid(Gap::Pause, root.chunks),
    ensures
        layout::with_children_from_front(root, segments) is Ok <==> side_by_side(
            root.metrics,
            segments,
        ) && forall|i: int|
            0 <= i < segments.len() ==> none_overlaps(
                layout::frames_of(root.chunks),
                (#[trigger] segments[i]).metrics,
            ),
        layout::with_children_from_front(root, segments) matches Ok(after) ==> {
            &&& after.metrics == root.metrics
            &&& layout::fills(after.metrics, after.chunks)
            &&& well_laid(Gap::Pause, after.chunks)
            &&& layout::frames_of(after.chunks).to_multiset() == layout::frames_of(
                root.chunks,
            ).to_multiset().add(segments.to_multiset())
        },
    decreases segments.len(),
{
    broadcast use vstd::multiset::group_multiset_axioms;

    segments.to_multiset_ensures();
    let held = layout::frames_of(root.chunks);
    if segments.len() == 0 {
        assert(held.to_multiset().add(segments.to_multiset()) =~= held.to_multiset());
    } else {
        let first = segments.first();
        let rest = segments.drop_first();
        assert(segments[0] == first);
        law_roots_have_room_for_what_overlaps_nothing(root, first);
        law_roots_take_children_in(root, first);
        lemma_free_frames(root.chunks, first.metrics);
        assert(segments.to_multiset() =~= rest.to_multiset().insert(first)) by {
            assert(segments.remove(0) =~= rest);
            assert(segments.contains(segments[0]));
        }
        if let Ok(next) = root.with_child(first) {
            let now = layout::frames_of(next.chunks);
            lemma_one_more_means(root.chunks, first, next.chunks);
            lemma_roots_take_all(next, rest);
            let rest_fits = side_by_side(root.metrics, rest) && forall|i: int|
                0 <= i < rest.len() ==> none_overlaps(now, (#[trigger] rest[i]).metrics);
            let all_fit = side_by_side(root.metrics, segments) && forall|i: int|
                0 <= i < segments.len() ==> none_overlaps(held, (#[trigger] segments[i]).metrics);
            if rest_fits {
                assert forall|i: int| 0 <= i < segments.len() implies root.metrics.spans(
                    (#[trigger] segments[i]).metrics,
                ) && none_overlaps(held, segments[i].metrics) by {
                    if i > 0 {
                        assert(segments[i] == rest[i - 1]);
                        assert(none_overlaps(now, rest[i - 1].metrics));
                    }
                }
                assert forall|i: int, j: int| 0 <= i < j < segments.len() implies apart(
                    (#[trigger] segments[i]).metrics,
                    (#[trigger] segments[j]).metrics,
                ) by {
                    assert(segments[j] == rest[j - 1]);
                    if i > 0 {
                        assert(segments[i] == rest[i - 1]);
                    } else {
                        assert(none_overlaps(now, rest[j - 1].metrics));
                    }
                }
            }
            if all_fit {
                assert forall|i: int| 0 <= i < rest.len() implies root.metrics.spans(
                    (#[trigger] rest[i]).metrics,
                ) && none_overlaps(now, rest[i].metrics) by {
                    assert(rest[i] == segments[i + 1]);
                    assert(apart(segments[0].metrics, segments[i + 1].metrics));
                    assert(none_overlaps(held, segments[i + 1].metrics));
                }
                assert forall|i: int, j: int| 0 <= i < j < rest.len() implies apart(
                    (#[trigger] rest[i]).metrics,
                    (#[trigger] rest[j]).metrics,
                ) by {
                    assert(apart(segments[i + 1].metrics, segments[j + 1].metrics));
                }
            }
            assert(held.to_multiset().insert(first).add(rest.to_multiset())
                =~= held.to_multiset().add(segments.to_multiset()));
        }
    }
}

proof fn lemma_calls_take_all(frame: FrameView, children: Seq<FrameView>)
    requires
        layout::fills(frame.metrics, frame.chunks),
        well_laid(Gap::Straightline, frame.chunks),
    ensures
        layout::with_children_from_back(frame, children) is Ok <==> side_by_side(
            frame.metrics,
            children,
        ) && forall|i: int|
            0 <= i < children.len() ==> none_overlaps(
                layout::frames_of(frame.chunks),
                (#[trigger] children[i]).metrics,
            ),
        layout::with_children_from_back(frame, children) matches Ok(after) ==> {
            &&& after.metrics == frame.metrics
            &&& after.symbol == frame.symbol
            &&& layout::fills(after.metrics, after.chunks)
            &&& well_laid(Gap::Straightline, after.chunks)
            &&& layout::frames_of(after.chunks).to_multiset() == layout::frames_of(
                frame.chunks,
            ).to_multiset().add(children.to_multiset())
        },
    decreases children.len(),
{
    broadcast use vstd::multiset::group_multiset_axioms;

    children.to_multiset_ensures();
    let held = layout::frames_of(frame.chunks);
    if children.len() == 0 {
        assert(held.to_multiset().add(children.to_multiset()) =~= held.to_multiset());
    } else {
        let top = children.len() - 1;
        let last = children.last();
        let rest = children.drop_last();
        assert(children[top] == last);
        law_calls_have_room_for_what_overlaps_nothing(frame, last);
        law_calls_take_children_in(frame, last);
        lemma_free_frames(frame.chunks, last.metrics);
        assert(children.to_multiset() =~= rest.to_multiset().insert(last)) by {
            assert(children.remove(top) =~= rest);
            assert(children.contains(children[top]));
        }
        if let Ok(next) = frame.with_child(last) {
            let now = layout::frames_of(next.chunks);
            lemma_one_more_means(frame.chunks, last, next.chunks);
            lemma_calls_take_all(next, rest);
            let rest_fits = side_by_side(frame.metrics, rest) && forall|i: int|
                0 <= i < rest.len() ==> none_overlaps(now, (#[trigger] rest[i]).metrics);
            let all_fit = side_by_side(frame.metrics, children) && forall|i: int|
                0 <= i < children.len() ==> none_overlaps(held, (#[trigger] children[i]).metrics);
            if rest_fits {
                assert forall|i: int| 0 <= i < children.len() implies frame.metrics.spans(
                    (#[trigger] children[i]).metrics,
                ) && none_overlaps(held, children[i].metrics) by {
                    if i < top {
                        assert(children[i] == rest[i]);
                        assert(none_overlaps(now, rest[i].metrics));
                    }
                }
                assert forall|i: int, j: int| 0 <= i < j < children.len() implies apart(
                    (#[trigger] children[i]).metrics,
                    (#[trigger] children[j]).metrics,
                ) by {
                    assert(children[i] == rest[i]);
                    if j < top {
                        assert(children[j] == rest[j]);
                    } else {
                        assert(none_overlaps(now, rest[i].metrics));
                    }
                }
            }
            if all_fit {
                assert forall|i: int| 0 <= i < rest.len() implies frame.metrics.spans(
                    (#[trigger] rest[i]).metrics,
                ) && none_overlaps(now, rest[i].metrics) by {
                    assert(rest[i] == children[i]);
                    assert(apart(children[i].metrics, children[top].metrics));
                    assert(none_overlaps(held, children[i].metrics));
                }
                assert forall|i: int, j: int| 0 <= i < j < rest.len() implies apart(
                    (#[trigger] rest[i]).metrics,
                    (#[trigger] rest[j]).metrics,
                ) by {
                    assert(apart(children[i].metrics, children[j].metrics));
                }
            }
            assert(held.to_multiset().insert(last).add(rest.to_multiset())
                =~= held.to_multiset().add(children.to_multiset()));
        }
    }
}

/// A new root takes in segments, in whatever order they are handed over, if and only if
/// they lie within it and no two of them overlap. Then it holds these segments and
/// nothing else, with pauses wherever there is time between them.
pub proof fn law_roots_hold_what_they_were_handed(range: MetricsRange, segments: Seq<FrameView>)
    ensures
        layout::with_children_from_front(RootView::blank(range), segments) is Ok <==> side_by_side(
            range,
            segments,
        ),
        layout::with_children_from_front(RootView::blank(range), segments) matches Ok(root) ==> {
            &&& root.metrics == range
            &&& layout::frames_of(root.chunks).to_multiset() == segments.to_multiset()
            &&& well_laid(Gap::Pause, root.chunks)
            &&& range.ordered() ==> layout::fills(range, root.chunks)
        },
{
    broadcast use vstd::multiset::group_multiset_axioms;

    let blank = RootView::blank(range);
    layout::lemma_no_frames(blank.chunks);
    let none = layout::frames_of(blank.chunks);
    assert(none =~= Seq::<FrameView>::empty());
    none.to_multiset_ensures();
    segments.to_multiset_ensures();
    if range.ordered() {
        layout::lemma_leaf_intact(
            range,
            SymbolView { name: seq![], offset: 0, size: 0 },
        );
        lemma_roots_take_all(blank, segments);
        assert(none.to_multiset().add(segments.to_multiset()) =~= segments.to_multiset());
    } else if segments.len() > 0 {
        assert(segments[0] == segments.first());
        assert(!range.spans(segments[0].metrics));
    } else {
        assert(segments =~= none);
    }
}

/// A new call takes in children, in whatever order they are handed over, if and only if
/// they lie within it and no two of them overlap. Then it holds these children and
/// nothing else, with straightline code wherever there is time between them.
pub proof fn law_calls_hold_what_they_were_handed(
    range: MetricsRange,
    symbol: SymbolView,
    children: Seq<FrameView>,
)
    ensures
        layout::with_children_from_back(FrameView::leaf(range, symbol), children) is Ok
            <==> side_by_side(range, children),
        layout::with_children_from_back(FrameView::leaf(range, symbol), children) matches Ok(
            frame,
        ) ==> {
            &&& frame.metrics == range
            &&& frame.symbol == symbol
            &&& layout::frames_of(frame.chunks).to_multiset() == children.to_multiset()
            &&& well_laid(Gap::Straightline, frame.chunks)
            &&& range.ordered() ==> layout::fills(range, frame.chunks)
        },
{
    broadcast use vstd::multiset::group_multiset_axioms;

    let leaf = FrameView::leaf(range, symbol);
    layout::lemma_no_frames(leaf.chunks);
    let none = layout::frames_of(leaf.chunks);
    assert(none =~= Seq::<FrameView>::empty());
    none.to_multiset_ensures();
    children.to_multiset_ensures();
    if range.ordered() {
        layout::lemma_leaf_intact(range, symbol);
        lemma_calls_take_all(leaf, children);
        assert(none.to_multiset().add(children.to_multiset()) =~= children.to_multiset());
    } else if children.len() > 0 {
        assert(children[children.len() - 1] == children.last());
        assert(!range.spans(children.last().metrics));
    } else {
        assert(children =~= none);
    }
}

} // verus!
