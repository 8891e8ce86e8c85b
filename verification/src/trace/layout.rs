//! How the chunks of a frame are laid out: what a frame is as a mathematical
//! value, where a child goes, and what stays true when it goes there.
use vstd::prelude::*;

use super::metrics::{Metrics, MetricsRange};

verus! {

/// What a symbol says, as mathematical values.
pub struct SymbolView {
    pub name: Seq<char>,
    pub offset: u64,
    pub size: u64,
}

/// A chunk as a mathematical value.
pub enum ChunkView {
    Frame(FrameView),
    Straightline(MetricsRange),
    Pause(MetricsRange),
}

/// A frame as a mathematical value.
pub struct FrameView {
    pub metrics: MetricsRange,
    pub symbol: SymbolView,
    pub chunks: Seq<ChunkView>,
}

/// What stands in a frame where no child does.
#[derive(Debug, Clone, Copy, PartialEq, Eq, Hash, Structural)]
pub enum Gap {
    Straightline,
    Pause,
}

impl Gap {
    /// The chunk for a gap over `range`.
    pub open spec fn over(self, range: MetricsRange) -> ChunkView {
        match self {
            Gap::Straightline => ChunkView::Straightline(range),
            Gap::Pause => ChunkView::Pause(range),
        }
    }

    /// The chunks that fill the stretch from `start` to `end`: none if it is empty.
    pub open spec fn between(self, start: Metrics, end: Metrics) -> Seq<ChunkView> {
        if start == end {
            seq![]
        } else {
            seq![self.over(MetricsRange { start, end })]
        }
    }
}

impl ChunkView {
    /// The stretch that the chunk takes up.
    pub open spec fn range(self) -> MetricsRange {
        match self {
            ChunkView::Frame(frame) => frame.metrics,
            ChunkView::Straightline(range) => range,
            ChunkView::Pause(range) => range,
        }
    }

    /// The chunk is a gap that has room for a child over `range`.
    pub open spec fn has_room(self, gap: Gap, range: MetricsRange) -> bool {
        self == gap.over(self.range()) && self.range().spans(range)
    }
}

/// Why a frame did not take a child.
#[derive(Debug, Clone, Copy, PartialEq, Eq, Structural)]
pub enum FrameError {
    /// There is no gap in `parent` that `child` fits into.
    NoRoom { parent: MetricsRange, child: MetricsRange },
}

/// The chunks that replace a gap once `child` has been put into it.
pub open spec fn split_gap(gap: Gap, range: MetricsRange, child: FrameView) -> Seq<ChunkView> {
    gap.between(range.start, child.metrics.start) + seq![ChunkView::Frame(child)] + gap.between(
        child.metrics.end,
        range.end,
    )
}

/// The chunks with `child` put into the gap at index `i`.
pub open spec fn split_at(chunks: Seq<ChunkView>, i: int, gap: Gap, child: FrameView) -> Seq<
    ChunkView,
> {
    chunks.take(i) + split_gap(gap, chunks[i].range(), child) + chunks.skip(i + 1)
}

/// A child over `range` can go in at `chunk`, coming from the front: into it, or,
/// if the child takes no time, just before it.
pub open spec fn opens_before(chunk: ChunkView, gap: Gap, range: MetricsRange) -> bool {
    ||| chunk.has_room(gap, range)
    ||| range.start == range.end && chunk.range().start == range.start
}

/// A child over `range` can go in at `chunk`, coming from the back: into it, or,
/// if the child takes no time, just after it.
pub open spec fn opens_after(chunk: ChunkView, gap: Gap, range: MetricsRange) -> bool {
    ||| chunk.has_room(gap, range)
    ||| range.start == range.end && chunk.range().end == range.end
}

/// The first index at which a child over `range` can go in, or the number of
/// chunks if there is none.
pub open spec fn first_opening(chunks: Seq<ChunkView>, gap: Gap, range: MetricsRange) -> int
    decreases chunks.len(),
{
    if chunks.len() == 0 || opens_before(chunks.first(), gap, range) {
        0
    } else {
        1 + first_opening(chunks.drop_first(), gap, range)
    }
}

/// The last index at which a child over `range` can go in, or -1 if there is
/// none.
pub open spec fn last_opening(chunks: Seq<ChunkView>, gap: Gap, range: MetricsRange) -> int
    decreases chunks.len(),
{
    if chunks.len() == 0 || opens_after(chunks.last(), gap, range) {
        chunks.len() - 1
    } else {
        last_opening(chunks.drop_last(), gap, range)
    }
}

/// The chunks of a frame over `whole` with `child`, which must lie within it, put
/// in as far to the front as it fits.
pub open spec fn put_first(
    whole: MetricsRange,
    chunks: Seq<ChunkView>,
    gap: Gap,
    child: FrameView,
) -> Result<Seq<ChunkView>, FrameError> {
    let range = child.metrics;
    let i = first_opening(chunks, gap, range);
    if !whole.spans(range) {
        Err(FrameError::NoRoom { parent: whole, child: range })
    } else if i < chunks.len() {
        if chunks[i].has_room(gap, range) {
            Ok(split_at(chunks, i, gap, child))
        } else {
            Ok(chunks.insert(i, ChunkView::Frame(child)))
        }
    } else if range.start == range.end && range.end == whole.end {
        Ok(chunks.push(ChunkView::Frame(child)))
    } else {
        Err(FrameError::NoRoom { parent: whole, child: range })
    }
}

/// The chunks of a frame over `whole` with `child`, which must lie within it, put
/// in as far to the back as it fits.
pub open spec fn put_last(
    whole: MetricsRange,
    chunks: Seq<ChunkView>,
    gap: Gap,
    child: FrameView,
) -> Result<Seq<ChunkView>, FrameError> {
    let range = child.metrics;
    let i = last_opening(chunks, gap, range);
    if !whole.spans(range) {
        Err(FrameError::NoRoom { parent: whole, child: range })
    } else if i >= 0 {
        if chunks[i].has_room(gap, range) {
            Ok(split_at(chunks, i, gap, child))
        } else {
            Ok(chunks.insert(i + 1, ChunkView::Frame(child)))
        }
    } else if range.start == range.end && range.start == whole.start {
        Ok(chunks.insert(0, ChunkView::Frame(child)))
    } else {
        Err(FrameError::NoRoom { parent: whole, child: range })
    }
}

pub(crate) proof fn lemma_first_opening(chunks: Seq<ChunkView>, gap: Gap, range: MetricsRange, i: int)
    requires
        0 <= i <= chunks.len(),
        i < chunks.len() ==> opens_before(chunks[i], gap, range),
        forall|j: int| 0 <= j < i ==> !opens_before(#[trigger] chunks[j], gap, range),
    ensures
        first_opening(chunks, gap, range) == i,
    decreases i,
{
    if i > 0 {
        assert(!opens_before(chunks[0], gap, range));
        assert forall|j: int| 0 <= j < i - 1 implies !opens_before(
            #[trigger] chunks.drop_first()[j],
            gap,
            range,
        ) by {
            assert(chunks.drop_first()[j] == chunks[j + 1]);
        }
        lemma_first_opening(chunks.drop_first(), gap, range, i - 1);
    }
}

pub(crate) proof fn lemma_last_opening(chunks: Seq<ChunkView>, gap: Gap, range: MetricsRange, i: int)
    requires
        -1 <= i < chunks.len(),
        i >= 0 ==> opens_after(chunks[i], gap, range),
        forall|j: int| i < j < chunks.len() ==> !opens_after(#[trigger] chunks[j], gap, range),
    ensures
        last_opening(chunks, gap, range) == i,
    decreases chunks.len(),
{
    if i < chunks.len() - 1 {
        assert(!opens_after(chunks[chunks.len() - 1], gap, range));
        lemma_last_opening(chunks.drop_last(), gap, range, i);
    }
}

/// Where a walk over `chunks` that starts at `at` ends, if every chunk begins
/// where the one before it ended and none runs backwards.
pub open spec fn walk(chunks: Seq<ChunkView>, at: Metrics) -> Option<Metrics>
    decreases chunks.len(),
{
    if chunks.len() == 0 {
        Some(at)
    } else if chunks.first().range().start == at && chunks.first().range().ordered() {
        walk(chunks.drop_first(), chunks.first().range().end)
    } else {
        None
    }
}

/// `chunks` fill `range` from end to end, without holes and without overlaps.
pub open spec fn fills(range: MetricsRange, chunks: Seq<ChunkView>) -> bool {
    &&& range.ordered()
    &&& chunks.len() > 0
    &&& walk(chunks, range.start) == Some(range.end)
}

/// A root frame as a mathematical value.
pub struct RootView {
    pub metrics: MetricsRange,
    pub chunks: Seq<ChunkView>,
}

impl RootView {
    /// The frame is filled by its chunks, and so is every frame in it.
    pub open spec fn intact(self) -> bool {
        &&& fills(self.metrics, self.chunks)
        &&& all_intact(self.chunks)
    }

    /// A root frame over `range` in which nothing was traced.
    pub open spec fn blank(range: MetricsRange) -> RootView {
        RootView { metrics: range, chunks: seq![ChunkView::Pause(range)] }
    }

    /// The frame with `child` called in it.
    pub open spec fn with_child(self, child: FrameView) -> Result<RootView, FrameError> {
        match put_last(self.metrics, self.chunks, Gap::Pause, child) {
            Ok(chunks) => Ok(RootView { chunks, ..self }),
            Err(error) => Err(error),
        }
    }
}

impl FrameView {
    /// The frame is filled by its chunks, and so is every frame in it.
    pub open spec fn intact(self) -> bool
        decreases self,
    {
        &&& fills(self.metrics, self.chunks)
        &&& forall|i: int| 0 <= i < self.chunks.len() ==> (#[trigger] self.chunks[i]).intact()
    }

    /// A frame over `range` in which nothing was called.
    pub open spec fn leaf(range: MetricsRange, symbol: SymbolView) -> FrameView {
        FrameView { metrics: range, symbol, chunks: seq![ChunkView::Straightline(range)] }
    }

    /// The frame with `child` called in it.
    pub open spec fn with_child(self, child: FrameView) -> Result<FrameView, FrameError> {
        match put_first(self.metrics, self.chunks, Gap::Straightline, child) {
            Ok(chunks) => Ok(FrameView { chunks, ..self }),
            Err(error) => Err(error),
        }
    }
}

impl ChunkView {
    /// The chunk is not a frame, or an intact one.
    pub open spec fn intact(self) -> bool
        decreases self,
    {
        match self {
            ChunkView::Frame(frame) => frame.intact(),
            _ => true,
        }
    }
}

/// Every frame among `chunks` is intact.
pub open spec fn all_intact(chunks: Seq<ChunkView>) -> bool {
    forall|i: int| 0 <= i < chunks.len() ==> (#[trigger] chunks[i]).intact()
}

/// Walking over two lists of chunks is walking over the first, then over the
/// second.
pub(crate) proof fn lemma_walk_concat(a: Seq<ChunkView>, b: Seq<ChunkView>, at: Metrics)
    ensures
        walk(a + b, at) == match walk(a, at) {
            Some(mid) => walk(b, mid),
            None => None,
        },
    decreases a.len(),
{
    if a.len() == 0 {
        assert(a + b =~= b);
    } else {
        assert((a + b).drop_first() =~= a.drop_first() + b);
        assert((a + b).first() == a.first());
        lemma_walk_concat(a.drop_first(), b, a.first().range().end);
    }
}

/// A walk over `chunks` passes the start of the chunk at index `i` and, where it
/// gets to the end, the chunk's own end.
pub(crate) proof fn lemma_walk_through(chunks: Seq<ChunkView>, at: Metrics, i: int)
    requires
        0 <= i < chunks.len(),
        walk(chunks, at) is Some,
    ensures
        walk(chunks.take(i), at) == Some(chunks[i].range().start),
        walk(chunks.take(i + 1), at) == Some(chunks[i].range().end),
        chunks[i].range().ordered(),
        walk(chunks, at) == walk(chunks.skip(i), chunks[i].range().start),
        walk(chunks, at) == walk(chunks.skip(i + 1), chunks[i].range().end),
{
    reveal_with_fuel(walk, 2);
    let here = seq![chunks[i]];
    assert(chunks =~= chunks.take(i) + (here + chunks.skip(i + 1)));
    assert(chunks.take(i + 1) =~= chunks.take(i) + here);
    assert(chunks.skip(i) =~= here + chunks.skip(i + 1));
    lemma_walk_concat(chunks.take(i), here + chunks.skip(i + 1), at);
    lemma_walk_concat(chunks.take(i), here, at);
    let mid = walk(chunks.take(i), at)->0;
    lemma_walk_concat(here, chunks.skip(i + 1), mid);
    assert(here.drop_first() =~= Seq::<ChunkView>::empty());
    assert(here.first() == chunks[i]);
}

/// A gap with a child in it still goes from where it began to where it ended.
proof fn lemma_walk_split(gap: Gap, range: MetricsRange, child: FrameView)
    requires
        range.spans(child.metrics),
    ensures
        walk(split_gap(gap, range, child), range.start) == Some(range.end),
{
    reveal_with_fuel(walk, 2);
    let ahead = gap.between(range.start, child.metrics.start);
    let here = seq![ChunkView::Frame(child)];
    let behind = gap.between(child.metrics.end, range.end);
    lemma_walk_concat(ahead + here, behind, range.start);
    lemma_walk_concat(ahead, here, range.start);
    assert(here.drop_first() =~= Seq::<ChunkView>::empty());
    if range.start != child.metrics.start {
        assert(ahead.drop_first() =~= Seq::<ChunkView>::empty());
    }
    if child.metrics.end != range.end {
        assert(behind.drop_first() =~= Seq::<ChunkView>::empty());
    }
}

/// Splitting a gap leaves the chunks filling the frame.
proof fn lemma_fills_split(
    whole: MetricsRange,
    chunks: Seq<ChunkView>,
    i: int,
    gap: Gap,
    child: FrameView,
)
    requires
        fills(whole, chunks),
        0 <= i < chunks.len(),
        chunks[i].has_room(gap, child.metrics),
    ensures
        fills(whole, split_at(chunks, i, gap, child)),
        all_intact(chunks) && child.intact() ==> all_intact(split_at(chunks, i, gap, child)),
{
    let range = chunks[i].range();
    let after = split_at(chunks, i, gap, child);
    lemma_walk_through(chunks, whole.start, i);
    lemma_walk_split(gap, range, child);
    lemma_walk_concat(
        chunks.take(i) + split_gap(gap, range, child),
        chunks.skip(i + 1),
        whole.start,
    );
    lemma_walk_concat(chunks.take(i), split_gap(gap, range, child), whole.start);
    assert forall|j: int|
        all_intact(chunks) && child.intact() && 0 <= j < after.len() implies (
    #[trigger] after[j]).intact() by {
        let mid = split_gap(gap, range, child);
        if j < i {
            assert(after[j] == chunks[j]);
        } else if j < i + mid.len() {
            assert(after[j] == mid[j - i]);
        } else {
            assert(after[j] == chunks[j - mid.len() + 1]);
        }
    }
}

/// Slipping in a child that takes no time leaves the chunks filling the frame.
proof fn lemma_fills_insert(
    whole: MetricsRange,
    chunks: Seq<ChunkView>,
    i: int,
    child: FrameView,
)
    requires
        fills(whole, chunks),
        child.metrics.start == child.metrics.end,
        0 <= i <= chunks.len(),
        walk(chunks.take(i), whole.start) == Some(child.metrics.start),
    ensures
        fills(whole, chunks.insert(i, ChunkView::Frame(child))),
        all_intact(chunks) && child.intact() ==> all_intact(
            chunks.insert(i, ChunkView::Frame(child)),
        ),
{
    reveal_with_fuel(walk, 2);
    let here = seq![ChunkView::Frame(child)];
    let after = chunks.insert(i, ChunkView::Frame(child));
    assert(here.drop_first() =~= Seq::<ChunkView>::empty());
    assert(chunks =~= chunks.take(i) + chunks.skip(i));
    assert(after =~= chunks.take(i) + (here + chunks.skip(i)));
    lemma_walk_concat(chunks.take(i), chunks.skip(i), whole.start);
    lemma_walk_concat(chunks.take(i), here + chunks.skip(i), whole.start);
    lemma_walk_concat(here, chunks.skip(i), child.metrics.start);
    assert forall|j: int|
        all_intact(chunks) && child.intact() && 0 <= j < after.len() implies (
    #[trigger] after[j]).intact() by {
        if j < i {
            assert(after[j] == chunks[j]);
        } else if j > i {
            assert(after[j] == chunks[j - 1]);
        }
    }
}

pub(crate) proof fn lemma_first_opening_bounds(chunks: Seq<ChunkView>, gap: Gap, range: MetricsRange)
    ensures
        0 <= first_opening(chunks, gap, range) <= chunks.len(),
        first_opening(chunks, gap, range) < chunks.len() ==> opens_before(
            chunks[first_opening(chunks, gap, range)],
            gap,
            range,
        ),
    decreases chunks.len(),
{
    if chunks.len() > 0 && !opens_before(chunks.first(), gap, range) {
        lemma_first_opening_bounds(chunks.drop_first(), gap, range);
    }
}

pub(crate) proof fn lemma_last_opening_bounds(chunks: Seq<ChunkView>, gap: Gap, range: MetricsRange)
    ensures
        -1 <= last_opening(chunks, gap, range) < chunks.len(),
        last_opening(chunks, gap, range) >= 0 ==> opens_after(
            chunks[last_opening(chunks, gap, range)],
            gap,
            range,
        ),
    decreases chunks.len(),
{
    if chunks.len() > 0 && !opens_after(chunks.last(), gap, range) {
        lemma_last_opening_bounds(chunks.drop_last(), gap, range);
    }
}

/// Whatever child is put into a frame that its chunks fill, the chunks still
/// fill it afterwards.
pub proof fn law_children_keep_frames_filled(
    whole: MetricsRange,
    chunks: Seq<ChunkView>,
    gap: Gap,
    child: FrameView,
)
    requires
        fills(whole, chunks),
    ensures
        put_first(whole, chunks, gap, child) matches Ok(after) ==> fills(whole, after) && (
        all_intact(chunks) && child.intact() ==> all_intact(after)),
        put_last(whole, chunks, gap, child) matches Ok(after) ==> fills(whole, after) && (
        all_intact(chunks) && child.intact() ==> all_intact(after)),
{
    let range = child.metrics;
    assert(chunks.take(0) =~= Seq::<ChunkView>::empty());
    assert(chunks.take(chunks.len() as int) =~= chunks);

    let i = first_opening(chunks, gap, range);
    lemma_first_opening_bounds(chunks, gap, range);
    if i < chunks.len() {
        lemma_walk_through(chunks, whole.start, i);
        if chunks[i].has_room(gap, range) {
            lemma_fills_split(whole, chunks, i, gap, child);
        } else {
            lemma_fills_insert(whole, chunks, i, child);
        }
    } else if range.start == range.end && range.end == whole.end {
        lemma_fills_insert(whole, chunks, chunks.len() as int, child);
        assert(chunks.insert(chunks.len() as int, ChunkView::Frame(child)) =~= chunks.push(
            ChunkView::Frame(child),
        ));
    }

    let k = last_opening(chunks, gap, range);
    lemma_last_opening_bounds(chunks, gap, range);
    if k >= 0 {
        lemma_walk_through(chunks, whole.start, k);
        if chunks[k].has_room(gap, range) {
            lemma_fills_split(whole, chunks, k, gap, child);
        } else {
            lemma_fills_insert(whole, chunks, k + 1, child);
        }
    } else if range.start == range.end && range.start == whole.start {
        lemma_fills_insert(whole, chunks, 0, child);
    }
}

/// `frame` with all of `children` called in it, handed over from the last to the
/// first.
pub open spec fn with_children_from_back(frame: FrameView, children: Seq<FrameView>) -> Result<
    FrameView,
    FrameError,
>
    decreases children.len(),
{
    if children.len() == 0 {
        Ok(frame)
    } else {
        match frame.with_child(children.last()) {
            Ok(next) => with_children_from_back(next, children.drop_last()),
            Err(error) => Err(error),
        }
    }
}

/// `root` with all of `children` called in it, handed over from the first to the
/// last.
pub open spec fn with_children_from_front(root: RootView, children: Seq<FrameView>) -> Result<
    RootView,
    FrameError,
>
    decreases children.len(),
{
    if children.len() == 0 {
        Ok(root)
    } else {
        match root.with_child(children.first()) {
            Ok(next) => with_children_from_front(next, children.drop_first()),
            Err(error) => Err(error),
        }
    }
}

/// `children` ran one after the other, none of them backwards, between `start`
/// and `end`.
pub open spec fn in_order(start: Metrics, children: Seq<FrameView>, end: Metrics) -> bool {
    &&& start.reaches(end)
    &&& forall|i: int|
        0 <= i < children.len() ==> (MetricsRange { start, end }).spans(
            (#[trigger] children[i]).metrics,
        )
    &&& forall|i: int, j: int|
        0 <= i < j < children.len() ==> (#[trigger] children[i]).metrics.end.reaches(
            (#[trigger] children[j]).metrics.start,
        )
}

/// `children` in order, with gaps where there is time between them.
pub open spec fn tiled(gap: Gap, start: Metrics, children: Seq<FrameView>, end: Metrics) -> Seq<
    ChunkView,
>
    decreases children.len(),
{
    if children.len() == 0 {
        gap.between(start, end)
    } else {
        let first = children.first();
        gap.between(start, first.metrics.start) + seq![ChunkView::Frame(first)] + tiled(
            gap,
            first.metrics.end,
            children.drop_first(),
            end,
        )
    }
}

/// The frames among `chunks`.
pub open spec fn frames_of(chunks: Seq<ChunkView>) -> Seq<FrameView>
    decreases chunks.len(),
{
    if chunks.len() == 0 {
        seq![]
    } else {
        match chunks.first() {
            ChunkView::Frame(frame) => seq![frame] + frames_of(chunks.drop_first()),
            _ => frames_of(chunks.drop_first()),
        }
    }
}

pub(crate) proof fn lemma_frames_of_concat(a: Seq<ChunkView>, b: Seq<ChunkView>)
    ensures
        frames_of(a + b) == frames_of(a) + frames_of(b),
    decreases a.len(),
{
    if a.len() == 0 {
        assert(a + b =~= b);
    } else {
        assert((a + b).drop_first() =~= a.drop_first() + b);
        assert((a + b).first() == a.first());
        lemma_frames_of_concat(a.drop_first(), b);
        assert(frames_of(a + b) =~= frames_of(a) + frames_of(b));
    }
}

/// Tiling shows every child once, in order.
pub proof fn law_tiling_shows_children(
    gap: Gap,
    start: Metrics,
    children: Seq<FrameView>,
    end: Metrics,
)
    ensures
        frames_of(tiled(gap, start, children, end)) == children,
    decreases children.len(),
{
    reveal_with_fuel(frames_of, 2);
    if children.len() == 0 {
        assert(frames_of(gap.between(start, end)) =~= children);
    } else {
        let first = children.first();
        let ahead = gap.between(start, first.metrics.start);
        let here = seq![ChunkView::Frame(first)];
        let rest = tiled(gap, first.metrics.end, children.drop_first(), end);
        law_tiling_shows_children(gap, first.metrics.end, children.drop_first(), end);
        lemma_frames_of_concat(ahead + here, rest);
        lemma_frames_of_concat(ahead, here);
        assert(frames_of(ahead) =~= Seq::<FrameView>::empty());
        assert(here.drop_first() =~= Seq::<ChunkView>::empty());
        assert(frames_of(here) =~= seq![first]);
        assert(frames_of(tiled(gap, start, children, end)) =~= children);
    }
}

/// Tiling one more child at the end.
proof fn lemma_tiled_push(
    gap: Gap,
    start: Metrics,
    children: Seq<FrameView>,
    child: FrameView,
    end: Metrics,
)
    ensures
        tiled(gap, start, children.push(child), end) == tiled(
            gap,
            start,
            children,
            child.metrics.start,
        ) + seq![ChunkView::Frame(child)] + gap.between(child.metrics.end, end),
    decreases children.len(),
{
    let all = children.push(child);
    if children.len() == 0 {
        assert(all.drop_first() =~= Seq::<FrameView>::empty());
        reveal_with_fuel(tiled, 2);
    } else {
        let first = children.first();
        assert(all.first() == first);
        assert(all.drop_first() =~= children.drop_first().push(child));
        lemma_tiled_push(gap, first.metrics.end, children.drop_first(), child, end);
        assert(tiled(gap, start, all, end) =~= tiled(gap, start, children, child.metrics.start)
            + seq![ChunkView::Frame(child)] + gap.between(child.metrics.end, end));
    }
}

/// One more child in front of children that are tiled already.
proof fn lemma_tile_front(
    frame: FrameView,
    child: FrameView,
    later: Seq<FrameView>,
)
    requires
        in_order(frame.metrics.start, seq![child] + later, frame.metrics.end),
        frame.chunks == tiled(
            Gap::Straightline,
            frame.metrics.start,
            later,
            frame.metrics.end,
        ) || (later.len() == 0 && frame.chunks == seq![ChunkView::Straightline(frame.metrics)]),
    ensures
        frame.with_child(child) == Ok::<FrameView, FrameError>(
            FrameView {
                chunks: tiled(
                    Gap::Straightline,
                    frame.metrics.start,
                    seq![child] + later,
                    frame.metrics.end,
                ),
                ..frame
            },
        ),
{
    let gap = Gap::Straightline;
    let start = frame.metrics.start;
    let end = frame.metrics.end;
    let all = seq![child] + later;
    let chunks = frame.chunks;
    let range = child.metrics;
    let goal = tiled(gap, start, all, end);
    assert(all[0] == child);
    assert(all.drop_first() =~= later);
    assert(all.first() == child);
    let stop = if later.len() == 0 {
        end
    } else {
        assert(all[1] == later[0]);
        later.first().metrics.start
    };
    assert(range.end.reaches(stop));
    if chunks.len() > 0 && chunks.first() == gap.over(MetricsRange { start, end: stop }) {
        assert(first_opening(chunks, gap, range) == 0);
        assert(split_at(chunks, 0, gap, child) =~= goal) by {
            assert(chunks.take(0) =~= Seq::<ChunkView>::empty());
            if later.len() == 0 {
                assert(chunks.skip(1) =~= Seq::<ChunkView>::empty());
                assert(tiled(gap, range.end, later, end) == gap.between(range.end, end));
            } else {
                let rest = seq![ChunkView::Frame(later.first())] + tiled(
                    gap,
                    later.first().metrics.end,
                    later.drop_first(),
                    end,
                );
                assert(chunks =~= gap.between(start, stop) + rest);
                assert(start != stop);
                assert(chunks.skip(1) =~= rest);
                assert(tiled(gap, range.end, later, end) =~= gap.between(range.end, stop) + rest);
            }
        }
    } else if chunks.len() > 0 {
        // The first of the later children begins where the frame does, so `child`
        // takes no time and goes in just before it.
        assert(start == stop);
        assert(range.start == start && range.end == start);
        assert(chunks.first() == ChunkView::Frame(later.first()));
        assert(first_opening(chunks, gap, range) == 0);
        assert(!chunks[0].has_room(gap, range));
        assert(chunks.insert(0, ChunkView::Frame(child)) =~= goal);
    } else {
        assert(start == end);
        assert(first_opening(chunks, gap, range) == 0);
        assert(chunks.push(ChunkView::Frame(child)) =~= goal);
    }
}

proof fn lemma_tile_all_front(frame: FrameView, children: Seq<FrameView>, later: Seq<FrameView>)
    requires
        in_order(frame.metrics.start, children + later, frame.metrics.end),
        frame.chunks == tiled(
            Gap::Straightline,
            frame.metrics.start,
            later,
            frame.metrics.end,
        ) || (later.len() == 0 && frame.chunks == seq![ChunkView::Straightline(frame.metrics)]),
    ensures
        children.len() > 0 ==> with_children_from_back(frame, children) == Ok::<FrameView, FrameError>(
            FrameView {
                chunks: tiled(
                    Gap::Straightline,
                    frame.metrics.start,
                    children + later,
                    frame.metrics.end,
                ),
                ..frame
            },
        ),
    decreases children.len(),
{
    if children.len() > 0 {
        let all = children + later;
        let child = children.last();
        let rest = children.drop_last();
        let now = seq![child] + later;
        assert(all =~= rest + now);
        assert(in_order(frame.metrics.start, now, frame.metrics.end)) by {
            assert forall|i: int| 0 <= i < now.len() implies (#[trigger] now[i]) == all[i
                + rest.len()] by {}
            assert forall|i: int, j: int| 0 <= i < j < now.len() implies (
            #[trigger] now[i]).metrics.end.reaches((#[trigger] now[j]).metrics.start) by {
                assert(all[i + rest.len()].metrics.end.reaches(all[j + rest.len()].metrics.start));
            }
        }
        lemma_tile_front(frame, child, later);
        let next = frame.with_child(child)->Ok_0;
        lemma_tile_all_front(next, rest, now);
        if rest.len() == 0 {
            assert(all =~= now);
        }
    }
}

/// Children that ran one after the other within a frame all find room in it,
/// when they are handed over from the last to the first, and then stand in it
/// in order.
pub proof fn law_children_in_order_fit_a_frame(
    range: MetricsRange,
    symbol: SymbolView,
    children: Seq<FrameView>,
)
    requires
        in_order(range.start, children, range.end),
    ensures
        with_children_from_back(FrameView::leaf(range, symbol), children) == Ok::<FrameView, FrameError>(
            FrameView {
                metrics: range,
                symbol,
                chunks: if children.len() == 0 {
                    seq![ChunkView::Straightline(range)]
                } else {
                    tiled(Gap::Straightline, range.start, children, range.end)
                },
            },
        ),
{
    let frame = FrameView::leaf(range, symbol);
    let none = Seq::<FrameView>::empty();
    assert(children + none =~= children);
    lemma_tile_all_front(frame, children, none);
}

/// One more child behind children that are tiled already.
proof fn lemma_tile_back(root: RootView, earlier: Seq<FrameView>, child: FrameView)
    requires
        in_order(root.metrics.start, earlier.push(child), root.metrics.end),
        root.chunks == tiled(Gap::Pause, root.metrics.start, earlier, root.metrics.end) || (
        earlier.len() == 0 && root.chunks == seq![ChunkView::Pause(root.metrics)]),
    ensures
        root.with_child(child) == Ok::<RootView, FrameError>(
            RootView {
                chunks: tiled(
                    Gap::Pause,
                    root.metrics.start,
                    earlier.push(child),
                    root.metrics.end,
                ),
                ..root
            },
        ),
{
    let gap = Gap::Pause;
    let start = root.metrics.start;
    let end = root.metrics.end;
    let all = earlier.push(child);
    let chunks = root.chunks;
    let range = child.metrics;
    let goal = tiled(gap, start, all, end);
    let last = chunks.len() - 1;
    lemma_tiled_push(gap, start, earlier, child, end);
    assert(all[all.len() - 1] == child);
    let from = if earlier.len() == 0 {
        start
    } else {
        let prev = earlier.last();
        assert(all[all.len() - 2] == prev);
        assert(earlier =~= earlier.drop_last().push(prev));
        lemma_tiled_push(gap, start, earlier.drop_last(), prev, end);
        lemma_tiled_push(gap, start, earlier.drop_last(), prev, range.start);
        prev.metrics.end
    };
    assert(from.reaches(range.start));
    if chunks.len() > 0 && chunks.last() == gap.over(MetricsRange { start: from, end }) {
        assert(last_opening(chunks, gap, range) == last);
        assert(split_at(chunks, last, gap, child) =~= goal) by {
            assert(chunks.skip(last + 1) =~= Seq::<ChunkView>::empty());
            if earlier.len() == 0 {
                assert(chunks.take(last) =~= Seq::<ChunkView>::empty());
            } else {
                let prev = earlier.last();
                let done = tiled(gap, start, earlier.drop_last(), prev.metrics.start) + seq![
                    ChunkView::Frame(prev),
                ];
                assert(chunks =~= done + gap.between(from, end));
                assert(from != end);
                assert(chunks.take(last) =~= done);
                assert(tiled(gap, start, earlier, range.start) =~= done + gap.between(
                    from,
                    range.start,
                ));
            }
        }
    } else if chunks.len() > 0 {
        // The last of the earlier children ends where the frame does, so `child`
        // takes no time and goes in just after it.
        assert(from == end);
        assert(range.start == end && range.end == end);
        assert(chunks.last() == ChunkView::Frame(earlier.last()));
        assert(last_opening(chunks, gap, range) == last);
        assert(!chunks[last].has_room(gap, range));
        assert(chunks.insert(last + 1, ChunkView::Frame(child)) =~= goal);
    } else {
        assert(start == end);
        assert(last_opening(chunks, gap, range) == -1);
        assert(chunks.insert(0, ChunkView::Frame(child)) =~= goal);
    }
}

proof fn lemma_tile_all_back(root: RootView, earlier: Seq<FrameView>, children: Seq<FrameView>)
    requires
        in_order(root.metrics.start, earlier + children, root.metrics.end),
        root.chunks == tiled(Gap::Pause, root.metrics.start, earlier, root.metrics.end) || (
        earlier.len() == 0 && root.chunks == seq![ChunkView::Pause(root.metrics)]),
    ensures
        children.len() > 0 ==> with_children_from_front(root, children) == Ok::<RootView, FrameError>(
            RootView {
                chunks: tiled(
                    Gap::Pause,
                    root.metrics.start,
                    earlier + children,
                    root.metrics.end,
                ),
                ..root
            },
        ),
    decreases children.len(),
{
    if children.len() > 0 {
        let all = earlier + children;
        let child = children.first();
        let rest = children.drop_first();
        let now = earlier.push(child);
        assert(all =~= now + rest);
        assert(in_order(root.metrics.start, now, root.metrics.end)) by {
            assert forall|i: int| 0 <= i < now.len() implies (#[trigger] now[i]) == all[i] by {}
            assert forall|i: int, j: int| 0 <= i < j < now.len() implies (
            #[trigger] now[i]).metrics.end.reaches((#[trigger] now[j]).metrics.start) by {
                assert(all[i].metrics.end.reaches(all[j].metrics.start));
            }
        }
        lemma_tile_back(root, earlier, child);
        let next = root.with_child(child)->Ok_0;
        lemma_tile_all_back(next, now, rest);
        if rest.len() == 0 {
            assert(all =~= now);
        }
    }
}

/// Segments that ran one after the other within a root frame all find room in
/// it, when they are handed over from the first to the last, and then stand in
/// it in order, with pauses between them.
pub proof fn law_segments_in_order_fit_a_root(range: MetricsRange, segments: Seq<FrameView>)
    requires
        in_order(range.start, segments, range.end),
    ensures
        with_children_from_front(RootView::blank(range), segments) == Ok::<RootView, FrameError>(
            RootView {
                metrics: range,
                chunks: if segments.len() == 0 {
                    seq![ChunkView::Pause(range)]
                } else {
                    tiled(Gap::Pause, range.start, segments, range.end)
                },
            },
        ),
{
    let root = RootView::blank(range);
    let none = Seq::<FrameView>::empty();
    assert(none + segments =~= segments);
    lemma_tile_all_back(root, none, segments);
}

/// A frame keeps its stretch and its symbol whatever children it takes in, and
/// stays intact if they are.
pub proof fn law_frames_stay_intact(frame: FrameView, children: Seq<FrameView>)
    requires
        frame.intact(),
        forall|i: int| 0 <= i < children.len() ==> (#[trigger] children[i]).intact(),
    ensures
        with_children_from_back(frame, children) matches Ok(after) ==> after.intact()
            && after.metrics == frame.metrics && after.symbol == frame.symbol,
    decreases children.len(),
{
    if children.len() > 0 {
        let child = children.last();
        law_children_keep_frames_filled(frame.metrics, frame.chunks, Gap::Straightline, child);
        if let Ok(next) = frame.with_child(child) {
            law_frames_stay_intact(next, children.drop_last());
        }
    }
}

/// A root frame keeps its stretch whatever segments it takes in, and stays
/// intact if they are.
pub proof fn law_roots_stay_intact(root: RootView, segments: Seq<FrameView>)
    requires
        root.intact(),
        forall|i: int| 0 <= i < segments.len() ==> (#[trigger] segments[i]).intact(),
    ensures
        with_children_from_front(root, segments) matches Ok(after) ==> after.intact()
            && after.metrics == root.metrics,
    decreases segments.len(),
{
    if segments.len() > 0 {
        let child = segments.first();
        law_children_keep_frames_filled(root.metrics, root.chunks, Gap::Pause, child);
        if let Ok(next) = root.with_child(child) {
            law_roots_stay_intact(next, segments.drop_first());
        }
    }
}

/// A frame in which nothing was called is intact if it runs forwards.
pub(crate) proof fn lemma_leaf_intact(range: MetricsRange, symbol: SymbolView)
    requires
        range.ordered(),
    ensures
        FrameView::leaf(range, symbol).intact(),
        RootView::blank(range).intact(),
{
    reveal_with_fuel(walk, 2);
    assert(seq![ChunkView::Straightline(range)].drop_first() =~= Seq::<ChunkView>::empty());
    assert(seq![ChunkView::Pause(range)].drop_first() =~= Seq::<ChunkView>::empty());
}

/// Handing over one more segment at the end.
pub(crate) proof fn lemma_segments_push(root: RootView, segments: Seq<FrameView>, last: FrameView)
    ensures
        with_children_from_front(root, segments.push(last)) == match with_children_from_front(
            root,
            segments,
        ) {
            Ok(next) => next.with_child(last),
            Err(error) => Err(error),
        },
    decreases segments.len(),
{
    let all = segments.push(last);
    if segments.len() == 0 {
        assert(all.first() == last);
        assert(all.drop_first() =~= Seq::<FrameView>::empty());
        reveal_with_fuel(with_children_from_front, 2);
    } else {
        assert(all.first() == segments.first());
        assert(all.drop_first() =~= segments.drop_first().push(last));
        if let Ok(next) = root.with_child(segments.first()) {
            lemma_segments_push(next, segments.drop_first(), last);
        }
    }
}

/// Every frame among `chunks` is one of `frames`.
pub open spec fn only_frames(chunks: Seq<ChunkView>, frames: Seq<FrameView>) -> bool {
    forall|i: int|
        0 <= i < chunks.len() ==> ((#[trigger] chunks[i]) matches ChunkView::Frame(frame)
            ==> frames.contains(frame))
}

/// The frames of a root are its segments.
pub(crate) proof fn lemma_root_frames_are_segments(
    root: RootView,
    segments: Seq<FrameView>,
    frames: Seq<FrameView>,
)
    requires
        only_frames(root.chunks, frames),
        forall|i: int| 0 <= i < segments.len() ==> frames.contains(#[trigger] segments[i]),
        with_children_from_front(root, segments) is Ok,
    ensures
        only_frames(with_children_from_front(root, segments)->Ok_0.chunks, frames),
        with_children_from_front(root, segments)->Ok_0.metrics == root.metrics,
    decreases segments.len(),
{
    if segments.len() > 0 {
        let child = segments.first();
        let next = root.with_child(child)->Ok_0;
        let before = root.chunks;
        let after = next.chunks;
        let i = last_opening(before, Gap::Pause, child.metrics);
        lemma_last_opening_bounds(before, Gap::Pause, child.metrics);
        assert(frames.contains(segments[0]));
        assert forall|j: int| 0 <= j < after.len() implies ((
        #[trigger] after[j]) matches ChunkView::Frame(frame) ==> frames.contains(frame)) by {
            if i >= 0 && before[i].has_room(Gap::Pause, child.metrics) {
                let mid = split_gap(Gap::Pause, before[i].range(), child);
                if j < i {
                    assert(after[j] == before[j]);
                } else if j < i + mid.len() {
                    assert(after[j] == mid[j - i]);
                } else {
                    assert(after[j] == before[j - mid.len() + 1]);
                }
            } else if j <= i {
                assert(after[j] == before[j]);
            } else if j > i + 1 {
                assert(after[j] == before[j - 1]);
            }
        }
        assert forall|k: int| 0 <= k < segments.drop_first().len() implies frames.contains(
            #[trigger] segments.drop_first()[k],
        ) by {
            assert(segments.drop_first()[k] == segments[k + 1]);
        }
        lemma_root_frames_are_segments(next, segments.drop_first(), frames);
    }
}

pub(crate) proof fn lemma_no_frames(chunks: Seq<ChunkView>)
    requires
        forall|i: int| 0 <= i < chunks.len() ==> !((#[trigger] chunks[i]) is Frame),
    ensures
        frames_of(chunks).len() == 0,
    decreases chunks.len(),
{
    if chunks.len() > 0 {
        assert(!(chunks[0] is Frame));
        assert forall|i: int| 0 <= i < chunks.drop_first().len() implies !((
        #[trigger] chunks.drop_first()[i]) is Frame) by {
            assert(chunks.drop_first()[i] == chunks[i + 1]);
        }
        lemma_no_frames(chunks.drop_first());
    }
}

/// A walk never goes backwards.
pub(crate) proof fn lemma_walk_reaches(chunks: Seq<ChunkView>, at: Metrics)
    requires
        walk(chunks, at) is Some,
    ensures
        at.reaches(walk(chunks, at)->0),
    decreases chunks.len(),
{
    if chunks.len() > 0 {
        lemma_walk_reaches(chunks.drop_first(), chunks.first().range().end);
    }
}

/// A segment that ends with the root is the last frame of it, unless a frame that
/// was there before began at the very end and the segment did not.
pub(crate) proof fn lemma_last_segment_comes_last(root: RootView, segment: FrameView)
    requires
        fills(root.metrics, root.chunks),
        root.with_child(segment) is Ok,
        segment.metrics.end == root.metrics.end,
        segment.metrics.start == root.metrics.end || forall|i: int|
            0 <= i < root.chunks.len() ==> ((#[trigger] root.chunks[i]) matches ChunkView::Frame(
                frame,
            ) ==> frame.metrics.start != root.metrics.end),
    ensures
        frames_of(root.with_child(segment)->Ok_0.chunks).len() > 0,
        frames_of(root.with_child(segment)->Ok_0.chunks).last() == segment,
{
    reveal_with_fuel(frames_of, 2);
    let gap = Gap::Pause;
    let chunks = root.chunks;
    let range = segment.metrics;
    let end = root.metrics.end;
    let after = root.with_child(segment)->Ok_0.chunks;
    let i = last_opening(chunks, gap, range);
    let top = chunks.len() - 1;
    let here = seq![ChunkView::Frame(segment)];
    let none = Seq::<ChunkView>::empty();
    assert(here.drop_first() =~= none);
    assert(frames_of(here) =~= seq![segment]);
    lemma_last_opening_bounds(chunks, gap, range);
    lemma_walk_through(chunks, root.metrics.start, top);
    assert(chunks.skip(top + 1) =~= none);
    assert(chunks[top].range().end == end);
    if range.start == range.end {
        assert(opens_after(chunks.last(), gap, range));
        assert(i == top);
    }
    assert(i >= 0);
    lemma_walk_through(chunks, root.metrics.start, i);
    let behind = chunks.skip(i + 1);
    lemma_walk_reaches(behind, chunks[i].range().end);
    let ahead = if chunks[i].has_room(gap, range) {
        assert(chunks[i].range().end == end);
        chunks.take(i) + gap.between(chunks[i].range().start, range.start)
    } else {
        chunks
    };
    assert forall|k: int| 0 <= k < behind.len() implies !((#[trigger] behind[k]) is Frame) by {
        let j = i + 1 + k;
        assert(behind[k] == chunks[j]);
        lemma_walk_through(behind, end, k);
        lemma_walk_reaches(behind.take(k), end);
        lemma_walk_reaches(behind.skip(k), behind[k].range().start);
        assert(chunks[j].range().start == end);
    }
    lemma_no_frames(behind);
    if chunks[i].has_room(gap, range) {
        assert(gap.between(range.end, chunks[i].range().end) =~= none);
        assert(after =~= ahead + here + behind);
    } else {
        assert(i == top);
        assert(behind =~= none);
        assert(after =~= ahead + here + behind);
    }
    lemma_frames_of_concat(ahead + here, behind);
    lemma_frames_of_concat(ahead, here);
}

/// Only segments that do not run backwards find room.
pub(crate) proof fn lemma_segments_run_forwards(root: RootView, segments: Seq<FrameView>)
    requires
        with_children_from_front(root, segments) is Ok,
    ensures
        forall|i: int|
            0 <= i < segments.len() ==> (#[trigger] segments[i]).metrics.ordered(),
    decreases segments.len(),
{
    if segments.len() > 0 {
        let first = segments.first();
        lemma_segments_run_forwards(root.with_child(first)->Ok_0, segments.drop_first());
        assert forall|i: int| 0 <= i < segments.len() implies (
        #[trigger] segments[i]).metrics.ordered() by {
            if i > 0 {
                assert(segments[i] == segments.drop_first()[i - 1]);
            }
        }
    }
}

/// Only children that do not run backwards find room, and the frame keeps its
/// stretch.
pub(crate) proof fn lemma_children_run_forwards(frame: FrameView, children: Seq<FrameView>)
    requires
        with_children_from_back(frame, children) is Ok,
    ensures
        with_children_from_back(frame, children)->Ok_0.metrics == frame.metrics,
        forall|i: int| 0 <= i < children.len() ==> (#[trigger] children[i]).metrics.ordered(),
    decreases children.len(),
{
    if children.len() > 0 {
        let last = children.last();
        lemma_children_run_forwards(frame.with_child(last)->Ok_0, children.drop_last());
        assert forall|i: int| 0 <= i < children.len() implies (
        #[trigger] children[i]).metrics.ordered() by {
            if i < children.len() - 1 {
                assert(children[i] == children.drop_last()[i]);
            }
        }
    }
}

} // verus!
