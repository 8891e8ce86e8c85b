//! Frames: stretches of a trace, cut up into the chunks that fill them.
use vstd::prelude::*;

use super::layout;
use super::layout::{ChunkView, FrameError, FrameView, Gap, RootView, SymbolView};
use super::metrics::MetricsRange;

verus! {

/// The function that a frame ran.
#[derive(Debug, PartialEq, Eq, Hash)]
pub struct SymbolInfo {
    pub name: String,
    pub offset: u64,
    pub size: u64,
}

impl View for SymbolInfo {
    type V = SymbolView;

    open spec fn view(&self) -> SymbolView {
        SymbolView { name: self.name@, offset: self.offset, size: self.size }
    }
}

impl Clone for SymbolInfo {
    fn clone(&self) -> (copy: SymbolInfo)
        ensures
            copy@ == self@,
    {
        SymbolInfo { name: self.name.clone(), offset: self.offset, size: self.size }
    }
}

/// One piece of a frame.
#[derive(Debug, PartialEq, Eq, Hash)]
pub enum Chunk {
    /// A call that ran within the frame.
    Frame(NamedFrame),
    /// A stretch in which the frame's own code ran.
    Straightline(MetricsRange),
    /// A stretch in which nothing was traced.
    Pause(MetricsRange),
}

/// A call of a function.
#[derive(Debug, PartialEq, Eq, Hash)]
pub struct NamedFrame {
    metrics: MetricsRange,
    symbol: SymbolInfo,
    chunks: Vec<Chunk>,
}

/// The frame that holds a whole trace: its segments, with pauses between them.
#[derive(Debug, PartialEq, Eq, Hash)]
pub struct RootFrame {
    metrics: MetricsRange,
    chunks: Vec<Chunk>,
}

/// The view of a frame.
pub closed spec fn frame_view(frame: NamedFrame) -> FrameView
    decreases frame,
{
    FrameView {
        metrics: frame.metrics,
        symbol: frame.symbol@,
        chunks: Seq::new(
            frame.chunks@.len(),
            |i: int|
                if 0 <= i < frame.chunks@.len() {
                    chunk_view(frame.chunks@[i])
                } else {
                    arbitrary()
                },
        ),
    }
}

/// The view of a chunk.
pub open spec fn chunk_view(chunk: Chunk) -> ChunkView
    decreases chunk,
{
    match chunk {
        Chunk::Frame(frame) => ChunkView::Frame(frame_view(frame)),
        Chunk::Straightline(range) => ChunkView::Straightline(range),
        Chunk::Pause(range) => ChunkView::Pause(range),
    }
}

impl View for Chunk {
    type V = ChunkView;

    open spec fn view(&self) -> ChunkView {
        chunk_view(*self)
    }
}

impl View for NamedFrame {
    type V = FrameView;

    open spec fn view(&self) -> FrameView {
        frame_view(*self)
    }
}

impl View for RootFrame {
    type V = RootView;

    closed spec fn view(&self) -> RootView {
        RootView { metrics: self.metrics, chunks: chunk_views(self.chunks@) }
    }
}

/// The views of a list of chunks.
pub open spec fn chunk_views(chunks: Seq<Chunk>) -> Seq<ChunkView> {
    Seq::new(chunks.len(), |i: int| chunks[i]@)
}

/// The chunk for a gap over `range`.
fn gap_chunk(gap: Gap, range: MetricsRange) -> (chunk: Chunk)
    ensures
        chunk@ == gap.over(range),
{
    match gap {
        Gap::Straightline => Chunk::Straightline(range),
        Gap::Pause => Chunk::Pause(range),
    }
}

impl Chunk {
    /// The stretch that the chunk takes up.
    pub fn metrics(&self) -> (range: MetricsRange)
        ensures
            range == self@.range(),
    {
        match self {
            Chunk::Frame(frame) => frame.metrics,
            Chunk::Straightline(range) => *range,
            Chunk::Pause(range) => *range,
        }
    }

    /// The time spent in the chunk.
    pub fn total_time(&self) -> (time: u64)
        requires
            self@.range().clock_ordered(),
        ensures
            time == self@.range().duration(),
    {
        self.metrics().total_time()
    }

    fn has_room(&self, gap: Gap, range: &MetricsRange) -> (ok: bool)
        ensures
            ok == self@.has_room(gap, *range),
    {
        match (self, gap) {
            (Chunk::Straightline(own), Gap::Straightline) => own.covers(range),
            (Chunk::Pause(own), Gap::Pause) => own.covers(range),
            _ => false,
        }
    }
}

/// Puts `child` into the gap at index `i`.
fn split_gap_at(chunks: &mut Vec<Chunk>, i: usize, gap: Gap, child: NamedFrame)
    requires
        i < old(chunks)@.len(),
    ensures
        chunk_views(final(chunks)@) == layout::split_at(chunk_views(old(chunks)@), i as int, gap, child@),
{
    let ghost before = chunk_views(chunks@);
    let old_gap = chunks.remove(i);
    let range = old_gap.metrics();
    let taken = child.metrics;
    if taken.end != range.end {
        chunks.insert(i, gap_chunk(gap, MetricsRange::new(taken.end, range.end)));
    }
    chunks.insert(i, Chunk::Frame(child));
    if range.start != taken.start {
        chunks.insert(i, gap_chunk(gap, MetricsRange::new(range.start, taken.start)));
    }
    assert(chunk_views(chunks@) =~= layout::split_at(before, i as int, gap, child@));
}

/// Puts `child` in as far to the front as it fits.
fn insert_first(
    whole: MetricsRange,
    chunks: &mut Vec<Chunk>,
    gap: Gap,
    child: NamedFrame,
) -> (result: Result<(), FrameError>)
    ensures
        match layout::put_first(whole, chunk_views(old(chunks)@), gap, child@) {
            Ok(after) => result is Ok && chunk_views(final(chunks)@) == after,
            Err(error) => result == Err::<(), FrameError>(error) && final(chunks)@ == old(chunks)@,
        },
{
    let ghost before = chunk_views(chunks@);
    let range = child.metrics;
    if !whole.covers(&range) {
        return Err(FrameError::NoRoom { parent: whole, child: range });
    }
    let instant = range.start == range.end;
    let mut i: usize = 0;
    while i < chunks.len() && !(chunks[i].has_room(gap, &range) || (instant
        && chunks[i].metrics().start == range.start))
        invariant
            i <= chunks@.len(),
            before == chunk_views(chunks@),
            chunks@ == old(chunks)@,
            instant == (range.start == range.end),
            forall|j: int| 0 <= j < i ==> !layout::opens_before(#[trigger] before[j], gap, range),
        decreases chunks@.len() - i,
    {
        assert(before[i as int] == chunks@[i as int]@);
        i += 1;
    }
    proof {
        if i < chunks@.len() {
            assert(before[i as int] == chunks@[i as int]@);
        }
        layout::lemma_first_opening(before, gap, range, i as int);
    }
    if i < chunks.len() {
        if chunks[i].has_room(gap, &range) {
            split_gap_at(chunks, i, gap, child);
        } else {
            chunks.insert(i, Chunk::Frame(child));
            assert(chunk_views(chunks@) =~= before.insert(i as int, ChunkView::Frame(child@)));
        }
        Ok(())
    } else if instant && range.end == whole.end {
        chunks.push(Chunk::Frame(child));
        assert(chunk_views(chunks@) =~= before.push(ChunkView::Frame(child@)));
        Ok(())
    } else {
        Err(FrameError::NoRoom { parent: whole, child: range })
    }
}

/// Puts `child` in as far to the back as it fits.
fn insert_last(
    whole: MetricsRange,
    chunks: &mut Vec<Chunk>,
    gap: Gap,
    child: NamedFrame,
) -> (result: Result<(), FrameError>)
    ensures
        match layout::put_last(whole, chunk_views(old(chunks)@), gap, child@) {
            Ok(after) => result is Ok && chunk_views(final(chunks)@) == after,
            Err(error) => result == Err::<(), FrameError>(error) && final(chunks)@ == old(chunks)@,
        },
{
    let ghost before = chunk_views(chunks@);
    let range = child.metrics;
    if !whole.covers(&range) {
        return Err(FrameError::NoRoom { parent: whole, child: range });
    }
    let instant = range.start == range.end;
    let mut above: usize = chunks.len();
    while above > 0 && !(chunks[above - 1].has_room(gap, &range) || (instant
        && chunks[above - 1].metrics().end == range.end))
        invariant
            above <= chunks@.len(),
            before == chunk_views(chunks@),
            chunks@ == old(chunks)@,
            instant == (range.start == range.end),
            forall|j: int|
                above <= j < chunks@.len() ==> !layout::opens_after(#[trigger] before[j], gap, range),
        decreases above,
    {
        assert(before[above - 1] == chunks@[above - 1]@);
        above -= 1;
    }
    proof {
        if above > 0 {
            assert(before[above - 1] == chunks@[above - 1]@);
        }
        layout::lemma_last_opening(before, gap, range, above - 1);
    }
    if above > 0 {
        if chunks[above - 1].has_room(gap, &range) {
            split_gap_at(chunks, above - 1, gap, child);
        } else {
            chunks.insert(above, Chunk::Frame(child));
            assert(chunk_views(chunks@) =~= before.insert(above as int, ChunkView::Frame(child@)));
        }
        Ok(())
    } else if instant && range.start == whole.start {
        chunks.insert(0, Chunk::Frame(child));
        assert(chunk_views(chunks@) =~= before.insert(0, ChunkView::Frame(child@)));
        Ok(())
    } else {
        Err(FrameError::NoRoom { parent: whole, child: range })
    }
}

/// Whether `chunks` fill `range`, and the chunks of every frame among them fill
/// that frame.
fn chunks_intact(range: MetricsRange, chunks: &Vec<Chunk>) -> (ok: bool)
    ensures
        ok == (layout::fills(range, chunk_views(chunks@)) && layout::all_intact(
            chunk_views(chunks@),
        )),
    decreases chunks,
{
    let ghost views = chunk_views(chunks@);
    if !range.start.can_reach(&range.end) || chunks.len() == 0 {
        return false;
    }
    let mut at = range.start;
    let mut i: usize = 0;
    assert(views.take(0) =~= Seq::<ChunkView>::empty());
    while i < chunks.len()
        invariant
            i <= chunks@.len(),
            views == chunk_views(chunks@),
            layout::walk(views.take(i as int), range.start) == Some(at),
            forall|j: int| 0 <= j < i ==> (#[trigger] views[j]).intact(),
        decreases chunks@.len() - i,
    {
        let own = chunks[i].metrics();
        proof {
            assert(views[i as int] == chunks@[i as int]@);
            assert(views =~= views.take(i as int) + views.skip(i as int));
            assert(views.skip(i as int).first() == views[i as int]);
            layout::lemma_walk_concat(views.take(i as int), views.skip(i as int), range.start);
        }
        if own.start != at || !own.start.can_reach(&own.end) {
            return false;
        }
        if let Chunk::Frame(frame) = &chunks[i] {
            if !frame_intact(frame) {
                assert(!views[i as int].intact());
                return false;
            }
        }
        assert(views[i as int].intact());
        proof {
            let here = seq![views[i as int]];
            reveal_with_fuel(layout::walk, 2);
            assert(views.take(i + 1) =~= views.take(i as int) + here);
            assert(here.drop_first() =~= Seq::<ChunkView>::empty());
            layout::lemma_walk_concat(views.take(i as int), here, range.start);
        }
        at = own.end;
        i += 1;
    }
    assert(views.take(i as int) =~= views);
    at == range.end
}

fn frame_intact(frame: &NamedFrame) -> (ok: bool)
    ensures
        ok == frame@.intact(),
    decreases frame,
{
    assert(frame@.chunks =~= chunk_views(frame.chunks@));
    chunks_intact(frame.metrics, &frame.chunks)
}

/// What every frame offers, whether it has a name or not.
pub trait Frame {
    /// The stretch that the frame takes up.
    spec fn spec_metrics(&self) -> MetricsRange;

    /// The chunks that fill the frame.
    spec fn spec_chunks(&self) -> Seq<ChunkView>;

    fn metrics(&self) -> (range: &MetricsRange)
        ensures
            *range == self.spec_metrics(),
    ;

    fn chunks(&self) -> (chunks: &Vec<Chunk>)
        ensures
            chunk_views(chunks@) == self.spec_chunks(),
    ;

    /// Whether the frame is filled by its chunks, and so is every frame in it.
    fn check_invariant(&self) -> (ok: bool)
        ensures
            ok == (layout::fills(self.spec_metrics(), self.spec_chunks()) && layout::all_intact(
                self.spec_chunks(),
            )),
    ;
}

impl Frame for NamedFrame {
    open spec fn spec_metrics(&self) -> MetricsRange {
        self@.metrics
    }

    open spec fn spec_chunks(&self) -> Seq<ChunkView> {
        self@.chunks
    }

    fn metrics(&self) -> (range: &MetricsRange) {
        &self.metrics
    }

    fn chunks(&self) -> (chunks: &Vec<Chunk>) {
        assert(self@.chunks =~= chunk_views(self.chunks@));
        &self.chunks
    }

    fn check_invariant(&self) -> (ok: bool) {
        frame_intact(self)
    }
}

impl Frame for RootFrame {
    open spec fn spec_metrics(&self) -> MetricsRange {
        self@.metrics
    }

    open spec fn spec_chunks(&self) -> Seq<ChunkView> {
        self@.chunks
    }

    fn metrics(&self) -> (range: &MetricsRange) {
        &self.metrics
    }

    fn chunks(&self) -> (chunks: &Vec<Chunk>) {
        &self.chunks
    }

    fn check_invariant(&self) -> (ok: bool) {
        chunks_intact(self.metrics, &self.chunks)
    }
}

impl NamedFrame {
    /// The function that was called.
    pub fn symbol(&self) -> (symbol: &SymbolInfo)
        ensures
            symbol@ == self@.symbol,
    {
        &self.symbol
    }

    /// A frame over `metrics` in which nothing was called.
    pub fn new(metrics: MetricsRange, symbol: SymbolInfo) -> (frame: NamedFrame)
        ensures
            frame@ == FrameView::leaf(metrics, symbol@),
    {
        let frame = NamedFrame { metrics, symbol, chunks: vec![Chunk::Straightline(metrics)] };
        assert(frame@.chunks =~= seq![ChunkView::Straightline(metrics)]);
        frame
    }

    /// Takes in `child`, in the first straightline stretch that has room for it.
    /// A child that takes no time may also stand between two chunks. Children are
    /// kept in order when they are handed over from the last to the first.
    pub fn add_child(&mut self, child: NamedFrame) -> (result: Result<(), FrameError>)
        ensures
            match old(self)@.with_child(child@) {
                Ok(after) => result is Ok && final(self)@ == after,
                Err(error) => result == Err::<(), FrameError>(error) && final(self)@ == old(self)@,
            },
    {
        assert(self@.chunks =~= chunk_views(self.chunks@));
        let result = insert_first(self.metrics, &mut self.chunks, Gap::Straightline, child);
        assert(self@.chunks =~= chunk_views(self.chunks@));
        result
    }
}

impl RootFrame {
    /// A root frame over `metrics` in which nothing was traced.
    pub fn new(metrics: MetricsRange) -> (frame: RootFrame)
        ensures
            frame@ == RootView::blank(metrics),
    {
        let frame = RootFrame { metrics, chunks: vec![Chunk::Pause(metrics)] };
        assert(frame@.chunks =~= seq![ChunkView::Pause(metrics)]);
        frame
    }

    /// Takes in `child`, in the last pause that has room for it. A child that
    /// takes no time may also stand between two chunks. Children are kept in
    /// order when they are handed over from the first to the last.
    pub fn add_child(&mut self, child: NamedFrame) -> (result: Result<(), FrameError>)
        ensures
            match old(self)@.with_child(child@) {
                Ok(after) => result is Ok && final(self)@ == after,
                Err(error) => result == Err::<(), FrameError>(error) && final(self)@ == old(self)@,
            },
    {
        insert_last(self.metrics, &mut self.chunks, Gap::Pause, child)
    }
}

} // verus!
