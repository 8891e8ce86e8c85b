//! Building a trace, one call and one return at a time.
use vstd::prelude::*;

use super::event;
use super::event::{Event, EventView};
use super::frame::{Frame, NamedFrame, RootFrame, SymbolInfo};
use super::layout;
use super::layout::{FrameError, FrameView, RootView, SymbolView};
use super::metrics::{Metrics, MetricsRange};
use super::placement;
use super::{Trace, TraceView};

verus! {

/// A call that has not returned yet.
#[derive(Debug, PartialEq, Eq, Hash)]
pub struct IncompleteFrame {
    pub start_metrics: Metrics,
    pub child_frames: Vec<NamedFrame>,
    pub symbol: SymbolInfo,
}

/// A call that has not returned yet, as a mathematical value.
#[verifier::ext_equal]
pub struct IncompleteView {
    pub start: Metrics,
    pub children: Seq<FrameView>,
    pub symbol: SymbolView,
}

/// The views of a list of frames.
pub open spec fn frame_views(frames: Seq<NamedFrame>) -> Seq<FrameView> {
    Seq::new(frames.len(), |i: int| frames[i]@)
}

impl View for IncompleteFrame {
    type V = IncompleteView;

    open spec fn view(&self) -> IncompleteView {
        IncompleteView {
            start: self.start_metrics,
            children: frame_views(self.child_frames@),
            symbol: self.symbol@,
        }
    }
}

impl IncompleteView {
    /// A call that has just begun.
    pub open spec fn begun(start: Metrics, symbol: SymbolView) -> IncompleteView {
        IncompleteView { start, children: seq![], symbol }
    }

    /// The frame that the call makes when it returns at `end`.
    pub open spec fn completed(self, end: Metrics) -> Result<FrameView, FrameError> {
        layout::with_children_from_back(
            FrameView::leaf(MetricsRange { start: self.start, end }, self.symbol),
            self.children,
        )
    }

    /// The call once `child` has returned to it.
    pub open spec fn with_child(self, child: FrameView) -> IncompleteView {
        IncompleteView { children: self.children.push(child), ..self }
    }
}

impl IncompleteFrame {
    /// The frame that the call makes when it returns at `end_metrics`.
    pub fn complete(self, end_metrics: Metrics) -> (result: Result<NamedFrame, FrameError>)
        ensures
            match self@.completed(end_metrics) {
                Ok(frame) => result matches Ok(own) && own@ == frame,
                Err(error) => result == Err::<NamedFrame, FrameError>(error),
            },
    {
        let mut completed = NamedFrame::new(
            MetricsRange::new(self.start_metrics, end_metrics),
            self.symbol,
        );
        let mut children = self.child_frames;
        let ghost goal = self@.completed(end_metrics);
        while children.len() > 0
            invariant
                goal == self@.completed(end_metrics),
                goal == layout::with_children_from_back(completed@, frame_views(children@)),
            decreases children@.len(),
        {
            let ghost before = frame_views(children@);
            match children.pop() {
                None => {},
                Some(child) => {
                    assert(before.last() == child@);
                    assert(before.drop_last() =~= frame_views(children@));
                    match completed.add_child(child) {
                        Ok(()) => {},
                        Err(error) => {
                            return Err(error);
                        },
                    }
                },
            }
        }
        Ok(completed)
    }
}

/// A trace that is being built.
#[derive(Debug)]
pub struct TraceBuilder {
    last_metrics: Metrics,
    current_frame: IncompleteFrame,
    callstack: Vec<IncompleteFrame>,
    events: Vec<Event>,
    prev_segments: Vec<NamedFrame>,
}

/// A trace that is being built, as a mathematical value. The calls that have not
/// returned are listed from the outermost to the innermost.
#[verifier::ext_equal]
pub struct BuilderView {
    pub last_metrics: Metrics,
    pub stack: Seq<IncompleteView>,
    pub events: Seq<EventView>,
    pub segments: Seq<FrameView>,
}

/// A trace whose building is suspended.
#[derive(Debug)]
pub struct PausedTraceBuilder {
    events: Vec<Event>,
    prev_segments: Vec<NamedFrame>,
    current_stack: Vec<SymbolInfo>,
}

/// A trace whose building is suspended, as a mathematical value.
#[verifier::ext_equal]
pub struct PausedView {
    pub events: Seq<EventView>,
    pub segments: Seq<FrameView>,
    pub stack: Seq<SymbolView>,
}

/// What a builder has become once a call has returned.
pub enum BuilderResult {
    /// There are calls that have not returned.
    Builder(TraceBuilder),
    /// The outermost call has returned.
    Completed(Trace),
}

/// What a builder has become, as a mathematical value.
pub enum BuilderOutcome {
    Builder(BuilderView),
    Completed(TraceView),
}

/// The views of a list of calls.
pub open spec fn incomplete_views(frames: Seq<IncompleteFrame>) -> Seq<IncompleteView> {
    Seq::new(frames.len(), |i: int| frames[i]@)
}

/// The views of a list of symbols.
pub open spec fn symbol_views(symbols: Seq<SymbolInfo>) -> Seq<SymbolView> {
    Seq::new(symbols.len(), |i: int| symbols[i]@)
}

impl View for TraceBuilder {
    type V = BuilderView;

    closed spec fn view(&self) -> BuilderView {
        BuilderView {
            last_metrics: self.last_metrics,
            stack: incomplete_views(self.callstack@).push(self.current_frame@),
            events: event::event_views(self.events@),
            segments: frame_views(self.prev_segments@),
        }
    }
}

impl View for PausedTraceBuilder {
    type V = PausedView;

    closed spec fn view(&self) -> PausedView {
        PausedView {
            events: event::event_views(self.events@),
            segments: frame_views(self.prev_segments@),
            stack: symbol_views(self.current_stack@),
        }
    }
}

impl View for BuilderResult {
    type V = BuilderOutcome;

    open spec fn view(&self) -> BuilderOutcome {
        match self {
            BuilderResult::Builder(builder) => BuilderOutcome::Builder(builder@),
            BuilderResult::Completed(trace) => BuilderOutcome::Completed(trace@),
        }
    }
}

/// Every frame of the list is intact.
pub open spec fn frames_intact(frames: Seq<FrameView>) -> bool {
    forall|i: int| 0 <= i < frames.len() ==> (#[trigger] frames[i]).intact()
}

/// Every segment that does not run backwards is intact.
pub open spec fn segments_sound(segments: Seq<FrameView>) -> bool {
    forall|i: int|
        0 <= i < segments.len() && (#[trigger] segments[i]).metrics.ordered()
            ==> segments[i].intact()
}

/// The occurences of every event of the list are sorted.
pub open spec fn events_sorted(events: Seq<EventView>) -> bool {
    forall|i: int| 0 <= i < events.len() ==> event::sorted((#[trigger] events[i]).occurences)
}

/// When the part of the call at index `i` that is known so far ends: when the
/// call that it made began, or now.
pub open spec fn known_until(stack: Seq<IncompleteView>, i: int, now: Metrics) -> Metrics {
    if i + 1 < stack.len() {
        stack[i + 1].start
    } else {
        now
    }
}

/// The calls of the stack are nested: what each has called so far ran in order
/// before the call that it is waiting for began.
pub open spec fn nested(stack: Seq<IncompleteView>, now: Metrics) -> bool {
    forall|i: int|
        0 <= i < stack.len() ==> {
            &&& layout::in_order(
                (#[trigger] stack[i]).start,
                stack[i].children,
                known_until(stack, i, now),
            )
            &&& frames_intact(stack[i].children)
        }
}

/// The segment that a stack of calls makes when all of them end at `end`.
pub open spec fn collapsed(stack: Seq<IncompleteView>, end: Metrics) -> Result<FrameView, FrameError>
    decreases stack.len(),
{
    if stack.len() <= 1 {
        stack.last().completed(end)
    } else {
        match stack.last().completed(end) {
            Ok(frame) => collapsed(returned_to(stack.drop_last(), frame), end),
            Err(error) => Err(error),
        }
    }
}

/// The stack once `frame` has returned to its innermost call.
pub open spec fn returned_to(stack: Seq<IncompleteView>, frame: FrameView) -> Seq<
    IncompleteView,
> {
    stack.update(stack.len() - 1, stack.last().with_child(frame))
}

/// The root frame that holds `segments` and ends at `end`.
pub open spec fn root_of(segments: Seq<FrameView>, end: Metrics) -> Result<RootView, FrameError> {
    layout::with_children_from_front(
        RootView::blank(MetricsRange { start: segments.first().metrics.start, end }),
        segments,
    )
}

impl BuilderView {
    /// There is a call that has not returned, the calls are nested, and what was
    /// recorded before is sound.
    pub open spec fn wf(self) -> bool {
        &&& self.stack.len() > 0
        &&& nested(self.stack, self.last_metrics)
        &&& events_sorted(self.events)
        &&& segments_sound(self.segments)
    }

    /// A builder for a trace that begins with a call of `symbol`.
    pub open spec fn started(start: Metrics, symbol: SymbolView) -> BuilderView {
        BuilderView {
            last_metrics: start,
            stack: seq![IncompleteView::begun(start, symbol)],
            events: seq![],
            segments: seq![],
        }
    }

    /// The builder once the innermost call has called `symbol`.
    pub open spec fn pushed(self, at: Metrics, symbol: SymbolView) -> BuilderView {
        BuilderView {
            last_metrics: at,
            stack: self.stack.push(IncompleteView::begun(at, symbol)),
            ..self
        }
    }

    /// What becomes of the builder when the innermost call returns.
    pub open spec fn completed(self, end: Metrics) -> Result<BuilderOutcome, FrameError> {
        match self.stack.last().completed(end) {
            Err(error) => Err(error),
            Ok(frame) => if self.stack.len() > 1 {
                Ok(
                    BuilderOutcome::Builder(
                        BuilderView {
                            last_metrics: end,
                            stack: returned_to(self.stack.drop_last(), frame),
                            ..self
                        },
                    ),
                )
            } else {
                match root_of(self.segments.push(frame), end) {
                    Err(error) => Err(error),
                    Ok(root) => Ok(
                        BuilderOutcome::Completed(TraceView { root, events: self.events }),
                    ),
                }
            },
        }
    }

    /// The segments recorded before ran in order before the calls that have not
    /// returned.
    pub open spec fn timely(self) -> bool {
        self.segments.len() > 0 ==> layout::in_order(
            self.segments.first().metrics.start,
            self.segments,
            self.stack.first().start,
        )
    }

    /// The symbols of the calls that have not returned.
    pub open spec fn symbols(self) -> Seq<SymbolView> {
        self.stack.map_values(|call: IncompleteView| call.symbol)
    }

    /// The builder suspended at `at`.
    pub open spec fn paused(self, at: Metrics) -> Result<PausedView, FrameError> {
        match collapsed(self.stack, at) {
            Err(error) => Err(error),
            Ok(segment) => Ok(
                PausedView {
                    events: self.events,
                    segments: self.segments.push(segment),
                    stack: self.symbols(),
                },
            ),
        }
    }

    /// The builder once a new kind of event is known.
    pub open spec fn with_event(
        self,
        id: u32,
        name: Seq<char>,
        description: Seq<char>,
    ) -> BuilderView {
        BuilderView {
            events: self.events.push(
                EventView { id, name, description, occurences: seq![] },
            ),
            ..self
        }
    }

    /// The builder once the event with the given id has occurred at `at`.
    pub open spec fn occured(self, id: u32, at: Metrics) -> BuilderView {
        BuilderView {
            events: self.events.map_values(
                |event: EventView|
                    if event.id == id {
                        event.with_occurence(at)
                    } else {
                        event
                    },
            ),
            ..self
        }
    }
}

impl PausedView {
    /// There is a call to go on with, and what was recorded before is sound.
    pub open spec fn wf(self) -> bool {
        &&& self.stack.len() > 0
        &&& events_sorted(self.events)
        &&& segments_sound(self.segments)
    }

    /// The segments recorded so far ran in order before `at`.
    pub open spec fn timely_until(self, at: Metrics) -> bool {
        &&& self.segments.len() > 0
        &&& layout::in_order(self.segments.first().metrics.start, self.segments, at)
    }

    /// The builder that goes on at `start`, in the same calls as before.
    pub open spec fn resumed(self, start: Metrics) -> BuilderView {
        BuilderView {
            last_metrics: start,
            stack: self.stack.map_values(|symbol: SymbolView| IncompleteView::begun(start, symbol)),
            events: self.events,
            segments: self.segments,
        }
    }
}

/// A call that returns in time makes an intact frame, however many calls it
/// made in order.
pub proof fn law_calls_in_order_complete(call: IncompleteView, now: Metrics, end: Metrics)
    requires
        layout::in_order(call.start, call.children, now),
        frames_intact(call.children),
        now.reaches(end),
    ensures
        call.completed(end) matches Ok(frame) && frame.intact() && frame.metrics == (MetricsRange {
            start: call.start,
            end,
        }) && frame.symbol == call.symbol && layout::frames_of(frame.chunks) == call.children
            && placement::well_laid(layout::Gap::Straightline, frame.chunks),
{
    let range = MetricsRange { start: call.start, end };
    assert(layout::in_order(call.start, call.children, end));
    layout::law_children_in_order_fit_a_frame(range, call.symbol, call.children);
    layout::lemma_leaf_intact(range, call.symbol);
    layout::law_frames_stay_intact(FrameView::leaf(range, call.symbol), call.children);
    layout::law_tiling_shows_children(
        layout::Gap::Straightline,
        call.start,
        call.children,
        end,
    );
    placement::law_calls_hold_what_they_were_handed(range, call.symbol, call.children);
    if call.children.len() == 0 {
        layout::lemma_no_frames(FrameView::leaf(range, call.symbol).chunks);
        assert(layout::frames_of(FrameView::leaf(range, call.symbol).chunks) =~= call.children);
    }
}

/// A call makes a frame if and only if the calls that it made lie within it and no two
/// of them overlap. The frame then holds these calls and nothing else, with
/// straightline code wherever there is time between them.
pub proof fn law_calls_complete_if_what_they_called_fits(call: IncompleteView, end: Metrics)
    ensures
        call.completed(end) is Ok <==> placement::side_by_side(
            MetricsRange { start: call.start, end },
            call.children,
        ),
        call.completed(end) matches Ok(frame) ==> {
            &&& frame.metrics.start == call.start
            &&& frame.metrics.end == end
            &&& frame.symbol == call.symbol
            &&& layout::frames_of(frame.chunks).to_multiset() == call.children.to_multiset()
            &&& placement::well_laid(layout::Gap::Straightline, frame.chunks)
            &&& frame.metrics.ordered() ==> layout::fills(frame.metrics, frame.chunks)
        },
{
    placement::law_calls_hold_what_they_were_handed(
        MetricsRange { start: call.start, end },
        call.symbol,
        call.children,
    );
}

/// Calls stay nested when the innermost of them returns.
proof fn lemma_return_keeps_nested(stack: Seq<IncompleteView>, now: Metrics, end: Metrics)
    requires
        stack.len() > 1,
        nested(stack, now),
        now.reaches(end),
    ensures
        stack.last().completed(end) matches Ok(frame) && nested(
            returned_to(stack.drop_last(), frame),
            end,
        ),
{
    let top = stack.len() - 1;
    let call = stack[top];
    assert(known_until(stack, top, now) == now);
    law_calls_in_order_complete(call, now, end);
    let frame = call.completed(end)->Ok_0;
    let after = returned_to(stack.drop_last(), frame);
    assert forall|i: int| 0 <= i < after.len() implies {
        &&& layout::in_order(
            (#[trigger] after[i]).start,
            after[i].children,
            known_until(after, i, end),
        )
        &&& frames_intact(after[i].children)
    } by {
        assert(layout::in_order(stack[i].start, stack[i].children, known_until(stack, i, now)));
        if i == top - 1 {
            assert(after[i].children == stack[i].children.push(frame));
        }
    }
}

/// A root frame that has room for all of its segments is intact.
proof fn lemma_roots_are_intact(segments: Seq<FrameView>, end: Metrics)
    requires
        segments.len() > 0,
        segments_sound(segments),
        root_of(segments, end) is Ok,
    ensures
        root_of(segments, end)->Ok_0.intact(),
{
    let range = MetricsRange { start: segments.first().metrics.start, end };
    let root = RootView::blank(range);
    let first = segments.first();
    layout::lemma_segments_run_forwards(root, segments);
    assert(segments[0] == first);
    assert(root.with_child(first) is Ok);
    assert(range.spans(first.metrics));
    layout::lemma_leaf_intact(range, first.symbol);
    layout::law_roots_stay_intact(root, segments);
}

/// Nested calls that all end in time make an intact segment, from the beginning
/// of the outermost call to the end.
pub proof fn law_nested_calls_collapse(stack: Seq<IncompleteView>, now: Metrics, end: Metrics)
    requires
        stack.len() > 0,
        nested(stack, now),
        now.reaches(end),
    ensures
        collapsed(stack, end) matches Ok(segment) && segment.intact() && segment.metrics == (
        MetricsRange { start: stack[0].start, end }) && segment.symbol == stack[0].symbol,
    decreases stack.len(),
{
    if stack.len() == 1 {
        assert(stack.last() == stack[0]);
        assert(known_until(stack, 0, now) == now);
        law_calls_in_order_complete(stack[0], now, end);
    } else {
        lemma_return_keeps_nested(stack, now, end);
        let frame = stack.last().completed(end)->Ok_0;
        law_nested_calls_collapse(returned_to(stack.drop_last(), frame), end, end);
    }
}

/// A frame that a call makes is intact, unless it runs backwards.
proof fn lemma_completed_is_sound(call: IncompleteView, end: Metrics)
    requires
        frames_intact(call.children),
        call.completed(end) is Ok,
    ensures
        call.completed(end)->Ok_0.metrics.ordered() ==> call.completed(end)->Ok_0.intact(),
{
    let range = MetricsRange { start: call.start, end };
    let leaf = FrameView::leaf(range, call.symbol);
    layout::lemma_children_run_forwards(leaf, call.children);
    if range.ordered() {
        layout::lemma_leaf_intact(range, call.symbol);
        layout::law_frames_stay_intact(leaf, call.children);
    }
}

/// The segment that a stack of calls makes is intact, unless it runs backwards.
proof fn lemma_collapsed_is_sound(stack: Seq<IncompleteView>, end: Metrics)
    requires
        stack.len() > 0,
        forall|i: int| 0 <= i < stack.len() ==> frames_intact((#[trigger] stack[i]).children),
        collapsed(stack, end) is Ok,
    ensures
        collapsed(stack, end)->Ok_0.metrics.ordered() ==> collapsed(stack, end)->Ok_0.intact(),
    decreases stack.len(),
{
    assert(stack.last() == stack[stack.len() - 1]);
    lemma_completed_is_sound(stack.last(), end);
    if stack.len() > 1 {
        let frame = stack.last().completed(end)->Ok_0;
        let next = returned_to(stack.drop_last(), frame);
        let caller = next.last();
        assert(caller.completed(end) is Ok) by {
            reveal_with_fuel(collapsed, 2);
        }
        assert(caller.children == stack[stack.len() - 2].children.push(frame));
        layout::lemma_children_run_forwards(
            FrameView::leaf(MetricsRange { start: caller.start, end }, caller.symbol),
            caller.children,
        );
        assert(caller.children.last() == frame);
        assert forall|i: int| 0 <= i < next.len() implies frames_intact(
            (#[trigger] next[i]).children,
        ) by {
            assert(frames_intact(stack[i].children));
        }
        lemma_collapsed_is_sound(next, end);
    }
}

/// The event has become `after` when an occurence of the event with the given id at
/// `at` was recorded: if it has that id it has this one occurence more, in its place,
/// and otherwise it is as it was.
pub open spec fn records(before: EventView, id: u32, at: Metrics, after: EventView) -> bool {
    &&& after.id == before.id
    &&& after.name == before.name
    &&& after.description == before.description
    &&& before.id == id ==> after.occurences.to_multiset()
        == before.occurences.to_multiset().insert(at) && after.occurences.len()
        == before.occurences.len() + 1
    &&& before.id != id ==> after.occurences == before.occurences
    &&& event::sorted(before.occurences) ==> event::sorted(after.occurences)
}

/// Whatever calls have not returned, an occurence is recorded for every event with its
/// id, once, and for no other. Nothing but the events changes.
pub proof fn law_occurences_are_recorded(builder: BuilderView, id: u32, at: Metrics)
    ensures
        builder.occured(id, at).last_metrics == builder.last_metrics,
        builder.occured(id, at).stack == builder.stack,
        builder.occured(id, at).segments == builder.segments,
        builder.occured(id, at).events.len() == builder.events.len(),
        forall|i: int|
            0 <= i < builder.events.len() && builder.events[i].id == id ==> (
            #[trigger] builder.occured(id, at).events[i]).occurences.to_multiset()
                == builder.events[i].occurences.to_multiset().insert(at)
                && builder.occured(id, at).events[i].id == id && builder.occured(
                id,
                at,
            ).events[i].name == builder.events[i].name && builder.occured(
                id,
                at,
            ).events[i].description == builder.events[i].description,
        forall|i: int|
            0 <= i < builder.events.len() && builder.events[i].id != id
                ==> #[trigger] builder.occured(id, at).events[i] == builder.events[i],
        forall|i: int|
            0 <= i < builder.events.len() ==> records(
                builder.events[i],
                id,
                at,
                #[trigger] builder.occured(id, at).events[i],
            ),
{
    let after = builder.occured(id, at).events;
    assert forall|i: int| 0 <= i < builder.events.len() implies records(
        builder.events[i],
        id,
        at,
        #[trigger] after[i],
    ) && (builder.events[i].id != id ==> after[i] == builder.events[i]) by {
        event::law_occurences_stay_sorted(builder.events[i], at);
        after[i].occurences.to_multiset_ensures();
        builder.events[i].occurences.to_multiset_ensures();
    }
}

/// The occurences of every event stay sorted as events occur.
pub proof fn law_events_stay_sorted(builder: BuilderView, id: u32, at: Metrics)
    requires
        events_sorted(builder.events),
    ensures
        events_sorted(builder.occured(id, at).events),
{
    let after = builder.occured(id, at).events;
    assert forall|i: int| 0 <= i < after.len() implies event::sorted(
        (#[trigger] after[i]).occurences,
    ) by {
        event::law_occurences_stay_sorted(builder.events[i], at);
    }
}

impl TraceBuilder {
    /// Whether `new_metrics` do not run backwards from the last metrics that the
    /// builder was given. A call can neither begin nor return at metrics that do.
    pub fn ensure_monotonic(&self, new_metrics: Metrics) -> (ok: bool)
        ensures
            ok == self@.last_metrics.reaches(new_metrics),
            ok <==> !(new_metrics.ts < self@.last_metrics.ts || new_metrics.cycles
                < self@.last_metrics.cycles || new_metrics.insn_count
                < self@.last_metrics.insn_count),
    {
        self.last_metrics.can_reach(&new_metrics)
    }

    /// Begins a trace with a call of `symbol`.
    pub fn new(start_metrics: Metrics, symbol: SymbolInfo) -> (builder: TraceBuilder)
        ensures
            builder@ == BuilderView::started(start_metrics, symbol@),
            builder@.wf(),
            builder@.last_metrics == start_metrics,
            builder@.stack.len() == 1,
            builder@.stack[0].start == start_metrics,
            builder@.stack[0].symbol == symbol@,
            builder@.stack[0].children.len() == 0,
            builder@.events.len() == 0,
            builder@.segments.len() == 0,
    {
        let builder = TraceBuilder::new_resume(
            start_metrics,
            vec![symbol],
            Vec::new(),
            Vec::new(),
        );
        assert(builder@ =~= BuilderView::started(start_metrics, symbol@));
        builder
    }

    /// Begins to build in the midst of the calls of `current_stack`.
    fn new_resume(
        start_metrics: Metrics,
        current_stack: Vec<SymbolInfo>,
        events: Vec<Event>,
        prev_segments: Vec<NamedFrame>,
    ) -> (builder: TraceBuilder)
        requires
            (PausedView {
                events: event::event_views(events@),
                segments: frame_views(prev_segments@),
                stack: symbol_views(current_stack@),
            }).wf(),
        ensures
            builder@ == (PausedView {
                events: event::event_views(events@),
                segments: frame_views(prev_segments@),
                stack: symbol_views(current_stack@),
            }).resumed(start_metrics),
            builder@.wf(),
    {
        let mut callstack: Vec<IncompleteFrame> = Vec::new();
        let mut i: usize = 0;
        let depth = current_stack.len();
        while i < depth - 1
            invariant
                i < depth == current_stack@.len(),
                callstack@.len() == i,
                forall|j: int|
                    0 <= j < i ==> (#[trigger] callstack@[j])@ == IncompleteView::begun(
                        start_metrics,
                        current_stack@[j]@,
                    ),
            decreases depth - i,
        {
            let frame = IncompleteFrame {
                start_metrics,
                child_frames: Vec::new(),
                symbol: current_stack[i].clone(),
            };
            assert(frame@ =~= IncompleteView::begun(start_metrics, current_stack@[i as int]@));
            callstack.push(frame);
            i += 1;
        }
        let current_frame = IncompleteFrame {
            start_metrics,
            child_frames: Vec::new(),
            symbol: current_stack[i].clone(),
        };
        assert(current_frame@ =~= IncompleteView::begun(start_metrics, current_stack@[i as int]@));
        let ghost goal = (PausedView {
            events: event::event_views(events@),
            segments: frame_views(prev_segments@),
            stack: symbol_views(current_stack@),
        }).resumed(start_metrics);
        let builder = TraceBuilder {
            last_metrics: start_metrics,
            current_frame,
            callstack,
            events,
            prev_segments,
        };
        assert(builder@ =~= goal);
        builder
    }

    /// Records that the innermost call has called `symbol`.
    pub fn push_frame(&mut self, metrics: Metrics, symbol: SymbolInfo)
        requires
            old(self)@.wf(),
            old(self)@.last_metrics.reaches(metrics),
        ensures
            final(self)@ == old(self)@.pushed(metrics, symbol@),
            final(self)@.wf(),
            final(self)@.last_metrics == metrics,
            final(self)@.stack.drop_last() == old(self)@.stack,
            final(self)@.stack.last().start == metrics,
            final(self)@.stack.last().symbol == symbol@,
            final(self)@.stack.last().children.len() == 0,
            final(self)@.events == old(self)@.events,
            final(self)@.segments == old(self)@.segments,
    {
        let ghost before = self@;
        let mut frame = IncompleteFrame { start_metrics: metrics, child_frames: Vec::new(), symbol };
        assert(frame@ =~= IncompleteView::begun(metrics, symbol@));
        core::mem::swap(&mut self.current_frame, &mut frame);
        self.callstack.push(frame);
        self.last_metrics = metrics;
        proof {
            assert(self@ =~= before.pushed(metrics, symbol@));
            assert(self@.stack.drop_last() =~= before.stack);
            assert forall|i: int| 0 <= i < self@.stack.len() implies {
                &&& layout::in_order(
                    (#[trigger] self@.stack[i]).start,
                    self@.stack[i].children,
                    known_until(self@.stack, i, metrics),
                )
                &&& frames_intact(self@.stack[i].children)
            } by {
                if i < before.stack.len() {
                    assert(layout::in_order(
                        before.stack[i].start,
                        before.stack[i].children,
                        known_until(before.stack, i, before.last_metrics),
                    ));
                }
            }
        }
    }

    /// Records that the innermost call has returned. When it was the outermost
    /// one too, the trace is complete.
    pub fn complete_frame(self, end_metrics: Metrics) -> (result: Result<BuilderResult, FrameError>)
        requires
            self@.wf(),
            self@.last_metrics.reaches(end_metrics),
        ensures
            match self@.completed(end_metrics) {
                Ok(outcome) => result matches Ok(own) && own@ == outcome,
                Err(error) => result == Err::<BuilderResult, FrameError>(error),
            },
            self@.stack.len() > 1 ==> (result matches Ok(BuilderResult::Builder(builder))
                && builder@.wf()),
            self@.timely() ==> result is Ok,
            result matches Ok(BuilderResult::Completed(trace)) ==> trace@.intact(),
    {
        let ghost before = self@;
        let TraceBuilder {
            last_metrics,
            current_frame,
            mut callstack,
            events,
            prev_segments,
        } = self;
        proof {
            assert(before.stack.last() == current_frame@);
            assert(layout::in_order(
                before.stack.last().start,
                before.stack.last().children,
                known_until(before.stack, before.stack.len() - 1, before.last_metrics),
            ));
            law_calls_in_order_complete(before.stack.last(), before.last_metrics, end_metrics);
            if before.timely() && before.stack.len() == 1 {
                law_timely_traces_complete(before, end_metrics);
            }
        }
        match callstack.pop() {
            None => {
                let completed_frame = current_frame.complete(end_metrics)?;
                let min_metric = if prev_segments.len() > 0 {
                    prev_segments[0].metrics().start
                } else {
                    completed_frame.metrics().start
                };
                let mut root_frame = RootFrame::new(MetricsRange::new(min_metric, end_metrics));
                let mut segments = prev_segments;
                segments.push(completed_frame);
                let ghost all = before.segments.push(completed_frame@);
                assert(frame_views(segments@) =~= all);
                assert(all.first().metrics.start == min_metric);
                assert(all.skip(0) =~= all);
                let ghost goal = root_of(all, end_metrics);
                for segment in it: segments
                    invariant
                        goal == layout::with_children_from_front(
                            root_frame@,
                            all.skip(it.index() as int),
                        ),
                        goal == root_of(all, end_metrics),
                        before == self@,
                        before.stack.len() == 1,
                        before.timely() ==> goal is Ok,
                        before.completed(end_metrics) == (match goal {
                            Ok(root) => Ok::<BuilderOutcome, FrameError>(
                                BuilderOutcome::Completed(
                                    TraceView { root, events: before.events },
                                ),
                            ),
                            Err(error) => Err(error),
                        }),
                        frame_views(it.seq()) == all,
                {
                    proof {
                        let left = all.skip(it.index() as int);
                        assert(left.first() == segment@);
                        assert(left.drop_first() =~= all.skip(it.index() + 1));
                    }
                    match root_frame.add_child(segment) {
                        Ok(()) => {},
                        Err(error) => {
                            return Err(error);
                        },
                    }
                }
                proof {
                    assert(all.skip(all.len() as int) =~= Seq::<FrameView>::empty());
                    lemma_roots_are_intact(all, end_metrics);
                }
                Ok(BuilderResult::Completed(Trace::new(root_frame, events)))
            },
            Some(mut caller) => {
                let completed_frame = current_frame.complete(end_metrics)?;
                let ghost called = caller@;
                caller.child_frames.push(completed_frame);
                assert(caller@ =~= called.with_child(completed_frame@));
                let builder = TraceBuilder {
                    last_metrics: end_metrics,
                    current_frame: caller,
                    callstack,
                    events,
                    prev_segments,
                };
                proof {
                    assert(before.stack.drop_last().last() == called);
                    assert(builder@.stack =~= returned_to(
                        before.stack.drop_last(),
                        completed_frame@,
                    ));
                    lemma_return_keeps_nested(before.stack, before.last_metrics, end_metrics);
                }
                Ok(BuilderResult::Builder(builder))
            },
        }
    }

    /// Makes a new kind of event known to the trace.
    pub fn new_event(&mut self, id: u32, name: String, description: String)
        requires
            old(self)@.wf(),
        ensures
            final(self)@ == old(self)@.with_event(id, name@, description@),
            final(self)@.wf(),
            final(self)@.last_metrics == old(self)@.last_metrics,
            final(self)@.stack == old(self)@.stack,
            final(self)@.segments == old(self)@.segments,
            final(self)@.events.drop_last() == old(self)@.events,
            final(self)@.events.last().id == id,
            final(self)@.events.last().name == name@,
            final(self)@.events.last().description == description@,
            final(self)@.events.last().occurences.len() == 0,
    {
        let ghost before = self@;
        self.events.push(Event::new(id, name, description));
        assert(self@ =~= before.with_event(id, name@, description@));
        assert(self@.events.drop_last() =~= before.events);
    }

    /// Records that the event with the given id occurred at `metrics`. Where
    /// several events have that id, it is recorded for each.
    pub fn event_occured(&mut self, event_id: u32, metrics: Metrics)
        requires
            old(self)@.wf(),
        ensures
            final(self)@ == old(self)@.occured(event_id, metrics),
            final(self)@.wf(),
            final(self)@.last_metrics == old(self)@.last_metrics,
            final(self)@.stack == old(self)@.stack,
            final(self)@.segments == old(self)@.segments,
            final(self)@.events.len() == old(self)@.events.len(),
            forall|i: int|
                0 <= i < old(self)@.events.len() && old(self)@.events[i].id == event_id ==> (
                #[trigger] final(self)@.events[i]).occurences.to_multiset()
                    == old(self)@.events[i].occurences.to_multiset().insert(metrics),
            forall|i: int|
                0 <= i < old(self)@.events.len() && old(self)@.events[i].id != event_id
                    ==> #[trigger] final(self)@.events[i] == old(self)@.events[i],
            forall|i: int|
                0 <= i < old(self)@.events.len() ==> records(
                    old(self)@.events[i],
                    event_id,
                    metrics,
                    #[trigger] final(self)@.events[i],
                ),
    {
        let ghost before = self@;
        let ghost goal = before.occured(event_id, metrics);
        let mut i: usize = 0;
        while i < self.events.len()
            invariant
                i <= self.events@.len() == before.events.len() == goal.events.len(),
                goal == before.occured(event_id, metrics),
                self@ == (BuilderView { events: self@.events, ..before }),
                forall|j: int| 0 <= j < i ==> (#[trigger] self.events@[j])@ == goal.events[j],
                forall|j: int|
                    i <= j < self.events@.len() ==> (#[trigger] self.events@[j])@
                        == before.events[j],
            decreases self.events@.len() - i,
        {
            if self.events[i].id() == event_id {
                self.events[i].add_occurence(metrics);
            }
            i += 1;
        }
        proof {
            assert(self@.events =~= goal.events);
            law_events_stay_sorted(before, event_id, metrics);
            law_occurences_are_recorded(before, event_id, metrics);
        }
    }

    /// The number of calls that have not returned.
    pub fn callstack_depth(&self) -> (depth: usize)
        requires
            self@.stack.len() <= usize::MAX,
        ensures
            depth == self@.stack.len(),
    {
        self.callstack.len() + 1
    }

    /// The symbol of a call that has not returned. index = 0 means top of the
    /// callstack. Higher indices go down the callstack.
    pub fn get_frame_symbol(&self, index: usize) -> (symbol: &SymbolInfo)
        requires
            index < self@.stack.len(),
        ensures
            symbol@ == self@.stack[self@.stack.len() - 1 - index].symbol,
    {
        if index == 0 {
            &self.current_frame.symbol
        } else {
            &self.callstack[self.callstack.len() - index].symbol
        }
    }

    /// Suspends the building: everything up to `metrics` becomes a segment, and
    /// the calls that have not returned are remembered.
    pub fn pause(self, metrics: Metrics) -> (result: Result<PausedTraceBuilder, FrameError>)
        requires
            self@.wf(),
        ensures
            match self@.paused(metrics) {
                Ok(paused) => result matches Ok(own) && own@ == paused && paused.wf(),
                Err(error) => result == Err::<PausedTraceBuilder, FrameError>(error),
            },
            self@.last_metrics.reaches(metrics) ==> result is Ok,
    {
        let ghost before = self@;
        proof {
            if before.last_metrics.reaches(metrics) {
                law_timely_pauses_succeed(before, metrics);
            }
        }
        let TraceBuilder {
            last_metrics,
            current_frame,
            mut callstack,
            events,
            mut prev_segments,
        } = self;
        let mut current_stack: Vec<SymbolInfo> = Vec::new();
        let mut i: usize = 0;
        while i < callstack.len()
            invariant
                i <= callstack@.len(),
                current_stack@.len() == i,
                forall|j: int|
                    0 <= j < i ==> (#[trigger] current_stack@[j])@ == callstack@[j].symbol@,
            decreases callstack@.len() - i,
        {
            current_stack.push(callstack[i].symbol.clone());
            i += 1;
        }
        current_stack.push(current_frame.symbol.clone());
        assert(symbol_views(current_stack@) =~= before.symbols());

        let mut curr_frame = current_frame;
        let ghost goal = collapsed(before.stack, metrics);
        while callstack.len() > 0
            invariant
                goal == collapsed(
                    incomplete_views(callstack@).push(curr_frame@),
                    metrics,
                ),
                before == self@,
                goal == collapsed(before.stack, metrics),
                before.last_metrics.reaches(metrics) ==> goal is Ok,
            decreases callstack@.len(),
        {
            let ghost stack = incomplete_views(callstack@).push(curr_frame@);
            match callstack.pop() {
                None => {},
                Some(mut caller) => {
                    assert(stack.last() == curr_frame@);
                    let completed_frame = curr_frame.complete(metrics)?;
                    let ghost called = caller@;
                    caller.child_frames.push(completed_frame);
                    assert(caller@ =~= called.with_child(completed_frame@));
                    assert(stack.drop_last().last() == called);
                    assert(incomplete_views(callstack@).push(caller@) =~= returned_to(
                        stack.drop_last(),
                        completed_frame@,
                    ));
                    curr_frame = caller;
                },
            }
        }
        let segment = curr_frame.complete(metrics)?;
        prev_segments.push(segment);
        proof {
            assert(frame_views(prev_segments@) =~= before.segments.push(segment@));
            assert forall|j: int| 0 <= j < before.stack.len() implies frames_intact(
                (#[trigger] before.stack[j]).children,
            ) by {}
            lemma_collapsed_is_sound(before.stack, metrics);
        }
        Ok(PausedTraceBuilder { events, prev_segments, current_stack })
    }
}

impl PausedTraceBuilder {
    /// Goes on with the building at `start_metrics`, in the calls that had not
    /// returned when it was suspended.
    pub fn resume(self, start_metrics: Metrics) -> (builder: TraceBuilder)
        requires
            self@.wf(),
        ensures
            builder@ == self@.resumed(start_metrics),
            builder@.wf(),
            builder@.last_metrics == start_metrics,
            builder@.events == self@.events,
            builder@.segments == self@.segments,
            builder@.stack.len() == self@.stack.len(),
            forall|i: int|
                0 <= i < self@.stack.len() ==> (#[trigger] builder@.stack[i]).start == start_metrics
                    && builder@.stack[i].symbol == self@.stack[i]
                    && builder@.stack[i].children.len() == 0,
    {
        TraceBuilder::new_resume(
            start_metrics,
            self.current_stack,
            self.events,
            self.prev_segments,
        )
    }
}

/// A return closes the innermost call: the frame that the call makes becomes the last
/// child of the caller, holds the calls that it made in order, and runs from where the
/// call began to where it returned. The other calls, the events and the segments stay.
pub proof fn law_returns_hand_the_frame_to_the_caller(builder: BuilderView, end: Metrics)
    requires
        builder.wf(),
        builder.stack.len() > 1,
        builder.last_metrics.reaches(end),
    ensures
        builder.completed(end) matches Ok(BuilderOutcome::Builder(after)) && {
            let top = builder.stack.len() - 1;
            let caller = builder.stack[top - 1];
            let frame = after.stack[top - 1].children.last();
            &&& after.last_metrics == end
            &&& after.events == builder.events
            &&& after.segments == builder.segments
            &&& after.stack.len() == top
            &&& forall|i: int| 0 <= i < top - 1 ==> #[trigger] after.stack[i] == builder.stack[i]
            &&& after.stack[top - 1].start == caller.start
            &&& after.stack[top - 1].symbol == caller.symbol
            &&& after.stack[top - 1].children.drop_last() == caller.children
            &&& frame.metrics.start == builder.stack[top].start
            &&& frame.metrics.end == end
            &&& frame.symbol == builder.stack[top].symbol
            &&& layout::frames_of(frame.chunks) == builder.stack[top].children
            &&& placement::well_laid(layout::Gap::Straightline, frame.chunks)
            &&& frame.intact()
        },
{
    let top = builder.stack.len() - 1;
    assert(builder.stack.last() == builder.stack[top]);
    assert(known_until(builder.stack, top, builder.last_metrics) == builder.last_metrics);
    law_calls_in_order_complete(builder.stack[top], builder.last_metrics, end);
    let frame = builder.stack[top].completed(end)->Ok_0;
    let after = returned_to(builder.stack.drop_last(), frame);
    assert(after[top - 1].children == builder.stack[top - 1].children.push(frame));
    assert(after[top - 1].children.drop_last() =~= builder.stack[top - 1].children);
}

/// The return of the outermost call completes the trace if and only if no two of its
/// segments overlap and all of them lie between the beginning of the first and the
/// end. The trace then holds these segments and nothing else, with pauses wherever
/// there is time between them, and the events.
pub proof fn law_traces_hold_their_segments(builder: BuilderView, end: Metrics)
    requires
        builder.wf(),
        builder.stack.len() == 1,
        builder.last_metrics.reaches(end),
    ensures
        builder.stack[0].completed(end) matches Ok(frame) && {
            let segments = builder.segments.push(frame);
            let range = MetricsRange { start: segments[0].metrics.start, end };
            &&& builder.completed(end) is Ok <==> placement::side_by_side(range, segments)
            &&& match builder.completed(end) {
                Ok(BuilderOutcome::Completed(trace)) => {
                    &&& trace.events == builder.events
                    &&& trace.root.metrics == range
                    &&& layout::frames_of(trace.root.chunks).to_multiset()
                        == segments.to_multiset()
                    &&& placement::well_laid(layout::Gap::Pause, trace.root.chunks)
                    &&& layout::fills(range, trace.root.chunks)
                    &&& trace.root.intact()
                },
                Ok(BuilderOutcome::Builder(_)) => false,
                Err(FrameError::NoRoom { parent, child }) => parent == range && exists|i: int|
                    0 <= i < segments.len() && (#[trigger] segments[i]).metrics == child,
            }
        },
{
    let call = builder.stack[0];
    assert(builder.stack.last() == call);
    assert(known_until(builder.stack, 0, builder.last_metrics) == builder.last_metrics);
    law_calls_in_order_complete(call, builder.last_metrics, end);
    let frame = call.completed(end)->Ok_0;
    let segments = builder.segments.push(frame);
    let range = MetricsRange { start: segments[0].metrics.start, end };
    assert(segments.first() == segments[0]);
    placement::law_roots_hold_what_they_were_handed(range, segments);
    if root_of(segments, end) is Ok {
        lemma_roots_are_intact(segments, end);
    } else {
        lemma_refused_segment(RootView::blank(range), segments);
    }
}

/// A root that refuses a list of segments names its own stretch and that of one of
/// them.
proof fn lemma_refused_segment(root: RootView, segments: Seq<FrameView>)
    requires
        layout::with_children_from_front(root, segments) is Err,
    ensures
        layout::with_children_from_front(root, segments)->Err_0 matches FrameError::NoRoom {
            parent,
            child,
        } && parent == root.metrics && exists|i: int|
            0 <= i < segments.len() && (#[trigger] segments[i]).metrics == child,
    decreases segments.len(),
{
    if segments.len() > 0 {
        let first = segments.first();
        placement::law_roots_take_children_in(root, first);
        match root.with_child(first) {
            Ok(next) => {
                let rest = segments.drop_first();
                lemma_refused_segment(next, rest);
                let child = layout::with_children_from_front(root, segments)->Err_0->child;
                let i = choose|i: int|
                    0 <= i < rest.len() && (#[trigger] rest[i]).metrics == child;
                assert(segments[i + 1].metrics == child);
            },
            Err(_) => {
                assert(segments[0].metrics == first.metrics);
            },
        }
    }
}

/// How far the innermost call is known to have run.
pub open spec fn known_of(call: IncompleteView) -> Metrics {
    if call.children.len() > 0 {
        call.children.last().metrics.end
    } else {
        call.start
    }
}

/// Suspending succeeds if and only if it does not come before what is known of the
/// innermost call; a lone call of which nothing is known may even be suspended before
/// it began. It adds one segment, which runs from the beginning of the outermost call
/// until then, and keeps the events, the segments and the symbols of the calls. A
/// refusal names the call that had to be closed and what did not fit into it.
pub proof fn law_pauses_come_after_what_is_known(builder: BuilderView, at: Metrics)
    requires
        builder.wf(),
    ensures
        ({
            let top = builder.stack.len() - 1;
            let call = builder.stack[top];
            let alone = top == 0 && call.children.len() == 0;
            &&& builder.paused(at) is Ok <==> known_of(call).reaches(at) || alone
            &&& match builder.paused(at) {
                Ok(paused) => {
                    &&& paused.events == builder.events
                    &&& paused.segments.drop_last() == builder.segments
                    &&& paused.segments.len() == builder.segments.len() + 1
                    &&& collapsed(builder.stack, at) == Ok::<FrameView, FrameError>(
                        paused.segments.last(),
                    )
                    &&& paused.segments.last().metrics.start == builder.stack[0].start
                    &&& paused.segments.last().metrics.end == at
                    &&& paused.segments.last().symbol == builder.stack[0].symbol
                    &&& paused.stack.len() == builder.stack.len()
                    &&& forall|i: int|
                        0 <= i < paused.stack.len() ==> #[trigger] paused.stack[i]
                            == builder.stack[i].symbol
                    &&& alone ==> paused.segments.last().chunks == seq![
                        layout::ChunkView::Straightline(MetricsRange { start: call.start, end: at }),
                    ]
                },
                Err(FrameError::NoRoom { parent, child }) => if call.children.len() > 0 {
                    &&& parent == (MetricsRange { start: call.start, end: at })
                    &&& child == call.children.last().metrics
                } else {
                    &&& parent == (MetricsRange { start: builder.stack[top - 1].start, end: at })
                    &&& child == (MetricsRange { start: call.start, end: at })
                },
            }
        }),
{
    let stack = builder.stack;
    let top = stack.len() - 1;
    let call = stack[top];
    let known = known_of(call);
    assert(stack.last() == call);
    assert(layout::in_order(call.start, call.children, known_until(
        stack,
        top,
        builder.last_metrics,
    )));
    let range = MetricsRange { start: call.start, end: at };
    if known.reaches(at) {
        if call.children.len() > 0 {
            assert(call.children[call.children.len() - 1] == call.children.last());
        }
        assert(layout::in_order(call.start, call.children, known)) by {
            assert forall|i: int| 0 <= i < call.children.len() implies (MetricsRange {
                start: call.start,
                end: known,
            }).spans((#[trigger] call.children[i]).metrics) by {
                if i < call.children.len() - 1 {
                    let last = call.children.len() - 1;
                    assert(call.children[i].metrics.end.reaches(call.children[last].metrics.start));
                }
            }
        }
        assert(nested(stack, known)) by {
            assert forall|i: int| 0 <= i < stack.len() implies {
                &&& layout::in_order(
                    (#[trigger] stack[i]).start,
                    stack[i].children,
                    known_until(stack, i, known),
                )
                &&& frames_intact(stack[i].children)
            } by {
                assert(layout::in_order(
                    stack[i].start,
                    stack[i].children,
                    known_until(stack, i, builder.last_metrics),
                ));
            }
        }
        law_nested_calls_collapse(stack, known, at);
    } else if call.children.len() > 0 {
        let leaf = FrameView::leaf(range, call.symbol);
        assert(!range.spans(call.children.last().metrics));
        assert(leaf.with_child(call.children.last()) is Err);
    } else if top > 0 {
        let frame = FrameView::leaf(range, call.symbol);
        assert(call.completed(at) == Ok::<FrameView, FrameError>(frame));
        let next = returned_to(stack.drop_last(), frame);
        let caller = next.last();
        assert(caller.children.last() == frame);
        assert(!frame.metrics.ordered());
        assert(caller.completed(at) is Err);
        assert(collapsed(next, at) == Err::<FrameView, FrameError>(caller.completed(at)->Err_0));
    }
    if let Ok(paused) = builder.paused(at) {
        assert(paused.segments.drop_last() =~= builder.segments);
        assert(stack[0] == stack.first());
    }
}

/// The segment that nested calls make when all of them end holds what the outermost
/// call had called before and, last, what the calls within it make.
pub proof fn law_segments_hold_the_calls_within(
    stack: Seq<IncompleteView>,
    now: Metrics,
    at: Metrics,
)
    requires
        stack.len() > 0,
        nested(stack, now),
        now.reaches(at),
    ensures
        collapsed(stack, at) matches Ok(segment) && placement::well_laid(
            layout::Gap::Straightline,
            segment.chunks,
        ) && if stack.len() == 1 {
            layout::frames_of(segment.chunks) == stack[0].children
        } else {
            collapsed(stack.drop_first(), at) matches Ok(inner) && layout::frames_of(segment.chunks)
                == stack[0].children.push(inner)
        },
    decreases stack.len(),
{
    let top = stack.len() - 1;
    assert(stack.last() == stack[top]);
    if top == 0 {
        assert(known_until(stack, 0, now) == now);
        law_calls_in_order_complete(stack[0], now, at);
    } else {
        lemma_return_keeps_nested(stack, now, at);
        let frame = stack.last().completed(at)->Ok_0;
        let next = returned_to(stack.drop_last(), frame);
        law_segments_hold_the_calls_within(next, at, at);
        let within = stack.drop_first();
        assert(within.last() == stack.last());
        if top == 1 {
            assert(next[0].children == stack[0].children.push(frame));
            assert(collapsed(within, at) == within.last().completed(at));
        } else {
            assert(next[0] == stack[0]);
            assert(next.drop_first() =~= returned_to(within.drop_last(), frame));
        }
    }
}

/// A call is remembered on top of those before it.
pub proof fn law_calls_deepen_the_stack(builder: BuilderView, at: Metrics, symbol: SymbolView)
    requires
        builder.wf(),
    ensures
        builder.pushed(at, symbol).symbols() == builder.symbols().push(symbol),
        builder.timely() ==> builder.pushed(at, symbol).timely(),
{
    assert(builder.pushed(at, symbol).symbols() =~= builder.symbols().push(symbol));
    assert(builder.pushed(at, symbol).stack.first() == builder.stack.first());
}

/// A call that calls nothing leaves the builder as it was when it returns, but
/// for one more child of the caller.
pub proof fn law_call_and_return(
    builder: BuilderView,
    start: Metrics,
    symbol: SymbolView,
    end: Metrics,
)
    requires
        builder.wf(),
    ensures
        builder.pushed(start, symbol).completed(end) == Ok::<BuilderOutcome, FrameError>(
            BuilderOutcome::Builder(
                BuilderView {
                    last_metrics: end,
                    stack: returned_to(
                        builder.stack,
                        FrameView::leaf(MetricsRange { start, end }, symbol),
                    ),
                    ..builder
                },
            ),
        ),
{
    let pushed = builder.pushed(start, symbol);
    assert(pushed.stack.drop_last() =~= builder.stack);
    assert(pushed.stack.last().children.len() == 0);
}

/// A return that comes in time always finds the caller: the builder goes on with
/// one call less, and the other calls are those that were there before.
pub proof fn law_returns_unwind_the_stack(builder: BuilderView, end: Metrics)
    requires
        builder.wf(),
        builder.stack.len() > 1,
        builder.last_metrics.reaches(end),
    ensures
        builder.completed(end) matches Ok(BuilderOutcome::Builder(after)) && after.wf()
            && after.symbols() == builder.symbols().drop_last() && after.last_metrics == end
            && after.events == builder.events && after.segments == builder.segments && (
        builder.timely() ==> after.timely()),
{
    lemma_return_keeps_nested(builder.stack, builder.last_metrics, end);
    let frame = builder.stack.last().completed(end)->Ok_0;
    let after = returned_to(builder.stack.drop_last(), frame);
    assert(after.map_values(|call: IncompleteView| call.symbol)
        =~= builder.symbols().drop_last());
    assert(after.first().start == builder.stack.first().start);
}

/// Suspending and going on keeps the calls that have not returned, the events
/// and the segments recorded before.
pub proof fn law_pause_and_resume(builder: BuilderView, at: Metrics, start: Metrics)
    requires
        builder.paused(at) is Ok,
    ensures
        builder.paused(at)->Ok_0.resumed(start).symbols() == builder.symbols(),
        builder.paused(at)->Ok_0.resumed(start).events == builder.events,
        builder.paused(at)->Ok_0.resumed(start).segments.drop_last() == builder.segments,
{
    let after = builder.paused(at)->Ok_0.resumed(start);
    assert(after.symbols() =~= builder.symbols());
    assert(after.segments.drop_last() =~= builder.segments);
}

/// Suspending in time always succeeds, and records a segment that ran from the
/// beginning of the outermost call until then.
pub proof fn law_timely_pauses_succeed(builder: BuilderView, at: Metrics)
    requires
        builder.wf(),
        builder.last_metrics.reaches(at),
    ensures
        builder.paused(at) matches Ok(paused) && paused.wf() && paused.segments.last().intact()
            && paused.segments.last().metrics == (MetricsRange {
            start: builder.stack[0].start,
            end: at,
        }) && (builder.timely() ==> paused.timely_until(at)),
{
    law_nested_calls_collapse(builder.stack, builder.last_metrics, at);
    let segment = collapsed(builder.stack, at)->Ok_0;
    let before = builder.segments;
    let after = before.push(segment);
    assert(builder.stack.first() == builder.stack[0]);
    assert(segment.metrics.ordered());
    if builder.timely() {
        assert(after.first() == if before.len() > 0 {
            before.first()
        } else {
            segment
        });
        assert forall|i: int, j: int| 0 <= i < j < after.len() implies (
        #[trigger] after[i]).metrics.end.reaches((#[trigger] after[j]).metrics.start) by {
            assert(after[i] == before[i]);
            if j < before.len() {
                assert(after[j] == before[j]);
            }
        }
    }
}

/// The trace that comes of the builder when all calls return at `at`, from the
/// innermost to the outermost.
pub open spec fn all_returned(builder: BuilderView, at: Metrics) -> Result<TraceView, FrameError>
    decreases builder.stack.len(),
{
    match builder.completed(at) {
        Ok(BuilderOutcome::Builder(next)) => all_returned(next, at),
        Ok(BuilderOutcome::Completed(trace)) => Ok(trace),
        Err(error) => Err(error),
    }
}

/// Suspending records what returning would: when calls, returns, pauses and
/// resumptions all came in time, the frames at the top of the trace that comes of
/// letting all calls return are the segments that suspending leaves, and the last
/// one is the segment that it adds.
pub proof fn law_pausing_is_returning(builder: BuilderView, at: Metrics)
    requires
        builder.wf(),
        builder.timely(),
        builder.last_metrics.reaches(at),
    ensures
        builder.paused(at) is Ok,
        all_returned(builder, at) matches Ok(trace) && trace.intact() && trace.events
            == builder.paused(at)->Ok_0.events && layout::frames_of(trace.root.chunks)
            == builder.paused(at)->Ok_0.segments && layout::frames_of(trace.root.chunks).last()
            == builder.paused(at)->Ok_0.segments.last(),
    decreases builder.stack.len(),
{
    law_timely_pauses_succeed(builder, at);
    if builder.stack.len() > 1 {
        law_returns_unwind_the_stack(builder, at);
        let after = builder.completed(at)->Ok_0->Builder_0;
        law_pausing_is_returning(after, at);
        assert(collapsed(builder.stack, at) == collapsed(after.stack, at));
    } else {
        law_timely_traces_complete(builder, at);
        assert(builder.stack.last() == builder.stack[0]);
    }
}

/// Suspending records what returning would even where a builder went on too early:
/// if letting all calls return makes a trace, its last frame is the segment that
/// suspending adds. An earlier segment that began at the very end must not be there,
/// unless the outermost call began then too: it stays behind that call's frame.
pub proof fn law_pausing_agrees_with_returning(builder: BuilderView, at: Metrics)
    requires
        builder.wf(),
        builder.last_metrics.reaches(at),
        all_returned(builder, at) is Ok,
        builder.stack[0].start == at || forall|i: int|
            0 <= i < builder.segments.len() ==> (#[trigger] builder.segments[i]).metrics.start
                != at,
    ensures
        builder.paused(at) is Ok,
        layout::frames_of(all_returned(builder, at)->Ok_0.root.chunks).len() > 0,
        layout::frames_of(all_returned(builder, at)->Ok_0.root.chunks).last()
            == builder.paused(at)->Ok_0.segments.last(),
    decreases builder.stack.len(),
{
    law_timely_pauses_succeed(builder, at);
    if builder.stack.len() > 1 {
        law_returns_unwind_the_stack(builder, at);
        let after = builder.completed(at)->Ok_0->Builder_0;
        assert(after.stack[0].start == builder.stack[0].start);
        law_pausing_agrees_with_returning(after, at);
        assert(collapsed(builder.stack, at) == collapsed(after.stack, at));
    } else {
        let call = builder.stack[0];
        assert(builder.stack.last() == call);
        assert(known_until(builder.stack, 0, builder.last_metrics) == builder.last_metrics);
        law_calls_in_order_complete(call, builder.last_metrics, at);
        let frame = call.completed(at)->Ok_0;
        let before = builder.segments;
        let all = before.push(frame);
        let range = MetricsRange { start: all.first().metrics.start, end: at };
        let blank = RootView::blank(range);
        layout::lemma_segments_push(blank, before, frame);
        let root = layout::with_children_from_front(blank, before)->Ok_0;
        if before.len() > 0 {
            assert(all.first() == before.first());
            lemma_roots_are_intact(before, at);
        } else {
            layout::lemma_leaf_intact(range, frame.symbol);
        }
        assert forall|i: int| 0 <= i < before.len() implies before.contains(
            #[trigger] before[i],
        ) by {}
        layout::lemma_root_frames_are_segments(blank, before, before);
        assert(root.metrics == range);
        layout::lemma_last_segment_comes_last(root, frame);
    }
}

/// A builder that goes on no earlier than it was suspended keeps its segments in
/// order.
pub proof fn law_timely_resumptions(paused: PausedView, at: Metrics, start: Metrics)
    requires
        paused.wf(),
        paused.timely_until(at),
        at.reaches(start),
    ensures
        paused.resumed(start).wf(),
        paused.resumed(start).timely(),
{
}

/// When calls, returns, pauses and resumptions all came in time, the return of
/// the outermost call completes the trace. Every segment is in it, in order, and
/// there are pauses where there is time between them.
pub proof fn law_timely_traces_complete(builder: BuilderView, end: Metrics)
    requires
        builder.wf(),
        builder.timely(),
        builder.stack.len() == 1,
        builder.last_metrics.reaches(end),
    ensures
        builder.stack[0].completed(end) matches Ok(frame) && builder.completed(end) matches Ok(
            BuilderOutcome::Completed(trace),
        ) && trace.intact() && trace.events == builder.events && layout::frames_of(
            trace.root.chunks,
        ) == builder.segments.push(frame) && trace.root.metrics == (MetricsRange {
            start: builder.segments.push(frame).first().metrics.start,
            end,
        })
            && trace.root.chunks == layout::tiled(
            layout::Gap::Pause,
            trace.root.metrics.start,
            builder.segments.push(frame),
            end,
        ),
{
    let call = builder.stack[0];
    assert(builder.stack.last() == call);
    assert(known_until(builder.stack, 0, builder.last_metrics) == builder.last_metrics);
    law_calls_in_order_complete(call, builder.last_metrics, end);
    let frame = call.completed(end)->Ok_0;
    let before = builder.segments;
    let all = before.push(frame);
    let range = MetricsRange { start: all.first().metrics.start, end };
    assert(layout::in_order(range.start, all, range.end)) by {
        assert forall|i: int, j: int| 0 <= i < j < all.len() implies (
        #[trigger] all[i]).metrics.end.reaches((#[trigger] all[j]).metrics.start) by {
            assert(all[i] == before[i]);
            if j < before.len() {
                assert(all[j] == before[j]);
            }
        }
    }
    layout::law_segments_in_order_fit_a_root(range, all);
    layout::law_tiling_shows_children(layout::Gap::Pause, range.start, all, end);
    lemma_roots_are_intact(all, end);
}

} // verus!
