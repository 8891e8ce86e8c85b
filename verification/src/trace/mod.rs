//! Traces: nested frames over a monotone set of counters, and the events that
//! occurred while they ran.
use vstd::prelude::*;

pub mod builder;
pub mod event;
pub mod frame;
pub mod layout;
pub mod metrics;
pub mod placement;

pub use builder::{BuilderResult, PausedTraceBuilder, TraceBuilder};
pub use event::{Event, TraceError};
pub use frame::{Chunk, Frame, NamedFrame, RootFrame, SymbolInfo};
pub use layout::FrameError;
pub use metrics::{Metrics, MetricsRange};

verus! {

/// The run of a program: the frame that holds all of it, and the events that
/// occurred.
#[derive(Debug, PartialEq, Eq, Hash)]
pub struct Trace {
    pub root: RootFrame,
    pub events: Vec<Event>,
}

/// A trace as a mathematical value.
#[verifier::ext_equal]
pub struct TraceView {
    pub root: layout::RootView,
    pub events: Seq<event::EventView>,
}

impl View for Trace {
    type V = TraceView;

    open spec fn view(&self) -> TraceView {
        TraceView { root: self.root@, events: event::event_views(self.events@) }
    }
}

/// The views of a list of traces.
pub open spec fn trace_views(traces: Seq<Trace>) -> Seq<TraceView> {
    Seq::new(traces.len(), |i: int| traces[i]@)
}

impl TraceView {
    /// Every frame of the trace is filled by its chunks, and the occurences of
    /// every event are sorted.
    pub open spec fn intact(self) -> bool {
        &&& self.root.intact()
        &&& forall|i: int|
            0 <= i < self.events.len() ==> event::sorted((#[trigger] self.events[i]).occurences)
    }

    /// The first event with the given id.
    pub open spec fn event(self, id: u32) -> Option<event::EventView> {
        first_event(self.events, id)
    }
}

/// The first of `events` with the given id.
pub open spec fn first_event(events: Seq<event::EventView>, id: u32) -> Option<event::EventView>
    decreases events.len(),
{
    if events.len() == 0 {
        None
    } else if events.first().id == id {
        Some(events.first())
    } else {
        first_event(events.drop_first(), id)
    }
}

/// The event at index `i` has the given id, and none in front of it has.
pub open spec fn first_with_id(events: Seq<event::EventView>, id: u32, i: int) -> bool {
    &&& 0 <= i < events.len()
    &&& events[i].id == id
    &&& forall|j: int| 0 <= j < i ==> (#[trigger] events[j]).id != id
}

/// The first event with an id has that id and no event in front of it has. There is
/// none only where no event has that id.
pub proof fn law_first_event_is_the_first(events: Seq<event::EventView>, id: u32)
    ensures
        match first_event(events, id) {
            Some(found) => exists|i: int| #[trigger] first_with_id(events, id, i) && found
                == events[i],
            None => forall|i: int| 0 <= i < events.len() ==> (#[trigger] events[i]).id != id,
        },
    decreases events.len(),
{
    if events.len() > 0 {
        if events.first().id == id {
            assert(first_with_id(events, id, 0));
        } else {
            let rest = events.drop_first();
            law_first_event_is_the_first(rest, id);
            match first_event(events, id) {
                Some(found) => {
                    let i = choose|i: int| #[trigger] first_with_id(rest, id, i) && found
                        == rest[i];
                    assert(events[i + 1] == rest[i]);
                    assert forall|j: int| 0 <= j < i + 1 implies (#[trigger] events[j]).id
                        != id by {
                        if j > 0 {
                            assert(events[j] == rest[j - 1]);
                        }
                    }
                    assert(first_with_id(events, id, i + 1));
                },
                None => {
                    assert forall|i: int| 0 <= i < events.len() implies (#[trigger] events[i]).id
                        != id by {
                        if i > 0 {
                            assert(events[i] == rest[i - 1]);
                        }
                    }
                },
            }
        }
    }
}

/// The first event with an id is one of the events.
pub(crate) proof fn lemma_events_are_listed(events: Seq<event::EventView>, id: u32)
    requires
        first_event(events, id) is Some,
    ensures
        events.contains(first_event(events, id)->0),
    decreases events.len(),
{
    if events.first().id != id {
        lemma_events_are_listed(events.drop_first(), id);
        let found = first_event(events, id)->0;
        let i = choose|i: int|
            0 <= i < events.drop_first().len() && events.drop_first()[i] == found;
        assert(events[i + 1] == found);
    } else {
        assert(events[0] == events.first());
    }
}

impl Trace {
    pub fn new(root: RootFrame, events: Vec<Event>) -> (trace: Trace)
        ensures
            trace@ == (TraceView { root: root@, events: event::event_views(events@) }),
    {
        Trace { root, events }
    }

    /// The frame that holds the whole trace.
    pub fn root_frame(&self) -> (root: &RootFrame)
        ensures
            root@ == self@.root,
    {
        &self.root
    }

    /// The events of the trace.
    pub fn events(&self) -> (events: &Vec<Event>)
        ensures
            event::event_views(events@) == self@.events,
    {
        &self.events
    }

    /// The first event with the given id, if there is one.
    pub fn get_event(&self, id: u32) -> (found: Option<&Event>)
        ensures
            match self@.event(id) {
                Some(event) => found matches Some(own) && own@ == event,
                None => found is None,
            },
            match found {
                Some(own) => exists|i: int| #[trigger] first_with_id(self@.events, id, i) && own@
                    == self@.events[i],
                None => forall|i: int|
                    0 <= i < self@.events.len() ==> (#[trigger] self@.events[i]).id != id,
            },
    {
        proof {
            law_first_event_is_the_first(self@.events, id);
        }
        let ghost views = self@.events;
        let mut i: usize = 0;
        assert(views.skip(0) =~= views);
        while i < self.events.len()
            invariant
                i <= self.events@.len(),
                views == event::event_views(self.events@),
                views == self@.events,
                first_event(views, id) == first_event(views.skip(i as int), id),
            decreases self.events@.len() - i,
        {
            assert(views.skip(i as int).first() == self.events@[i as int]@);
            assert(views.skip(i as int).drop_first() =~= views.skip(i + 1));
            if self.events[i].id() == id {
                proof {
                    law_first_event_is_the_first(views, id);
                }
                return Some(&self.events[i]);
            }
            i += 1;
        }
        None
    }
}

} // verus!
