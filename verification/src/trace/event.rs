//! Events: things that happened at points of a trace.
use vstd::prelude::*;

use super::metrics::Metrics;

verus! {

/// The errors that a trace records as events.
#[derive(Debug, Clone, Copy, PartialEq, Eq, Hash, Structural)]
pub enum TraceError {
    /// Some of the data of the traced program was lost.
    DataCollectionError,
}

impl TraceError {
    /// The id of the event that records the error.
    pub open spec fn spec_id(self) -> u32 {
        match self {
            TraceError::DataCollectionError => 0,
        }
    }

    /// The id of the event that records the error.
    pub fn id(self) -> (id: u32)
        ensures
            id == self.spec_id(),
            self == TraceError::DataCollectionError ==> id == 0,
    {
        match self {
            TraceError::DataCollectionError => 0,
        }
    }
}

/// A kind of event, and when it occurred.
#[derive(Debug, PartialEq, Eq, Hash)]
pub struct Event {
    id: u32,
    name: String,
    description: String,
    occurences: Vec<Metrics>,
}

/// An event as a mathematical value.
#[verifier::ext_equal]
pub struct EventView {
    pub id: u32,
    pub name: Seq<char>,
    pub description: Seq<char>,
    pub occurences: Seq<Metrics>,
}

/// No reading stands behind one that comes later.
pub open spec fn sorted(readings: Seq<Metrics>) -> bool {
    forall|i: int, j: int|
        0 <= i < j < readings.len() ==> !(#[trigger] readings[j]).sorts_before(
            #[trigger] readings[i],
        )
}

/// The index at which `new` goes into `readings`: behind the last reading that
/// does not come later.
pub open spec fn slot(readings: Seq<Metrics>, new: Metrics) -> int
    decreases readings.len(),
{
    if readings.len() == 0 || !new.sorts_before(readings.last()) {
        readings.len() as int
    } else {
        slot(readings.drop_last(), new)
    }
}

impl EventView {
    /// The event once it has occurred at `at` too.
    pub open spec fn with_occurence(self, at: Metrics) -> EventView {
        EventView { occurences: self.occurences.insert(slot(self.occurences, at), at), ..self }
    }
}

proof fn lemma_slot(readings: Seq<Metrics>, new: Metrics)
    ensures
        0 <= slot(readings, new) <= readings.len(),
        slot(readings, new) > 0 ==> !new.sorts_before(readings[slot(readings, new) - 1]),
        forall|j: int|
            slot(readings, new) <= j < readings.len() ==> new.sorts_before(#[trigger] readings[j]),
    decreases readings.len(),
{
    if readings.len() > 0 && new.sorts_before(readings.last()) {
        lemma_slot(readings.drop_last(), new);
        assert forall|j: int| slot(readings, new) <= j < readings.len() implies new.sorts_before(
            #[trigger] readings[j],
        ) by {
            if j < readings.len() - 1 {
                assert(readings[j] == readings.drop_last()[j]);
            }
        }
    }
}

/// Occurences stay sorted as new ones come in, in whatever order they do, none is
/// lost, and nothing else of the event changes.
pub proof fn law_occurences_stay_sorted(event: EventView, at: Metrics)
    ensures
        event.with_occurence(at).id == event.id,
        event.with_occurence(at).name == event.name,
        event.with_occurence(at).description == event.description,
        sorted(event.occurences) ==> sorted(event.with_occurence(at).occurences),
        event.with_occurence(at).occurences.to_multiset() == event.occurences.to_multiset().insert(
            at,
        ),
{
    let before = event.occurences;
    let i = slot(before, at);
    let after = before.insert(i, at);
    lemma_slot(before, at);
    assert(after.to_multiset() =~= before.to_multiset().insert(at)) by {
        after.to_multiset_ensures();
        assert(after.remove(i) =~= before);
        assert(after[i] == at);
        assert(after.contains(at));
    }
    if sorted(before) {
        assert forall|j: int, k: int| 0 <= j < k < after.len() implies !(
        #[trigger] after[k]).sorts_before(#[trigger] after[j]) by {
            let from_k = if k < i { k } else { k - 1 };
            let from_j = if j < i { j } else { j - 1 };
            if k != i && j != i {
                assert(after[k] == before[from_k] && after[j] == before[from_j]);
            } else if k == i {
                assert(after[j] == before[j]);
                assert(!before[i - 1].sorts_before(before[j]) || j == i - 1);
            } else {
                assert(after[k] == before[k - 1]);
            }
        }
    }
}

/// Sorted means that no reading comes before one that stands in front of it, by time,
/// then by cycles, then by instructions.
pub proof fn law_sorted_goes_by_time_first(readings: Seq<Metrics>, i: int, j: int)
    requires
        sorted(readings),
        0 <= i < j < readings.len(),
    ensures
        readings[i].ts <= readings[j].ts,
        readings[i].ts == readings[j].ts ==> readings[i].cycles <= readings[j].cycles,
        readings[i].ts == readings[j].ts && readings[i].cycles == readings[j].cycles
            ==> readings[i].insn_count <= readings[j].insn_count,
{
    assert(!readings[j].sorts_before(readings[i]));
}

impl View for Event {
    type V = EventView;

    closed spec fn view(&self) -> EventView {
        EventView {
            id: self.id,
            name: self.name@,
            description: self.description@,
            occurences: self.occurences@,
        }
    }
}

/// The views of a list of events.
pub open spec fn event_views(events: Seq<Event>) -> Seq<EventView> {
    Seq::new(events.len(), |i: int| events[i]@)
}

impl Event {
    /// An event that has not occurred yet.
    pub fn new(id: u32, name: String, description: String) -> (event: Event)
        ensures
            event@ == (EventView {
                id,
                name: name@,
                description: description@,
                occurences: Seq::empty(),
            }),
    {
        Event { id, name, description, occurences: Vec::new() }
    }

    pub fn id(&self) -> (id: u32)
        ensures
            id == self@.id,
    {
        self.id
    }

    pub fn name(&self) -> (name: &String)
        ensures
            name@ == self@.name,
    {
        &self.name
    }

    pub fn description(&self) -> (description: &String)
        ensures
            description@ == self@.description,
    {
        &self.description
    }

    /// When the event occurred, from the earliest occurence to the latest.
    pub fn occurences(&self) -> (occurences: &Vec<Metrics>)
        ensures
            occurences@ == self@.occurences,
    {
        &self.occurences
    }

    /// Records that the event occurred at `at`.
    pub fn add_occurence(&mut self, at: Metrics)
        ensures
            final(self)@ == old(self)@.with_occurence(at),
            sorted(old(self)@.occurences) ==> sorted(final(self)@.occurences),
            final(self)@.id == old(self)@.id,
            final(self)@.name == old(self)@.name,
            final(self)@.description == old(self)@.description,
            final(self)@.occurences.to_multiset() == old(self)@.occurences.to_multiset().insert(at),
    {
        let ghost before = self.occurences@;
        let mut i: usize = self.occurences.len();
        assert(before.take(i as int) =~= before);
        while i > 0 && at < self.occurences[i - 1]
            invariant
                i <= self.occurences@.len(),
                self == old(self),
                before == self.occurences@,
                slot(before, at) == slot(before.take(i as int), at),
            decreases i,
        {
            assert(before.take(i as int).drop_last() =~= before.take(i - 1));
            i -= 1;
        }
        proof {
            law_occurences_stay_sorted(self@, at);
        }
        self.occurences.insert(i, at);
    }
}

} // verus!
