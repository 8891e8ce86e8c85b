//! The counters that every point of a trace carries, and ranges of them.
use core::cmp::Ordering;

use vstd::prelude::*;

verus! {

/// A reading of the counters: a timestamp in nanoseconds, the cycles spent and
/// the instructions retired so far.
#[derive(Debug, Clone, Copy, PartialEq, Eq, Hash, Structural)]
pub struct Metrics {
    pub ts: u64,
    pub cycles: u64,
    pub insn_count: u64,
}

impl Metrics {
    /// No counter of `self` is ahead of the same counter of `later`.
    pub open spec fn reaches(self, later: Metrics) -> bool {
        &&& self.ts <= later.ts
        &&& self.cycles <= later.cycles
        &&& self.insn_count <= later.insn_count
    }

    /// Whether no counter runs backwards from `self` to `later`.
    pub fn can_reach(&self, later: &Metrics) -> (ok: bool)
        ensures
            ok == self.reaches(*later),
            ok <==> self.ts <= later.ts && self.cycles <= later.cycles && self.insn_count
                <= later.insn_count,
    {
        self.ts <= later.ts && self.cycles <= later.cycles && self.insn_count <= later.insn_count
    }

    /// `self` comes before `other` when readings are sorted: by timestamp, then
    /// by cycles, then by instructions.
    pub open spec fn sorts_before(self, other: Metrics) -> bool {
        ||| self.ts < other.ts
        ||| self.ts == other.ts && self.cycles < other.cycles
        ||| self.ts == other.ts && self.cycles == other.cycles && self.insn_count
            < other.insn_count
    }
}

impl PartialOrd for Metrics {
    fn partial_cmp(&self, other: &Metrics) -> (order: Option<Ordering>) {
        if self.ts < other.ts {
            Some(Ordering::Less)
        } else if self.ts > other.ts {
            Some(Ordering::Greater)
        } else if self.cycles < other.cycles {
            Some(Ordering::Less)
        } else if self.cycles > other.cycles {
            Some(Ordering::Greater)
        } else if self.insn_count < other.insn_count {
            Some(Ordering::Less)
        } else if self.insn_count > other.insn_count {
            Some(Ordering::Greater)
        } else {
            Some(Ordering::Equal)
        }
    }
}

impl vstd::std_specs::cmp::PartialOrdSpecImpl for Metrics {
    open spec fn obeys_partial_cmp_spec() -> bool {
        true
    }

    open spec fn partial_cmp_spec(&self, other: &Metrics) -> Option<Ordering> {
        if self.sorts_before(*other) {
            Some(Ordering::Less)
        } else if other.sorts_before(*self) {
            Some(Ordering::Greater)
        } else {
            Some(Ordering::Equal)
        }
    }
}

/// The stretch of a trace between two readings.
#[derive(Debug, Clone, Copy, PartialEq, Eq, Hash, Structural)]
pub struct MetricsRange {
    pub start: Metrics,
    pub end: Metrics,
}

impl MetricsRange {
    pub fn new(start: Metrics, end: Metrics) -> (range: MetricsRange)
        ensures
            range == (MetricsRange { start, end }),
    {
        MetricsRange { start, end }
    }

    /// No counter runs backwards over the range.
    pub open spec fn ordered(self) -> bool {
        self.start.reaches(self.end)
    }

    /// `inner` runs forwards and lies within this range.
    pub open spec fn spans(self, inner: MetricsRange) -> bool {
        &&& self.start.reaches(inner.start)
        &&& inner.ordered()
        &&& inner.end.reaches(self.end)
    }

    /// Whether `inner` runs forwards and lies within this range.
    pub fn covers(&self, inner: &MetricsRange) -> (ok: bool)
        ensures
            ok == self.spans(*inner),
            ok <==> self.start.ts <= inner.start.ts <= inner.end.ts <= self.end.ts
                && self.start.cycles <= inner.start.cycles <= inner.end.cycles <= self.end.cycles
                && self.start.insn_count <= inner.start.insn_count <= inner.end.insn_count
                <= self.end.insn_count,
    {
        self.start.can_reach(&inner.start) && inner.start.can_reach(&inner.end)
            && inner.end.can_reach(&self.end)
    }

    /// The clock does not run backwards over the range.
    pub open spec fn clock_ordered(self) -> bool {
        self.start.ts <= self.end.ts
    }

    /// The time between the two timestamps.
    pub open spec fn duration(self) -> int {
        self.end.ts - self.start.ts
    }

    /// The time spent in the range.
    pub fn total_time(&self) -> (time: u64)
        requires
            self.clock_ordered(),
        ensures
            time == self.duration(),
            time + self.start.ts == self.end.ts,
    {
        self.end.ts - self.start.ts
    }
}

/// One reading reaches another if no counter runs backwards from the first to the
/// second.
pub proof fn law_reaching_goes_by_every_counter(a: Metrics, b: Metrics)
    ensures
        a.reaches(b) <==> a.ts <= b.ts && a.cycles <= b.cycles && a.insn_count <= b.insn_count,
        a.reaches(b) && b.reaches(a) ==> a == b,
{
}

/// Readings are sorted by time, those of the same time by cycles, and those of the
/// same cycles too by instructions. Of two that differ, one comes before the other.
pub proof fn law_readings_sort_by_time_first(a: Metrics, b: Metrics)
    ensures
        a.ts < b.ts ==> a.sorts_before(b),
        a.ts == b.ts && a.cycles < b.cycles ==> a.sorts_before(b),
        a.ts == b.ts && a.cycles == b.cycles && a.insn_count < b.insn_count ==> a.sorts_before(b),
        !(a.sorts_before(b) && b.sorts_before(a)),
        a != b ==> a.sorts_before(b) || b.sorts_before(a),
        !a.sorts_before(a),
        vstd::std_specs::cmp::PartialOrdSpec::partial_cmp_spec(&a, &b) == Some(
            if a.ts != b.ts {
                if a.ts < b.ts {
                    Ordering::Less
                } else {
                    Ordering::Greater
                }
            } else if a.cycles != b.cycles {
                if a.cycles < b.cycles {
                    Ordering::Less
                } else {
                    Ordering::Greater
                }
            } else if a.insn_count != b.insn_count {
                if a.insn_count < b.insn_count {
                    Ordering::Less
                } else {
                    Ordering::Greater
                }
            } else {
                Ordering::Equal
            },
        ),
{
}

/// What ranges say, counter by counter.
pub proof fn law_ranges_go_by_every_counter(outer: MetricsRange, inner: MetricsRange)
    ensures
        inner.ordered() <==> inner.start.ts <= inner.end.ts && inner.start.cycles
            <= inner.end.cycles && inner.start.insn_count <= inner.end.insn_count,
        outer.spans(inner) <==> outer.start.ts <= inner.start.ts <= inner.end.ts <= outer.end.ts
            && outer.start.cycles <= inner.start.cycles <= inner.end.cycles <= outer.end.cycles
            && outer.start.insn_count <= inner.start.insn_count <= inner.end.insn_count
            <= outer.end.insn_count,
        inner.clock_ordered() <==> inner.start.ts <= inner.end.ts,
        inner.duration() == inner.end.ts - inner.start.ts,
{
}

} // verus!
