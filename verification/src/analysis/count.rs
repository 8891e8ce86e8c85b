//! Counting how often an event occurred while certain frames ran.
use vstd::prelude::*;

use crate::trace::event;
use crate::trace::{Metrics, MetricsRange};

verus! {

/// The reading lies in the stretch, whose end does not belong to it.
pub open spec fn holds(range: MetricsRange, at: Metrics) -> bool {
    !at.sorts_before(range.start) && at.sorts_before(range.end)
}

/// Going through `readings` from index `from` up to the end of `range`: how many
/// of them do not lie before it, and where the next range goes on.
pub open spec fn passed(readings: Seq<Metrics>, from: int, range: MetricsRange) -> (nat, int)
    decreases readings.len() - from,
{
    if 0 <= from < readings.len() && readings[from].sorts_before(range.end) {
        let (count, next) = passed(readings, from + 1, range);
        if readings[from].sorts_before(range.start) {
            (count, next)
        } else {
            (count + 1, next)
        }
    } else {
        (0, from)
    }
}

/// Going through `readings` from index `from` along with `ranges`: how many of
/// them are found in a range.
pub open spec fn count_from(ranges: Seq<MetricsRange>, readings: Seq<Metrics>, from: int) -> nat
    decreases ranges.len(),
{
    if ranges.len() == 0 {
        0
    } else {
        let (count, next) = passed(readings, from, ranges.first());
        count + count_from(ranges.drop_first(), readings, next)
    }
}

/// How many of the readings are found in a range, when both are gone through
/// side by side.
pub fn count_occurences(ranges: &Vec<MetricsRange>, readings: &Vec<Metrics>) -> (count: usize)
    ensures
        count == count_from(ranges@, readings@, 0),
        count <= readings@.len(),
{
    let mut count: usize = 0;
    let mut index: usize = 0;
    let mut i: usize = 0;
    assert(ranges@.skip(0) =~= ranges@);
    while i < ranges.len()
        invariant
            i <= ranges@.len(),
            count <= index <= readings@.len(),
            count + count_from(ranges@.skip(i as int), readings@, index as int) == count_from(
                ranges@,
                readings@,
                0,
            ),
        decreases ranges@.len() - i,
    {
        let range = ranges[i];
        let ghost rest = ranges@.skip(i + 1);
        assert(ranges@.skip(i as int).drop_first() =~= rest);
        assert(ranges@.skip(i as int).first() == range);
        while index < readings.len() && readings[index] < range.end
            invariant
                count <= index <= readings@.len(),
                count + passed(readings@, index as int, range).0 + count_from(
                    rest,
                    readings@,
                    passed(readings@, index as int, range).1,
                ) == count_from(ranges@, readings@, 0),
            decreases readings@.len() - index,
        {
            if readings[index] >= range.start {
                count += 1;
            }
            index += 1;
        }
        i += 1;
    }
    count
}

/// The reading lies in one of the ranges.
pub open spec fn in_any(ranges: Seq<MetricsRange>, at: Metrics) -> bool {
    exists|k: int| 0 <= k < ranges.len() && holds(#[trigger] ranges[k], at)
}

/// How many of the readings from index `from` on lie in one of the ranges.
pub open spec fn readings_within(ranges: Seq<MetricsRange>, readings: Seq<Metrics>, from: int) -> nat
    decreases readings.len() - from,
{
    if 0 <= from < readings.len() {
        readings_within(ranges, readings, from + 1) + if in_any(ranges, readings[from]) {
            1nat
        } else {
            0nat
        }
    } else {
        0
    }
}

/// No range begins before one that stands in front of it.
pub open spec fn starts_sorted(ranges: Seq<MetricsRange>) -> bool {
    forall|i: int, j: int|
        0 <= i < j < ranges.len() ==> !(#[trigger] ranges[j]).start.sorts_before(
            (#[trigger] ranges[i]).start,
        )
}

proof fn lemma_readings_behind_first(
    ranges: Seq<MetricsRange>,
    readings: Seq<Metrics>,
    from: int,
)
    requires
        ranges.len() > 0,
        0 <= from,
        forall|i: int|
            from <= i < readings.len() ==> !(#[trigger] readings[i]).sorts_before(
                ranges.first().end,
            ),
    ensures
        readings_within(ranges, readings, from) == readings_within(
            ranges.drop_first(),
            readings,
            from,
        ),
    decreases readings.len() - from,
{
    if from < readings.len() {
        let at = readings[from];
        lemma_readings_behind_first(ranges, readings, from + 1);
        assert(!holds(ranges[0], at));
        if in_any(ranges, at) {
            let k = choose|k: int| 0 <= k < ranges.len() && holds(#[trigger] ranges[k], at);
            assert(holds(ranges.drop_first()[k - 1], at));
        }
        if in_any(ranges.drop_first(), at) {
            let k = choose|k: int|
                0 <= k < ranges.drop_first().len() && holds(
                    #[trigger] ranges.drop_first()[k],
                    at,
                );
            assert(holds(ranges[k + 1], at));
        }
    }
}

proof fn lemma_passed_counts(ranges: Seq<MetricsRange>, readings: Seq<Metrics>, from: int)
    requires
        ranges.len() > 0,
        0 <= from,
        starts_sorted(ranges),
        event::sorted(readings),
    ensures
        readings_within(ranges, readings, from) == passed(readings, from, ranges.first()).0
            + readings_within(
            ranges.drop_first(),
            readings,
            passed(readings, from, ranges.first()).1,
        ),
        passed(readings, from, ranges.first()).1 >= from,
    decreases readings.len() - from,
{
    let first = ranges.first();
    if from < readings.len() && readings[from].sorts_before(first.end) {
        let at = readings[from];
        lemma_passed_counts(ranges, readings, from + 1);
        if !at.sorts_before(first.start) {
            assert(holds(ranges[0], at));
        } else if in_any(ranges, at) {
            let k = choose|k: int| 0 <= k < ranges.len() && holds(#[trigger] ranges[k], at);
            assert(k == 0 || !ranges[k].start.sorts_before(ranges[0].start));
        }
    } else {
        assert forall|i: int| from <= i < readings.len() implies !(
        #[trigger] readings[i]).sorts_before(first.end) by {
            assert(i == from || !readings[i].sorts_before(readings[from]));
        }
        lemma_readings_behind_first(ranges, readings, from);
    }
}

proof fn lemma_count_from(ranges: Seq<MetricsRange>, readings: Seq<Metrics>, from: int)
    requires
        0 <= from,
        starts_sorted(ranges),
        event::sorted(readings),
    ensures
        count_from(ranges, readings, from) == readings_within(ranges, readings, from),
    decreases ranges.len(), readings.len() - from,
{
    if ranges.len() == 0 {
        if from < readings.len() {
            lemma_count_from(ranges, readings, from + 1);
        }
    } else {
        lemma_passed_counts(ranges, readings, from);
        let next = passed(readings, from, ranges.first()).1;
        assert forall|i: int, j: int| 0 <= i < j < ranges.drop_first().len() implies !(
        #[trigger] ranges.drop_first()[j]).start.sorts_before(
            (#[trigger] ranges.drop_first()[i]).start,
        ) by {
            assert(!ranges[j + 1].start.sorts_before(ranges[i + 1].start));
        }
        lemma_count_from(ranges.drop_first(), readings, next);
    }
}

/// When the readings are sorted and the ranges are sorted by where they begin,
/// going through both side by side counts every reading that lies in a range,
/// and counts it once, even where ranges overlap.
pub proof fn law_every_occurence_counts_once(ranges: Seq<MetricsRange>, readings: Seq<Metrics>)
    requires
        starts_sorted(ranges),
        event::sorted(readings),
    ensures
        count_from(ranges, readings, 0) == readings_within(ranges, readings, 0),
{
    lemma_count_from(ranges, readings, 0);
}

/// Counting goes on from where it stands: a reading that comes before the end of the
/// first range is done with, and counts unless it comes before its start; one that does
/// not is left for the ranges behind. Nothing counts where there are no ranges or no
/// readings left.
pub proof fn law_counting_goes_reading_by_reading(
    ranges: Seq<MetricsRange>,
    readings: Seq<Metrics>,
    from: int,
)
    requires
        0 <= from,
    ensures
        ranges.len() == 0 || from >= readings.len() ==> count_from(ranges, readings, from) == 0,
        ranges.len() > 0 && from < readings.len() ==> count_from(ranges, readings, from) == if !readings[from].sorts_before(
            ranges[0].end,
        ) {
            count_from(ranges.drop_first(), readings, from)
        } else if readings[from].sorts_before(ranges[0].start) {
            count_from(ranges, readings, from + 1)
        } else {
            1 + count_from(ranges, readings, from + 1)
        },
    decreases ranges.len(),
{
    reveal_with_fuel(passed, 2);
    if ranges.len() > 0 {
        assert(ranges.first() == ranges[0]);
        if from >= readings.len() {
            law_counting_goes_reading_by_reading(ranges.drop_first(), readings, from);
        }
    }
}

proof fn lemma_within_is_filtered(ranges: Seq<MetricsRange>, readings: Seq<Metrics>, from: int)
    requires
        0 <= from <= readings.len(),
    ensures
        readings_within(ranges, readings, from) == readings.skip(from).filter(
            |at: Metrics|
                exists|k: int|
                    0 <= k < ranges.len() && !at.sorts_before((#[trigger] ranges[k]).start)
                        && at.sorts_before(ranges[k].end),
        ).len(),
    decreases readings.len() - from,
{
    let inside = |at: Metrics|
        exists|k: int|
            0 <= k < ranges.len() && !at.sorts_before((#[trigger] ranges[k]).start)
                && at.sorts_before(ranges[k].end);
    let left = readings.skip(from);
    reveal_with_fuel(Seq::filter, 2);
    if from < readings.len() {
        let here = seq![readings[from]];
        let rest = readings.skip(from + 1);
        lemma_within_is_filtered(ranges, readings, from + 1);
        assert(left =~= here + rest);
        Seq::filter_distributes_over_add(here, rest, inside);
        assert(here.drop_last() =~= Seq::<Metrics>::empty());
        assert(in_any(ranges, readings[from]) <==> inside(readings[from])) by {
            if in_any(ranges, readings[from]) {
                let k = choose|k: int|
                    0 <= k < ranges.len() && holds(#[trigger] ranges[k], readings[from]);
                assert(!readings[from].sorts_before(ranges[k].start));
            }
            if inside(readings[from]) {
                let k = choose|k: int|
                    0 <= k < ranges.len() && !readings[from].sorts_before(
                        (#[trigger] ranges[k]).start,
                    ) && readings[from].sorts_before(ranges[k].end);
                assert(holds(ranges[k], readings[from]));
            }
        }
    } else {
        assert(left =~= Seq::<Metrics>::empty());
    }
}

/// When the readings are sorted and the ranges are sorted by where they begin, the
/// count is the number of readings that lie in a range: not before its start, and
/// before its end.
pub proof fn law_the_count_is_of_readings_in_a_range(
    ranges: Seq<MetricsRange>,
    readings: Seq<Metrics>,
)
    requires
        starts_sorted(ranges),
        event::sorted(readings),
    ensures
        count_from(ranges, readings, 0) == readings.filter(
            |at: Metrics|
                exists|k: int|
                    0 <= k < ranges.len() && !at.sorts_before((#[trigger] ranges[k]).start)
                        && at.sorts_before(ranges[k].end),
        ).len(),
{
    law_every_occurence_counts_once(ranges, readings);
    lemma_within_is_filtered(ranges, readings, 0);
    assert(readings.skip(0) =~= readings);
}

} // verus!
