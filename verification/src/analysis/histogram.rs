//! The figures behind a histogram of traces.
use regex::Regex;
use vstd::prelude::*;

use super::count;
use super::filter;
use super::finder;
use super::pattern;
use crate::trace;
use crate::trace::event::EventView;
use crate::trace::{Event, MetricsRange, Trace, TraceError, TraceView};

verus! {

/// What a histogram shows.
#[derive(Debug, Clone, Copy, PartialEq, Eq, Structural)]
pub enum Action {
    /// How many errors there were in each trace.
    Error,
    /// How long each frame took.
    Latency,
}

/// The times that the frames took.
pub open spec fn durations(frames: Seq<MetricsRange>) -> Seq<u64> {
    frames.map_values(|range: MetricsRange| range.duration() as u64)
}

/// The figures that the frames of one trace add.
pub open spec fn datapoints(
    frames: Seq<MetricsRange>,
    errors: Option<EventView>,
    action: Action,
) -> Seq<u64> {
    match action {
        Action::Error => seq![filter::errors_in(frames, errors) as u64],
        Action::Latency => durations(frames),
    }
}

/// Adds the figures of one trace: for errors, one figure for all frames, and for
/// latencies, one for each.
pub fn add_histogram_datapoint(
    frames: &Vec<MetricsRange>,
    error_event: Option<&Event>,
    data: &mut Vec<u64>,
    action: &Action,
)
    requires
        *action == Action::Latency ==> forall|i: int|
            0 <= i < frames@.len() ==> (#[trigger] frames@[i]).clock_ordered(),
    ensures
        final(data)@ == old(data)@ + datapoints(
            frames@,
            match error_event {
                Some(event) => Some(event@),
                None => None,
            },
            *action,
        ),
        final(data)@.take(old(data)@.len() as int) == old(data)@,
        *action == Action::Latency ==> final(data)@.len() == old(data)@.len() + frames@.len()
            && forall|i: int|
            0 <= i < frames@.len() ==> (#[trigger] frames@[i]).start.ts + final(data)@[old(
                data,
            )@.len() + i] == frames@[i].end.ts,
        *action == Action::Error ==> final(data)@.len() == old(data)@.len() + 1
            && final(data)@.last() == match error_event {
            Some(event) => count::count_from(frames@, event@.occurences, 0),
            None => 0,
        },
{
    let ghost kept = data@;
    match action {
        Action::Error => {
            let num_errors = match error_event {
                Some(event) => count::count_occurences(frames, event.occurences()),
                None => 0,
            };
            data.push(num_errors as u64);
            assert(data@.take(kept.len() as int) =~= kept);
        },
        Action::Latency => {
            let ghost before = data@;
            let mut i: usize = 0;
            assert(before + durations(frames@.take(0)) =~= before);
            while i < frames.len()
                invariant
                    i <= frames@.len(),
                    forall|j: int|
                        0 <= j < frames@.len() ==> (#[trigger] frames@[j]).clock_ordered(),
                    data@ == before + durations(frames@.take(i as int)),
                decreases frames@.len() - i,
            {
                data.push(frames[i].total_time());
                assert(data@ =~= before + durations(frames@.take(i + 1)));
                i += 1;
            }
            assert(frames@.take(i as int) =~= frames@);
            assert(data@.take(kept.len() as int) =~= kept);
            assert forall|j: int| 0 <= j < frames@.len() implies (#[trigger] frames@[j]).start.ts
                + data@[kept.len() + j] == frames@[j].end.ts by {
                assert(data@[kept.len() + j] == durations(frames@)[j]);
            }
        },
    }
}

/// The figures of all traces, one trace after the other.
pub open spec fn all_datapoints(
    traces: Seq<TraceView>,
    target: Option<Regex>,
    action: Action,
) -> Seq<u64>
    decreases traces.len(),
{
    if traces.len() == 0 {
        seq![]
    } else {
        all_datapoints(traces.drop_last(), target, action) + datapoints(
            finder::frames_of_interest(traces.last(), target),
            traces.last().event(TraceError::DataCollectionError.spec_id()),
            action,
        )
    }
}

/// The times that the histogram shows are known of all traces.
pub open spec fn can_gather(traces: Seq<TraceView>, target: Option<Regex>, action: Action) -> bool {
    action == Action::Latency ==> forall|i: int|
        0 <= i < traces.len() ==> finder::clocks_ordered(
            finder::frames_of_interest(#[trigger] traces[i], target),
        )
}

/// The figures of all traces, if the times that the histogram shows are known.
pub open spec fn figures(traces: Seq<TraceView>, target: Option<Regex>, action: Action) -> Option<
    Seq<u64>,
> {
    if can_gather(traces, target, action) {
        Some(all_datapoints(traces, target, action))
    } else {
        None
    }
}

/// Gathers the figures of all traces: of the frames whose symbol's name `target`
/// matches, or of the root frames if there is no target.
pub fn histogram_data(traces: &Vec<Trace>, target: Option<&Regex>, action: Action) -> (data: Vec<
    u64,
>)
    requires
        can_gather(
            trace::trace_views(traces@),
            match target {
                Some(regex) => Some(*regex),
                None => None,
            },
            action,
        ),
    ensures
        data@ == all_datapoints(
            trace::trace_views(traces@),
            match target {
                Some(regex) => Some(*regex),
                None => None,
            },
            action,
        ),
{
    let ghost views = trace::trace_views(traces@);
    let ghost wanted = match target {
        Some(regex) => Some(*regex),
        None => None,
    };
    let mut data: Vec<u64> = Vec::new();
    let mut i: usize = 0;
    while i < traces.len()
        invariant
            i <= traces@.len(),
            can_gather(views, wanted, action),
            views == trace::trace_views(traces@),
            wanted == (match target {
                Some(regex) => Some(*regex),
                None => None,
            }),
            data@ == all_datapoints(views.take(i as int), wanted, action),
        decreases traces@.len() - i,
    {
        let trace = &traces[i];
        assert(views.take(i + 1).drop_last() =~= views.take(i as int));
        assert(views.take(i + 1).last() == trace@);
        let error_event = trace.get_event(TraceError::DataCollectionError.id());
        let frames = finder::frames_to_analyse(trace, target);
        assert(views[i as int] == trace@);
        add_histogram_datapoint(&frames, error_event, &mut data, &action);
        i += 1;
    }
    assert(views.take(i as int) =~= views);
    data
}

/// Whether the times that the histogram shows are known of all traces.
fn latencies_are_known(traces: &Vec<Trace>, target: Option<&Regex>, action: Action) -> (ok: bool)
    ensures
        ok == can_gather(
            trace::trace_views(traces@),
            match target {
                Some(regex) => Some(*regex),
                None => None,
            },
            action,
        ),
{
    let ghost views = trace::trace_views(traces@);
    let ghost wanted = match target {
        Some(regex) => Some(*regex),
        None => None,
    };
    if action == Action::Error {
        return true;
    }
    let mut i: usize = 0;
    while i < traces.len()
        invariant
            i <= traces@.len(),
            views == trace::trace_views(traces@),
            wanted == (match target {
                Some(regex) => Some(*regex),
                None => None,
            }),
            action == Action::Latency,
            forall|j: int|
                0 <= j < i ==> finder::clocks_ordered(
                    finder::frames_of_interest(#[trigger] views[j], wanted),
                ),
        decreases traces@.len() - i,
    {
        let frames = finder::frames_to_analyse(&traces[i], target);
        assert(views[i as int] == traces@[i as int]@);
        let mut k: usize = 0;
        while k < frames.len()
            invariant
                k <= frames@.len(),
                forall|j: int| 0 <= j < k ==> (#[trigger] frames@[j]).clock_ordered(),
                frames@ == finder::frames_of_interest(views[i as int], wanted),
                i < views.len(),
                views == trace::trace_views(traces@),
                wanted == (match target {
                    Some(regex) => Some(*regex),
                    None => None,
                }),
                action == Action::Latency,
            decreases frames@.len() - k,
        {
            if frames[k].start.ts > frames[k].end.ts {
                assert(!finder::clocks_ordered(frames@));
                return false;
            }
            k += 1;
        }
        i += 1;
    }
    true
}

/// Gathers the figures of all traces. Nothing comes of it where the histogram shows
/// how long frames took and one of them ends before it begins.
pub fn try_histogram_data(traces: &Vec<Trace>, target: Option<&Regex>, action: Action) -> (data:
    Option<Vec<u64>>)
    ensures
        match figures(
            trace::trace_views(traces@),
            match target {
                Some(regex) => Some(*regex),
                None => None,
            },
            action,
        ) {
            Some(figures) => data matches Some(own) && own@ == figures,
            None => data is None,
        },
{
    if latencies_are_known(traces, target, action) {
        Some(histogram_data(traces, target, action))
    } else {
        None
    }
}

/// Gathers the figures of all traces: of the frames whose symbol's name the
/// expression `name` matches, or of the root frames if there is none. An expression
/// that cannot be compiled is refused with what is wrong with it. Nothing comes of it
/// where the histogram shows how long frames took and one of them ends before it
/// begins.
pub fn histogram_data_named(traces: &Vec<Trace>, name: Option<&str>, action: Action) -> (result:
    Result<Option<Vec<u64>>, String>)
    ensures
        match name {
            None => match figures(trace::trace_views(traces@), None, action) {
                Some(figures) => result matches Ok(Some(data)) && data@ == figures,
                None => result matches Ok(None),
            },
            Some(name) => match pattern::compiled(name@) {
                Ok(regex) => match figures(trace::trace_views(traces@), Some(regex), action) {
                    Some(figures) => result matches Ok(Some(data)) && data@ == figures,
                    None => result matches Ok(None),
                },
                Err(error) => result matches Err(words) && words@ == pattern::error_text(error),
            },
        },
{
    match name {
        None => Ok(try_histogram_data(traces, None, action)),
        Some(name) => match Regex::new(name) {
            Ok(regex) => Ok(try_histogram_data(traces, Some(&regex), action)),
            Err(error) => Err(pattern::describe_error(&error)),
        },
    }
}

/// Figures can be gathered of intact traces, whatever the histogram shows.
pub proof fn law_intact_traces_have_figures(
    traces: Seq<TraceView>,
    target: Option<Regex>,
    action: Action,
)
    requires
        forall|i: int| 0 <= i < traces.len() ==> (#[trigger] traces[i]).root.intact(),
    ensures
        can_gather(traces, target, action),
{
    assert forall|i: int| 0 <= i < traces.len() implies finder::clocks_ordered(
        finder::frames_of_interest(#[trigger] traces[i], target),
    ) by {
        finder::law_frames_to_analyse_run_forwards(traces[i], target);
    }
}

/// A histogram of errors has one figure for each trace, which is the number of
/// errors in it.
pub proof fn law_one_error_figure_per_trace(traces: Seq<TraceView>, target: Option<Regex>)
    ensures
        all_datapoints(traces, target, Action::Error) == traces.map_values(
            |trace: TraceView|
                filter::errors_in(
                    finder::frames_of_interest(trace, target),
                    trace.event(TraceError::DataCollectionError.spec_id()),
                ) as u64,
        ),
    decreases traces.len(),
{
    if traces.len() > 0 {
        law_one_error_figure_per_trace(traces.drop_last(), target);
    }
    assert(all_datapoints(traces, target, Action::Error) =~= traces.map_values(
        |trace: TraceView|
            filter::errors_in(
                finder::frames_of_interest(trace, target),
                trace.event(TraceError::DataCollectionError.spec_id()),
            ) as u64,
    ));
}

/// Without a target, a histogram of latencies has one figure for each trace,
/// which is the time that all of it took.
pub proof fn law_one_root_latency_per_trace(traces: Seq<TraceView>)
    ensures
        all_datapoints(traces, None, Action::Latency) == traces.map_values(
            |trace: TraceView| trace.root.metrics.duration() as u64,
        ),
    decreases traces.len(),
{
    if traces.len() > 0 {
        law_one_root_latency_per_trace(traces.drop_last());
    }
    assert(all_datapoints(traces, None, Action::Latency) =~= traces.map_values(
        |trace: TraceView| trace.root.metrics.duration() as u64,
    ));
}

/// For latencies the figure of every frame is the time between its own two timestamps,
/// whatever the other frames are; for errors the one figure is their number.
pub proof fn law_figures_are_of_the_own_frame(
    frames: Seq<MetricsRange>,
    errors: Option<EventView>,
)
    ensures
        datapoints(frames, errors, Action::Latency).len() == frames.len(),
        forall|i: int|
            0 <= i < frames.len() && frames[i].start.ts <= frames[i].end.ts ==> (
            #[trigger] datapoints(frames, errors, Action::Latency)[i]) == frames[i].end.ts
                - frames[i].start.ts,
        datapoints(frames, errors, Action::Error) == seq![
            match errors {
                Some(event) => count::count_from(frames, event.occurences, 0) as u64,
                None => 0,
            },
        ],
{
}

/// The figures of traces come one trace after the other, each trace's whatever the
/// others are.
pub proof fn law_figures_come_trace_by_trace(
    earlier: Seq<TraceView>,
    later: Seq<TraceView>,
    trace: TraceView,
    target: Option<Regex>,
    action: Action,
)
    ensures
        all_datapoints(earlier + later, target, action) == all_datapoints(earlier, target, action)
            + all_datapoints(later, target, action),
        all_datapoints(seq![trace], target, action) == datapoints(
            finder::frames_of_interest(trace, target),
            trace.event(TraceError::DataCollectionError.spec_id()),
            action,
        ),
        all_datapoints(seq![trace], target, Action::Latency)
            == finder::frames_of_interest(trace, target).map_values(
            |range: MetricsRange| (range.end.ts - range.start.ts) as u64,
        ),
    decreases later.len(),
{
    reveal_with_fuel(all_datapoints, 2);
    let one = seq![trace];
    assert(one.drop_last() =~= Seq::<TraceView>::empty());
    assert(all_datapoints(one, target, action) =~= datapoints(
        finder::frames_of_interest(trace, target),
        trace.event(TraceError::DataCollectionError.spec_id()),
        action,
    ));
    assert(all_datapoints(one, target, Action::Latency) =~= finder::frames_of_interest(
        trace,
        target,
    ).map_values(|range: MetricsRange| (range.end.ts - range.start.ts) as u64));
    if later.len() == 0 {
        assert(earlier + later =~= earlier);
        assert(all_datapoints(later, target, action) =~= Seq::<u64>::empty());
    } else {
        law_figures_come_trace_by_trace(earlier, later.drop_last(), trace, target, action);
        assert((earlier + later).drop_last() =~= earlier + later.drop_last());
        assert((earlier + later).last() == later.last());
    }
    assert(all_datapoints(earlier + later, target, action) =~= all_datapoints(
        earlier,
        target,
        action,
    ) + all_datapoints(later, target, action));
}

/// There are figures if and only if no latency is asked of a frame that ends before it
/// begins.
pub proof fn law_figures_need_known_times(
    traces: Seq<TraceView>,
    target: Option<Regex>,
    action: Action,
)
    ensures
        figures(traces, target, action) is Some <==> (action == Action::Latency ==> forall|
            i: int,
            k: int,
        |
            0 <= i < traces.len() && 0 <= k < finder::frames_of_interest(
                traces[i],
                target,
            ).len() ==> (#[trigger] finder::frames_of_interest(traces[i], target)[k]).start.ts
                <= finder::frames_of_interest(traces[i], target)[k].end.ts),
        figures(traces, target, action) matches Some(data) ==> data == all_datapoints(
            traces,
            target,
            action,
        ),
{
    if can_gather(traces, target, action) && action == Action::Latency {
        assert forall|i: int, k: int|
            0 <= i < traces.len() && 0 <= k < finder::frames_of_interest(
                traces[i],
                target,
            ).len() implies (#[trigger] finder::frames_of_interest(traces[i], target)[k]).start.ts
            <= finder::frames_of_interest(traces[i], target)[k].end.ts by {
            assert(finder::clocks_ordered(finder::frames_of_interest(traces[i], target)));
            assert(finder::frames_of_interest(traces[i], target)[k].clock_ordered());
        }
    }
    if action == Action::Latency && forall|i: int, k: int|
        0 <= i < traces.len() && 0 <= k < finder::frames_of_interest(traces[i], target).len()
            ==> (#[trigger] finder::frames_of_interest(traces[i], target)[k]).start.ts
            <= finder::frames_of_interest(traces[i], target)[k].end.ts {
        assert forall|i: int| 0 <= i < traces.len() implies finder::clocks_ordered(
            finder::frames_of_interest(#[trigger] traces[i], target),
        ) by {
            let frames = finder::frames_of_interest(traces[i], target);
            assert forall|k: int| 0 <= k < frames.len() implies (
            #[trigger] frames[k]).clock_ordered() by {
                assert(finder::frames_of_interest(traces[i], target)[k].start.ts
                    <= finder::frames_of_interest(traces[i], target)[k].end.ts);
            }
        }
    }
}

} // verus!
