//! Filters: which traces are worth looking at.
use core::num::ParseIntError;

use regex::Regex;
use vstd::prelude::*;
use vstd::string::StringExecFns;

use super::count;
use super::finder;
use super::pattern;
use crate::text;
use crate::trace;
use crate::trace::event::EventView;
use crate::trace::{Event, Metrics, MetricsRange, Trace, TraceError, TraceView};

verus! {

/// Bounds on what happened in certain frames of a trace.
#[derive(Debug, Clone)]
pub struct Filter {
    /// The frames that the bounds are for: those whose symbol's name it matches.
    /// Without it the bounds are for the root frame.
    pub target: Option<Regex>,
    /// The errors that there must have been in those frames, all in all.
    pub errors_min: Option<u32>,
    /// The errors that there may have been in those frames, all in all.
    pub errors_max: Option<u32>,
    /// The time in nanoseconds that each of those frames must have taken.
    pub duration_min: Option<u64>,
    /// The time in nanoseconds that each of those frames may have taken.
    pub duration_max: Option<u64>,
}

/// One part of a filter, as it is written out.
#[derive(Debug)]
pub enum Setting {
    Target(Regex),
    ErrorsMin(u32),
    ErrorsMax(u32),
    DurationMin(u64),
    DurationMax(u64),
}

/// What is wrong with the number behind a keyword.
pub open spec fn number_complaint(keyword: Seq<char>, error: ParseIntError) -> Seq<char> {
    "Invalid number for "@ + keyword + ": "@ + text::number_error_text(error)
}

/// The setting that a bound on errors makes, or why there is none.
pub open spec fn errors_setting(
    min: bool,
    parsed: Result<u32, ParseIntError>,
) -> Result<Setting, Seq<char>> {
    match parsed {
        Ok(number) => Ok(
            if min {
                Setting::ErrorsMin(number)
            } else {
                Setting::ErrorsMax(number)
            },
        ),
        Err(error) => Err(
            number_complaint(
                if min {
                    "errors_min"@
                } else {
                    "errors_max"@
                },
                error,
            ),
        ),
    }
}

/// The setting that a bound on time makes, or why there is none.
pub open spec fn duration_setting(
    min: bool,
    parsed: Result<u64, ParseIntError>,
) -> Result<Setting, Seq<char>> {
    match parsed {
        Ok(number) => Ok(
            if min {
                Setting::DurationMin(number)
            } else {
                Setting::DurationMax(number)
            },
        ),
        Err(error) => Err(
            number_complaint(
                if min {
                    "duration_min"@
                } else {
                    "duration_max"@
                },
                error,
            ),
        ),
    }
}

/// The setting that a compiled target makes, or why there is none.
pub open spec fn target_setting(compiled: Result<Regex, regex::Error>) -> Result<
    Setting,
    Seq<char>,
> {
    match compiled {
        Ok(regex) => Ok(Setting::Target(regex)),
        Err(error) => Err("Invalid regex: "@ + pattern::error_text(error)),
    }
}

/// The setting that a keyword and a value stand for, or why there is none.
pub open spec fn keyword_setting(keyword: Seq<char>, value: Seq<char>) -> Result<
    Setting,
    Seq<char>,
> {
    if keyword == "target"@ {
        target_setting(pattern::compiled(value))
    } else if keyword == "errors_min"@ {
        errors_setting(true, text::parsed_u32(value))
    } else if keyword == "errors_max"@ {
        errors_setting(false, text::parsed_u32(value))
    } else if keyword == "duration_min"@ {
        duration_setting(true, text::parsed_u64(value))
    } else if keyword == "duration_max"@ {
        duration_setting(false, text::parsed_u64(value))
    } else {
        Err("Unknown filter keyword: "@ + keyword)
    }
}

/// The setting that one part of a filter's text stands for, or why there is none.
pub open spec fn part_setting(part: Seq<char>) -> Result<Setting, Seq<char>> {
    match text::pair_of(text::trimmed(part), '=') {
        Some((keyword, value)) => keyword_setting(keyword, value),
        None => Err("Invalid filter part: "@ + text::trimmed(part)),
    }
}

/// Where `Filter::HELP` names the keyword, counted from 1, or 0 if it does not.
pub open spec fn keyword_place(keyword: Seq<char>) -> nat {
    if keyword == "target"@ {
        1
    } else if keyword == "errors_min"@ {
        2
    } else if keyword == "errors_max"@ {
        3
    } else if keyword == "duration_min"@ {
        4
    } else if keyword == "duration_max"@ {
        5
    } else {
        0
    }
}

/// Where `Filter::HELP` names the keyword of the part, counted from 1, or 0 if it
/// does not or the part has none.
pub open spec fn part_place(part: Seq<char>) -> nat {
    match text::pair_of(text::trimmed(part), '=') {
        Some((keyword, _)) => keyword_place(keyword),
        None => 0,
    }
}

/// The parts have the keywords that `Filter::HELP` names in front of `duration_max`,
/// in that order and each at most once, so that each of them has a comma behind it.
pub open spec fn with_commas(parts: Seq<Seq<char>>) -> bool {
    &&& forall|i: int| 0 <= i < parts.len() ==> 1 <= #[trigger] part_place(parts[i]) <= 4
    &&& forall|i: int, j: int|
        0 <= i < j < parts.len() ==> #[trigger] part_place(parts[i]) < #[trigger] part_place(
            parts[j],
        )
}

/// The parts of a filter's text that have to stand for a setting: those between the
/// commas. A blank one at the end is none of them where the comma in front of it
/// belongs to the setting before, as `Filter::HELP` has it.
pub open spec fn parts_to_read(text: Seq<char>) -> Seq<Seq<char>> {
    let parts = text::parts_of(text, ',');
    if text::trimmed(parts.last()).len() == 0 && with_commas(parts.drop_last()) {
        parts.drop_last()
    } else {
        parts
    }
}

/// The filter with the settings of all parts, or what is wrong with the first part
/// that stands for none.
pub open spec fn with_parts(filter: Filter, parts: Seq<Seq<char>>) -> Result<Filter, Seq<char>>
    decreases parts.len(),
{
    if parts.len() == 0 {
        Ok(filter)
    } else {
        match part_setting(parts.first()) {
            Ok(setting) => with_parts(filter.with(setting), parts.drop_first()),
            Err(message) => Err(message),
        }
    }
}

impl Setting {
    /// The setting of a target that was compiled, or what is wrong with it.
    pub fn from_target(compiled: Result<Regex, regex::Error>) -> (result: Result<Setting, String>)
        ensures
            match target_setting(compiled) {
                Ok(setting) => result == Ok::<Setting, String>(setting),
                Err(message) => result matches Err(own) && own@ == message,
            },
    {
        match compiled {
            Ok(regex) => Ok(Setting::Target(regex)),
            Err(error) => Err(
                "Invalid regex: ".to_owned().concat(pattern::describe_error(&error).as_str()),
            ),
        }
    }

    /// The setting of a bound on errors that was parsed, or what is wrong with it.
    pub fn from_errors(min: bool, parsed: Result<u32, ParseIntError>) -> (result: Result<
        Setting,
        String,
    >)
        ensures
            match errors_setting(min, parsed) {
                Ok(setting) => result == Ok::<Setting, String>(setting),
                Err(message) => result matches Err(own) && own@ == message,
            },
    {
        match (parsed, min) {
            (Ok(number), true) => Ok(Setting::ErrorsMin(number)),
            (Ok(number), false) => Ok(Setting::ErrorsMax(number)),
            (Err(error), true) => Err(invalid_number("errors_min", &error)),
            (Err(error), false) => Err(invalid_number("errors_max", &error)),
        }
    }

    /// The setting of a bound on time that was parsed, or what is wrong with it.
    pub fn from_duration(min: bool, parsed: Result<u64, ParseIntError>) -> (result: Result<
        Setting,
        String,
    >)
        ensures
            match duration_setting(min, parsed) {
                Ok(setting) => result == Ok::<Setting, String>(setting),
                Err(message) => result matches Err(own) && own@ == message,
            },
    {
        match (parsed, min) {
            (Ok(number), true) => Ok(Setting::DurationMin(number)),
            (Ok(number), false) => Ok(Setting::DurationMax(number)),
            (Err(error), true) => Err(invalid_number("duration_min", &error)),
            (Err(error), false) => Err(invalid_number("duration_max", &error)),
        }
    }
}

/// What is wrong with the number behind a keyword.
fn invalid_number(keyword: &str, error: &ParseIntError) -> (message: String)
    ensures
        message@ == number_complaint(keyword@, *error),
{
    "Invalid number for ".to_owned().concat(keyword).concat(": ").concat(
        text::describe_number_error(error).as_str(),
    )
}

/// Reads one part of a filter's text.
fn read_part(part: &str) -> (result: Result<Setting, String>)
    ensures
        match part_setting(part@) {
            Ok(setting) => result == Ok::<Setting, String>(setting),
            Err(message) => result matches Err(own) && own@ == message,
        },
{
    let part = part.trim();
    let (keyword, value) = match text::split_pair(part, '=') {
        Some(pair) => pair,
        None => {
            return Err("Invalid filter part: ".to_owned().concat(part));
        },
    };
    if text::same_text(keyword, "target") {
        Setting::from_target(Regex::new(value))
    } else if text::same_text(keyword, "errors_min") {
        Setting::from_errors(true, text::parse_u32(value))
    } else if text::same_text(keyword, "errors_max") {
        Setting::from_errors(false, text::parse_u32(value))
    } else if text::same_text(keyword, "duration_min") {
        Setting::from_duration(true, text::parse_u64(value))
    } else if text::same_text(keyword, "duration_max") {
        Setting::from_duration(false, text::parse_u64(value))
    } else {
        Err("Unknown filter keyword: ".to_owned().concat(keyword))
    }
}

/// Where the help names the keyword of the part, counted from 1, or 0 if it does not
/// or the part has none.
fn place_of(part: &str) -> (place: usize)
    ensures
        place == part_place(part@),
{
    match text::split_pair(part.trim(), '=') {
        Some((keyword, _)) => {
            if text::same_text(keyword, "target") {
                1
            } else if text::same_text(keyword, "errors_min") {
                2
            } else if text::same_text(keyword, "errors_max") {
                3
            } else if text::same_text(keyword, "duration_min") {
                4
            } else if text::same_text(keyword, "duration_max") {
                5
            } else {
                0
            }
        },
        None => 0,
    }
}

/// Whether the first `count` parts have their keywords in the order of the help, up
/// to the one in front of `duration_max`.
fn have_commas(parts: &Vec<&str>, count: usize) -> (ok: bool)
    requires
        count <= parts@.len(),
    ensures
        ok == with_commas(text::text_views(parts@).take(count as int)),
{
    let ghost first = text::text_views(parts@).take(count as int);
    let mut i: usize = 0;
    let mut last: usize = 0;
    while i < count
        invariant
            i <= count <= parts@.len(),
            first == text::text_views(parts@).take(count as int),
            last <= 4,
            i == 0 ==> last == 0,
            i > 0 ==> last == part_place(first[i - 1]),
            with_commas(first.take(i as int)),
        decreases count - i,
    {
        let place = place_of(parts[i]);
        let ghost before = first.take(i as int);
        let ghost now = first.take(i + 1);
        assert(first[i as int] == parts@[i as int]@);
        if place <= last || place > 4 {
            proof {
                assert(part_place(first[i as int]) == place);
                if i > 0 && with_commas(first) {
                    assert(part_place(first[i - 1]) < part_place(first[i as int]));
                }
            }
            return false;
        }
        proof {
            assert forall|j: int| 0 <= j < now.len() implies 1 <= #[trigger] part_place(now[j])
                <= 4 by {
                if j < i {
                    assert(now[j] == before[j]);
                }
            }
            assert forall|j: int, k: int| 0 <= j < k < now.len() implies #[trigger] part_place(
                now[j],
            ) < #[trigger] part_place(now[k]) by {
                assert(now[j] == before[j]);
                if k < i {
                    assert(now[k] == before[k]);
                } else if j < i - 1 {
                    assert(part_place(before[j]) < part_place(before[i - 1]));
                }
            }
        }
        last = place;
        i += 1;
    }
    assert(first.take(i as int) =~= first);
    true
}

/// The parts of a filter's text that have to stand for a setting.
fn split_to_read<'a>(s: &'a str) -> (parts: Vec<&'a str>)
    ensures
        text::text_views(parts@) == parts_to_read(s@),
{
    let mut parts = text::split_at_marks(s, ',');
    let ghost all = text::parts_of(s@, ',');
    proof {
        text::law_parts_make_up_the_text(s@, ',');
        assert(text::text_views(parts@) == all);
        assert(all.last() == parts@.last()@);
        assert(all.drop_last() =~= text::text_views(parts@.drop_last()));
        assert(all.drop_last() =~= all.take(all.len() - 1));
    }
    let last = parts.len() - 1;
    if text::is_blank(parts[last]) && have_commas(&parts, last) {
        parts.pop();
    }
    parts
}

impl Default for Filter {
    /// A filter without bounds.
    fn default() -> (filter: Filter)
        ensures
            filter == Filter::unbounded(),
            filter.target is None,
            filter.errors_min is None,
            filter.errors_max is None,
            filter.duration_min is None,
            filter.duration_max is None,
    {
        Filter {
            target: None,
            errors_min: None,
            errors_max: None,
            duration_min: None,
            duration_max: None,
        }
    }
}

impl core::str::FromStr for Filter {
    type Err = String;

    fn from_str(s: &str) -> (result: Result<Filter, String>)
        ensures
            match with_parts(Filter::unbounded(), parts_to_read(s@)) {
                Ok(filter) => result == Ok::<Filter, String>(filter),
                Err(message) => result matches Err(own) && own@ == message,
            },
    {
        Filter::from_str(s)
    }
}

impl Filter {
    pub const HELP: &'static str = "A filter in the form \"[target=regex,] [errors_min=num,] [errors_max=num,] \
                                    [duration_min=num,] [duration_max=num]\". Traces with frames violating a filter \
                                    are ignored. If target regex is not provided, filter applies to root frames.";

    /// A filter without bounds.
    pub open spec fn unbounded() -> Filter {
        Filter {
            target: None,
            errors_min: None,
            errors_max: None,
            duration_min: None,
            duration_max: None,
        }
    }

    /// The filter with one more setting.
    pub open spec fn with(self, setting: Setting) -> Filter {
        match setting {
            Setting::Target(regex) => Filter { target: Some(regex), ..self },
            Setting::ErrorsMin(number) => Filter { errors_min: Some(number), ..self },
            Setting::ErrorsMax(number) => Filter { errors_max: Some(number), ..self },
            Setting::DurationMin(number) => Filter { duration_min: Some(number), ..self },
            Setting::DurationMax(number) => Filter { duration_max: Some(number), ..self },
        }
    }

    /// Takes one more setting in. It replaces an earlier one with the same keyword.
    pub fn apply(&mut self, setting: Setting)
        ensures
            *final(self) == old(self).with(setting),
            sets(*old(self), setting, *final(self)),
    {
        match setting {
            Setting::Target(regex) => {
                self.target = Some(regex);
            },
            Setting::ErrorsMin(number) => {
                self.errors_min = Some(number);
            },
            Setting::ErrorsMax(number) => {
                self.errors_max = Some(number);
            },
            Setting::DurationMin(number) => {
                self.duration_min = Some(number);
            },
            Setting::DurationMax(number) => {
                self.duration_max = Some(number);
            },
        }
    }

    /// Reads a filter: settings between commas, each a keyword, an equals sign and
    /// a value. Where the keywords come in the order of the help, the last setting may
    /// have its comma too, unless it is that of `duration_max`. A blank text sets
    /// nothing.
    pub fn from_str(s: &str) -> (result: Result<Filter, String>)
        ensures
            match with_parts(Filter::unbounded(), parts_to_read(s@)) {
                Ok(filter) => result == Ok::<Filter, String>(filter),
                Err(message) => result matches Err(own) && own@ == message,
            },
    {
        let mut filter = Filter::default();
        let parts = split_to_read(s);
        let ghost all = parts_to_read(s@);
        let ghost goal = with_parts(Filter::unbounded(), all);
        let mut i: usize = 0;
        assert(all.skip(0) =~= all);
        while i < parts.len()
            invariant
                i <= parts@.len(),
                all == text::text_views(parts@),
                goal == with_parts(filter, all.skip(i as int)),
                goal == with_parts(Filter::unbounded(), parts_to_read(s@)),
            decreases parts@.len() - i,
        {
            assert(all.skip(i as int).first() == parts@[i as int]@);
            assert(all.skip(i as int).drop_first() =~= all.skip(i + 1));
            match read_part(parts[i]) {
                Ok(setting) => filter.apply(setting),
                Err(message) => {
                    return Err(message);
                },
            }
            i += 1;
        }
        Ok(filter)
    }
}

/// The filter `after` has the setting and otherwise what `before` has.
pub open spec fn sets(before: Filter, setting: Setting, after: Filter) -> bool {
    &&& after.target == (if setting is Target {
        Some(setting->Target_0)
    } else {
        before.target
    })
    &&& after.errors_min == (if setting is ErrorsMin {
        Some(setting->ErrorsMin_0)
    } else {
        before.errors_min
    })
    &&& after.errors_max == (if setting is ErrorsMax {
        Some(setting->ErrorsMax_0)
    } else {
        before.errors_max
    })
    &&& after.duration_min == (if setting is DurationMin {
        Some(setting->DurationMin_0)
    } else {
        before.duration_min
    })
    &&& after.duration_max == (if setting is DurationMax {
        Some(setting->DurationMax_0)
    } else {
        before.duration_max
    })
}

/// A setting sets its own bound and leaves the others as they were.
pub proof fn law_settings_set_their_own_bound(filter: Filter, setting: Setting)
    ensures
        sets(filter, setting, filter.with(setting)),
        Filter::unbounded().target is None,
        Filter::unbounded().errors_min is None,
        Filter::unbounded().errors_max is None,
        Filter::unbounded().duration_min is None,
        Filter::unbounded().duration_max is None,
{
}

/// The frame took neither too little nor too much time.
pub open spec fn in_time(filter: Filter, range: MetricsRange) -> bool {
    &&& filter.duration_min matches Some(bound) ==> bound <= range.duration()
    &&& filter.duration_max matches Some(bound) ==> range.duration() <= bound
}

/// How many errors there were in the frames.
pub open spec fn errors_in(frames: Seq<MetricsRange>, errors: Option<EventView>) -> nat {
    match errors {
        Some(event) => count::count_from(frames, event.occurences, 0),
        None => 0,
    }
}

/// The frames are within all bounds of the filter.
pub open spec fn passes(
    frames: Seq<MetricsRange>,
    filter: Filter,
    errors: Option<EventView>,
) -> bool {
    &&& forall|i: int| 0 <= i < frames.len() ==> in_time(filter, #[trigger] frames[i])
    &&& filter.errors_min matches Some(bound) ==> bound <= errors_in(frames, errors)
    &&& filter.errors_max matches Some(bound) ==> errors_in(frames, errors) <= bound
}

/// Every bound that is set holds: each frame took at least and at most as long as the
/// bounds on time say, and the errors are at least and at most as many as the bounds on
/// errors say.
pub open spec fn within_every_bound(
    frames: Seq<MetricsRange>,
    filter: Filter,
    num_errors: int,
) -> bool {
    &&& filter.duration_min matches Some(bound) ==> forall|i: int|
        0 <= i < frames.len() ==> bound <= (#[trigger] frames[i]).end.ts - frames[i].start.ts
    &&& filter.duration_max matches Some(bound) ==> forall|i: int|
        0 <= i < frames.len() ==> (#[trigger] frames[i]).end.ts - frames[i].start.ts <= bound
    &&& filter.errors_min matches Some(bound) ==> bound <= num_errors
    &&& filter.errors_max matches Some(bound) ==> num_errors <= bound
}

/// Frames pass a filter if and only if every bound that is set holds, each of them
/// whatever the others are.
pub proof fn law_every_bound_counts(
    frames: Seq<MetricsRange>,
    filter: Filter,
    errors: Option<EventView>,
)
    ensures
        passes(frames, filter, errors) <==> within_every_bound(
            frames,
            filter,
            match errors {
                Some(event) => count::count_from(frames, event.occurences, 0) as int,
                None => 0,
            },
        ),
        passes(frames, filter, errors) <==> {
            let num_errors = match errors {
                Some(event) => count::count_from(frames, event.occurences, 0) as int,
                None => 0,
            };
            &&& filter.errors_max is Some ==> num_errors <= filter.errors_max->0
            &&& filter.errors_min is Some ==> num_errors >= filter.errors_min->0
            &&& filter.duration_max is Some ==> forall|i: int|
                0 <= i < frames.len() ==> (#[trigger] frames[i]).end.ts - frames[i].start.ts
                    <= filter.duration_max->0
            &&& filter.duration_min is Some ==> forall|i: int|
                0 <= i < frames.len() ==> (#[trigger] frames[i]).end.ts - frames[i].start.ts
                    >= filter.duration_min->0
        },
{
    let num_errors = match errors {
        Some(event) => count::count_from(frames, event.occurences, 0) as int,
        None => 0,
    };
    if within_every_bound(frames, filter, num_errors) {
        assert forall|i: int| 0 <= i < frames.len() implies in_time(
            filter,
            #[trigger] frames[i],
        ) by {}
    }
    if passes(frames, filter, errors) {
        assert forall|i: int| 0 <= i < frames.len() implies (filter.duration_min matches Some(bound)
            ==> bound <= (#[trigger] frames[i]).end.ts - frames[i].start.ts) && (
        filter.duration_max matches Some(bound) ==> frames[i].end.ts - frames[i].start.ts
            <= bound) by {
            assert(in_time(filter, frames[i]));
        }
    }
}

/// A frame is in time if the bounds on time that are set hold of the time between its
/// own two timestamps.
pub proof fn law_in_time_goes_by_the_own_timestamps(filter: Filter, range: MetricsRange)
    ensures
        in_time(filter, range) <==> (filter.duration_min is Some ==> range.end.ts - range.start.ts
            >= filter.duration_min->0) && (filter.duration_max is Some ==> range.end.ts
            - range.start.ts <= filter.duration_max->0),
{
}

/// The filter asks how long frames took.
pub open spec fn asks_for_time(filter: Filter) -> bool {
    filter.duration_min is Some || filter.duration_max is Some
}

/// The filter gets to the frame at index `i`: those in front of it were in time.
pub open spec fn gets_to(filter: Filter, frames: Seq<MetricsRange>, i: int) -> bool {
    forall|j: int| 0 <= j < i ==> in_time(filter, #[trigger] frames[j])
}

/// The time that a frame took is known of every frame that the filter asks it of.
pub open spec fn can_time(filter: Filter, frames: Seq<MetricsRange>) -> bool {
    asks_for_time(filter) ==> forall|i: int|
        0 <= i < frames.len() && gets_to(filter, frames, i) ==> (
        #[trigger] frames[i]).clock_ordered()
}

/// The frame took neither too little nor too much time.
fn is_in_time(filter: &Filter, range: &MetricsRange) -> (ok: bool)
    requires
        asks_for_time(*filter) ==> range.clock_ordered(),
    ensures
        ok == in_time(*filter, *range),
{
    if let Some(duration_min) = filter.duration_min {
        if range.total_time() < duration_min {
            return false;
        }
    }
    if let Some(duration_max) = filter.duration_max {
        if range.total_time() > duration_max {
            return false;
        }
    }
    true
}

/// Whether the time that a frame took is known of every frame that the filter asks
/// it of.
pub fn times_are_known(frames: &Vec<MetricsRange>, filter: &Filter) -> (ok: bool)
    ensures
        ok == can_time(*filter, frames@),
{
    if filter.duration_min.is_none() && filter.duration_max.is_none() {
        return true;
    }
    let mut i: usize = 0;
    while i < frames.len()
        invariant
            i <= frames@.len(),
            asks_for_time(*filter),
            gets_to(*filter, frames@, i as int),
            forall|j: int| 0 <= j < i ==> (#[trigger] frames@[j]).clock_ordered(),
        decreases frames@.len() - i,
    {
        if frames[i].start.ts > frames[i].end.ts {
            assert(!frames@[i as int].clock_ordered());
            return false;
        }
        if !is_in_time(filter, &frames[i]) {
            assert forall|k: int| 0 <= k < frames@.len() && gets_to(*filter, frames@, k) implies (
            #[trigger] frames@[k]).clock_ordered() by {
                if k > i {
                    assert(in_time(*filter, frames@[i as int]));
                }
            }
            return true;
        }
        i += 1;
    }
    true
}

/// Whether the frames are within all bounds of the filter.
pub fn run_filter(frames: &Vec<MetricsRange>, filter: &Filter, errors: Option<&Event>) -> (ok: bool)
    requires
        can_time(*filter, frames@),
    ensures
        ok == passes(
            frames@,
            *filter,
            match errors {
                Some(event) => Some(event@),
                None => None,
            },
        ),
        ok <==> within_every_bound(
            frames@,
            *filter,
            match errors {
                Some(event) => count::count_from(frames@, event@.occurences, 0) as int,
                None => 0,
            },
        ),
{
    proof {
        law_every_bound_counts(
            frames@,
            *filter,
            match errors {
                Some(event) => Some(event@),
                None => None,
            },
        );
    }
    let ghost wanted = within_every_bound(
        frames@,
        *filter,
        match errors {
            Some(event) => count::count_from(frames@, event@.occurences, 0) as int,
            None => 0,
        },
    );
    let ghost passing = passes(
        frames@,
        *filter,
        match errors {
            Some(event) => Some(event@),
            None => None,
        },
    );
    let mut i: usize = 0;
    while i < frames.len()
        invariant
            i <= frames@.len(),
            wanted == passing,
            wanted == within_every_bound(
                frames@,
                *filter,
                match errors {
                    Some(event) => count::count_from(frames@, event@.occurences, 0) as int,
                    None => 0,
                },
            ),
            passing == passes(
                frames@,
                *filter,
                match errors {
                    Some(event) => Some(event@),
                    None => None,
                },
            ),
            can_time(*filter, frames@),
            gets_to(*filter, frames@, i as int),
        decreases frames@.len() - i,
    {
        if !is_in_time(filter, &frames[i]) {
            return false;
        }
        i += 1;
    }
    let num_errors = match errors {
        Some(event) => count::count_occurences(frames, event.occurences()),
        None => 0,
    };
    if let Some(errors_min) = filter.errors_min {
        if (num_errors as u64) < errors_min as u64 {
            return false;
        }
    }
    if let Some(errors_max) = filter.errors_max {
        if num_errors as u64 > errors_max as u64 {
            return false;
        }
    }
    true
}

/// The trace is one that the filter keeps.
pub open spec fn keeps(filter: Filter, trace: TraceView) -> bool {
    passes(
        finder::frames_of_interest(trace, filter.target),
        filter,
        trace.event(TraceError::DataCollectionError.spec_id()),
    )
}

/// Whether the filter keeps the trace.
fn keeps_trace(trace: &Trace, filter: &Filter) -> (ok: bool)
    requires
        can_time(*filter, finder::frames_of_interest(trace@, filter.target)),
    ensures
        ok == keeps(*filter, trace@),
{
    let error_events = trace.get_event(TraceError::DataCollectionError.id());
    let frames = finder::frames_to_analyse(trace, filter.target.as_ref());
    run_filter(&frames, filter, error_events)
}

/// The times that the filter asks for are known of all traces.
pub open spec fn can_filter(filter: Filter, traces: Seq<TraceView>) -> bool {
    forall|i: int|
        0 <= i < traces.len() ==> can_time(
            filter,
            finder::frames_of_interest(#[trigger] traces[i], filter.target),
        )
}

/// Keeps the traces that are within all bounds of the filter, in order.
pub fn filter_traces(traces: Vec<Trace>, filter: &Filter) -> (kept: Vec<Trace>)
    requires
        can_filter(*filter, trace::trace_views(traces@)),
    ensures
        trace::trace_views(kept@) == trace::trace_views(traces@).filter(|trace: TraceView| keeps(*filter, trace)),
{
    let ghost views = trace::trace_views(traces@);
    let ghost wanted = |trace: TraceView| keeps(*filter, trace);
    let mut kept: Vec<Trace> = Vec::new();
    for trace in it: traces
        invariant
            wanted == (|trace: TraceView| keeps(*filter, trace)),
            views == trace::trace_views(it.seq()),
            can_filter(*filter, views),
            trace::trace_views(kept@) == views.take(it.index() as int).filter(wanted),
    {
        let ghost so_far = trace::trace_views(kept@);
        proof {
            assert(views[it.index() as int] == trace@);
            let next = views.take(it.index() + 1);
            assert(next.drop_last() =~= views.take(it.index() as int));
            assert(next.last() == trace@);
            reveal_with_fuel(Seq::filter, 2);
        }
        if keeps_trace(&trace, filter) {
            kept.push(trace);
            assert(trace::trace_views(kept@) =~= so_far.push(trace@));
        }
    }
    assert(views.take(views.len() as int) =~= views);
    kept
}

/// Keeps the traces that are within all bounds of the filter, in order. Nothing comes
/// of it where the filter asks how long a frame took that ends before it begins.
pub fn try_filter_traces(traces: Vec<Trace>, filter: &Filter) -> (kept: Option<Vec<Trace>>)
    ensures
        kept is Some <==> can_filter(*filter, trace::trace_views(traces@)),
        kept matches Some(own) ==> trace::trace_views(own@) == trace::trace_views(traces@).filter(
            |trace: TraceView| keeps(*filter, trace),
        ),
{
    let ghost views = trace::trace_views(traces@);
    let mut i: usize = 0;
    while i < traces.len()
        invariant
            i <= traces@.len(),
            views == trace::trace_views(traces@),
            forall|j: int|
                0 <= j < i ==> can_time(
                    *filter,
                    finder::frames_of_interest(#[trigger] views[j], filter.target),
                ),
        decreases traces@.len() - i,
    {
        let frames = finder::frames_to_analyse(&traces[i], filter.target.as_ref());
        assert(views[i as int] == traces@[i as int]@);
        if !times_are_known(&frames, filter) {
            return None;
        }
        i += 1;
    }
    Some(filter_traces(traces, filter))
}

/// Filters can be run on intact traces, whatever they ask for.
pub proof fn law_intact_traces_can_be_filtered(filter: Filter, traces: Seq<TraceView>)
    requires
        forall|i: int| 0 <= i < traces.len() ==> (#[trigger] traces[i]).root.intact(),
    ensures
        can_filter(filter, traces),
{
    assert forall|i: int| 0 <= i < traces.len() implies can_time(
        filter,
        finder::frames_of_interest(#[trigger] traces[i], filter.target),
    ) by {
        finder::law_frames_to_analyse_run_forwards(traces[i], filter.target);
    }
}

/// A filter without bounds keeps every trace.
pub proof fn law_unbounded_filters_keep_everything(traces: Seq<TraceView>)
    ensures
        traces.filter(|trace: TraceView| keeps(Filter::unbounded(), trace)) == traces,
    decreases traces.len(),
{
    reveal_with_fuel(Seq::filter, 2);
    if traces.len() > 0 {
        law_unbounded_filters_keep_everything(traces.drop_last());
        assert(traces.drop_last().push(traces.last()) =~= traces);
    }
}

/// Filters one after the other keep the traces that all of them keep.
pub proof fn law_filters_combine(traces: Seq<TraceView>, first: Filter, second: Filter)
    ensures
        traces.filter(|trace: TraceView| keeps(first, trace)).filter(
            |trace: TraceView| keeps(second, trace),
        ) == traces.filter(|trace: TraceView| keeps(first, trace) && keeps(second, trace)),
    decreases traces.len(),
{
    let by_first = |trace: TraceView| keeps(first, trace);
    let by_second = |trace: TraceView| keeps(second, trace);
    let by_both = |trace: TraceView| keeps(first, trace) && keeps(second, trace);
    reveal_with_fuel(Seq::filter, 2);
    if traces.len() > 0 {
        let earlier = traces.drop_last();
        let last = traces.last();
        law_filters_combine(earlier, first, second);
        if keeps(first, last) {
            assert(traces.filter(by_first).drop_last() =~= earlier.filter(by_first));
            assert(traces.filter(by_first).last() == last);
        }
        assert(traces.filter(by_first).filter(by_second) == traces.filter(by_both));
    }
}

/// The order in which filters are applied makes no difference.
pub proof fn law_filters_commute(traces: Seq<TraceView>, first: Filter, second: Filter)
    ensures
        traces.filter(|trace: TraceView| keeps(first, trace)).filter(
            |trace: TraceView| keeps(second, trace),
        ) == traces.filter(|trace: TraceView| keeps(second, trace)).filter(
            |trace: TraceView| keeps(first, trace),
        ),
{
    law_filters_combine(traces, first, second);
    law_filters_combine(traces, second, first);
    let one = |trace: TraceView| keeps(first, trace) && keeps(second, trace);
    let other = |trace: TraceView| keeps(second, trace) && keeps(first, trace);
    assert(one =~= other);
}

/// In an intact trace, the errors that a filter counts are those that occurred
/// while one of the frames it is for ran, each counted once.
pub proof fn law_errors_are_counted_once(trace: TraceView, target: Option<Regex>, id: u32)
    requires
        trace.intact(),
        trace.event(id) is Some,
    ensures
        errors_in(finder::frames_of_interest(trace, target), trace.event(id))
            == count::readings_within(
            finder::frames_of_interest(trace, target),
            trace.event(id)->0.occurences,
            0,
        ),
{
    finder::law_frames_to_analyse_run_forwards(trace, target);
    trace::lemma_events_are_listed(trace.events, id);
    count::law_every_occurence_counts_once(
        finder::frames_of_interest(trace, target),
        trace.event(id)->0.occurences,
    );
}

/// The parts of a filter's text take effect one after the other.
pub proof fn law_settings_accumulate(filter: Filter, first: Seq<Seq<char>>, then: Seq<Seq<char>>)
    ensures
        with_parts(filter, first + then) == match with_parts(filter, first) {
            Ok(next) => with_parts(next, then),
            Err(message) => Err(message),
        },
    decreases first.len(),
{
    if first.len() == 0 {
        assert(first + then =~= then);
    } else {
        assert((first + then).first() == first.first());
        assert((first + then).drop_first() =~= first.drop_first() + then);
        if let Ok(setting) = part_setting(first.first()) {
            law_settings_accumulate(filter.with(setting), first.drop_first(), then);
        }
    }
}

/// A blank text sets nothing.
pub proof fn law_blank_texts_set_nothing(text: Seq<char>)
    requires
        text::trimmed(text).len() == 0,
    ensures
        with_parts(Filter::unbounded(), parts_to_read(text)) == Ok::<Filter, Seq<char>>(
            Filter::unbounded(),
        ),
{
    text::lemma_blank(text);
    text::lemma_one_part(text, ',');
}

/// Where the keywords come in the order of the help, the last setting may have its
/// comma or not, unless it is that of `duration_max`.
pub proof fn law_last_comma_makes_no_difference(text: Seq<char>)
    requires
        with_commas(text::parts_of(text, ',')),
    ensures
        parts_to_read(text.push(',')) == parts_to_read(text),
        parts_to_read(text) == text::parts_of(text, ','),
{
    let parts = text::parts_of(text, ',');
    text::law_parts_make_up_the_text(text, ',');
    text::lemma_parts_push_mark(text, ',');
    assert(parts.push(seq![]).drop_last() =~= parts);
    assert(part_place(parts[parts.len() - 1]) >= 1);
}

/// A text is a filter if and only if every part of it that has to stand for a
/// setting does.
pub proof fn law_every_part_is_a_setting(filter: Filter, parts: Seq<Seq<char>>)
    ensures
        with_parts(filter, parts) is Ok <==> forall|i: int|
            0 <= i < parts.len() ==> (#[trigger] part_setting(parts[i])) is Ok,
    decreases parts.len(),
{
    if parts.len() > 0 {
        let rest = parts.drop_first();
        assert(parts[0] == parts.first());
        if let Ok(setting) = part_setting(parts.first()) {
            law_every_part_is_a_setting(filter.with(setting), rest);
            assert forall|i: int| 0 <= i < rest.len() implies #[trigger] rest[i] == parts[i
                + 1] by {}
            if forall|i: int|
                0 <= i < rest.len() ==> (#[trigger] part_setting(rest[i])) is Ok {
                assert forall|i: int| 0 <= i < parts.len() implies (#[trigger] part_setting(
                    parts[i],
                )) is Ok by {
                    if i > 0 {
                        assert(part_setting(rest[i - 1]) is Ok);
                    }
                }
            }
            if forall|i: int|
                0 <= i < parts.len() ==> (#[trigger] part_setting(parts[i])) is Ok {
                assert forall|i: int| 0 <= i < rest.len() implies (#[trigger] part_setting(
                    rest[i],
                )) is Ok by {
                    assert(part_setting(parts[i + 1]) is Ok);
                }
            }
        } else {
            assert(!(part_setting(parts[0]) is Ok));
        }
    }
}

/// A blank part is no setting.
pub proof fn law_blank_parts_are_refused(part: Seq<char>)
    requires
        text::trimmed(part).len() == 0,
    ensures
        part_setting(part) == Err::<Setting, Seq<char>>("Invalid filter part: "@),
{
    assert("Invalid filter part: "@ + text::trimmed(part) =~= "Invalid filter part: "@);
}

/// Two settings have the same keyword.
pub open spec fn same_keyword(a: Setting, b: Setting) -> bool {
    match (a, b) {
        (Setting::Target(_), Setting::Target(_)) => true,
        (Setting::ErrorsMin(_), Setting::ErrorsMin(_)) => true,
        (Setting::ErrorsMax(_), Setting::ErrorsMax(_)) => true,
        (Setting::DurationMin(_), Setting::DurationMin(_)) => true,
        (Setting::DurationMax(_), Setting::DurationMax(_)) => true,
        _ => false,
    }
}

/// A setting replaces an earlier one with the same keyword and leaves the others
/// alone.
pub proof fn law_later_settings_replace(filter: Filter, earlier: Setting, later: Setting)
    ensures
        same_keyword(earlier, later) ==> filter.with(earlier).with(later) == filter.with(later),
        !same_keyword(earlier, later) ==> filter.with(earlier).with(later) == filter.with(
            later,
        ).with(earlier),
{
}

/// A trace is kept if and only if every bound of the filter that is set holds of it:
/// those on time of each frame that the filter is for, and those on errors of the
/// number of errors in these frames.
pub proof fn law_kept_traces_are_within_every_bound(filter: Filter, trace: TraceView)
    ensures
        keeps(filter, trace) <==> {
            let frames = finder::frames_of_interest(trace, filter.target);
            let num_errors = match trace.event(TraceError::DataCollectionError.spec_id()) {
                Some(event) => count::count_from(frames, event.occurences, 0) as int,
                None => 0,
            };
            &&& filter.errors_max is Some ==> num_errors <= filter.errors_max->0
            &&& filter.errors_min is Some ==> num_errors >= filter.errors_min->0
            &&& filter.duration_max is Some ==> forall|i: int|
                0 <= i < frames.len() ==> (#[trigger] frames[i]).end.ts - frames[i].start.ts
                    <= filter.duration_max->0
            &&& filter.duration_min is Some ==> forall|i: int|
                0 <= i < frames.len() ==> (#[trigger] frames[i]).end.ts - frames[i].start.ts
                    >= filter.duration_min->0
        },
{
    law_every_bound_counts(
        finder::frames_of_interest(trace, filter.target),
        filter,
        trace.event(TraceError::DataCollectionError.spec_id()),
    );
}

/// The errors of an intact trace are those occurences of the event that lie in one of
/// the frames: not before its start, and before its end.
pub proof fn law_errors_are_occurences_in_the_frames(
    trace: TraceView,
    target: Option<Regex>,
    id: u32,
)
    requires
        trace.intact(),
    ensures
        errors_in(finder::frames_of_interest(trace, target), trace.event(id)) == match trace.event(
            id,
        ) {
            Some(event) => event.occurences.filter(
                |at: Metrics|
                    exists|k: int|
                        0 <= k < finder::frames_of_interest(trace, target).len()
                            && !at.sorts_before(
                            (#[trigger] finder::frames_of_interest(trace, target)[k]).start,
                        ) && at.sorts_before(finder::frames_of_interest(trace, target)[k].end),
            ).len(),
            None => 0,
        },
{
    if trace.event(id) is Some {
        finder::law_frames_to_analyse_run_forwards(trace, target);
        trace::lemma_events_are_listed(trace.events, id);
        count::law_the_count_is_of_readings_in_a_range(
            finder::frames_of_interest(trace, target),
            trace.event(id)->0.occurences,
        );
    }
}

/// A filter can be run if it asks for no time, or of no frame that ends before it
/// begins. It asks the frames in order, up to the first that is not in time.
pub proof fn law_times_are_asked_up_to_the_first_violation(
    filter: Filter,
    frames: Seq<MetricsRange>,
)
    ensures
        can_time(filter, frames) <==> (filter.duration_min is None && filter.duration_max is None)
            || forall|i: int|
            0 <= i < frames.len() && (forall|j: int|
                0 <= j < i ==> in_time(filter, #[trigger] frames[j])) ==> (
            #[trigger] frames[i]).start.ts <= frames[i].end.ts,
{
    if can_time(filter, frames) && asks_for_time(filter) {
        assert forall|i: int|
            0 <= i < frames.len() && (forall|j: int|
                0 <= j < i ==> in_time(filter, #[trigger] frames[j])) implies (
        #[trigger] frames[i]).start.ts <= frames[i].end.ts by {
            assert(gets_to(filter, frames, i));
            assert(frames[i].clock_ordered());
        }
    }
}

/// Traces can be filtered if the filter can be run on the frames of each that it is for.
pub proof fn law_filtering_asks_every_trace(filter: Filter, traces: Seq<TraceView>)
    ensures
        can_filter(filter, traces) <==> forall|i: int|
            0 <= i < traces.len() ==> can_time(
                filter,
                #[trigger] finder::frames_of_interest(traces[i], filter.target),
            ),
{
}

/// Reading one more part: what was wrong before stays wrong, and otherwise the part's
/// setting is taken in, or what is wrong with it is reported. No parts set nothing.
pub proof fn law_parts_are_read_one_by_one(
    filter: Filter,
    parts: Seq<Seq<char>>,
    part: Seq<char>,
)
    ensures
        with_parts(filter, Seq::empty()) == Ok::<Filter, Seq<char>>(filter),
        with_parts(filter, parts.push(part)) == match with_parts(filter, parts) {
            Ok(read) => match part_setting(part) {
                Ok(setting) => Ok(read.with(setting)),
                Err(message) => Err(message),
            },
            Err(message) => Err(message),
        },
{
    let one = seq![part];
    law_settings_accumulate(filter, parts, one);
    assert(parts.push(part) =~= parts + one);
    assert(one.drop_first() =~= Seq::<Seq<char>>::empty());
    if let Ok(read) = with_parts(filter, parts) {
        reveal_with_fuel(with_parts, 2);
        assert(one.first() == part);
    }
}

/// A part stands for what its keyword makes of its value, white space around it aside.
/// A part without an equals sign stands for nothing.
pub proof fn law_parts_pair_a_keyword_with_a_value(
    part: Seq<char>,
    keyword: Seq<char>,
    value: Seq<char>,
)
    ensures
        text::trimmed(part) == keyword + seq!['='] + value && !keyword.contains('=')
            ==> part_setting(part) == keyword_setting(keyword, value),
        !text::trimmed(part).contains('=') ==> part_setting(part) == Err::<Setting, Seq<char>>(
            "Invalid filter part: "@ + text::trimmed(part),
        ),
{
    if text::trimmed(part) == keyword + seq!['='] + value && !keyword.contains('=') {
        text::law_parting_undoes_pairing(keyword, value, '=');
    }
    text::law_pairs_part_at_the_first_mark(text::trimmed(part), '=');
    if let Some((key, rest)) = text::pair_of(text::trimmed(part), '=') {
        assert(text::trimmed(part)[key.len() as int] == '=');
    }
}

proof fn lemma_keywords_differ()
    ensures
        "target"@ != "errors_min"@,
        "target"@ != "errors_max"@,
        "target"@ != "duration_min"@,
        "target"@ != "duration_max"@,
        "errors_min"@ != "errors_max"@,
        "errors_min"@ != "duration_min"@,
        "errors_min"@ != "duration_max"@,
        "errors_max"@ != "duration_min"@,
        "errors_max"@ != "duration_max"@,
        "duration_min"@ != "duration_max"@,
{
    reveal_strlit("target");
    reveal_strlit("errors_min");
    reveal_strlit("errors_max");
    reveal_strlit("duration_min");
    reveal_strlit("duration_max");
    assert("target"@.len() == 6 && "errors_min"@.len() == 10 && "errors_max"@.len() == 10
        && "duration_min"@.len() == 12 && "duration_max"@.len() == 12);
    assert("errors_min"@[8] == 'i' && "errors_max"@[8] == 'a');
    assert("duration_min"@[10] == 'i' && "duration_max"@[10] == 'a');
}

/// What each keyword makes of a value, and what is said of a keyword that is none.
pub proof fn law_keywords_make_settings(value: Seq<char>, other: Seq<char>)
    ensures
        keyword_setting("target"@, value) == match pattern::compiled(value) {
            Ok(regex) => Ok::<Setting, Seq<char>>(Setting::Target(regex)),
            Err(error) => Err("Invalid regex: "@ + pattern::error_text(error)),
        },
        keyword_setting("errors_min"@, value) == match text::parsed_u32(value) {
            Ok(number) => Ok::<Setting, Seq<char>>(Setting::ErrorsMin(number)),
            Err(error) => Err(
                "Invalid number for "@ + "errors_min"@ + ": "@ + text::number_error_text(error),
            ),
        },
        keyword_setting("errors_max"@, value) == match text::parsed_u32(value) {
            Ok(number) => Ok::<Setting, Seq<char>>(Setting::ErrorsMax(number)),
            Err(error) => Err(
                "Invalid number for "@ + "errors_max"@ + ": "@ + text::number_error_text(error),
            ),
        },
        keyword_setting("duration_min"@, value) == match text::parsed_u64(value) {
            Ok(number) => Ok::<Setting, Seq<char>>(Setting::DurationMin(number)),
            Err(error) => Err(
                "Invalid number for "@ + "duration_min"@ + ": "@ + text::number_error_text(error),
            ),
        },
        keyword_setting("duration_max"@, value) == match text::parsed_u64(value) {
            Ok(number) => Ok::<Setting, Seq<char>>(Setting::DurationMax(number)),
            Err(error) => Err(
                "Invalid number for "@ + "duration_max"@ + ": "@ + text::number_error_text(error),
            ),
        },
        other != "target"@ && other != "errors_min"@ && other != "errors_max"@ && other
            != "duration_min"@ && other != "duration_max"@ ==> keyword_setting(other, value)
            == Err::<Setting, Seq<char>>("Unknown filter keyword: "@ + other),
{
    lemma_keywords_differ();
}

/// The help names the keywords in this order, and no others.
pub proof fn law_help_has_its_order(other: Seq<char>)
    ensures
        0 < keyword_place("target"@) < keyword_place("errors_min"@) < keyword_place(
            "errors_max"@,
        ) < keyword_place("duration_min"@) < keyword_place("duration_max"@),
        keyword_place("duration_min"@) == 4,
        other != "target"@ && other != "errors_min"@ && other != "errors_max"@ && other
            != "duration_min"@ && other != "duration_max"@ ==> keyword_place(other) == 0,
{
    lemma_keywords_differ();
}

/// A blank part at the end is not read if and only if the parts in front of it have
/// keywords in front of `duration_max`, in the order of the help. All other parts are
/// read, in order.
pub proof fn law_all_parts_but_a_last_blank_one_are_read(text: Seq<char>)
    ensures
        ({
            let parts = text::parts_of(text, ',');
            let blank = text::trimmed(parts[parts.len() - 1]).len() == 0;
            let ordered = (forall|i: int|
                0 <= i < parts.len() - 1 ==> 0 < #[trigger] part_place(parts[i]) < 5) && (forall|
                i: int,
                j: int,
            |
                0 <= i < j < parts.len() - 1 ==> #[trigger] part_place(parts[i])
                    < #[trigger] part_place(parts[j]));
            &&& blank && ordered ==> parts_to_read(text) == parts.drop_last()
            &&& !(blank && ordered) ==> parts_to_read(text) == parts
        }),
{
    let parts = text::parts_of(text, ',');
    let before = parts.drop_last();
    text::law_parts_make_up_the_text(text, ',');
    assert forall|i: int| 0 <= i < before.len() implies #[trigger] before[i] == parts[i] by {}
    if with_commas(before) {
        assert forall|i: int| 0 <= i < parts.len() - 1 implies 0 < #[trigger] part_place(parts[i])
            < 5 by {
            assert(part_place(before[i]) <= 4);
        }
        assert forall|i: int, j: int| 0 <= i < j < parts.len() - 1 implies #[trigger] part_place(
            parts[i],
        ) < #[trigger] part_place(parts[j]) by {
            assert(part_place(before[i]) < part_place(before[j]));
        }
    }
}

} // verus!
