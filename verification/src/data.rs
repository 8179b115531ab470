//! From what the results service delivers to the history of each
//! competitor: which competitions count, how old they are, and which
//! attempts a competitor made at them.

use crate::competitor::DatedCompetitionResult;
use crate::event::{spec_id, EventType, Mo3Event};
use crate::simd::div_toward_zero;
use crate::text::{
    chars_of, parse_number, same_chars, spec_parse_number, spec_split, split, texts_of,
};
use chrono::{Datelike, TimeZone, Utc};
use vstd::prelude::*;

verus! {

/// Seconds in a day.
pub const SECONDS_PER_DAY: i64 = 60 * 60 * 24;

/// The Unix timestamp of midnight UTC at the start of the given day of the
/// proleptic Gregorian calendar, as `chrono` computes it; `None` where
/// `chrono` has no such date.
pub uninterp spec fn utc_timestamp_of_date(year: i32, month: u32, day: u32) -> Option<i64>;

/// The calendar year, in UTC, that the given Unix timestamp lies in, as
/// `chrono` computes it; `None` where the timestamp is outside the range
/// of `chrono`.
pub uninterp spec fn utc_year_of_timestamp(seconds: i64) -> Option<i32>;

/// Trusted, not proved.  Calls `chrono::TimeZone::with_ymd_and_hms` on `Utc`
/// for midnight of the given date, keeps the date-time it maps to with
/// `MappedLocalTime::single`, and takes its `DateTime::timestamp`.  The
/// contract claims one thing: that the result rests on the three arguments
/// alone, so that it can go by the name `utc_timestamp_of_date`.
#[verifier::external_body]
fn utc_midnight(year: i32, month: u32, day: u32) -> (r: Option<i64>)
    ensures
        r == utc_timestamp_of_date(year, month, day),
{
    match Utc.with_ymd_and_hms(year, month, day, 0, 0, 0).single() {
        Some(date) => Some(date.timestamp()),
        None => None,
    }
}

/// Trusted, not proved.  Calls `chrono::TimeZone::timestamp_opt` on `Utc`
/// for the given second, keeps the date-time it maps to with
/// `MappedLocalTime::single`, and takes its `Datelike::year`.  The contract
/// claims one thing: that the result rests on the argument alone, so that
/// it can go by the name `utc_year_of_timestamp`.
#[verifier::external_body]
fn utc_year(seconds: i64) -> (r: Option<i32>)
    ensures
        r == utc_year_of_timestamp(seconds),
{
    match Utc.timestamp_opt(seconds, 0).single() {
        Some(date) => Some(date.year()),
        None => None,
    }
}

/// The attempts of one competitor at one competition, in the event asked
/// for.
pub struct ParsedCompetitionResult {
    pub id: String,
    pub results: Vec<i32>,
}

/// One competitor with the competitions it took part in.
pub struct ParsedPersonResult {
    pub name: String,
    pub results: Vec<ParsedCompetitionResult>,
}

/// A competition as the service lists it: its identifier and the day it
/// starts, written `year-month-day`.
pub struct CompetitionDate {
    pub id: String,
    pub from: String,
}

/// A competition that counts, with its age in days.
pub struct DatedCompetition {
    pub id: String,
    pub days_since: i32,
}

/// The rounds of one event at a competition, each round with its attempts.
pub struct EventRounds {
    pub event_id: String,
    pub rounds: Vec<Vec<i32>>,
}

/// What one competitor did at one competition, event by event.
pub struct CompetitionRounds {
    pub id: String,
    pub events: Vec<EventRounds>,
}

/// One competitor with its dated history.
pub struct PersonHistory {
    pub name: String,
    pub results: Vec<DatedCompetitionResult>,
}

/// The span of time that competitions are taken from.
pub struct TimeRange {
    cutoff_timestamp: i64,
    today_timestamp: i64,
    years: Vec<i32>,
}

/// A time range as contracts see it.
pub struct TimeRangeModel {
    /// Second after which a competition counts.
    pub cutoff: i64,
    /// Second before which a competition counts, and from which ages are
    /// measured.
    pub today: i64,
    /// The calendar years that the range touches.
    pub years: Seq<i32>,
}

impl View for TimeRange {
    type V = TimeRangeModel;

    closed spec fn view(&self) -> TimeRangeModel {
        TimeRangeModel {
            cutoff: self.cutoff_timestamp,
            today: self.today_timestamp,
            years: self.years@,
        }
    }
}

/// The years from `first` to `last`, both included; none where `last` is
/// before `first`.
pub open spec fn spec_years(first: i32, last: i32) -> Seq<i32> {
    if last < first {
        Seq::empty()
    } else {
        Seq::new((last - first + 1) as nat, |i: int| (first + i) as i32)
    }
}

/// The second that a timestamp in milliseconds lies in, rounded towards
/// zero.
pub open spec fn spec_seconds(milliseconds: i64) -> i64 {
    div_toward_zero(milliseconds as int, 1000) as i64
}

/// The year of a timestamp, or `fallback` where the timestamp has none.
pub open spec fn spec_year_or(seconds: i64, fallback: i32) -> i32 {
    match utc_year_of_timestamp(seconds) {
        Some(year) => year,
        None => fallback,
    }
}

/// The age in days of the second `time_utc` at the second `today`:
/// whole days, rounded towards zero, and cut to 32 bits.
pub open spec fn spec_days_between(today: i64, time_utc: i64) -> i32 {
    div_toward_zero(today - time_utc, SECONDS_PER_DAY as int) as i32
}

/// The age of a competition that starts at `timestamp`, if it counts: it
/// counts where it has a timestamp that lies strictly inside the range.
pub open spec fn spec_age(range: TimeRangeModel, timestamp: Option<i64>) -> Option<i32> {
    match timestamp {
        Some(t) => if range.cutoff < t < range.today {
            Some(spec_days_between(range.today, t))
        } else {
            None
        },
        None => None,
    }
}

/// Year, month and day that a date text names: three numbers separated by
/// two hyphens, the year within `i32`, month and day within `u32`.
pub open spec fn spec_parse_date(text: Seq<char>) -> Option<(i32, u32, u32)> {
    let fields = spec_split(text, '-');
    if fields.len() != 3 {
        None
    } else {
        match (
            spec_parse_number(fields[0], i32::MAX as int),
            spec_parse_number(fields[1], u32::MAX as int),
            spec_parse_number(fields[2], u32::MAX as int),
        ) {
            (Some(year), Some(month), Some(day)) => Some((year as i32, month as u32, day as u32)),
            _ => None,
        }
    }
}

/// The timestamp of the start of the day that a date text names.
pub open spec fn spec_competition_timestamp(text: Seq<char>) -> Option<i64> {
    match spec_parse_date(text) {
        Some((year, month, day)) => utc_timestamp_of_date(year, month, day),
        None => None,
    }
}

/// Identifier and age of the competitions among `list` that count, in the
/// order of the list.
pub open spec fn spec_collect(list: Seq<CompetitionDate>, range: TimeRangeModel) -> Seq<
    (Seq<char>, i32),
>
    decreases list.len(),
{
    if list.len() == 0 {
        Seq::empty()
    } else {
        let rest = spec_collect(list.drop_last(), range);
        match spec_age(range, spec_competition_timestamp(list.last().from@)) {
            Some(days) => rest.push((list.last().id@, days)),
            None => rest,
        }
    }
}

/// Identifier and age of each of a list of competitions.
pub open spec fn competitions_of(list: Seq<DatedCompetition>) -> Seq<(Seq<char>, i32)> {
    Seq::new(list.len(), |i: int| (list[i].id@, list[i].days_since))
}

/// The age of the competition with the given identifier: that of the last
/// entry of the list with the identifier, if there is one.
pub open spec fn spec_days_since(competitions: Seq<DatedCompetition>, id: Seq<char>) -> Option<i32>
    decreases competitions.len(),
{
    if competitions.len() == 0 {
        None
    } else if competitions.last().id@ == id {
        Some(competitions.last().days_since)
    } else {
        spec_days_since(competitions.drop_last(), id)
    }
}

/// An attempt as it is simulated: a count of moves is held in hundredths,
/// kept within `i32`, every other result stands as it is.
pub open spec fn spec_scaled(event: EventType, solve: i32) -> i32 {
    if event == EventType::Mo3(Mo3Event::F333) {
        if solve * 100 > i32::MAX {
            i32::MAX
        } else if solve * 100 < i32::MIN {
            i32::MIN
        } else {
            (solve * 100) as i32
        }
    } else {
        solve
    }
}

/// The attempts of the first `n` rounds, round by round, as they are
/// simulated.
pub open spec fn spec_process_event_data(event: EventType, rounds: Seq<Vec<i32>>, n: nat) -> Seq<
    i32,
>
    decreases n,
{
    if n == 0 {
        Seq::empty()
    } else {
        spec_process_event_data(event, rounds, (n - 1) as nat) + Seq::new(
            rounds[n - 1]@.len(),
            |i: int| spec_scaled(event, rounds[n - 1]@[i]),
        )
    }
}

/// The rounds of the event with the given identifier among the first `n`
/// entries: those of the first entry with the identifier.
pub open spec fn spec_rounds_of(events: Seq<EventRounds>, id: Seq<char>, n: nat) -> Option<
    Seq<Vec<i32>>,
>
    decreases n,
{
    if n == 0 {
        None
    } else {
        match spec_rounds_of(events, id, (n - 1) as nat) {
            Some(rounds) => Some(rounds),
            None => if events[n - 1].event_id@ == id {
                Some(events[n - 1].rounds@)
            } else {
                None
            },
        }
    }
}

/// Identifier and attempts of each of a list of results.
pub open spec fn results_of(list: Seq<ParsedCompetitionResult>) -> Seq<(Seq<char>, Seq<i32>)> {
    Seq::new(list.len(), |i: int| (list[i].id@, list[i].results@))
}

/// For the first `n` competitions at which the competitor took part in the
/// event, the identifier and the attempts.
pub open spec fn spec_extract(
    event: EventType,
    competitions: Seq<CompetitionRounds>,
    n: nat,
) -> Seq<(Seq<char>, Seq<i32>)>
    decreases n,
{
    if n == 0 {
        Seq::empty()
    } else {
        let rest = spec_extract(event, competitions, (n - 1) as nat);
        let competition = competitions[n - 1];
        match spec_rounds_of(competition.events@, spec_id(event), competition.events@.len()) {
            Some(rounds) => rest.push(
                (competition.id@, spec_process_event_data(event, rounds, rounds.len())),
            ),
            None => rest,
        }
    }
}

/// Age and attempts of each of a list of dated results.
pub open spec fn history_of(list: Seq<DatedCompetitionResult>) -> Seq<(i32, Seq<i32>)> {
    Seq::new(list.len(), |i: int| (list[i].days_since, list[i].results@))
}

/// The dated history that the first `n` results give: the results at
/// competitions that count, each with the age of its competition.
pub open spec fn spec_history(
    competitions: Seq<DatedCompetition>,
    results: Seq<ParsedCompetitionResult>,
    n: nat,
) -> Seq<(i32, Seq<i32>)>
    decreases n,
{
    if n == 0 {
        Seq::empty()
    } else {
        let rest = spec_history(competitions, results, (n - 1) as nat);
        match spec_days_since(competitions, results[n - 1].id@) {
            Some(days) => rest.push((days, results[n - 1].results@)),
            None => rest,
        }
    }
}

impl TimeRange {
    /// The range between two timestamps in milliseconds.  Its years run from
    /// the year of the first timestamp to that of the second; a timestamp
    /// too far from the present to have a year counts as in `current_year`.
    pub fn new(start_date_js: i64, end_date_js: i64, current_year: i32) -> (r: Self)
        ensures
            r@.cutoff == spec_seconds(start_date_js),
            r@.today == spec_seconds(end_date_js),
            r@.years == spec_years(
                spec_year_or(spec_seconds(start_date_js), current_year),
                spec_year_or(spec_seconds(end_date_js), current_year),
            ),
    {
        let start_timestamp: i64 = start_date_js / 1000;
        let end_timestamp: i64 = end_date_js / 1000;
        let first: i32 = match utc_year(start_timestamp) {
            Some(year) => year,
            None => current_year,
        };
        let last: i32 = match utc_year(end_timestamp) {
            Some(year) => year,
            None => current_year,
        };
        let mut years: Vec<i32> = Vec::new();
        if first <= last {
            let mut year: i32 = first;
            while year < last
                invariant
                    first <= year <= last,
                    years@ == spec_years(first, year).drop_last(),
                decreases last - year,
            {
                years.push(year);
                assert(years@ =~= spec_years(first, (year + 1) as i32).drop_last());
                year += 1;
            }
            years.push(last);
            assert(years@ =~= spec_years(first, last));
        }
        Self { cutoff_timestamp: start_timestamp, today_timestamp: end_timestamp, years }
    }

    /// Second after which a competition counts.
    pub fn cutoff_timestamp(&self) -> (r: i64)
        ensures
            r == self@.cutoff,
    {
        self.cutoff_timestamp
    }

    /// Second from which ages are measured.
    pub fn today_timestamp(&self) -> (r: i64)
        ensures
            r == self@.today,
    {
        self.today_timestamp
    }

    /// The calendar years that the range touches.
    pub fn years(&self) -> (r: &Vec<i32>)
        ensures
            r@ == self@.years,
    {
        &self.years
    }

    /// Whether the second `time_utc` lies strictly inside the range.
    pub fn in_time_range(&self, time_utc: i64) -> (r: bool)
        ensures
            r == (self@.cutoff < time_utc < self@.today),
    {
        time_utc > self.cutoff_timestamp && time_utc < self.today_timestamp
    }

    /// The age in days of the second `time_utc` at the end of the range.
    pub fn days_from_cutoff(&self, time_utc: i64) -> (r: i32)
        ensures
            r == spec_days_between(self@.today, time_utc),
    {
        let seconds: i128 = self.today_timestamp as i128 - time_utc as i128;
        let days: i128 = seconds / (SECONDS_PER_DAY as i128);
        #[verifier::truncate]
        let r: i32 = days as i32;
        r
    }

    /// The age of a competition that starts at `timestamp`, if the
    /// competition counts.
    pub fn age_of(&self, timestamp: Option<i64>) -> (r: Option<i32>)
        ensures
            r == spec_age(self@, timestamp),
    {
        match timestamp {
            Some(t) => if self.in_time_range(t) {
                Some(self.days_from_cutoff(t))
            } else {
                None
            },
            None => None,
        }
    }
}

/// Reads year, month and day from a date written `year-month-day`.
pub fn parse_date(date_str: &str) -> (r: Option<(i32, u32, u32)>)
    ensures
        r == spec_parse_date(date_str@),
{
    let text = chars_of(date_str);
    let parts = split(&text, '-');
    if parts.len() != 3 {
        return None;
    }
    assert(texts_of(parts@)[0] == parts@[0]@);
    assert(texts_of(parts@)[1] == parts@[1]@);
    assert(texts_of(parts@)[2] == parts@[2]@);
    let year: u32 = match parse_number(&parts[0], i32::MAX as u32) {
        Some(value) => value,
        None => {
            return None;
        },
    };
    let month: u32 = match parse_number(&parts[1], u32::MAX) {
        Some(value) => value,
        None => {
            return None;
        },
    };
    let day: u32 = match parse_number(&parts[2], u32::MAX) {
        Some(value) => value,
        None => {
            return None;
        },
    };
    Some((year as i32, month, day))
}

/// The timestamp of the start of the day that `date_str` names; `None`
/// where the text names no date.
pub fn parse_competition_date(date_str: &str) -> (r: Option<i64>)
    ensures
        r == spec_competition_timestamp(date_str@),
{
    match parse_date(date_str) {
        Some((year, month, day)) => utc_midnight(year, month, day),
        None => None,
    }
}

/// The competitions of a list that count, each with its age, in the order
/// of the list.
pub fn collect_competitions(competition_list: &Vec<CompetitionDate>, time_range: &TimeRange) -> (r:
    Vec<DatedCompetition>)
    ensures
        competitions_of(r@) == spec_collect(competition_list@, time_range@),
{
    let mut out: Vec<DatedCompetition> = Vec::new();
    let mut i: usize = 0;
    assert(competition_list@.take(0) =~= Seq::<CompetitionDate>::empty());
    assert(competitions_of(out@) =~= spec_collect(competition_list@.take(0), time_range@));
    while i < competition_list.len()
        invariant
            i <= competition_list.len(),
            competitions_of(out@) == spec_collect(competition_list@.take(i as int), time_range@),
        decreases competition_list.len() - i,
    {
        let comp = &competition_list[i];
        let ghost before = competitions_of(out@);
        assert(competition_list@.take(i + 1).drop_last() =~= competition_list@.take(i as int));
        let timestamp = parse_competition_date(comp.from.as_str());
        match time_range.age_of(timestamp) {
            Some(days_since) => {
                out.push(DatedCompetition { id: comp.id.clone(), days_since });
                assert(competitions_of(out@) =~= before.push((comp.id@, days_since)));
            },
            None => {},
        }
        i += 1;
    }
    assert(competition_list@.take(i as int) =~= competition_list@);
    out
}

/// The age of the competition with the given identifier.
pub fn days_since_of(competitions: &Vec<DatedCompetition>, id: &String) -> (r: Option<i32>)
    ensures
        r == spec_days_since(competitions@, id@),
{
    let mut k: usize = competitions.len();
    assert(competitions@.take(k as int) =~= competitions@);
    while k > 0
        invariant
            k <= competitions.len(),
            spec_days_since(competitions@, id@) == spec_days_since(
                competitions@.take(k as int),
                id@,
            ),
        decreases k,
    {
        k -= 1;
        assert(competitions@.take(k + 1).drop_last() =~= competitions@.take(k as int));
        if competitions[k].id == *id {
            return Some(competitions[k].days_since);
        }
    }
    None
}

/// The attempts of an event at a competition, round by round, as they are
/// simulated.
pub fn process_event_data(event: EventType, event_data: &Vec<Vec<i32>>) -> (r: Vec<i32>)
    ensures
        r@ == spec_process_event_data(event, event_data@, event_data@.len()),
{
    let in_moves: bool = event == EventType::Mo3(Mo3Event::F333);
    let mut out: Vec<i32> = Vec::new();
    let mut i: usize = 0;
    while i < event_data.len()
        invariant
            i <= event_data.len(),
            in_moves == (event == EventType::Mo3(Mo3Event::F333)),
            out@ == spec_process_event_data(event, event_data@, i as nat),
        decreases event_data.len() - i,
    {
        let round = &event_data[i];
        let ghost before = out@;
        let ghost scaled = Seq::new(round@.len(), |k: int| spec_scaled(event, round@[k]));
        let mut j: usize = 0;
        while j < round.len()
            invariant
                j <= round.len(),
                in_moves == (event == EventType::Mo3(Mo3Event::F333)),
                scaled == Seq::new(round@.len(), |k: int| spec_scaled(event, round@[k])),
                out@ == before + scaled.take(j as int),
            decreases round.len() - j,
        {
            let solve: i32 = round[j];
            let value: i32 = if in_moves {
                let wide: i64 = solve as i64 * 100;
                if wide > i32::MAX as i64 {
                    i32::MAX
                } else if wide < i32::MIN as i64 {
                    i32::MIN
                } else {
                    wide as i32
                }
            } else {
                solve
            };
            out.push(value);
            assert(scaled.take(j + 1) =~= scaled.take(j as int).push(value));
            assert(out@ =~= before + scaled.take(j + 1));
            j += 1;
        }
        assert(scaled.take(j as int) =~= scaled);
        i += 1;
    }
    out
}

/// For every competition at which the competitor took part in the event,
/// its identifier and the attempts made there.
pub fn extract_competitor_results(event: EventType, competitions: &Vec<CompetitionRounds>) -> (r:
    Vec<ParsedCompetitionResult>)
    ensures
        results_of(r@) == spec_extract(event, competitions@, competitions@.len()),
{
    let wanted = chars_of(event.id());
    let mut out: Vec<ParsedCompetitionResult> = Vec::new();
    let mut i: usize = 0;
    assert(results_of(out@) =~= spec_extract(event, competitions@, 0));
    while i < competitions.len()
        invariant
            i <= competitions.len(),
            wanted@ == spec_id(event),
            results_of(out@) == spec_extract(event, competitions@, i as nat),
        decreases competitions.len() - i,
    {
        let competition = &competitions[i];
        let ghost before = results_of(out@);
        let mut found: Option<usize> = None;
        let mut j: usize = 0;
        while j < competition.events.len() && found.is_none()
            invariant
                j <= competition.events.len(),
                wanted@ == spec_id(event),
                match found {
                    Some(at) => at < competition.events@.len() && spec_rounds_of(
                        competition.events@,
                        spec_id(event),
                        competition.events@.len(),
                    ) == Some(competition.events@[at as int].rounds@),
                    None => spec_rounds_of(competition.events@, spec_id(event), j as nat).is_none(),
                },
            decreases competition.events.len() - j + if found.is_none() {
                1int
            } else {
                0int
            },
        {
            let name = chars_of(competition.events[j].event_id.as_str());
            if same_chars(&name, &wanted) {
                found = Some(j);
                proof {
                    lemma_rounds_found(competition.events@, spec_id(event), j as nat);
                }
            } else {
                j += 1;
            }
        }
        match found {
            Some(at) => {
                let results = process_event_data(event, &competition.events[at].rounds);
                out.push(ParsedCompetitionResult { id: competition.id.clone(), results });
                assert(results_of(out@) =~= before.push((competition.id@, results@)));
            },
            None => {},
        }
        i += 1;
    }
    out
}

/// Once an entry with the identifier is found, later entries do not
/// matter.
proof fn lemma_rounds_found(events: Seq<EventRounds>, id: Seq<char>, at: nat)
    requires
        at < events.len(),
        events[at as int].event_id@ == id,
        spec_rounds_of(events, id, at).is_none(),
    ensures
        spec_rounds_of(events, id, events.len()) == Some(events[at as int].rounds@),
{
    lemma_rounds_stay(events, id, at + 1, events.len());
}

/// Once rounds are found among the first entries, looking at more entries
/// finds the same rounds.
proof fn lemma_rounds_stay(events: Seq<EventRounds>, id: Seq<char>, from: nat, to: nat)
    requires
        from <= to <= events.len(),
        spec_rounds_of(events, id, from).is_some(),
    ensures
        spec_rounds_of(events, id, to) == spec_rounds_of(events, id, from),
    decreases to - from,
{
    if from < to {
        lemma_rounds_stay(events, id, from, (to - 1) as nat);
    }
}

/// A list in reverse order.
fn reversed<T>(list: Vec<T>) -> (r: Vec<T>)
    ensures
        r@ == list@.reverse(),
{
    let mut list = list;
    let ghost given = list@;
    let mut out: Vec<T> = Vec::new();
    while list.len() > 0
        invariant
            list@.len() <= given.len(),
            list@ == given.take(list@.len() as int),
            out@.len() == given.len() - list@.len(),
            forall|k: int| 0 <= k < out@.len() ==> out@[k] == given[given.len() - 1 - k],
        decreases list.len(),
    {
        let item = list.pop().unwrap();
        out.push(item);
    }
    assert(out@ =~= given.reverse());
    out
}

/// The dated history of a competitor: its results at the competitions that
/// count, each with the age of the competition.
pub fn join_results(
    competitions: &Vec<DatedCompetition>,
    results: Vec<ParsedCompetitionResult>,
) -> (r: Vec<DatedCompetitionResult>)
    ensures
        history_of(r@) == spec_history(competitions@, results@, results@.len()),
{
    let ghost given = results@;
    let n: usize = results.len();
    let mut rest = reversed(results);
    let mut out: Vec<DatedCompetitionResult> = Vec::new();
    assert(history_of(out@) =~= spec_history(competitions@, given, 0));
    while rest.len() > 0
        invariant
            rest@.len() <= n,
            n == given.len(),
            rest@ == given.reverse().take(rest@.len() as int),
            history_of(out@) == spec_history(competitions@, given, (n - rest@.len()) as nat),
        decreases rest.len(),
    {
        let ghost before = history_of(out@);
        let ghost at = n - rest@.len();
        let competition = rest.pop().unwrap();
        assert(competition == given[at]);
        let ParsedCompetitionResult { id, results: attempts } = competition;
        match days_since_of(competitions, &id) {
            Some(days_since) => {
                out.push(DatedCompetitionResult { days_since, results: attempts });
                assert(history_of(out@) =~= before.push((days_since, attempts@)));
            },
            None => {},
        }
    }
    out
}

/// The dated history of every competitor, in the order given.
pub fn join_data(competitions: &Vec<DatedCompetition>, results: Vec<ParsedPersonResult>) -> (r: Vec<
    PersonHistory,
>)
    ensures
        r@.len() == results@.len(),
        forall|i: int|
            0 <= i < r@.len() ==> (#[trigger] r@[i]).name == results@[i].name && history_of(
                r@[i].results@,
            ) == spec_history(competitions@, results@[i].results@, results@[i].results@.len()),
{
    let ghost given = results@;
    let n: usize = results.len();
    let mut rest = reversed(results);
    let mut out: Vec<PersonHistory> = Vec::new();
    while rest.len() > 0
        invariant
            rest@.len() <= n,
            n == given.len(),
            rest@ == given.reverse().take(rest@.len() as int),
            out@.len() == n - rest@.len(),
            forall|i: int|
                0 <= i < out@.len() ==> (#[trigger] out@[i]).name == given[i].name && history_of(
                    out@[i].results@,
                ) == spec_history(competitions@, given[i].results@, given[i].results@.len()),
        decreases rest.len(),
    {
        let ghost at = n - rest@.len();
        let person = rest.pop().unwrap();
        assert(person == given[at]);
        let ParsedPersonResult { name, results: attended } = person;
        let history = join_results(competitions, attended);
        out.push(PersonHistory { name, results: history });
    }
    out
}

/// Whether one of the first `n` outcomes is a failure.
pub open spec fn any_failed<T>(outcomes: Seq<Result<T, &'static str>>, n: int) -> bool {
    exists|i: int| 0 <= i < n && i < outcomes.len() && (#[trigger] outcomes[i]).is_err()
}

/// The competitions of the first `n` lists, list after list.
pub open spec fn spec_merge(lists: Seq<Result<Vec<DatedCompetition>, &'static str>>, n: nat) -> Seq<
    (Seq<char>, i32),
>
    decreases n,
{
    if n == 0 {
        Seq::empty()
    } else {
        spec_merge(lists, (n - 1) as nat) + match lists[n - 1] {
            Ok(list) => competitions_of(list@),
            Err(_) => Seq::empty(),
        }
    }
}

/// Puts the competitions of several years together, year after year, so
/// that of two entries with one identifier the later is found.  Fails if
/// the competitions of any year could not be had.
pub fn merge_competition_results(results: Vec<Result<Vec<DatedCompetition>, &'static str>>) -> (r:
    Result<Vec<DatedCompetition>, &'static str>)
    ensures
        r.is_err() <==> any_failed(results@, results@.len() as int),
        match r {
            Ok(all) => competitions_of(all@) == spec_merge(results@, results@.len()),
            Err(message) => message@ == "Error fetching competition data"@,
        },
{
    let ghost given = results@;
    let n: usize = results.len();
    let mut rest = reversed(results);
    let mut all_competitions: Vec<DatedCompetition> = Vec::new();
    assert(competitions_of(all_competitions@) =~= spec_merge(given, 0));
    while rest.len() > 0
        invariant
            rest@.len() <= n,
            n == given.len(),
            rest@ == given.reverse().take(rest@.len() as int),
            given == results@,
            !any_failed(given, n - rest@.len()),
            competitions_of(all_competitions@) == spec_merge(given, (n - rest@.len()) as nat),
        decreases rest.len(),
    {
        let ghost at = n - rest@.len();
        let ghost before = competitions_of(all_competitions@);
        let result = rest.pop().unwrap();
        assert(result == given[at]);
        match result {
            Ok(competitions) => {
                let mut competitions = competitions;
                let ghost added = competitions_of(competitions@);
                all_competitions.append(&mut competitions);
                assert(competitions_of(all_competitions@) =~= before + added);
                assert forall|i: int| 0 <= i < at + 1 && i < given.len() implies !(
                #[trigger] given[i]).is_err() by {
                    if i < at {
                        assert(!any_failed(given, at));
                    }
                }
            },
            Err(_) => {
                assert(given[at].is_err());
                return Err("Error fetching competition data");
            },
        }
    }
    Ok(all_competitions)
}

/// Puts the results of all competitors together, in the order given.
/// Fails if the results of any competitor could not be had.
pub fn collect_solve_results(
    results: Vec<Result<(String, Vec<ParsedCompetitionResult>), &'static str>>,
) -> (r: Result<Vec<ParsedPersonResult>, &'static str>)
    ensures
        r.is_err() <==> any_failed(results@, results@.len() as int),
        match r {
            Ok(people) => people@.len() == results@.len() && forall|i: int|
                0 <= i < people@.len() ==> results@[i] == Ok::<
                    (String, Vec<ParsedCompetitionResult>),
                    &'static str,
                >(((#[trigger] people@[i]).name, people@[i].results)),
            Err(message) => message@ == "Error fetching competitor data"@,
        },
{
    let ghost given = results@;
    let n: usize = results.len();
    let mut rest = reversed(results);
    let mut people: Vec<ParsedPersonResult> = Vec::new();
    while rest.len() > 0
        invariant
            rest@.len() <= n,
            n == given.len(),
            rest@ == given.reverse().take(rest@.len() as int),
            given == results@,
            !any_failed(given, n - rest@.len()),
            people@.len() == n - rest@.len(),
            forall|i: int|
                0 <= i < people@.len() ==> given[i] == Ok::<
                    (String, Vec<ParsedCompetitionResult>),
                    &'static str,
                >(((#[trigger] people@[i]).name, people@[i].results)),
        decreases rest.len(),
    {
        let ghost at = n - rest@.len();
        let result = rest.pop().unwrap();
        assert(result == given[at]);
        match result {
            Ok((name, results)) => {
                people.push(ParsedPersonResult { name, results });
                assert forall|i: int| 0 <= i < at + 1 && i < given.len() implies !(
                #[trigger] given[i]).is_err() by {
                    if i < at {
                        assert(!any_failed(given, at));
                    }
                }
            },
            Err(_) => {
                assert(given[at].is_err());
                return Err("Error fetching competitor data");
            },
        }
    }
    Ok(people)
}

} // verus!
