use competition_simulator::data::{
    collect_competitions, collect_solve_results, days_since_of, extract_competitor_results,
    join_data, join_results, merge_competition_results, parse_competition_date, parse_date,
    process_event_data, CompetitionDate, CompetitionRounds, DatedCompetition, EventRounds,
    ParsedCompetitionResult, ParsedPersonResult, TimeRange, SECONDS_PER_DAY,
};
use competition_simulator::event::{Ao5Event, EventType, Mo3Event};

const JAN_1_2023: i64 = 1_672_531_200;
const JAN_1_2024: i64 = 1_704_067_200;
const JAN_15_2024: i64 = 1_705_276_800;

fn listing(id: &str, from: &str) -> CompetitionDate {
    CompetitionDate { id: id.to_string(), from: from.to_string() }
}

fn dated(id: &str, days_since: i32) -> DatedCompetition {
    DatedCompetition { id: id.to_string(), days_since }
}

fn parsed(id: &str, results: &[i32]) -> ParsedCompetitionResult {
    ParsedCompetitionResult { id: id.to_string(), results: results.to_vec() }
}

fn pairs(list: &[DatedCompetition]) -> Vec<(String, i32)> {
    list.iter().map(|c| (c.id.clone(), c.days_since)).collect()
}

#[test]
fn a_day_has_86400_seconds() {
    assert_eq!(SECONDS_PER_DAY, 86_400);
}

#[test]
fn dates_are_three_numbers_between_hyphens() {
    assert_eq!(parse_date("2024-01-15"), Some((2024, 1, 15)));
    assert_eq!(parse_date("2024-1-5"), Some((2024, 1, 5)));
    assert_eq!(parse_date("+2024-+1-+5"), Some((2024, 1, 5)));
    assert_eq!(parse_date("0-0-0"), Some((0, 0, 0)));
    assert_eq!(parse_date("2147483647-4294967295-99"), Some((i32::MAX, u32::MAX, 99)));
}

#[test]
fn other_text_is_no_date() {
    for text in [
        "",
        "2024",
        "2024-01",
        "2024-01-15-",
        "2024-01-15-3",
        "-2024-01-15",
        "2024--15",
        "2024-01-15 ",
        " 2024-01-15",
        "2024/01/15",
        "2024-Jan-15",
        "2147483648-01-01",
        "2024-4294967296-01",
    ] {
        assert_eq!(parse_date(text), None);
    }
}

#[test]
fn competition_dates_are_midnight_utc() {
    assert_eq!(parse_competition_date("1970-01-01"), Some(0));
    assert_eq!(parse_competition_date("1969-12-31"), Some(-86_400));
    assert_eq!(parse_competition_date("2000-02-29"), Some(951_782_400));
    assert_eq!(parse_competition_date("2023-01-01"), Some(JAN_1_2023));
    assert_eq!(parse_competition_date("2024-01-15"), Some(JAN_15_2024));
    assert_eq!(parse_competition_date("2024-1-5"), Some(JAN_1_2024 + 4 * 86_400));
    assert_eq!(parse_competition_date("0000-01-01"), Some(-62_167_219_200));
}

#[test]
fn days_that_the_calendar_lacks_have_no_timestamp() {
    for text in ["2023-02-29", "2024-13-01", "2024-00-10", "2024-04-31", "2024-01-00", "300000-01-01"] {
        assert_eq!(parse_competition_date(text), None);
    }
    assert_eq!(parse_competition_date("not a date"), None);
}

#[test]
fn a_range_holds_seconds_and_years() {
    let range = TimeRange::new(JAN_1_2023 * 1000 + 999, JAN_15_2024 * 1000, 1999);
    assert_eq!(range.cutoff_timestamp(), JAN_1_2023);
    assert_eq!(range.today_timestamp(), JAN_15_2024);
    assert_eq!(range.years(), &vec![2023, 2024]);
}

#[test]
fn a_range_within_one_year_has_one_year() {
    let range = TimeRange::new(JAN_1_2024 * 1000, JAN_15_2024 * 1000, 1999);
    assert_eq!(range.years(), &vec![2024]);
}

#[test]
fn a_range_that_ends_before_it_starts_has_no_years() {
    let range = TimeRange::new(JAN_15_2024 * 1000, JAN_1_2023 * 1000, 1999);
    assert!(range.years().is_empty());
    assert!(!range.in_time_range(JAN_1_2024));
}

#[test]
fn the_last_second_of_a_year_belongs_to_it() {
    let range = TimeRange::new((JAN_1_2023 - 1) * 1000, (JAN_1_2024 - 1) * 1000, 1999);
    assert_eq!(range.years(), &vec![2022, 2023]);
}

#[test]
fn milliseconds_before_the_epoch_round_towards_it() {
    let range = TimeRange::new(-1, -1001, 1999);
    assert_eq!(range.cutoff_timestamp(), 0);
    assert_eq!(range.today_timestamp(), -1);
    assert!(range.years().is_empty());
    let back = TimeRange::new(-1001, -1, 1999);
    assert_eq!(back.years(), &vec![1969, 1970]);
}

#[test]
fn a_timestamp_without_a_year_counts_as_the_current_year() {
    let range = TimeRange::new(JAN_1_2023 * 1000, i64::MAX, 2026);
    assert_eq!(range.years(), &vec![2023, 2024, 2025, 2026]);
    let none = TimeRange::new(i64::MIN, i64::MAX, 2026);
    assert_eq!(none.years(), &vec![2026]);
}

#[test]
fn the_ends_of_a_range_are_outside() {
    let range = TimeRange::new(JAN_1_2023 * 1000, JAN_15_2024 * 1000, 1999);
    assert!(!range.in_time_range(JAN_1_2023));
    assert!(range.in_time_range(JAN_1_2023 + 1));
    assert!(range.in_time_range(JAN_15_2024 - 1));
    assert!(!range.in_time_range(JAN_15_2024));
    assert!(!range.in_time_range(i64::MIN));
    assert!(!range.in_time_range(i64::MAX));
}

#[test]
fn ages_are_whole_days_before_the_end() {
    let range = TimeRange::new(JAN_1_2023 * 1000, JAN_15_2024 * 1000, 1999);
    assert_eq!(range.days_from_cutoff(JAN_1_2024), 14);
    assert_eq!(range.days_from_cutoff(JAN_15_2024), 0);
    assert_eq!(range.days_from_cutoff(JAN_15_2024 - 86_399), 0);
    assert_eq!(range.days_from_cutoff(JAN_15_2024 - 86_400), 1);
    assert_eq!(range.days_from_cutoff(JAN_15_2024 + 86_399), 0);
    assert_eq!(range.days_from_cutoff(JAN_15_2024 + 86_400), -1);
    assert_eq!(range.days_from_cutoff(JAN_1_2023), 379);
}

#[test]
fn ages_never_fail() {
    let range = TimeRange::new(i64::MAX, i64::MAX, 1999);
    let days = (i64::MAX / 1000) as i128 - i64::MIN as i128;
    assert_eq!(range.days_from_cutoff(i64::MIN), (days / 86_400) as i32);
    let _ = range.days_from_cutoff(i64::MAX);
}

#[test]
fn only_competitions_inside_the_range_have_an_age() {
    let range = TimeRange::new(JAN_1_2023 * 1000, JAN_15_2024 * 1000, 1999);
    assert_eq!(range.age_of(Some(JAN_1_2024)), Some(14));
    assert_eq!(range.age_of(Some(JAN_1_2023)), None);
    assert_eq!(range.age_of(Some(JAN_15_2024)), None);
    assert_eq!(range.age_of(None), None);
}

#[test]
fn competitions_that_count_are_collected_in_order() {
    let range = TimeRange::new(JAN_1_2023 * 1000, JAN_15_2024 * 1000, 1999);
    let list = vec![
        listing("Early2022", "2022-12-31"),
        listing("NewYear2023", "2023-01-01"),
        listing("Spring2023", "2023-04-10"),
        listing("Broken", "2023-02-30"),
        listing("Unreadable", "tenth of May"),
        listing("NewYear2024", "2024-01-01"),
        listing("Today", "2024-01-15"),
        listing("Spring2023", "2023-04-11"),
    ];
    let out = collect_competitions(&list, &range);
    assert_eq!(
        pairs(&out),
        vec![
            ("Spring2023".to_string(), 280),
            ("NewYear2024".to_string(), 14),
            ("Spring2023".to_string(), 279),
        ]
    );
    assert!(collect_competitions(&vec![], &range).is_empty());
}

#[test]
fn the_later_of_two_entries_is_found() {
    let list = vec![dated("A", 1), dated("B", 2), dated("A", 3)];
    assert_eq!(days_since_of(&list, &"A".to_string()), Some(3));
    assert_eq!(days_since_of(&list, &"B".to_string()), Some(2));
    assert_eq!(days_since_of(&list, &"C".to_string()), None);
    assert_eq!(days_since_of(&list, &"a".to_string()), None);
    assert_eq!(days_since_of(&vec![], &"A".to_string()), None);
}

#[test]
fn years_are_merged_one_after_the_other() {
    let merged = merge_competition_results(vec![
        Ok(vec![dated("A", 1), dated("B", 2)]),
        Ok(vec![]),
        Ok(vec![dated("A", 3)]),
    ])
    .expect("all years are there");
    assert_eq!(
        pairs(&merged),
        vec![("A".to_string(), 1), ("B".to_string(), 2), ("A".to_string(), 3)]
    );
    assert_eq!(days_since_of(&merged, &"A".to_string()), Some(3));
    assert!(merge_competition_results(vec![]).expect("nothing to merge").is_empty());
}

#[test]
fn a_missing_year_fails_the_merge() {
    let merged = merge_competition_results(vec![
        Ok(vec![dated("A", 1)]),
        Err("Failed to fetch data"),
        Ok(vec![dated("B", 2)]),
    ]);
    assert_eq!(merged.err(), Some("Error fetching competition data"));
}

#[test]
fn attempts_are_flattened_round_by_round() {
    let rounds = vec![vec![800, 810, -1], vec![], vec![790, 805]];
    let event = EventType::Ao5(Ao5Event::S333);
    assert_eq!(process_event_data(event, &rounds), vec![800, 810, -1, 790, 805]);
    assert!(process_event_data(event, &vec![]).is_empty());
}

#[test]
fn move_counts_are_held_in_hundredths() {
    let rounds = vec![vec![24, -1], vec![31, 0, -2]];
    let event = EventType::Mo3(Mo3Event::F333);
    assert_eq!(process_event_data(event, &rounds), vec![2400, -100, 3100, 0, -200]);
    assert_eq!(
        process_event_data(EventType::Mo3(Mo3Event::S666), &rounds),
        vec![24, -1, 31, 0, -2]
    );
}

#[test]
fn move_counts_too_large_stay_in_range() {
    let rounds = vec![vec![21_474_836, 21_474_837, -21_474_836, -21_474_837, i32::MAX, i32::MIN]];
    let event = EventType::Mo3(Mo3Event::F333);
    assert_eq!(
        process_event_data(event, &rounds),
        vec![2_147_483_600, i32::MAX, -2_147_483_600, i32::MIN, i32::MAX, i32::MIN]
    );
}

#[test]
fn results_of_the_event_are_extracted() {
    let competitions = vec![
        CompetitionRounds {
            id: "Spring2023".to_string(),
            events: vec![
                EventRounds { event_id: "222".to_string(), rounds: vec![vec![300, 310]] },
                EventRounds { event_id: "333".to_string(), rounds: vec![vec![800, -1], vec![790]] },
            ],
        },
        CompetitionRounds {
            id: "Summer2023".to_string(),
            events: vec![EventRounds { event_id: "333oh".to_string(), rounds: vec![vec![1500]] }],
        },
        CompetitionRounds { id: "Autumn2023".to_string(), events: vec![] },
        CompetitionRounds {
            id: "Winter2023".to_string(),
            events: vec![
                EventRounds { event_id: "333".to_string(), rounds: vec![] },
                EventRounds { event_id: "333".to_string(), rounds: vec![vec![1]] },
            ],
        },
    ];
    let out = extract_competitor_results(EventType::Ao5(Ao5Event::S333), &competitions);
    let got: Vec<(String, Vec<i32>)> = out.into_iter().map(|r| (r.id, r.results)).collect();
    assert_eq!(
        got,
        vec![("Spring2023".to_string(), vec![800, -1, 790]), ("Winter2023".to_string(), vec![])]
    );
}

#[test]
fn people_are_collected_in_order() {
    let people = collect_solve_results(vec![
        Ok(("Ada".to_string(), vec![parsed("A", &[1, 2])])),
        Ok(("Bo".to_string(), vec![])),
    ])
    .expect("everybody is there");
    assert_eq!(people.len(), 2);
    assert_eq!(people[0].name, "Ada");
    assert_eq!(people[0].results[0].id, "A");
    assert_eq!(people[0].results[0].results, vec![1, 2]);
    assert_eq!(people[1].name, "Bo");
    assert!(people[1].results.is_empty());
}

#[test]
fn a_missing_person_fails_the_collection() {
    let people = collect_solve_results(vec![
        Ok(("Ada".to_string(), vec![])),
        Err("Failed to parse JSON"),
    ]);
    assert_eq!(people.err(), Some("Error fetching competitor data"));
}

#[test]
fn results_are_joined_with_the_age_of_their_competition() {
    let competitions = vec![dated("A", 10), dated("B", 20), dated("A", 30)];
    let results = vec![parsed("B", &[1, 2]), parsed("X", &[3]), parsed("A", &[]), parsed("B", &[4])];
    let history = join_results(&competitions, results);
    let got: Vec<(i32, Vec<i32>)> = history.into_iter().map(|h| (h.days_since, h.results)).collect();
    assert_eq!(got, vec![(20, vec![1, 2]), (30, vec![]), (20, vec![4])]);
}

#[test]
fn everybody_gets_a_history() {
    let competitions = vec![dated("A", 10)];
    let people = vec![
        ParsedPersonResult { name: "Ada".to_string(), results: vec![parsed("A", &[800])] },
        ParsedPersonResult { name: "Bo".to_string(), results: vec![parsed("Z", &[900])] },
        ParsedPersonResult { name: "Cy".to_string(), results: vec![] },
    ];
    let out = join_data(&competitions, people);
    let names: Vec<&str> = out.iter().map(|p| p.name.as_str()).collect();
    assert_eq!(names, vec!["Ada", "Bo", "Cy"]);
    assert_eq!(out[0].results.len(), 1);
    assert_eq!(out[0].results[0].days_since, 10);
    assert_eq!(out[0].results[0].results, vec![800]);
    assert!(out[1].results.is_empty());
    assert!(out[2].results.is_empty());
}
