use chrono::{Datelike, NaiveDate};
use cleaning_bot::calendar::Date;
use cleaning_bot::domain::CleaningGroup;
use cleaning_bot::planning::fill_intervals;
use cleaning_bot::rhythm::{parse_weekday, Rhythm, Shift, Turn};
use cleaning_bot::state::State;

fn date(y: i32, m: u32, d: u32) -> Date {
    Date { day: NaiveDate::from_ymd_opt(y, m, d).unwrap().num_days_from_ce() }
}

#[test]
fn default_rhythm_is_one_whole_week_shift() {
    let r = Rhythm::default();
    assert_eq!(r.every_weeks(), 1);
    assert_eq!(r.shifts(), [Shift { start: 0, end: 6 }]);
    assert_eq!(r.describe(), "weekly");
    assert_eq!(Turn::new(2025, 39, 0).shift_label(&r), None);
}

#[test]
fn twice_a_week_splits_monday_to_wednesday_and_thursday_to_sunday() {
    let r = Rhythm { every_weeks: Some(1), shift_starts: Rhythm::times_per_week(2) };
    assert_eq!(r.shifts(), [Shift { start: 0, end: 2 }, Shift { start: 3, end: 6 }]);
    assert_eq!(r.describe(), "2× per week (Mon–Wed, Thu–Sun)");
    assert_eq!(r.shift_for_weekday(1), 0);
    assert_eq!(r.shift_for_weekday(3), 1);
    assert_eq!(r.shift_for_weekday(6), 1);

    let turn = Turn::new(2025, 39, 1);
    let (start, end) = turn.dates(&r);
    assert_eq!(start, date(2025, 9, 25));
    assert_eq!(end, date(2025, 9, 28));
    assert_eq!(turn.period_label(&r), "Thu–Sun 25 – 28 Sep");
}

#[test]
fn explicit_starts_always_begin_on_monday() {
    let r = Rhythm { every_weeks: Some(2), shift_starts: vec![4] };
    assert_eq!(r.shifts(), [Shift { start: 0, end: 3 }, Shift { start: 4, end: 6 }]);
    assert_eq!(r.describe(), "2× per due week, every 2 weeks (Mon–Thu, Fri–Sun)");
    assert_eq!(Rhythm::times_per_week(7).len(), 7);
    assert_eq!(Rhythm::times_per_week(3), [0, 2, 4]);
}

#[test]
fn weekdays_parse_in_english_and_german() {
    assert_eq!(parse_weekday("thu"), Some(3));
    assert_eq!(parse_weekday("Donnerstag"), Some(3));
    assert_eq!(parse_weekday("so"), Some(6));
    assert_eq!(parse_weekday("x"), None);
}

#[test]
fn groups_without_an_interval_get_the_configured_one() {
    let mut state = State::default();
    for every_weeks in [None, Some(1), Some(3)] {
        let mut group = CleaningGroup::new("Kitchen");
        group.rhythm = Rhythm { every_weeks, shift_starts: Rhythm::times_per_week(2) };
        state.cleaning_groups.push(group);
    }
    fill_intervals(&mut state, 2);
    let filled: Vec<Option<u32>> =
        state.cleaning_groups.iter().map(|g| g.rhythm.every_weeks).collect();
    assert_eq!(filled, [Some(2), Some(1), Some(3)]);
    assert!(state.cleaning_groups.iter().all(|g| g.rhythm.shifts().len() == 2));
    fill_intervals(&mut state, 5);
    assert_eq!(state.cleaning_groups[0].rhythm.every_weeks, Some(2));
}
