use cleaning_bot::calendar::{add_weeks, current_iso_week, now, planning_day, today, today_in};
use cleaning_bot::commands::base::{CommandError, Request};
use cleaning_bot::commands::dispatch::{read_line, Command};
use cleaning_bot::commands::done::cmd_done;
use cleaning_bot::commands::exports::{cmd_cleanplan, snapshot_of};
use cleaning_bot::commands::groups::{cmd_groups, Factors};
use cleaning_bot::commands::help::admin_help_text;
use cleaning_bot::commands::link::apply_linkmatrix;
use cleaning_bot::commands::members::{add_matrix_participant, cmd_joinfloor};
use cleaning_bot::commands::outlook::cmd_next;
use cleaning_bot::commands::overview::cmd_status;
use cleaning_bot::commands::people::{cmd_absent, cmd_cleaning_people};
use cleaning_bot::commands::swaps::cmd_swap;
use cleaning_bot::domain::{CleaningGroup, Person, SlotAssignment};
use cleaning_bot::greetings::{note_greeting, welcome, Greeting};
use cleaning_bot::pdf::render_tex;
use cleaning_bot::planning::{
    dates_fit, group_dates_fit, group_horizon_weeks_ahead, is_known, materialize_and_apply,
    swaps_fit,
};
use cleaning_bot::resolver::materialize;
use cleaning_bot::rhythm::Rhythm;
use cleaning_bot::state::{State, SwapRequest, SwapStatus};

const ALICE: &str = "@alice:example.org";
const BOB: &str = "@bob:example.org";

fn request(sender: &str) -> Request {
    Request {
        sender: sender.to_owned(),
        is_admin: true,
        today: today(),
        now: now(),
        usual: 4,
    }
}

fn words(args: &[&str]) -> Vec<String> {
    args.iter().map(|a| a.to_string()).collect()
}

/// Alice cleans the hall every week, Bob the attic once in ages.
fn hall_and_attic() -> State {
    let (alice, bob) = (Person::new_matrix(ALICE), Person::new_matrix(BOB));
    let mut hall = CleaningGroup::new("Hall");
    hall.member_ids.push(alice.id.clone());
    let mut attic = CleaningGroup::new("Attic");
    attic.member_ids.push(bob.id.clone());
    attic.rhythm = Rhythm { every_weeks: Some(u32::MAX), shift_starts: vec![] };
    let mut state = State::default();
    state.persons = vec![alice, bob];
    state.cleaning_groups = vec![hall, attic];
    state
}

/// The same, with Bob's turn in a week that no calendar has.
fn with_a_stray_week() -> State {
    let mut state = hall_and_attic();
    let attic = &state.cleaning_groups[1];
    state.slot_assignments.push(SlotAssignment {
        group_id: attic.id.clone(),
        slot_index: 0,
        iso_year: i32::MAX,
        iso_week: 1,
        shift: 0,
        person_id: Some(attic.member_ids[0].clone()),
        source: Default::default(),
    });
    state
}

fn no_factors() -> Factors {
    Factors { group: None, slots: vec![], rooms: vec![] }
}

#[test]
fn a_group_that_is_due_once_in_ages_stops_no_command() {
    let mut state = hall_and_attic();
    assert!(is_known(&state, today()));
    materialize_and_apply(&mut state, 3, today(), now()).unwrap();
    let of = |name: &str, state: &State| {
        let id = &state.group_by_name(name).unwrap().id;
        state.slot_assignments.iter().filter(|a| &a.group_id == id).count()
    };
    assert_eq!(of("Hall", &state), 3);
    assert_eq!(of("Attic", &state), 1);
    assert_eq!(group_horizon_weeks_ahead(&state, &state.cleaning_groups[1], today()), 1);

    let done = cmd_done(&mut state, &request(ALICE), &vec![]).unwrap();
    assert_eq!(done, "✅ Cleaned: Hall");
    let joined = cmd_joinfloor(&mut state, &request(ALICE), &words(&["Attic"])).unwrap();
    assert!(joined.contains("Attic"), "{joined}");
    assert!(cmd_status(&state, today()).unwrap().contains("**Attic**"));
    let away = cmd_absent(&mut state, &request(ALICE), &words(&[BOB, "3"]));
    assert!(away.is_ok());
}

#[test]
fn weeks_that_no_calendar_has_are_not_planned() {
    let mut state = hall_and_attic();
    state.cleaning_groups.remove(0);
    assert_eq!(materialize(&state, 5).len(), 2);
    state.cleaning_groups[0].rhythm.every_weeks = Some(6000000);
    let (year, week) = current_iso_week();
    let events = materialize(&state, 5);
    assert_eq!(events.len(), 4, "three weeks and the order of turns");
    let next = add_weeks(year, week, 6000000);
    assert!(next.0 > 100000 && next.0 < 262142);
}

#[test]
fn a_stray_week_fails_only_what_has_to_name_it() {
    let mut state = with_a_stray_week();
    let (hall, attic) = (state.cleaning_groups[0].clone(), state.cleaning_groups[1].clone());
    assert!(!dates_fit(&state));
    assert!(group_dates_fit(&state, &hall.id) && !group_dates_fit(&state, &attic.id));
    let req = request(ALICE);
    let detail = |name: &str, state: &State| {
        cmd_groups(state, &Some(name.to_owned()), &no_factors(), today())
    };
    assert!(detail("Hall", &state).is_ok());
    assert_eq!(detail("Attic", &state), Err(CommandError::OutOfRange));
    assert!(cmd_groups(&state, &None, &no_factors(), today()).is_ok());
    assert!(cmd_cleaning_people(&state, &req, &words(&["Hall"])).is_ok());
    let everybody = cmd_cleaning_people(&state, &req, &vec![]);
    assert_eq!(everybody, Err(CommandError::OutOfRange));
    assert!(cmd_next(&state, &req, &vec![]).is_ok());
    let next = cmd_next(&state, &request(BOB), &vec![]);
    assert_eq!(next, Err(CommandError::OutOfRange));

    assert_eq!(cmd_done(&mut state, &req, &vec![]).unwrap(), "✅ Cleaned: Hall");
    let args = words(&["@carl:example.org", "Attic"]);
    let before = state.event_log.len();
    let added = add_matrix_participant(&mut state, &req, &args);
    assert_eq!(added, Err(CommandError::OutOfRange));
    assert_eq!(state.event_log.len(), before);
    let args = words(&["@carl:example.org", "Hall"]);
    assert!(add_matrix_participant(&mut state, &req, &args).is_ok());
}

#[test]
fn merging_two_people_is_never_left_half_done() {
    let mut state = with_a_stray_week();
    let named = Person::new_named("Robert");
    let id = named.id.clone();
    state.persons.push(named);
    state.cleaning_groups[0].member_ids.push(id.clone());
    let reply =
        apply_linkmatrix(&mut state, &request(ALICE), "Robert", &BOB.to_owned(), &None).unwrap();
    assert!(reply.contains(BOB), "{reply}");
    let linked = state.persons.iter().find(|p| p.id == id).unwrap();
    assert_eq!(linked.matrix_id.as_deref(), Some(BOB));
    let twins = state.persons.iter().filter(|p| p.matrix_id.as_deref() == Some(BOB)).count();
    assert_eq!(twins, 1);
    assert!(state.cleaning_groups[0].member_ids.contains(&id));
    assert!(state.cleaning_groups[1].member_ids.is_empty());
    assert!(state.slot_assignments.iter().all(|a| a.iso_year < i32::MAX));
}

#[test]
fn no_request_to_swap_is_made_without_a_free_number() {
    let mut state = hall_and_attic();
    let bob = state.persons[1].id.clone();
    state.cleaning_groups[0].member_ids.push(bob);
    materialize_and_apply(&mut state, 2, today(), now()).unwrap();
    let (year, week) = current_iso_week();
    state.swap_requests.push(SwapRequest {
        id: u64::MAX,
        requester: ALICE.to_owned(),
        target: BOB.to_owned(),
        group_id: state.cleaning_groups[0].id.clone(),
        iso_year: year,
        iso_week: week,
        shift: 0,
        slot_index: 0,
        status: SwapStatus::Rejected,
        created_at: now(),
    });
    assert!(!swaps_fit(&state.swap_requests));
    let args = words(&[BOB, "Hall"]);
    let asked = cmd_swap(&mut state, &request(ALICE), &args);
    assert_eq!(asked, Err(CommandError::OutOfRange));
    assert_eq!(state.swap_requests.len(), 1);
    state.swap_requests[0].id = u64::MAX - 1;
    assert!(cmd_swap(&mut state, &request(ALICE), &args).is_ok());
    assert_eq!(state.swap_requests[1].id, u64::MAX);
}

#[test]
fn only_a_split_week_is_named_in_the_headline_of_a_group() {
    let mut state = hall_and_attic();
    state.cleaning_groups[0].rhythm = Rhythm { every_weeks: Some(2), shift_starts: vec![] };
    let said = cmd_status(&state, today()).unwrap();
    assert!(said.lines().any(|l| l == "**Hall**"), "{said}");
    state.cleaning_groups[0].rhythm = Rhythm { every_weeks: Some(1), shift_starts: vec![3] };
    let said = cmd_status(&state, today()).unwrap();
    assert!(said.contains("**Hall** · 2× per week (Mon–Wed, Thu–Sun)"), "{said}");
}

#[test]
fn plans_say_how_many_weeks_lie_between_two_cleanings() {
    let mut state = hall_and_attic();
    let said = |weeks: &str, interval: u32, state: &State| {
        let reply = cmd_cleanplan(state, &words(&[weeks]), interval, today(), now()).unwrap();
        reply.text.lines().next().unwrap().to_owned()
    };
    assert_eq!(said("1", 1, &state), "📅 **Cleaning plan** · next 1 week · every 1 week");
    assert_eq!(said("6", 2, &state), "📅 **Cleaning plan** · next 6 weeks · every 2 weeks");
    state.cleaning_groups.remove(1);
    let snapshot = snapshot_of(&state, 1500, today(), now());
    assert_eq!(snapshot.assignments.len(), 1500);
    let tex = render_tex(&snapshot, 3);
    assert!(tex.contains(" $\\cdot$ Every 3 week(s) $\\cdot$ Generated "));
}

#[test]
fn a_rhythm_is_no_command_of_its_own() {
    let state = hall_and_attic();
    let call = read_line(&state, "!groups rhythm Hall 2x");
    assert_eq!(call.command, Command::GroupDetail);
    assert_eq!(call.args, ["rhythm Hall 2x"]);
    assert!(!admin_help_text().contains("rhythm"));
}

#[test]
fn the_day_is_that_of_the_clock() {
    assert_eq!(today_in("Nowhere/Else").day, today().day);
    assert_eq!(planning_day().day, today().day);
}

#[test]
fn what_is_kept_under_a_key_is_there_once() {
    let mut state = hall_and_attic();
    state.register_weekly_plan_message(2025, 1, "first", "$a");
    state.register_weekly_plan_message(2025, 1, "second", "$b");
    state.register_weekly_plan_message(2025, 2, "third", "$b");
    let ids: Vec<&str> = state.weekly_plan_event_ids.iter().map(|e| e.event_id.as_str()).collect();
    assert_eq!(ids, ["$b"]);
    let texts: Vec<(&str, &str)> =
        state.weekly_plan_rendered.iter().map(|e| (e.key.as_str(), e.value.as_str())).collect();
    assert_eq!(texts.len(), 2);
    assert_eq!((texts[0].1, texts[1].1), ("second", "third"));
    assert_ne!(texts[0].0, texts[1].0);

    assert!(welcome(&mut state, "@carl:example.org").is_some());
    assert!(welcome(&mut state, "@carl:example.org").is_none());
    assert_eq!(state.greeted_users.len(), 1);
    for user in ["@carl:example.org", "@dora:example.org"] {
        let greeting = Greeting { text: String::new(), choices: vec![], is_linking: false };
        note_greeting(&mut state, "$g", user, greeting);
    }
    assert_eq!(state.greeting_event_ids.len(), 1);
    assert_eq!(state.greeting_event_ids[0].for_user, "@dora:example.org");
}
