use cleaning_bot::calendar::{current_iso_week, now, today};
use cleaning_bot::commands::base::Request;
use cleaning_bot::domain::{CleaningGroup, Person, SlotAssignment};
use cleaning_bot::greetings::{
    answer_greeting, join_greeting, note_greeting, welcome, GreetingAnswer, NEW_SIGN,
};
use cleaning_bot::names::{is_telling, known_matrix_ids, refresh_display_names, rename_sender};
use cleaning_bot::reactions::{react, take_back, PlanReaction, DONE_SIGN};
use cleaning_bot::state::{Entry, PlanEvent, State};

const EVE: &str = "@eve:example.org";

fn request(sender: &str) -> Request {
    Request {
        sender: sender.to_owned(),
        is_admin: false,
        today: today(),
        now: now(),
        usual: 4,
    }
}

fn with_groups(names: &[&str]) -> State {
    let mut state = State::default();
    state.created_at = Some(now());
    state.cleaning_groups = names.iter().map(|n| CleaningGroup::new(n)).collect();
    state
}

#[test]
fn a_newcomer_picks_a_group_and_is_greeted_only_once() {
    let mut state = with_groups(&["Kitchen", "Bath"]);
    let greeting = welcome(&mut state, EVE).unwrap();
    assert!(!greeting.is_linking);
    assert!(greeting.text.contains("👋 Welcome, @eve:example.org!"), "{}", greeting.text);
    assert_eq!(greeting.choices.len(), 2);
    let sign = greeting.choices[1].emoji.clone();
    note_greeting(&mut state, "$greet", EVE, greeting);
    assert!(welcome(&mut state, EVE).is_none());

    let other = answer_greeting(&mut state, &request("@mallory:example.org"), "$greet", &sign);
    assert!(matches!(other, Ok(GreetingAnswer::Ignored)));
    let elsewhere = answer_greeting(&mut state, &request(EVE), "$else", &sign);
    assert!(matches!(elsewhere, Ok(GreetingAnswer::NotGreeting)));
    let wrong = answer_greeting(&mut state, &request(EVE), "$greet", "👎");
    assert!(matches!(wrong, Ok(GreetingAnswer::Ignored)));

    match answer_greeting(&mut state, &request(EVE), "$greet", &sign).unwrap() {
        GreetingAnswer::Joined(text) => assert!(text.contains("joined **Bath**"), "{text}"),
        other => panic!("{other:?}"),
    }
    let eve = state.person_by_matrix_id(EVE).unwrap().id.clone();
    assert_eq!(state.group_by_name("Bath").unwrap().member_ids, [eve]);
    let again = answer_greeting(&mut state, &request(EVE), "$greet", &sign);
    assert!(matches!(again, Ok(GreetingAnswer::NotGreeting)));
}

#[test]
fn somebody_on_the_plan_without_an_account_can_be_linked() {
    let mut state = with_groups(&["Kitchen"]);
    let carol = Person::new_named("Carol");
    let carol_id = carol.id.clone();
    state.cleaning_groups[0].member_ids.push(carol_id.clone());
    state.persons.push(carol);
    let greeting = welcome(&mut state, EVE).unwrap();
    assert!(greeting.is_linking);
    assert_eq!(greeting.choices.len(), 2);
    assert_eq!(greeting.choices[0].person_id, Some(carol_id.clone()));
    assert_eq!(greeting.choices[1].emoji, NEW_SIGN);
    let sign = greeting.choices[0].emoji.clone();
    note_greeting(&mut state, "$greet", EVE, greeting);
    match answer_greeting(&mut state, &request(EVE), "$greet", &sign).unwrap() {
        GreetingAnswer::Linked { .. } => {}
        other => panic!("{other:?}"),
    }
    assert_eq!(state.person_by_id(&carol_id).unwrap().matrix_id.as_deref(), Some(EVE));
    assert_eq!(state.persons.len(), 1);
}

#[test]
fn without_groups_there_is_nothing_to_pick() {
    assert!(join_greeting(&with_groups(&[]), None).is_none());
    let many: Vec<String> = (0..12).map(|i| format!("G{i}")).collect();
    let names: Vec<&str> = many.iter().map(String::as_str).collect();
    let greeting = join_greeting(&with_groups(&names), Some("Hello".to_owned())).unwrap();
    assert_eq!(greeting.choices.len(), 9);
    assert!(greeting.text.starts_with("Hello\n\n"));
    assert!(greeting.text.contains("G8") && !greeting.text.contains("G9"));
}

/// Alice cleans this week, and the plan of the week is in `$plan`.
fn planned_week() -> (State, i32, u32) {
    let mut state = with_groups(&["Kitchen"]);
    let alice = Person::new_matrix("@alice:example.org");
    let id = alice.id.clone();
    state.persons.push(alice);
    state.cleaning_groups[0].member_ids.push(id.clone());
    let (year, week) = current_iso_week();
    state.slot_assignments.push(SlotAssignment {
        group_id: state.cleaning_groups[0].id.clone(),
        slot_index: 0,
        iso_year: year,
        iso_week: week,
        shift: 0,
        person_id: Some(id),
        source: Default::default(),
    });
    state.weekly_plan_event_ids.push(PlanEvent {
        event_id: "$plan".to_owned(),
        iso_year: year,
        iso_week: week,
    });
    (state, year, week)
}

#[test]
fn a_reaction_marks_and_taking_it_back_unmarks() {
    let (mut state, year, week) = planned_week();
    let alice = request("@alice:example.org");
    let gid = state.cleaning_groups[0].id.clone();
    let ignored = react(&mut state, &alice, "$plan", "$r", "👍").unwrap();
    assert!(matches!(ignored, PlanReaction::Ignored));
    let unknown = react(&mut state, &alice, "$other", "$r", DONE_SIGN).unwrap();
    assert!(matches!(unknown, PlanReaction::Ignored));
    let marked = react(&mut state, &alice, "$plan", "$r", DONE_SIGN).unwrap();
    assert!(matches!(marked, PlanReaction::Marked(y, w) if (y, w) == (year, week)));
    assert!(state.is_completed(&gid, year, week));
    assert_eq!(take_back(&mut state, "$x"), None);
    assert!(state.is_completed(&gid, year, week));
    assert_eq!(take_back(&mut state, "$r"), Some((year, week)));
    assert!(!state.is_completed(&gid, year, week));
}

#[test]
fn who_is_not_assigned_cannot_mark_by_reacting() {
    let (mut state, year, week) = planned_week();
    let gid = state.cleaning_groups[0].id.clone();
    let answer = react(&mut state, &request(EVE), "$plan", "$r", DONE_SIGN).unwrap();
    assert!(matches!(answer, PlanReaction::NotAssigned));
    assert!(!state.is_completed(&gid, year, week));
}

#[test]
fn names_follow_the_accounts() {
    let (mut state, ..) = planned_week();
    state.persons.push(Person::new_named("Carol"));
    assert_eq!(known_matrix_ids(&state), ["@alice:example.org"]);
    assert!(is_telling("Alice", "@alice:example.org"));
    assert!(!is_telling("", "@alice:example.org"));
    assert!(!is_telling("@alice:example.org", "@alice:example.org"));
    let entry = |name: &str| Entry { key: "@alice:example.org".to_owned(), value: name.to_owned() };
    refresh_display_names(&mut state, &vec![entry("")]);
    assert_eq!(state.persons[0].display_name, "alice");
    refresh_display_names(&mut state, &vec![entry("Alice L.")]);
    assert_eq!(state.persons[0].display_name, "Alice L.");
    assert_eq!(state.persons[1].display_name, "Carol");
    rename_sender(&mut state, "@alice:example.org", &"Ali".to_owned());
    assert_eq!(state.persons[0].display_name, "Ali");
}
