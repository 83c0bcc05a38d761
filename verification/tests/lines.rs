use cleaning_bot::calendar::{now, today, Date, FIRST_TODAY, LAST_TODAY};
use cleaning_bot::commands::base::{CommandError, Request};
use cleaning_bot::commands::dispatch::{find_command, read_line, Command};
use cleaning_bot::commands::groups::Factors;
use cleaning_bot::commands::handle::{cmd_cleaning, handle, Handled, CLEANING_USAGE};
use cleaning_bot::commands::line::{command_lines, normalize_args, tokenize};
use cleaning_bot::config::{FillStrategy, ScheduleConfig, SecurityConfig};
use cleaning_bot::domain::{CleaningGroup, Person};
use cleaning_bot::resolver::materialize;
use cleaning_bot::state::State;

fn one_group() -> State {
    let mut state = State::default();
    state.created_at = Some(now());
    let alice = Person::new_matrix("@alice:example.org");
    let mut group = CleaningGroup::new("2nd Floor");
    group.member_ids.push(alice.id.clone());
    state.persons.push(alice);
    state.cleaning_groups.push(group);
    state
}

fn run(state: &mut State, is_admin: bool, line: &str) -> Result<Handled, CommandError> {
    let req = Request {
        sender: "@alice:example.org".to_owned(),
        is_admin,
        today: today(),
        now: now(),
        usual: 4,
    };
    let call = read_line(state, line);
    let factors = Factors { group: None, slots: vec![], rooms: vec![] };
    handle(state, &req, &call, &None, &factors)
}

fn said(state: &mut State, is_admin: bool, line: &str) -> String {
    match run(state, is_admin, line) {
        Ok(Handled::Says(text)) => text,
        other => panic!("{other:?}"),
    }
}

#[test]
fn words_are_separated_by_blanks_and_tabs() {
    assert_eq!(tokenize("  !done\t 2nd  "), ["!done", "2nd"]);
    assert_eq!(tokenize("2nd\u{a0}Floor"), ["2nd\u{a0}Floor"]);
    assert_eq!(tokenize("a\"b c\"d"), ["ab cd"]);
    assert_eq!(tokenize("\"\""), Vec::<String>::new());
    assert_eq!(tokenize("„2nd Floor“"), ["2nd Floor"]);
}

#[test]
fn a_message_may_hold_several_commands() {
    assert_eq!(command_lines("!status"), ["!status"]);
    assert_eq!(command_lines("!done\n  !next  \nthanks"), ["!done", "!next"]);
    assert!(command_lines("hello\nthere").is_empty());
    assert_eq!(command_lines("\u{2003}!done\u{a0}\n\u{3000}!next x"), ["!done", "!next x"]);
}

#[test]
fn a_single_argument_stays() {
    let state = one_group();
    let args = vec!["2nd Floor".to_owned()];
    assert_eq!(normalize_args(&state, "!done", &args), args);
}

#[test]
fn a_line_is_read_as_a_command_and_its_arguments() {
    let state = one_group();
    let call = read_line(&state, "!plan skip 2nd floor");
    assert_eq!(call.command, Command::Skip);
    assert_eq!(call.args, ["2nd Floor"]);
    assert!(call.refresh);
    let call = read_line(&state, "!status");
    assert_eq!(call.cmd, "!status");
    assert!(call.args.is_empty() && !call.refresh);
    assert_eq!(find_command("!ical", Some("reset")), Command::IcalReset);
    assert_eq!(find_command("!ical", None), Command::Ical);
    assert_eq!(find_command("!nonsense", None), Command::Other);
}

#[test]
fn commands_answer_and_others_are_silent() {
    let mut state = one_group();
    assert!(said(&mut state, false, "!status").contains("2nd Floor"));
    assert!(said(&mut state, false, "!help").contains("!done"));
    assert!(said(&mut state, false, "!adduser x").contains("!member add"));
    assert!(matches!(run(&mut state, false, "!nonsense"), Ok(Handled::Silent)));
    assert!(matches!(run(&mut state, false, "!stats"), Ok(Handled::Elsewhere)));
}

#[test]
fn groups_are_set_up_by_admins_alone() {
    let mut state = one_group();
    let refused = run(&mut state, false, "!groups add Attic").unwrap_err();
    assert_eq!(refused, CommandError::NotAdmin);
    assert!(said(&mut state, true, "!groups add Attic").contains("Attic"));
    assert!(state.group_by_name("attic").is_some());
    said(&mut state, true, "!groups slot add Attic Big Window");
    assert_eq!(state.group_by_name("Attic").unwrap().slots[0].name, "Big Window");
    said(&mut state, true, "!groups room add 2nd Floor Kitchen");
    assert_eq!(state.group_by_name("2nd Floor").unwrap().room_names, ["Kitchen"]);
    said(&mut state, true, "!groups disable Attic");
    assert!(!state.group_by_name("Attic").unwrap().is_active);
    said(&mut state, true, "!groups enable Attic");
    assert!(state.group_by_name("Attic").unwrap().is_active);
    assert!(!said(&mut state, true, "!validate").contains('❌'));
}

#[test]
fn a_clock_outside_of_its_range_is_refused() {
    let answer = |day: i32| {
        let mut state = one_group();
        let req = Request {
            sender: "@alice:example.org".to_owned(),
            is_admin: true,
            today: Date { day },
            now: now(),
            usual: 4,
        };
        let call = read_line(&state, "!done");
        let factors = Factors { group: None, slots: vec![], rooms: vec![] };
        handle(&mut state, &req, &call, &None, &factors)
    };
    for day in [FIRST_TODAY, -5, 1, LAST_TODAY] {
        assert!(matches!(answer(day), Ok(Handled::Says(_))), "{day}");
    }
    for day in [FIRST_TODAY - 1, LAST_TODAY + 1] {
        assert_eq!(answer(day).unwrap_err(), CommandError::OutOfRange);
    }
}

#[test]
fn what_is_not_configured_has_a_usual_value() {
    let config = ScheduleConfig::new("!room:example.org");
    assert_eq!(config.interval_weeks, 1);
    assert_eq!(config.materialize_weeks, 26);
    assert_eq!((config.reminder_weekday, config.final_reminder_weekday), (0, 6));
    assert_eq!(config.reminder_time, "09:00");
    assert_eq!(config.timezone, "UTC");
    assert_eq!(config.fill_strategy, FillStrategy::default());
    let security = SecurityConfig {
        allowed_inviters: vec![],
        admin_users: vec!["@admin:example.org".to_owned()],
    };
    assert!(security.is_admin("@admin:example.org"));
    assert!(!security.is_admin("@alice:example.org"));
}

#[test]
fn looking_and_asking_in_vain_change_nothing() {
    let mut state = one_group();
    let before = format!("{state:?}");
    for line in ["!status", "!next", "!groups", "!groups 2nd Floor", "!help", "!validate"] {
        said(&mut state, true, line);
        assert_eq!(format!("{state:?}"), before, "{line}");
    }
    for line in ["!plan assign 2nd Floor alice", "!groups remove 2nd Floor", "!groups add Attic"] {
        assert_eq!(run(&mut state, false, line).unwrap_err(), CommandError::NotAdmin, "{line}");
        assert_eq!(format!("{state:?}"), before, "{line}");
    }
}

#[test]
fn members_are_added_and_removed_by_their_ids() {
    let mut state = one_group();
    let req = Request {
        sender: "@alice:example.org".to_owned(),
        is_admin: true,
        today: today(),
        now: now(),
        usual: 4,
    };
    let mut ask = |args: &[&str]| {
        let args = args.iter().map(|a| a.to_string()).collect();
        let text = cmd_cleaning(&mut state, &req, &args).unwrap();
        (text, state.cleaning_groups[0].member_ids.len())
    };
    let (text, members) = ask(&["add", "@bob:example.org", "2nd Floor"]);
    assert_eq!(members, 2, "{text}");
    let (text, _) = ask(&["PEOPLE"]);
    assert!(text.contains("@bob:example.org"), "{text}");
    let (text, members) = ask(&["remove", "@bob:example.org", "2nd Floor"]);
    assert_eq!(members, 1, "{text}");
    assert_eq!(ask(&[]).0, CLEANING_USAGE);
    assert_eq!(ask(&["dance"]).0, CLEANING_USAGE);
}

#[test]
fn marks_and_absences_keep_turn_orders_and_the_plan() {
    let mut state = one_group();
    let bob = Person::new_matrix("@bob:example.org");
    state.cleaning_groups[0].member_ids.push(bob.id.clone());
    state.persons.push(bob);
    for e in materialize(&state, 2) {
        state.apply_event(e).unwrap();
    }
    let orders = format!("{:?} {:?}", state.cleaning_groups, state.slot_assignments);
    for line in ["!done", "!undo", "!plan skip 2nd Floor", "!member away 2nd Floor 2"] {
        said(&mut state, true, line);
        let after = format!("{:?} {:?}", state.cleaning_groups, state.slot_assignments);
        assert_eq!(after, orders, "{line}");
    }
}

#[test]
fn assigning_by_hand_changes_one_turn() {
    let mut state = one_group();
    let bob = Person::new_matrix("@bob:example.org");
    let bob_id = bob.id.clone();
    state.cleaning_groups[0].member_ids.push(bob.id.clone());
    state.persons.push(bob);
    for e in materialize(&state, 4) {
        state.apply_event(e).unwrap();
    }
    let before = state.slot_assignments.clone();
    said(&mut state, true, "!plan assign 2nd Floor @bob:example.org");
    assert_eq!(state.slot_assignments.len(), before.len());
    let kept = state.slot_assignments.iter().filter(|a| before.contains(a)).count();
    assert_eq!(kept, before.len() - 1);
    let changed = state.slot_assignments.iter().find(|a| !before.contains(a)).unwrap();
    assert_eq!(changed.person_id.as_ref(), Some(&bob_id));
}
