use std::cell::RefCell;

use cleaning_bot::analytics::{fairness_counts, person_stats, DomainEvent, Duty};
use cleaning_bot::calendar::{
    add_weeks, compact_date, current_iso_week, now, today, week_monday, weekday_of, Date, Timestamp,
};
use cleaning_bot::commands::base::{validate_matrix_user_id, CommandError, Request};
use cleaning_bot::commands::dispatch::command_may_change_current_plan;
use cleaning_bot::commands::done::{self, mark_duties_done};
use cleaning_bot::commands::groups::{cmd_groups, Factors};
use cleaning_bot::commands::help::{admin_help_text, help_text, renamed_command_hint};
use cleaning_bot::commands::line::{normalize_args, tokenize};
use cleaning_bot::commands::link::apply_linkmatrix;
use cleaning_bot::commands::members::{self, current_open_assignments, next_assignment_summary};
use cleaning_bot::commands::overview::cmd_status;
use cleaning_bot::commands::rhythms::{self, parse_rhythm};
use cleaning_bot::commands::tasks::markable_duties;
use cleaning_bot::commands::{
    assignments, import, marks, outlook, people, rooms, setup, swaps, takeover,
};
use cleaning_bot::domain::{
    AssignmentSource, CleaningGroup, CleaningSlot, GroupId, Person, PersonId, SlotAssignment,
};
use cleaning_bot::ical::render_ics;
use cleaning_bot::inspect::validate_state;
use cleaning_bot::planning::{group_horizon_weeks_ahead, remove_future_assignments_for_person};
use cleaning_bot::resolver::materialize;
use cleaning_bot::rhythm::{Rhythm, Turn};
use cleaning_bot::schedule::build_schedule;
use cleaning_bot::scheduler::{build_weekly_plan, turns_to_remind, Message};
use cleaning_bot::state::{Completion, ReminderKind, State, SwapStatus};

const ADMIN: &str = "@admin:example.org";

struct Ctx {
    state: RefCell<State>,
    usual: u32,
}

type Reply = Result<String, CommandError>;

fn test_context(state: State) -> Ctx {
    test_context_with_horizon(state, 4)
}

fn test_context_with_horizon(state: State, usual: u32) -> Ctx {
    Ctx { state: RefCell::new(state), usual }
}

fn words(args: &[&str]) -> Vec<String> {
    args.iter().map(|a| a.to_string()).collect()
}

fn request(ctx: &Ctx, sender: &str) -> Request {
    Request {
        sender: sender.to_owned(),
        is_admin: sender == ADMIN,
        today: today(),
        now: now(),
        usual: ctx.usual,
    }
}

fn run(
    ctx: &Ctx,
    sender: &str,
    args: &[&str],
    command: fn(&mut State, &Request, &Vec<String>) -> Reply,
) -> Reply {
    command(&mut ctx.state.borrow_mut(), &request(ctx, sender), &words(args))
}

fn cmd_assign(ctx: &Ctx, sender: &str, args: &[&str]) -> Reply {
    run(ctx, sender, args, assignments::cmd_assign)
}

fn cmd_unassign(ctx: &Ctx, sender: &str, args: &[&str]) -> Reply {
    run(ctx, sender, args, assignments::cmd_unassign)
}

fn cmd_importplan(ctx: &Ctx, sender: &str, args: &[&str]) -> Reply {
    run(ctx, sender, args, import::cmd_importplan)
}

fn add_matrix_participant(ctx: &Ctx, sender: &str, args: &[&str]) -> Reply {
    run(ctx, sender, args, members::add_matrix_participant)
}

fn remove_matrix_participant(ctx: &Ctx, sender: &str, args: &[&str]) -> Reply {
    run(ctx, sender, args, members::remove_matrix_participant)
}

fn cmd_addperson(ctx: &Ctx, sender: &str, args: &[&str]) -> Reply {
    run(ctx, sender, args, members::cmd_addperson)
}

fn cmd_removeperson(ctx: &Ctx, sender: &str, args: &[&str]) -> Reply {
    run(ctx, sender, args, members::cmd_removeperson)
}

fn cmd_leavefloor(ctx: &Ctx, sender: &str, args: &[&str]) -> Reply {
    run(ctx, sender, args, members::cmd_leavefloor)
}

fn cmd_skip(ctx: &Ctx, sender: &str, args: &[&str]) -> Reply {
    run(ctx, sender, args, marks::cmd_skip)
}

fn cmd_undo(ctx: &Ctx, sender: &str, args: &[&str]) -> Reply {
    run(ctx, sender, args, marks::cmd_undo)
}

fn cmd_done(ctx: &Ctx, sender: &str, args: &[&str]) -> Reply {
    run(ctx, sender, args, done::cmd_done)
}

fn cmd_takeover(ctx: &Ctx, sender: &str, args: &[&str]) -> Reply {
    run(ctx, sender, args, takeover::cmd_takeover)
}

fn cmd_swap(ctx: &Ctx, sender: &str, args: &[&str]) -> Reply {
    run(ctx, sender, args, swaps::cmd_swap)
}

fn cmd_acceptswap(ctx: &Ctx, sender: &str, args: &[&str]) -> Reply {
    run(ctx, sender, args, swaps::cmd_acceptswap)
}

fn cmd_removeslot(ctx: &Ctx, sender: &str, args: &[&str]) -> Reply {
    run(ctx, sender, args, rooms::cmd_removeslot)
}

fn cmd_absent(ctx: &Ctx, sender: &str, args: &[&str]) -> Reply {
    run(ctx, sender, args, people::cmd_absent)
}

fn cmd_removefloor(ctx: &Ctx, sender: &str, args: &[&str]) -> Reply {
    run(ctx, sender, args, setup::cmd_removefloor)
}

fn cmd_groups_rhythm(ctx: &Ctx, sender: &str, args: &[&str]) -> Reply {
    run(ctx, sender, args, rhythms::cmd_groups_rhythm)
}

fn cmd_next(ctx: &Ctx, sender: &str, args: &[&str]) -> Reply {
    outlook::cmd_next(&ctx.state.borrow(), &request(ctx, sender), &words(args))
}

fn status(ctx: &Ctx) -> Reply {
    cmd_status(&ctx.state.borrow(), today())
}

fn groups(ctx: &Ctx, name: Option<&str>) -> Reply {
    let factors = Factors { group: None, slots: vec![], rooms: vec![] };
    cmd_groups(&ctx.state.borrow(), &name.map(str::to_owned), &factors, today())
}

fn link(ctx: &Ctx, name: &str, mxid: &str, shown: Option<&str>) -> Reply {
    apply_linkmatrix(
        &mut ctx.state.borrow_mut(),
        &request(ctx, ADMIN),
        name,
        &mxid.to_owned(),
        &shown.map(str::to_owned),
    )
}

fn plan(state: &State, year: i32, week: u32) -> Message {
    build_weekly_plan(state, year, week, &state.cleaning_groups.iter().collect(), today())
}

fn is_slot_done(state: &State, group_id: &str, slot_id: &str, year: i32, week: u32) -> bool {
    let group = state.group_by_id(group_id).unwrap();
    let slot = group.slot_position_by_id(slot_id).unwrap();
    state.is_turn_slot_done(group, slot, Turn::new(year, week, 0))
}

fn rotation_state() -> (State, GroupId, PersonId, PersonId) {
    let first = Person::new_matrix("@alice:example.org");
    let second = Person::new_matrix("@bob:example.org");
    let first_id = first.id.clone();
    let second_id = second.id.clone();
    let mut group = CleaningGroup::new("2nd Floor");
    let group_id = group.id.clone();
    group.member_ids = vec![first_id.clone(), second_id.clone()];

    let mut state = State::default();
    state.persons = vec![first, second];
    state.cleaning_groups.push(group);
    (state, group_id, first_id, second_id)
}

/// What an earlier state becomes by the events that were logged since.
fn reloaded(earlier: &State, ctx: &Ctx) -> State {
    let mut state = earlier.clone();
    for logged in &ctx.state.borrow().event_log[earlier.event_log.len()..] {
        state.apply_event(logged.event.clone()).unwrap();
    }
    state
}

#[test]
fn matrix_user_id_validation_is_strict() {
    assert!(validate_matrix_user_id("@alice:example.org").is_ok());
    assert!(validate_matrix_user_id("alice").is_err());
    assert!(validate_matrix_user_id("@alice").is_err());
}

#[test]
fn removing_future_assignments_is_targeted_and_keeps_current_week() {
    let (mut state, group_id, first_id, second_id) = rotation_state();
    let (year, week) = current_iso_week();
    let (next_year, next_week) = add_weeks(year, week, 1);
    state.slot_assignments = vec![
        SlotAssignment {
            group_id: group_id.clone(),
            slot_index: 0,
            iso_year: year,
            iso_week: week,
            shift: 0,
            person_id: Some(first_id.clone()),
            source: Default::default(),
        },
        SlotAssignment {
            group_id: group_id.clone(),
            slot_index: 0,
            iso_year: next_year,
            iso_week: next_week,
            shift: 0,
            person_id: Some(first_id.clone()),
            source: Default::default(),
        },
        SlotAssignment {
            group_id: group_id.clone(),
            slot_index: 1,
            iso_year: next_year,
            iso_week: next_week,
            shift: 0,
            person_id: Some(second_id.clone()),
            source: Default::default(),
        },
    ];

    let removed = remove_future_assignments_for_person(&mut state, &first_id, &group_id, today());

    assert_eq!(removed, 1);
    assert!(state.slot_assignments.iter().any(|assignment| {
        assignment.iso_year == year
            && assignment.iso_week == week
            && assignment.person_id.as_deref() == Some(first_id.as_str())
    }));
    assert!(state.slot_assignments.iter().any(|assignment| {
        assignment.iso_year == next_year
            && assignment.iso_week == next_week
            && assignment.person_id.as_deref() == Some(second_id.as_str())
    }));
}

#[test]
fn current_open_assignment_blocks_removal_until_completed() {
    let (mut state, group_id, first_id, _) = rotation_state();
    let (year, week) = current_iso_week();
    state.slot_assignments.push(SlotAssignment {
        group_id: group_id.clone(),
        slot_index: 0,
        iso_year: year,
        iso_week: week,
        shift: 0,
        person_id: Some(first_id.clone()),
        source: Default::default(),
    });

    assert_eq!(
        current_open_assignments(&state, &group_id, &first_id, today()),
        vec!["2nd Floor"]
    );

    state
        .apply_event(DomainEvent::CleaningCompleted {
            group_id: group_id.clone(),
            slot_id: None,
            person_id: first_id.clone(),
            responsible_person_ids: vec![first_id.clone()],
            iso_year: year,
            iso_week: week,
            shift: 0,
        }).unwrap();

    assert!(current_open_assignments(&state, &group_id, &first_id, today()).is_empty());
    assert_eq!(
        state.completions.len(),
        1,
        "completed history must remain stored"
    );
}

#[test]
fn empty_rotation_has_an_explicit_next_status() {
    let (mut state, group_id, _, _) = rotation_state();
    state.cleaning_groups[0].member_ids.clear();
    assert_eq!(
        next_assignment_summary(&state, &group_id, today()),
        "Next: rotation is empty."
    );
}

fn three_person_state() -> (State, GroupId, PersonId, PersonId, PersonId) {
    let anna = Person::new_named("Anna");
    let bob = Person::new_named("Bob");
    let carla = Person::new_named("Carla");
    let (aid, bid, cid) = (anna.id.clone(), bob.id.clone(), carla.id.clone());
    let mut group = CleaningGroup::new("Floor");
    let gid = group.id.clone();
    group.member_ids = vec![aid.clone(), bid.clone(), cid.clone()];
    let mut state = State::default();
    state.created_at = Some(now());
    state.persons = vec![anna, bob, carla];
    state.cleaning_groups.push(group);
    (state, gid, aid, bid, cid)
}

fn seed_materialized_weeks(state: &mut State, weeks_ahead: usize) {
    for ev in materialize(state, weeks_ahead) {
        state.apply_event(ev).unwrap();
    }
}

fn assignee_for(state: &State, group_id: &GroupId, year: i32, week: u32) -> Option<PersonId> {
    state
        .slot_assignments
        .iter()
        .find(|a| a.group_id == *group_id && a.iso_year == year && a.iso_week == week)
        .and_then(|a| a.person_id.clone())
}

fn preview_assignee_for(
    state: &State,
    group_id: &GroupId,
    year: i32,
    week: u32,
) -> Option<PersonId> {
    let group = state.group_by_id(group_id).unwrap();
    state
        .slot_assignee(group, 0, Turn::new(year, week, 0))
        .map(|p| p.id.clone())
}

#[test]
fn matrix_participant_normal_flow_persists_and_rejects_duplicates() {
    let mut state = State::default();
    state.cleaning_groups.push(CleaningGroup::new("2nd Floor"));
    let earlier = state.clone();
    let ctx = test_context(state);

    let added = add_matrix_participant(&ctx, ADMIN, &["@new:example.org", "2nd Floor"])
        .unwrap();
    assert!(added.contains("Added @new:example.org"));

    {
        let state = ctx.state.borrow();
        let group = state.group_by_name("2nd Floor").unwrap();
        assert_eq!(group.member_ids.len(), 1);
        let new_id = state
            .person_by_matrix_id("@new:example.org")
            .unwrap()
            .id
            .as_str();
        let (year, week) = current_iso_week();
        assert!(
            !state.slot_assignments.iter().any(|assignment| {
                assignment.group_id == group.id
                    && assignment.iso_year == year
                    && assignment.iso_week == week
                    && assignment.person_id.as_deref() == Some(new_id)
            }),
            "the first member must not inherit the active week"
        );
    }
    let persisted = reloaded(&earlier, &ctx);
    assert_eq!(persisted.group_by_name("2nd Floor").unwrap().member_ids.len(), 1);

    let duplicate = add_matrix_participant(&ctx, ADMIN, &["@new:example.org", "2nd Floor"])
        .unwrap();
    assert!(duplicate.contains("already in"));

    let removed = remove_matrix_participant(&ctx, ADMIN, &["@new:example.org", "2nd Floor"])
        .unwrap();
    assert!(removed.contains("Removed @new:example.org"));
    assert!(ctx.state.borrow()
        .group_by_name("2nd Floor")
        .unwrap()
        .member_ids
        .is_empty());

    let missing = remove_matrix_participant(&ctx, ADMIN, &["@new:example.org", "2nd Floor"])
        .unwrap();
    assert!(missing.contains("is not in"));

    let persisted = reloaded(&earlier, &ctx);
    assert!(persisted.group_by_name("2nd Floor").unwrap().member_ids.is_empty());
}

#[test]
fn adding_requires_admin_and_preserves_the_active_assignment() {
    let (mut state, group_id, first_id, _) = rotation_state();
    let (year, week) = current_iso_week();
    state.slot_assignments.push(SlotAssignment {
        group_id: group_id.clone(),
        slot_index: 0,
        iso_year: year,
        iso_week: week,
        shift: 0,
        person_id: Some(first_id.clone()),
        source: Default::default(),
    });
    let ctx = test_context(state);
    let outsider = "@outsider:example.org";

    let error = add_matrix_participant(&ctx, outsider, &["@charlie:example.org", "2nd Floor"])
        .unwrap_err();
    assert!(error == CommandError::NotAdmin);

    let malformed = add_matrix_participant(&ctx, ADMIN, &["charlie", "2nd Floor"])
        .unwrap();
    assert!(malformed.contains("not a valid Matrix user ID"));

    add_matrix_participant(&ctx, ADMIN, &["@charlie:example.org", "2nd Floor"]).unwrap();

    let state = ctx.state.borrow();
    let group = state.group_by_id(&group_id).unwrap();
    let charlie_id = &state
        .person_by_matrix_id("@charlie:example.org")
        .unwrap()
        .id;
    assert_eq!(
        group.member_ids.last(),
        Some(charlie_id),
        "new members append to the rotation"
    );
    assert!(
        state.slot_assignments.iter().any(|assignment| {
            assignment.group_id == group_id
                && assignment.iso_year == year
                && assignment.iso_week == week
                && assignment.person_id.as_deref() == Some(first_id.as_str())
        }),
        "the active assignment must remain frozen"
    );
    drop(state);
}

#[test]
fn assign_overrides_current_week_and_persists() {
    let (state, group_id, _first_id, second_id) = rotation_state();
    let earlier = state.clone();
    let ctx = test_context(state);

    let reply = cmd_assign(&ctx, ADMIN, &["2nd Floor", "@bob:example.org"]).unwrap();
    assert!(reply.contains("Assigned"), "{reply}");
    assert!(reply.contains("2nd Floor"), "{reply}");

    let (year, week) = current_iso_week();
    {
        let state = ctx.state.borrow();
        let assignment = state
            .slot_assignments
            .iter()
            .find(|a| a.group_id == group_id && a.iso_year == year && a.iso_week == week)
            .expect("manual assignment must be stored");
        assert_eq!(assignment.person_id.as_deref(), Some(second_id.as_str()));
        assert_eq!(assignment.source, AssignmentSource::Assign);
    }

    let persisted = reloaded(&earlier, &ctx);
    assert!(
        persisted.slot_assignments.iter().any(|a| {
            a.group_id == group_id
                && a.iso_year == year
                && a.iso_week == week
                && a.person_id.as_deref() == Some(second_id.as_str())
        }),
        "manual assignment must survive a reload"
    );
}

#[test]
fn assign_requires_admin() {
    let (state, ..) = rotation_state();
    let ctx = test_context(state);
    let outsider = "@outsider:example.org";

    let error = cmd_assign(&ctx, outsider, &["2nd Floor", "@bob:example.org"]).unwrap_err();
    assert!(error == CommandError::NotAdmin);
}

#[test]
fn assign_reports_unknown_group_or_person() {
    let (state, ..) = rotation_state();
    let ctx = test_context(state);

    let no_group = cmd_assign(&ctx, ADMIN, &["Basement", "@bob:example.org"]).unwrap();
    assert!(no_group.contains("not found"), "{no_group}");

    let no_person = cmd_assign(&ctx, ADMIN, &["2nd Floor", "@charlie:example.org"])
        .unwrap();
    assert!(no_person.contains("not registered"), "{no_person}");
}

#[test]
fn assign_flags_a_person_outside_the_rotation() {
    let (mut state, ..) = rotation_state();
    state.persons.push(Person::new_named("Guest"));
    let ctx = test_context(state);

    let reply = cmd_assign(&ctx, ADMIN, &["2nd Floor", "Guest"]).unwrap();
    assert!(reply.contains("one-off assignment"), "{reply}");
}

#[test]
fn assign_multi_slot_requires_a_valid_slot_name() {
    let mut state = State::default();
    let alice = Person::new_named("Alice");
    let bob = Person::new_named("Bob");
    let (alice_id, bob_id) = (alice.id.clone(), bob.id.clone());
    state.persons = vec![alice, bob];
    let mut group = CleaningGroup::new("Floor");
    let group_id = group.id.clone();
    group.member_ids = vec![alice_id, bob_id.clone()];
    let mut scharni = CleaningSlot::new("Scharni");
    scharni.id = "s0".into();
    let mut colbe = CleaningSlot::new("Colbe");
    colbe.id = "s1".into();
    group.slots = vec![scharni, colbe];
    state.cleaning_groups.push(group);
    let ctx = test_context(state);

    let missing_slot = cmd_assign(&ctx, ADMIN, &["Floor", "Bob"]).unwrap();
    assert!(missing_slot.contains("has slots"), "{missing_slot}");

    let ok = cmd_assign(&ctx, ADMIN, &["Floor", "Colbe", "Bob"]).unwrap();
    assert!(ok.contains("Colbe"), "{ok}");

    let (year, week) = current_iso_week();
    let state = ctx.state.borrow();
    let assignment = state
        .slot_assignments
        .iter()
        .find(|a| a.group_id == group_id && a.iso_year == year && a.iso_week == week)
        .expect("manual assignment must be stored");
    assert_eq!(assignment.slot_index, 1, "Colbe is the second slot");
    assert_eq!(assignment.person_id.as_deref(), Some(bob_id.as_str()));
    drop(state);
}

#[test]
fn unassign_clears_a_manual_assignment() {
    let (state, group_id, _first_id, _second_id) = rotation_state();
    let ctx = test_context(state);

    cmd_assign(&ctx, ADMIN, &["2nd Floor", "@bob:example.org"]).unwrap();
    let reply = cmd_unassign(&ctx, ADMIN, &["2nd Floor"]).unwrap();
    assert!(reply.contains("Cleared"), "{reply}");

    let (year, week) = current_iso_week();
    let state = ctx.state.borrow();
    let assignment = state
        .slot_assignments
        .iter()
        .find(|a| a.group_id == group_id && a.iso_year == year && a.iso_week == week)
        .expect("assignment record must still exist");
    assert!(assignment.person_id.is_none());
    drop(state);
}

fn iso_week_token(year: i32, week: u32) -> String {
    format!("{year}-W{week:02}")
}

#[test]
fn import_freezes_a_future_week_with_import_source() {
    let (state, group_id, _first_id, second_id) = rotation_state();
    let ctx = test_context(state);
    let (cy, cw) = current_iso_week();
    let (ny, nw) = add_weeks(cy, cw, 1);

    let reply = cmd_importplan(
        &ctx,
        ADMIN,
        &[&iso_week_token(ny, nw), "2nd Floor", "@bob:example.org"],
    )
    .unwrap();
    assert!(reply.contains("1 added"), "{reply}");

    let state = ctx.state.borrow();
    let a = state
        .slot_assignments
        .iter()
        .find(|a| a.group_id == group_id && a.iso_year == ny && a.iso_week == nw)
        .expect("imported assignment must be stored");
    assert_eq!(a.person_id.as_deref(), Some(second_id.as_str()));
    assert_eq!(a.source, AssignmentSource::Import);
    drop(state);
}

#[test]
fn import_requires_admin() {
    let (state, ..) = rotation_state();
    let ctx = test_context(state);
    let outsider = "@outsider:example.org";
    let (cy, cw) = current_iso_week();
    let (ny, nw) = add_weeks(cy, cw, 1);

    let error = cmd_importplan(
        &ctx,
        outsider,
        &[&iso_week_token(ny, nw), "2nd Floor", "@bob:example.org"],
    )
    .unwrap_err();
    assert!(error == CommandError::NotAdmin);
}

#[test]
fn import_rejects_a_past_week_and_changes_nothing() {
    let (state, ..) = rotation_state();
    let ctx = test_context(state);
    let (cy, cw) = current_iso_week();
    let (py, pw) = add_weeks(cy, cw, -1);

    let reply = cmd_importplan(
        &ctx,
        ADMIN,
        &[&iso_week_token(py, pw), "2nd Floor", "@bob:example.org"],
    )
    .unwrap();
    assert!(reply.contains("aborted"), "{reply}");
    assert!(reply.contains("past"), "{reply}");

    let state = ctx.state.borrow();
    assert!(
        state.slot_assignments.is_empty(),
        "a rejected import must not write anything"
    );
    drop(state);
}

#[test]
fn import_rejects_unknown_group_or_person_and_changes_nothing() {
    let (state, ..) = rotation_state();
    let ctx = test_context(state);
    let (cy, cw) = current_iso_week();
    let (ny, nw) = add_weeks(cy, cw, 1);

    let no_group = cmd_importplan(
        &ctx,
        ADMIN,
        &[&iso_week_token(ny, nw), "Basement", "@bob:example.org"],
    )
    .unwrap();
    assert!(no_group.contains("not found"), "{no_group}");

    let no_person = cmd_importplan(
        &ctx,
        ADMIN,
        &[&iso_week_token(ny, nw), "2nd Floor", "@charlie:example.org"],
    )
    .unwrap();
    assert!(no_person.contains("not registered"), "{no_person}");

    let state = ctx.state.borrow();
    assert!(state.slot_assignments.is_empty());
    drop(state);
}

#[test]
fn import_rejects_conflicting_entries_within_the_same_batch() {
    let (state, group_id, first_id, second_id) = rotation_state();
    let ctx = test_context(state);
    let (cy, cw) = current_iso_week();
    let (ny, nw) = add_weeks(cy, cw, 1);
    let week_tok = iso_week_token(ny, nw);

    let reply = cmd_importplan(
        &ctx,
        ADMIN,
        &[
            &week_tok,
            "2nd Floor",
            "@alice:example.org",
            ";",
            &week_tok,
            "2nd Floor",
            "@bob:example.org",
        ],
    )
    .unwrap();
    assert!(reply.contains("aborted"), "{reply}");
    assert!(reply.contains("conflicting entries"), "{reply}");

    let state = ctx.state.borrow();
    assert!(
        state
            .slot_assignments
            .iter()
            .all(|a| !(a.group_id == group_id && a.iso_year == ny && a.iso_week == nw)),
        "neither conflicting entry may be written"
    );
    drop(state);
    let _ = (first_id, second_id);
}

#[test]
fn import_rejects_conflict_with_an_already_frozen_different_assignee() {
    let (state, group_id, first_id, _second_id) = rotation_state();
    let ctx = test_context(state);
    let (cy, cw) = current_iso_week();
    let (ny, nw) = add_weeks(cy, cw, 1);

    cmd_assign(
        &ctx,
        ADMIN,
        &["2nd Floor", "@alice:example.org", "week", &nw.to_string()],
    )
    .unwrap();

    let reply = cmd_importplan(
        &ctx,
        ADMIN,
        &[&iso_week_token(ny, nw), "2nd Floor", "@bob:example.org"],
    )
    .unwrap();
    assert!(reply.contains("aborted"), "{reply}");
    assert!(reply.contains("already assigned"), "{reply}");

    let state = ctx.state.borrow();
    let a = state
        .slot_assignments
        .iter()
        .find(|a| a.group_id == group_id && a.iso_year == ny && a.iso_week == nw).unwrap();
    assert_eq!(
        a.person_id.as_deref(),
        Some(first_id.as_str()),
        "existing assignment must survive untouched"
    );
    drop(state);
}

#[test]
fn import_is_idempotent_across_repeated_identical_runs() {
    let (state, group_id, _first_id, second_id) = rotation_state();
    let ctx = test_context(state);
    let (cy, cw) = current_iso_week();
    let (ny, nw) = add_weeks(cy, cw, 1);
    let args = [
        iso_week_token(ny, nw),
        "2nd Floor".to_owned(),
        "@bob:example.org".to_owned(),
    ];
    let arg_refs: Vec<&str> = args.iter().map(String::as_str).collect();

    let first = cmd_importplan(&ctx, ADMIN, &arg_refs).unwrap();
    assert!(first.contains("1 added"), "{first}");

    let second = cmd_importplan(&ctx, ADMIN, &arg_refs).unwrap();
    assert!(second.contains("Nothing to do"), "{second}");
    assert!(second.contains("already imported"), "{second}");

    let state = ctx.state.borrow();
    let matches: Vec<_> = state
        .slot_assignments
        .iter()
        .filter(|a| a.group_id == group_id && a.iso_year == ny && a.iso_week == nw)
        .collect();
    assert_eq!(
        matches.len(),
        1,
        "repeated import must not duplicate the assignment"
    );
    assert_eq!(matches[0].person_id.as_deref(), Some(second_id.as_str()));
    drop(state);
}

#[test]
fn import_multiple_entries_in_one_command() {
    let (state, group_id, first_id, second_id) = rotation_state();
    let ctx = test_context(state);
    let (cy, cw) = current_iso_week();
    let (w1y, w1w) = add_weeks(cy, cw, 1);
    let (w2y, w2w) = add_weeks(cy, cw, 2);

    let reply = cmd_importplan(
        &ctx,
        ADMIN,
        &[
            &iso_week_token(w1y, w1w),
            "2nd Floor",
            "@alice:example.org",
            ";",
            &iso_week_token(w2y, w2w),
            "2nd Floor",
            "@bob:example.org",
        ],
    )
    .unwrap();
    assert!(reply.contains("2 added"), "{reply}");

    let state = ctx.state.borrow();
    assert_eq!(
        state
            .slot_assignments
            .iter()
            .find(|a| a.group_id == group_id && a.iso_year == w1y && a.iso_week == w1w)
            .and_then(|a| a.person_id.as_deref()),
        Some(first_id.as_str()),
    );
    assert_eq!(
        state
            .slot_assignments
            .iter()
            .find(|a| a.group_id == group_id && a.iso_year == w2y && a.iso_week == w2w)
            .and_then(|a| a.person_id.as_deref()),
        Some(second_id.as_str()),
    );
    drop(state);
}

#[test]
fn import_does_not_disturb_the_rotation_queue_and_round_robin_continues_after_it() {
    let (mut raw_state, group_id, anna_id, bob_id, carla_id) = three_person_state();
    {
        let group = raw_state
            .cleaning_groups
            .iter_mut()
            .find(|g| g.id == group_id)
            .unwrap();
        group.rotation_queue = vec![anna_id.clone(), bob_id.clone(), carla_id.clone()];
    }
    let ctx = test_context(raw_state);

    let (fy, fw) = current_iso_week();

    let reply = cmd_importplan(&ctx, ADMIN, &[&iso_week_token(fy, fw), "Floor", "Carla"])
        .unwrap();
    assert!(reply.contains("1 added"), "{reply}");

    {
        let state = ctx.state.borrow();
        let queue = &state.group_by_id(&group_id).unwrap().rotation_queue;
        assert_eq!(
            queue,
            &vec![anna_id.clone(), bob_id.clone(), carla_id.clone()],
            "importing must not pop or reorder the rotation queue"
        );
    }

    let events = {
        let state = ctx.state.borrow();
        materialize(&state, 3)
    };
    {
        let mut state = ctx.state.borrow_mut();
        for e in events {
            state.apply_event(e).unwrap();
        }
    }

    let state = ctx.state.borrow();
    let at = |y: i32, w: u32| {
        state
            .slot_assignments
            .iter()
            .find(|a| a.group_id == group_id && a.iso_year == y && a.iso_week == w)
            .cloned()
    };

    let imported = at(fy, fw).expect("imported week must still be recorded");
    assert_eq!(
        imported.person_id.as_deref(),
        Some(carla_id.as_str()),
        "materialize must not re-decide an already-imported week"
    );
    assert_eq!(
        imported.source,
        AssignmentSource::Import,
        "materialize must not overwrite the import's audit source"
    );

    let (y1, w1) = add_weeks(fy, fw, 1);
    let (y2, w2) = add_weeks(fy, fw, 2);
    let next = at(y1, w1).expect("the week right after the import must be auto-filled");
    let next2 = at(y2, w2).expect("the week after that must be auto-filled too");

    assert_eq!(
        next.person_id.as_deref(),
        Some(anna_id.as_str()),
        "rotation must resume at the front of the untouched queue"
    );
    assert_eq!(next2.person_id.as_deref(), Some(bob_id.as_str()));
    assert_eq!(next.source, AssignmentSource::RoundRobin);
    assert_eq!(next2.source, AssignmentSource::RoundRobin);
    drop(state);
}

#[test]
fn command_may_change_current_plan_includes_importplan() {
    for (cmd, sub) in [
        ("!done", None),
        ("!undo", None),
        ("!takeover", None),
        ("!acceptswap", Some("3")),
        ("!swap", Some("accept")),
        ("!plan", Some("skip")),
        ("!plan", Some("assign")),
        ("!plan", Some("unassign")),
        ("!plan", Some("reset")),
        ("!plan", Some("import")),
        ("!groups", Some("disable")),
        ("!groups", Some("enable")),
        ("!member", Some("away")),
    ] {
        assert!(
            command_may_change_current_plan(cmd, sub),
            "{cmd} {sub:?} must trigger a pinned-plan refresh"
        );
    }
    for (cmd, sub) in [
        ("!status", None),
        ("!help", None),
        ("!stats", None),
        ("!plan", None),
        ("!plan", Some("6")),
        ("!swap", Some("@bob:example.org")),
        ("!groups", None),
        ("!groups", Some("2nd floor")),
        ("!member", Some("add")),
        ("", None),
    ] {
        assert!(
            !command_may_change_current_plan(cmd, sub),
            "{cmd} {sub:?} must not trigger a pinned-plan refresh"
        );
    }
}

#[test]
fn import_for_the_current_week_changes_the_render_and_is_idempotent_after() {
    let (state, group_id, _first_id, second_id) = rotation_state();
    let ctx = test_context(state);
    let (cy, cw) = current_iso_week();

    let before = {
        let state = ctx.state.borrow();
        plan(&state, cy, cw).text
    };

    let args = [
        iso_week_token(cy, cw),
        "2nd Floor".to_owned(),
        "@bob:example.org".to_owned(),
    ];
    let arg_refs: Vec<&str> = args.iter().map(String::as_str).collect();
    let reply = cmd_importplan(&ctx, ADMIN, &arg_refs).unwrap();
    assert!(reply.contains("1 added"), "{reply}");

    let after = {
        let state = ctx.state.borrow();
        plan(&state, cy, cw).text
    };
    assert_ne!(
        before, after,
        "the render for the current week must change immediately after import"
    );
    assert!(
        after.contains(second_id.as_str()) || after.contains("@bob:example.org"),
        "the newly imported assignee must show up in the current week's render: {after}"
    );

    let second = cmd_importplan(&ctx, ADMIN, &arg_refs).unwrap();
    assert!(second.contains("Nothing to do"), "{second}");
    let after_repeat = {
        let state = ctx.state.borrow();
        plan(&state, cy, cw).text
    };
    assert_eq!(
        after, after_repeat,
        "repeating the same import must not change the render again"
    );
    let _ = group_id;
}

#[test]
fn import_makes_a_matrix_participant_mentionable_and_a_non_matrix_participant_plain() {
    let (mut state, _group_id, _first_id, _second_id) = rotation_state();
    state.persons.push(Person::new_named("Flo3"));
    let ctx = test_context(state);
    let (cy, cw) = current_iso_week();
    let (ny, nw) = add_weeks(cy, cw, 1);

    let reply = cmd_importplan(
        &ctx,
        ADMIN,
        &[
            &iso_week_token(cy, cw),
            "2nd Floor",
            "@bob:example.org",
            ";",
            &iso_week_token(ny, nw),
            "2nd Floor",
            "Flo3",
        ],
    )
    .unwrap();
    assert!(reply.contains("2 added"), "{reply}");

    let state = ctx.state.borrow();
    let message = plan(&state, cy, cw);
    drop(state);
    assert!(message.text.contains("@bob:example.org"), "{message:?}");
    assert_eq!(message.mxids, ["@bob:example.org"]);

    let state = ctx.state.borrow();
    let next = plan(&state, ny, nw);
    drop(state);
    let raw_next = next.text;
    assert!(next.mxids.is_empty());
    assert!(raw_next.contains("Flo3"), "{raw_next}");
    assert!(
        !raw_next.contains('@'),
        "a person without a Matrix ID must never leave an @mxid token in the text: {raw_next}"
    );
}

#[test]
fn a_completion_recorded_after_import_still_mentions_the_imported_assignee() {
    let (state, group_id, _first_id, second_id) = rotation_state();
    let ctx = test_context(state);
    let (cy, cw) = current_iso_week();

    cmd_importplan(
        &ctx,
        ADMIN,
        &[&iso_week_token(cy, cw), "2nd Floor", "@bob:example.org"],
    )
    .unwrap();

    {
        let mut state = ctx.state.borrow_mut();
        state
            .apply_event(DomainEvent::CleaningCompleted {
                group_id: group_id.clone(),
                slot_id: None,
                person_id: second_id.clone(),
                responsible_person_ids: vec![second_id.clone()],
                iso_year: cy,
                iso_week: cw,
                shift: 0,
            })
            .unwrap();
    }

    let state = ctx.state.borrow();
    let Message { text: raw, mxids } = plan(&state, cy, cw);
    assert_eq!(mxids, ["@bob:example.org"]);
    assert!(raw.contains("✅"), "{raw}");
    assert!(
        raw.contains("@bob:example.org"),
        "the done line must still carry Bob's mxid, not just his display name: {raw}"
    );
}

#[test]
fn import_replace_overrides_an_already_materialized_round_robin_pick() {
    let (state, group_id, first_id, second_id) = rotation_state();
    let ctx = test_context(state);
    let (cy, cw) = current_iso_week();

    let events = materialize(&ctx.state.borrow(), 1);
    {
        let mut state = ctx.state.borrow_mut();
        for e in events {
            state.apply_event(e).unwrap();
        }
    }
    {
        let state = ctx.state.borrow();
        let a = state
            .slot_assignments
            .iter()
            .find(|a| a.group_id == group_id && a.iso_year == cy && a.iso_week == cw)
            .unwrap();
        assert_eq!(
            a.person_id.as_deref(),
            Some(first_id.as_str()),
            "sanity: round-robin picked Alice"
        );
        assert_eq!(a.source, AssignmentSource::RoundRobin);
    }

    let blocked = cmd_importplan(
        &ctx,
        ADMIN,
        &[&iso_week_token(cy, cw), "2nd Floor", "@bob:example.org"],
    )
    .unwrap();
    assert!(blocked.contains("aborted"), "{blocked}");
    assert!(blocked.contains("--replace"), "{blocked}");

    let reply = cmd_importplan(
        &ctx,
        ADMIN,
        &[
            "--replace",
            &iso_week_token(cy, cw),
            "2nd Floor",
            "@bob:example.org",
        ],
    )
    .unwrap();
    assert!(reply.contains("1 replaced"), "{reply}");
    assert!(reply.contains("0 added"), "{reply}");

    let state = ctx.state.borrow();
    let a = state
        .slot_assignments
        .iter()
        .find(|a| a.group_id == group_id && a.iso_year == cy && a.iso_week == cw)
        .unwrap();
    assert_eq!(
        a.person_id.as_deref(),
        Some(second_id.as_str()),
        "Bob must now hold the slot"
    );
    assert_eq!(
        a.source,
        AssignmentSource::Import,
        "the replacement must be tagged as an import, not left as round-robin"
    );
}

#[test]
fn import_replace_does_not_touch_the_rotation_queue() {
    let (mut raw_state, group_id, anna_id, bob_id, carla_id) = three_person_state();
    {
        let group = raw_state
            .cleaning_groups
            .iter_mut()
            .find(|g| g.id == group_id)
            .unwrap();
        group.rotation_queue = vec![anna_id.clone(), bob_id.clone(), carla_id.clone()];
    }
    let ctx = test_context(raw_state);
    let (fy, fw) = current_iso_week();

    let events = {
        let state = ctx.state.borrow();
        materialize(&state, 1)
    };
    {
        let mut state = ctx.state.borrow_mut();
        for e in events {
            state.apply_event(e).unwrap();
        }
    }

    let queue_before = {
        let state = ctx.state.borrow();
        state.group_by_id(&group_id).unwrap().rotation_queue.clone()
    };

    let reply = cmd_importplan(
        &ctx,
        ADMIN,
        &["--replace", &iso_week_token(fy, fw), "Floor", "Carla"],
    )
    .unwrap();
    assert!(reply.contains("1 replaced"), "{reply}");

    let state = ctx.state.borrow();
    let queue_after = &state.group_by_id(&group_id).unwrap().rotation_queue;
    assert_eq!(
        &queue_before, queue_after,
        "replacing a materialized pick must not touch rotation_queue"
    );
    let a = state
        .slot_assignments
        .iter()
        .find(|a| a.group_id == group_id && a.iso_year == fy && a.iso_week == fw).unwrap();
    assert_eq!(a.person_id.as_deref(), Some(carla_id.as_str()));
    drop(state);
}

#[test]
fn import_replace_is_atomic_one_bad_entry_blocks_the_whole_batch() {
    let (state, group_id, first_id, _second_id) = rotation_state();
    let ctx = test_context(state);
    let (cy, cw) = current_iso_week();

    let events = {
        let state = ctx.state.borrow();
        materialize(&state, 1)
    };
    {
        let mut state = ctx.state.borrow_mut();
        for e in events {
            state.apply_event(e).unwrap();
        }
    }

    let reply = cmd_importplan(
        &ctx,
        ADMIN,
        &[
            "--replace",
            &iso_week_token(cy, cw),
            "2nd Floor",
            "@bob:example.org",
            ";",
            &iso_week_token(cy, cw),
            "2nd Floor",
            "@nobody:example.org",
        ],
    )
    .unwrap();
    assert!(reply.contains("aborted"), "{reply}");

    let state = ctx.state.borrow();
    let a = state
        .slot_assignments
        .iter()
        .find(|a| a.group_id == group_id && a.iso_year == cy && a.iso_week == cw).unwrap();
    assert_eq!(
        a.person_id.as_deref(),
        Some(first_id.as_str()),
        "the pre-existing pick must survive an aborted --replace batch"
    );
    assert_eq!(a.source, AssignmentSource::RoundRobin);
    drop(state);
}

#[test]
fn import_replace_is_idempotent_and_refuses_to_touch_a_completed_week() {
    let (state, group_id, first_id, second_id) = rotation_state();
    let ctx = test_context(state);
    let (cy, cw) = current_iso_week();

    {
        let mut state = ctx.state.borrow_mut();
        state
            .apply_event(DomainEvent::SlotAssigned {
                group_id: group_id.clone(),
                slot_index: 0,
                iso_year: cy,
                iso_week: cw,
                shift: 0,
                person_id: Some(first_id.clone()),
                source: AssignmentSource::RoundRobin,
                actor_id: None,
                previous_person_id: None,
            })
            .unwrap();
        state
            .apply_event(DomainEvent::CleaningCompleted {
                group_id: group_id.clone(),
                slot_id: None,
                person_id: first_id.clone(),
                responsible_person_ids: vec![first_id.clone()],
                iso_year: cy,
                iso_week: cw,
                shift: 0,
            })
            .unwrap();
    }

    let blocked = cmd_importplan(
        &ctx,
        ADMIN,
        &[
            "--replace",
            &iso_week_token(cy, cw),
            "2nd Floor",
            "@bob:example.org",
        ],
    )
    .unwrap();
    assert!(blocked.contains("aborted"), "{blocked}");
    assert!(blocked.contains("already completed"), "{blocked}");

    let noop = cmd_importplan(
        &ctx,
        ADMIN,
        &[
            "--replace",
            &iso_week_token(cy, cw),
            "2nd Floor",
            "@alice:example.org",
        ],
    )
    .unwrap();
    assert!(noop.contains("Nothing to do"), "{noop}");

    let state = ctx.state.borrow();
    let a = state
        .slot_assignments
        .iter()
        .find(|a| a.group_id == group_id && a.iso_year == cy && a.iso_week == cw).unwrap();
    assert_eq!(
        a.person_id.as_deref(),
        Some(first_id.as_str()),
        "a completed week's assignment must be untouched"
    );
    drop(state);
    let _ = second_id;
}

#[test]
fn unassign_requires_admin() {
    let (state, ..) = rotation_state();
    let ctx = test_context(state);
    let outsider = "@outsider:example.org";

    let error = cmd_unassign(&ctx, outsider, &["2nd Floor"]).unwrap_err();
    assert!(error == CommandError::NotAdmin);
}

#[test]
fn join_after_five_materialized_weeks_leaves_them_untouched_and_seats_the_newcomer_next() {
    let (mut state, group_id, aid, bid, cid) = three_person_state();
    seed_materialized_weeks(&mut state, 5);
    let (y, w) = current_iso_week();
    let weeks: Vec<(i32, u32)> = (0..5).map(|i| add_weeks(y, w, i)).collect();
    let before: Vec<Option<PersonId>> = weeks
        .iter()
        .map(|&(y, w)| assignee_for(&state, &group_id, y, w))
        .collect();
    assert_eq!(
        before,
        vec![
            Some(aid.clone()),
            Some(bid.clone()),
            Some(cid.clone()),
            Some(aid.clone()),
            Some(bid.clone()),
        ],
        "sanity check on the pre-seeded plan"
    );

    let ctx = test_context_with_horizon(state, 8);
    let reply = cmd_addperson(&ctx, ADMIN, &["David", "Floor"]).unwrap();
    assert!(reply.contains("Added David"), "{reply}");

    let state = ctx.state.borrow();
    let david_id = state.find_person("David").unwrap().id.clone();

    for (i, &(y, w)) in weeks.iter().enumerate() {
        assert_eq!(
            assignee_for(&state, &group_id, y, w),
            before[i],
            "week index {i} must not change"
        );
    }
    let (y5, w5) = add_weeks(y, w, 5);
    assert_eq!(assignee_for(&state, &group_id, y5, w5), Some(david_id));

    let (y6, w6) = add_weeks(y, w, 6);
    assert_eq!(
        assignee_for(&state, &group_id, y6, w6),
        None,
        "not yet frozen"
    );
    assert_eq!(preview_assignee_for(&state, &group_id, y6, w6), Some(cid));
    let (y7, w7) = add_weeks(y, w, 7);
    assert_eq!(
        assignee_for(&state, &group_id, y7, w7),
        None,
        "not yet frozen"
    );
    assert_eq!(preview_assignee_for(&state, &group_id, y7, w7), Some(aid));
}

#[test]
fn multiple_joins_in_sequence_respect_arrival_order() {
    let mut state = State::default();
    state.created_at = Some(now());
    let group = CleaningGroup::new("Floor");
    let gid = group.id.clone();
    state.cleaning_groups.push(group);
    let ctx = test_context_with_horizon(state, 8);

    cmd_addperson(&ctx, ADMIN, &["Anna", "Floor"]).unwrap();
    cmd_addperson(&ctx, ADMIN, &["Bob", "Floor"]).unwrap();

    let state = ctx.state.borrow();
    let anna_id = state.find_person("Anna").unwrap().id.clone();
    let bob_id = state.find_person("Bob").unwrap().id.clone();
    let (y, w) = current_iso_week();

    assert_eq!(assignee_for(&state, &gid, y, w), None);
    let (y1, w1) = add_weeks(y, w, 1);
    assert_eq!(
        assignee_for(&state, &gid, y1, w1),
        Some(anna_id),
        "Anna joined first, goes first"
    );
    let (y2, w2) = add_weeks(y, w, 2);
    assert_eq!(
        assignee_for(&state, &gid, y2, w2),
        Some(bob_id),
        "Bob joined second, follows Anna"
    );
}

#[test]
fn join_never_skips_an_existing_member_who_has_not_had_a_turn_yet() {
    let (mut state, group_id, aid, ..) = three_person_state();
    seed_materialized_weeks(&mut state, 1);
    let ctx = test_context_with_horizon(state, 8);
    let bob_id = ctx.state.borrow()
        .find_person("Bob")
        .unwrap()
        .id
        .clone();

    cmd_addperson(&ctx, ADMIN, &["David", "Floor"]).unwrap();

    let state = ctx.state.borrow();
    let david_id = state.find_person("David").unwrap().id.clone();
    let carla_id = state.find_person("Carla").unwrap().id.clone();

    let (y, w) = current_iso_week();
    let (y1, w1) = add_weeks(y, w, 1);
    assert_eq!(
        assignee_for(&state, &group_id, y1, w1),
        Some(bob_id),
        "must not skip Bob's first turn"
    );

    let (y2, w2) = add_weeks(y, w, 2);
    assert_eq!(
        preview_assignee_for(&state, &group_id, y2, w2),
        Some(carla_id),
        "Carla is also still waiting for her first turn"
    );
    let (y3, w3) = add_weeks(y, w, 3);
    assert_eq!(
        preview_assignee_for(&state, &group_id, y3, w3),
        Some(david_id),
        "David gets his first turn only after Bob and Carla have had theirs"
    );
    let (y4, w4) = add_weeks(y, w, 4);
    assert_eq!(
        preview_assignee_for(&state, &group_id, y4, w4),
        Some(aid),
        "Anna, who already had a turn, repeats after David"
    );
}

#[test]
fn full_lifecycle_survives_a_complete_event_replay() {
    let mut state = State::default();
    state.created_at = Some(now());
    let group_id = CleaningGroup::new("").id;
    state
        .apply_event(DomainEvent::GroupCreated {
            group_id: group_id.clone(),
            name: "Floor".into(),
        }).unwrap();
    for name in ["Anna", "Bob", "Carla"] {
        let pid = CleaningGroup::new("").id;
        state
            .apply_event(DomainEvent::PersonCreated {
                person_id: pid.clone(),
                display_name: name.into(),
                matrix_id: None,
            })
            .unwrap();
        state
            .apply_event(DomainEvent::PersonJoinedGroup {
                person_id: pid,
                group_id: group_id.clone(),
            })
            .unwrap();
    }
    seed_materialized_weeks(&mut state, 3);

    let ctx = test_context_with_horizon(state, 6);
    cmd_addperson(&ctx, ADMIN, &["David", "Floor"]).unwrap();
    cmd_removeperson(&ctx, ADMIN, &["Bob", "Floor"]).unwrap();

    let before = ctx.state.borrow().clone();
    assert!(!before.event_log.is_empty());

    let mut replayed = State::default();
    for logged in &before.event_log {
        replayed.apply_event(logged.event.clone()).unwrap();
    }

    assert_eq!(
        format!("{:?}", &before.cleaning_groups),
        format!("{:?}", &replayed.cleaning_groups),
        "member_ids and rotation_queue must be identical after full replay"
    );
    assert_eq!(
        format!("{:?}", &before.slot_assignments),
        format!("{:?}", &replayed.slot_assignments),
        "slot_assignments must be identical after full replay"
    );
}

#[test]
fn removeperson_without_any_future_assignment_just_leaves() {
    let (mut state, group_id, aid, _bid, cid) = three_person_state();
    seed_materialized_weeks(&mut state, 1);
    let ctx = test_context(state);

    let reply = cmd_removeperson(&ctx, ADMIN, &["Carla", "Floor"]).unwrap();
    assert!(reply.contains("Removed Carla"), "{reply}");

    let state = ctx.state.borrow();
    assert!(!state
        .group_by_id(&group_id)
        .unwrap()
        .member_ids
        .contains(&cid));
    let (y, w) = current_iso_week();
    assert_eq!(
        assignee_for(&state, &group_id, y, w),
        Some(aid),
        "untouched — not Carla's week"
    );
}

#[test]
fn leavefloor_is_blocked_while_the_current_assignment_is_open() {
    let (mut state, group_id, first_id, _second_id) = rotation_state();
    let (year, week) = current_iso_week();
    state.slot_assignments.push(SlotAssignment {
        group_id: group_id.clone(),
        slot_index: 0,
        iso_year: year,
        iso_week: week,
        shift: 0,
        person_id: Some(first_id.clone()),
        source: Default::default(),
    });
    let ctx = test_context(state);
    let alice = "@alice:example.org";

    let reply = cmd_leavefloor(&ctx, alice, &["2nd Floor"]).unwrap();
    assert!(reply.contains("cannot leave"), "{reply}");

    let state = ctx.state.borrow();
    assert!(
        state
            .group_by_id(&group_id)
            .unwrap()
            .member_ids
            .contains(&first_id),
        "must not have left"
    );
}

#[test]
fn removeperson_with_future_assignments_only_refills_their_own_gaps() {
    let (mut state, group_id, aid, bid, cid) = three_person_state();
    seed_materialized_weeks(&mut state, 5);
    let ctx = test_context_with_horizon(state, 8);

    let reply = cmd_removeperson(&ctx, ADMIN, &["Carla", "Floor"]).unwrap();
    assert!(reply.contains("Removed Carla"), "{reply}");

    let state = ctx.state.borrow();
    let (y, w) = current_iso_week();
    assert_eq!(assignee_for(&state, &group_id, y, w), Some(aid.clone()));
    let (y1, w1) = add_weeks(y, w, 1);
    assert_eq!(assignee_for(&state, &group_id, y1, w1), Some(bid.clone()));
    let (y3, w3) = add_weeks(y, w, 3);
    assert_eq!(
        assignee_for(&state, &group_id, y3, w3),
        Some(aid),
        "week 3 was already Anna's, unrelated to Carla"
    );
    let (y4, w4) = add_weeks(y, w, 4);
    assert_eq!(
        assignee_for(&state, &group_id, y4, w4),
        Some(bid),
        "week 4 was already Bob's, unrelated to Carla"
    );
    let (y2, w2) = add_weeks(y, w, 2);
    assert!(
        assignee_for(&state, &group_id, y2, w2).is_some(),
        "Carla's gap must be refilled"
    );
    assert_ne!(
        assignee_for(&state, &group_id, y2, w2),
        Some(cid),
        "not Carla — she left"
    );
}

#[test]
fn join_then_leave_leaves_no_trace_and_preserves_original_weeks() {
    let (mut state, group_id, aid, bid, _cid) = three_person_state();
    seed_materialized_weeks(&mut state, 2);
    let ctx = test_context_with_horizon(state, 8);

    cmd_addperson(&ctx, ADMIN, &["David", "Floor"]).unwrap();
    let david_id = ctx.state.borrow()
        .find_person("David")
        .unwrap()
        .id
        .clone();
    cmd_removeperson(&ctx, ADMIN, &["David", "Floor"]).unwrap();

    let state = ctx.state.borrow();
    let group = state.group_by_id(&group_id).unwrap();
    assert!(!group.member_ids.contains(&david_id));
    assert!(!group.rotation_queue.contains(&david_id));
    assert!(
        !state
            .slot_assignments
            .iter()
            .any(|a| a.person_id.as_deref() == Some(david_id.as_str())),
        "no assignment should still reference David"
    );

    let (y, w) = current_iso_week();
    assert_eq!(assignee_for(&state, &group_id, y, w), Some(aid));
    let (y1, w1) = add_weeks(y, w, 1);
    assert_eq!(assignee_for(&state, &group_id, y1, w1), Some(bid));
}

#[test]
fn linkmatrix_repairs_a_corrupted_matrix_id_and_merges_the_unused_stub() {
    let stub = Person::new_matrix("@papageientaucher:matrix.org"); // valid, unused
    let stub_id = stub.id.clone();
    let real = Person::new_matrix("papageientaucher"); // matrix_id = "papageientaucher" (invalid)
    let real_id = real.id.clone();

    let mut group = CleaningGroup::new("3+4 Floor");
    let group_id = group.id.clone();
    group.member_ids = vec![real_id.clone()];
    group.rotation_queue = vec![real_id.clone()];

    let mut state = State::default();
    state.persons = vec![stub, real]; // stub first, exactly as in production
    state.cleaning_groups.push(group);
    let (year, week) = current_iso_week();
    let (fy, fw) = add_weeks(year, week, 1);
    state.slot_assignments.push(SlotAssignment {
        group_id: group_id.clone(),
        slot_index: 0,
        iso_year: fy,
        iso_week: fw,
        shift: 0,
        person_id: Some(real_id.clone()),
        source: Default::default(),
    });
    state.completions.push(Completion {
        group_id: group_id.clone(),
        slot_id: None,
        completed_by_id: real_id.clone(),
        responsible_person_ids: vec![real_id.clone()],
        iso_year: year,
        iso_week: week,
        shift: 0,
        completed_at: now(),
        skipped: false,
    });
    let ctx = test_context(state);

    let reply = link(
        &ctx,
        "papageientaucher",
        "@papageientaucher:matrix.org",
        Some("Bela"),
    )
    .unwrap();
    assert!(reply.contains("repaired"), "{reply}");

    let state = ctx.state.borrow();

    let real_now = state
        .person_by_id(&real_id)
        .expect("real participant's PersonId must survive");
    assert_eq!(
        real_now.matrix_id.as_deref(),
        Some("@papageientaucher:matrix.org")
    );
    assert_eq!(real_now.display_name, "Bela");

    let group_now = state.group_by_id(&group_id).unwrap();
    assert_eq!(
        group_now.member_ids,
        vec![real_id.clone()],
        "group membership must be unchanged"
    );
    assert_eq!(
        group_now.rotation_queue,
        vec![real_id.clone()],
        "rotation position must be unchanged"
    );

    assert!(
        state.slot_assignments.iter().any(|a| a.group_id == group_id
            && a.iso_year == fy
            && a.iso_week == fw
            && a.person_id.as_deref() == Some(real_id.as_str())),
        "the existing assignment must still reference the same PersonId"
    );
    assert!(
        state
            .completions
            .iter()
            .any(|c| c.completed_by_id == real_id),
        "completion history must still reference the same PersonId"
    );

    assert!(
        state.person_by_id(&stub_id).is_none(),
        "the unused stub must be removed, not kept alongside"
    );
    assert_eq!(
        state.persons.len(),
        1,
        "exactly one papageientaucher record must remain"
    );
    drop(state);
}

#[test]
fn linkmatrix_refuses_to_overwrite_an_already_valid_matrix_id() {
    let mut state = State::default();
    state
        .persons
        .push(Person::new_matrix("@already:example.org"));

    let ctx = test_context(state);
    let reply = link(&ctx, "already", "@new:example.org", None).unwrap();
    assert!(
        reply.contains("already has a Matrix account linked"),
        "{reply}"
    );

    let state = ctx.state.borrow();
    assert_eq!(
        state.find_person("already").unwrap().matrix_id.as_deref(),
        Some("@already:example.org"),
        "a valid existing matrix_id must never be overwritten by another"
    );
    drop(state);
}

#[test]
fn linkmatrix_refuses_to_guess_between_two_real_people_with_the_same_name() {
    let dup_a = Person::new_named("Dup");
    let dup_a_id = dup_a.id.clone();
    let dup_b = Person::new_named("Dup");
    let dup_b_id = dup_b.id.clone();

    let mut group = CleaningGroup::new("Floor");
    let group_id = group.id.clone();
    group.member_ids = vec![dup_a_id.clone(), dup_b_id.clone()];

    let mut state = State::default();
    state.persons = vec![dup_a, dup_b];
    state.cleaning_groups.push(group);
    let (year, week) = current_iso_week();
    state.completions.push(Completion {
        group_id: group_id.clone(),
        slot_id: None,
        completed_by_id: dup_b_id.clone(),
        responsible_person_ids: vec![dup_b_id.clone()],
        iso_year: year,
        iso_week: week,
        shift: 0,
        completed_at: now(),
        skipped: false,
    });
    let ctx = test_context(state);

    let reply = link(&ctx, "Dup", "@new:example.org", None).unwrap();
    assert!(reply.contains("refusing to guess"), "{reply}");
    assert!(
        reply.contains(&dup_a_id) && reply.contains(&dup_b_id),
        "{reply}"
    );

    let state = ctx.state.borrow();
    assert!(state.person_by_id(&dup_a_id).unwrap().matrix_id.is_none());
    assert!(state.person_by_id(&dup_b_id).unwrap().matrix_id.is_none());
    drop(state);
}

#[test]
fn skip_does_not_touch_rotation_queue_or_future_assignments() {
    let (mut state, group_id, ..) = three_person_state();
    seed_materialized_weeks(&mut state, 3);
    let queue_before = state.group_by_id(&group_id).unwrap().rotation_queue.clone();
    let assignments_before = state.slot_assignments.clone();

    let ctx = test_context(state);
    let reply = cmd_skip(&ctx, ADMIN, &["Floor"]).unwrap();
    assert!(reply.contains("Skipped"), "{reply}");

    let state = ctx.state.borrow();
    assert_eq!(
        state.group_by_id(&group_id).unwrap().rotation_queue,
        queue_before
    );
    assert_eq!(state.slot_assignments.len(), assignments_before.len());
    for a in &assignments_before {
        assert!(
            state.slot_assignments.iter().any(|b| {
                b.group_id == a.group_id
                    && b.slot_index == a.slot_index
                    && b.iso_year == a.iso_year
                    && b.iso_week == a.iso_week
                    && b.person_id == a.person_id
            }),
            "assignment for week {} preserved",
            a.iso_week
        );
    }
}

#[test]
fn done_does_not_touch_rotation_queue_or_future_assignments() {
    let (mut state, group_id, ..) = rotation_state();
    seed_materialized_weeks(&mut state, 3);
    let queue_before = state.group_by_id(&group_id).unwrap().rotation_queue.clone();
    let (cur_y, cur_w) = current_iso_week();
    let future_before: Vec<_> = state
        .slot_assignments
        .iter()
        .filter(|a| a.iso_year > cur_y || (a.iso_year == cur_y && a.iso_week > cur_w))
        .cloned()
        .collect();

    let ctx = test_context(state);
    let alice = "@alice:example.org";
    let reply = cmd_done(&ctx, alice, &["2nd Floor"]).unwrap();
    assert!(reply.contains("Cleaned"), "{reply}");

    let state = ctx.state.borrow();
    assert_eq!(
        state.group_by_id(&group_id).unwrap().rotation_queue,
        queue_before
    );
    let future_after: Vec<_> = state
        .slot_assignments
        .iter()
        .filter(|a| a.iso_year > cur_y || (a.iso_year == cur_y && a.iso_week > cur_w))
        .cloned()
        .collect();
    assert_eq!(future_after.len(), future_before.len());
}

#[test]
fn manual_assign_and_unassign_do_not_touch_rotation_queue() {
    let (mut state, group_id, _aid, _bid, cid) = three_person_state();
    seed_materialized_weeks(&mut state, 2);
    let queue_before = state.group_by_id(&group_id).unwrap().rotation_queue.clone();
    let ctx = test_context(state);

    cmd_assign(&ctx, ADMIN, &["Floor", "Carla"]).unwrap();
    {
        let state = ctx.state.borrow();
        assert_eq!(
            state.group_by_id(&group_id).unwrap().rotation_queue,
            queue_before
        );
        let (y, w) = current_iso_week();
        assert_eq!(assignee_for(&state, &group_id, y, w), Some(cid.clone()));
    }

    cmd_unassign(&ctx, ADMIN, &["Floor"]).unwrap();
    let state = ctx.state.borrow();
    assert_eq!(
        state.group_by_id(&group_id).unwrap().rotation_queue,
        queue_before
    );
    let (y, w) = current_iso_week();
    assert_eq!(assignee_for(&state, &group_id, y, w), None);
}

#[test]
fn restart_replay_reproduces_identical_rotation() {
    let (mut state, group_id, ..) = three_person_state();
    seed_materialized_weeks(&mut state, 2);
    let ctx = test_context_with_horizon(state, 8);
    cmd_addperson(&ctx, ADMIN, &["David", "Floor"]).unwrap();

    let before = ctx.state.borrow().clone();
    let after = before.clone();

    assert_eq!(
        format!("{:?}", &before.cleaning_groups),
        format!("{:?}", &after.cleaning_groups),
        "member_ids and rotation_queue must survive a reload byte-for-byte"
    );
    assert_eq!(
        format!("{:?}", &before.slot_assignments),
        format!("{:?}", &after.slot_assignments)
    );

    let horizon = group_horizon_weeks_ahead(&after, after.group_by_id(&group_id).unwrap(), today());
    assert!(horizon > 0, "the join must have frozen at least one week");
    let replay_events = materialize(&after, horizon);
    assert!(
        replay_events.is_empty(),
        "materialize must be a no-op on an already-materialized, reloaded state"
    );
}

#[test]
fn takeover_reassigns_the_running_week_and_the_original_loses_it() {
    let (mut state, group_id, first_id, second_id) = rotation_state();
    let (year, week) = current_iso_week();
    state.slot_assignments.push(SlotAssignment {
        group_id: group_id.clone(),
        slot_index: 0,
        iso_year: year,
        iso_week: week,
        shift: 0,
        person_id: Some(first_id.clone()),
        source: Default::default(),
    });
    let ctx = test_context(state);
    let bob = "@bob:example.org";

    let reply = cmd_takeover(&ctx, bob, &["2nd Floor"]).unwrap();
    assert!(reply.contains("took over"), "{reply}");
    assert!(
        reply.contains("Alice") || reply.contains("alice"),
        "should note who it came from: {reply}"
    );

    let state = ctx.state.borrow();
    assert_eq!(
        assignee_for(&state, &group_id, year, week),
        Some(second_id.clone()),
        "Bob is now the sole responsible person"
    );
    assert_ne!(
        assignee_for(&state, &group_id, year, week),
        Some(first_id),
        "Alice must no longer be responsible"
    );
}

#[test]
fn takeover_does_not_touch_rotation_queue_or_future_assignments() {
    let (mut state, group_id, first_id, _second_id) = three_person_state_matrix();
    seed_materialized_weeks(&mut state, 4);
    let queue_before = state.group_by_id(&group_id).unwrap().rotation_queue.clone();
    let (y, w) = current_iso_week();
    let future_before: Vec<_> = (1..4)
        .map(|i| {
            let (fy, fw) = add_weeks(y, w, i);
            (fy, fw, assignee_for(&state, &group_id, fy, fw))
        })
        .collect();

    let ctx = test_context(state);
    let bob = "@bob:example.org";
    cmd_takeover(&ctx, bob, &["Floor"]).unwrap();

    let state = ctx.state.borrow();
    assert_eq!(
        state.group_by_id(&group_id).unwrap().rotation_queue,
        queue_before,
        "a takeover must never pop or reorder the rotation queue"
    );
    for (fy, fw, before) in future_before {
        assert_eq!(
            assignee_for(&state, &group_id, fy, fw),
            before,
            "future week {fw} must be untouched"
        );
    }
    assert_eq!(
        assignee_for(&state, &group_id, y, w),
        Some(state.find_person("Bob").unwrap().id.clone())
    );
    let _ = first_id;
}

#[test]
fn new_assignee_can_mark_done_and_it_persists_across_restart() {
    let (mut state, group_id, first_id, second_id) = rotation_state();
    let (year, week) = current_iso_week();
    state.slot_assignments.push(SlotAssignment {
        group_id: group_id.clone(),
        slot_index: 0,
        iso_year: year,
        iso_week: week,
        shift: 0,
        person_id: Some(first_id),
        source: Default::default(),
    });
    let earlier = state.clone();
    let ctx = test_context(state);
    let bob = "@bob:example.org";

    cmd_takeover(&ctx, bob, &["2nd Floor"]).unwrap();
    let done_reply = cmd_done(&ctx, bob, &["2nd Floor"]).unwrap();
    assert!(done_reply.contains("Cleaned"), "{done_reply}");

    {
        let state = ctx.state.borrow();
        assert!(state.is_completed(&group_id, year, week));
        let completion = state
            .completions
            .iter()
            .find(|c| c.group_id == group_id && c.iso_year == year && c.iso_week == week)
            .unwrap();
        assert_eq!(completion.completed_by_id, second_id);
        assert_eq!(
            completion.responsible_person_ids,
            vec![second_id.clone()],
            "credit must go to Bob, the current assignee, not the original round-robin pick"
        );
    }

    let reloaded = reloaded(&earlier, &ctx);
    assert!(reloaded.is_completed(&group_id, year, week));
    assert_eq!(
        assignee_for(&reloaded, &group_id, year, week),
        Some(second_id),
        "Bob remains the assignee after a restart"
    );
}

#[test]
fn a_member_can_still_mark_done_but_credit_goes_to_the_takeover_assignee() {
    let (mut state, group_id, first_id, second_id) = rotation_state();
    let (year, week) = current_iso_week();
    state.slot_assignments.push(SlotAssignment {
        group_id: group_id.clone(),
        slot_index: 0,
        iso_year: year,
        iso_week: week,
        shift: 0,
        person_id: Some(first_id.clone()),
        source: Default::default(),
    });
    let ctx = test_context(state);
    let bob = "@bob:example.org";
    let alice = "@alice:example.org";

    cmd_takeover(&ctx, bob, &["2nd Floor"]).unwrap();
    let reply = cmd_done(&ctx, alice, &["2nd Floor"]).unwrap();
    assert!(reply.contains("Cleaned"), "{reply}");

    let state = ctx.state.borrow();
    let completion = state
        .completions
        .iter()
        .find(|c| c.group_id == group_id && c.iso_year == year && c.iso_week == week)
        .unwrap();
    assert_eq!(
        completion.responsible_person_ids,
        vec![second_id],
        "credit belongs to Bob, not Alice"
    );
    let _ = first_id;
}

#[test]
fn double_takeover_leaves_only_the_last_person_responsible() {
    let (mut state, group_id, aid, ..) = three_person_state();
    seed_materialized_weeks(&mut state, 1);
    let ctx = test_context(state);

    cmd_assign(&ctx, ADMIN, &["Floor", "Bob"]).unwrap();
    cmd_assign(&ctx, ADMIN, &["Floor", "Carla"]).unwrap();

    let state = ctx.state.borrow();
    let (y, w) = current_iso_week();
    let carla_id = state.find_person("Carla").unwrap().id.clone();
    let bob_id = state.find_person("Bob").unwrap().id.clone();
    assert_eq!(
        assignee_for(&state, &group_id, y, w),
        Some(carla_id),
        "only Carla is responsible"
    );
    assert_ne!(assignee_for(&state, &group_id, y, w), Some(bob_id));
    assert_ne!(assignee_for(&state, &group_id, y, w), Some(aid));
    assert_eq!(
        state
            .slot_assignments
            .iter()
            .filter(|a| a.group_id == group_id && a.iso_year == y && a.iso_week == w)
            .count(),
        1
    );
}

#[test]
fn takeover_of_an_already_completed_week_is_rejected() {
    let (mut state, group_id, first_id, _second_id) = rotation_state();
    let (year, week) = current_iso_week();
    state.slot_assignments.push(SlotAssignment {
        group_id: group_id.clone(),
        slot_index: 0,
        iso_year: year,
        iso_week: week,
        shift: 0,
        person_id: Some(first_id.clone()),
        source: Default::default(),
    });
    let ctx = test_context(state);
    let alice = "@alice:example.org";
    let bob = "@bob:example.org";

    cmd_done(&ctx, alice, &["2nd Floor"]).unwrap();
    let reply = cmd_takeover(&ctx, bob, &["2nd Floor"]).unwrap();
    assert!(reply.contains("already completed"), "{reply}");

    let state = ctx.state.borrow();
    assert_eq!(
        assignee_for(&state, &group_id, year, week),
        Some(first_id),
        "a completed assignment must not be silently reassigned"
    );
}

#[test]
fn takeover_of_a_skipped_week_is_rejected() {
    let (mut state, group_id, first_id, _second_id) = rotation_state();
    let (year, week) = current_iso_week();
    state.slot_assignments.push(SlotAssignment {
        group_id: group_id.clone(),
        slot_index: 0,
        iso_year: year,
        iso_week: week,
        shift: 0,
        person_id: Some(first_id),
        source: Default::default(),
    });
    let ctx = test_context(state);
    let bob = "@bob:example.org";

    cmd_skip(&ctx, ADMIN, &["2nd Floor"]).unwrap();
    let reply = cmd_takeover(&ctx, bob, &["2nd Floor"]).unwrap();
    assert!(reply.contains("already completed"), "{reply}");

    let state = ctx.state.borrow();
    assert!(
        state.is_completed(&group_id, year, week),
        "must remain skipped, not reopened"
    );
}

#[test]
fn double_done_after_takeover_stays_consistent() {
    let (mut state, group_id, first_id, _second_id) = rotation_state();
    let (year, week) = current_iso_week();
    state.slot_assignments.push(SlotAssignment {
        group_id: group_id.clone(),
        slot_index: 0,
        iso_year: year,
        iso_week: week,
        shift: 0,
        person_id: Some(first_id),
        source: Default::default(),
    });
    let ctx = test_context(state);
    let bob = "@bob:example.org";

    cmd_takeover(&ctx, bob, &["2nd Floor"]).unwrap();
    cmd_done(&ctx, bob, &["2nd Floor"]).unwrap();
    let second_reply = cmd_done(&ctx, bob, &["2nd Floor"]).unwrap();
    assert!(second_reply.contains("Already done"), "{second_reply}");

    let state = ctx.state.borrow();
    let count = state
        .completions
        .iter()
        .filter(|c| c.group_id == group_id && c.iso_year == year && c.iso_week == week)
        .count();
    assert_eq!(count, 1, "no duplicate completion record");
}

#[test]
fn takeover_then_done_survives_a_full_event_replay() {
    let mut state = State::default();
    state.created_at = Some(now());
    let group_id = CleaningGroup::new("").id;
    state
        .apply_event(DomainEvent::GroupCreated {
            group_id: group_id.clone(),
            name: "2nd Floor".into(),
        }).unwrap();
    for mxid in ["@alice:example.org", "@bob:example.org"] {
        let pid = CleaningGroup::new("").id;
        state
            .apply_event(DomainEvent::PersonCreated {
                person_id: pid.clone(),
                display_name: mxid.into(),
                matrix_id: Some(mxid.into()),
            })
            .unwrap();
        state
            .apply_event(DomainEvent::PersonJoinedGroup {
                person_id: pid,
                group_id: group_id.clone(),
            })
            .unwrap();
    }
    seed_materialized_weeks(&mut state, 1);

    let ctx = test_context(state);
    let bob = "@bob:example.org";
    cmd_takeover(&ctx, bob, &["2nd Floor"]).unwrap();
    cmd_done(&ctx, bob, &["2nd Floor"]).unwrap();

    let before = ctx.state.borrow().clone();
    let mut replayed = State::default();
    for logged in &before.event_log {
        replayed.apply_event(logged.event.clone()).unwrap();
    }

    assert_eq!(
        format!("{:?}", &before.slot_assignments),
        format!("{:?}", &replayed.slot_assignments),
        "current assignee must be identical after full replay"
    );
    let strip_ts = |completions: &[Completion]| {
        completions
            .iter()
            .map(|c| {
                (
                    c.group_id.clone(),
                    c.completed_by_id.clone(),
                    c.responsible_person_ids.clone(),
                    c.iso_year,
                    c.iso_week,
                    c.skipped,
                )
            })
            .collect::<Vec<_>>()
    };
    assert_eq!(
        strip_ts(&before.completions),
        strip_ts(&replayed.completions),
        "done status and responsible person must be identical after full replay"
    );
}

#[test]
fn accepted_swap_actually_reassigns_an_already_materialized_current_week() {
    let (mut state, group_id, first_id, second_id) = rotation_state();
    let (year, week) = current_iso_week();
    state.slot_assignments.push(SlotAssignment {
        group_id: group_id.clone(),
        slot_index: 0,
        iso_year: year,
        iso_week: week,
        shift: 0,
        person_id: Some(first_id),
        source: Default::default(),
    });
    let ctx = test_context(state);
    let alice = "@alice:example.org";
    let bob = "@bob:example.org";

    let swap_reply = cmd_swap(&ctx, alice, &["@bob:example.org", "2nd Floor"]).unwrap();
    let id: u64 = swap_reply
        .split('#')
        .nth(1)
        .unwrap()
        .split_whitespace()
        .next()
        .unwrap()
        .parse().unwrap();
    cmd_acceptswap(&ctx, bob, &[&id.to_string()]).unwrap();

    let state = ctx.state.borrow();
    assert_eq!(
        assignee_for(&state, &group_id, year, week),
        Some(second_id),
        "the frozen current week must reflect the accepted swap, not just swap_requests status"
    );
    drop(state);
    let done_reply = cmd_done(&ctx, bob, &["2nd Floor"]).unwrap();
    assert!(done_reply.contains("Cleaned"), "{done_reply}");
}

fn three_person_state_matrix() -> (State, GroupId, PersonId, PersonId) {
    let alice = Person::new_matrix("@alice:example.org");
    let bob = Person::new_matrix("@bob:example.org");
    let carla = Person::new_matrix("@carla:example.org");
    let (aid, bid) = (alice.id.clone(), bob.id.clone());
    let mut group = CleaningGroup::new("Floor");
    let gid = group.id.clone();
    group.member_ids = vec![alice.id.clone(), bob.id.clone(), carla.id.clone()];
    let mut state = State::default();
    state.created_at = Some(now());
    state.persons = vec![alice, bob, carla];
    state.cleaning_groups.push(group);
    (state, gid, aid, bid)
}

fn multi_slot_group_matrix() -> (State, GroupId, PersonId, PersonId, String, String) {
    let alice = Person::new_matrix("@alice:example.org");
    let bob = Person::new_matrix("@bob:example.org");
    let (aid, bid) = (alice.id.clone(), bob.id.clone());
    let mut group = CleaningGroup::new("Floor");
    let gid = group.id.clone();
    group.member_ids = vec![aid.clone(), bid.clone()];
    let mut kitchen = CleaningSlot::new("Kitchen");
    kitchen.id = "kitchen".into();
    let mut bath = CleaningSlot::new("Bath");
    bath.id = "bath".into();
    let (kitchen_id, bath_id) = (kitchen.id.clone(), bath.id.clone());
    group.slots = vec![kitchen, bath];
    let mut state = State::default();
    state.created_at = Some(now());
    state.persons = vec![alice, bob];
    state.cleaning_groups.push(group);
    (state, gid, aid, bid, kitchen_id, bath_id)
}

#[test]
fn bare_takeover_with_one_group_and_one_slot_just_works() {
    let (mut state, group_id, first_id, second_id) = rotation_state();
    let (year, week) = current_iso_week();
    state.slot_assignments.push(SlotAssignment {
        group_id: group_id.clone(),
        slot_index: 0,
        iso_year: year,
        iso_week: week,
        shift: 0,
        person_id: Some(first_id),
        source: Default::default(),
    });
    let ctx = test_context(state);
    let bob = "@bob:example.org";

    let reply = cmd_takeover(&ctx, bob, &[]).unwrap();
    assert!(reply.contains("took over"), "{reply}");

    let state = ctx.state.borrow();
    assert_eq!(assignee_for(&state, &group_id, year, week), Some(second_id));
}

#[test]
fn takeover_slot_only_uses_the_senders_own_group() {
    let (mut state, group_id, aid, bid, kitchen_id, _bath_id) = multi_slot_group_matrix();
    state.slot_assignments.push(SlotAssignment {
        group_id: group_id.clone(),
        slot_index: 0,
        iso_year: current_iso_week().0,
        iso_week: current_iso_week().1,
        shift: 0,
        person_id: Some(aid),
        source: Default::default(),
    });
    let ctx = test_context(state);
    let bob = "@bob:example.org";

    let reply = cmd_takeover(&ctx, bob, &["Kitchen"]).unwrap();
    assert!(reply.contains("took over"), "{reply}");
    assert!(reply.contains("Kitchen"), "{reply}");

    let state = ctx.state.borrow();
    let (year, week) = current_iso_week();
    let assignment = state
        .slot_assignments
        .iter()
        .find(|a| {
            a.group_id == group_id && a.iso_year == year && a.iso_week == week && a.slot_index == 0
        }).unwrap();
    assert_eq!(assignment.person_id.as_deref(), Some(bid.as_str()));
    let _ = kitchen_id;
}

#[test]
fn multiple_open_slots_are_listed_instead_of_guessed() {
    let (mut state, group_id, aid, _bid, ..) = multi_slot_group_matrix();
    let (year, week) = current_iso_week();
    state.slot_assignments.push(SlotAssignment {
        group_id: group_id.clone(),
        slot_index: 0,
        iso_year: year,
        iso_week: week,
        shift: 0,
        person_id: Some(aid.clone()),
        source: Default::default(),
    });
    state.slot_assignments.push(SlotAssignment {
        group_id: group_id.clone(),
        slot_index: 1,
        iso_year: year,
        iso_week: week,
        shift: 0,
        person_id: Some(aid.clone()),
        source: Default::default(),
    });
    let before = state.slot_assignments.clone();
    let ctx = test_context(state);
    let bob = "@bob:example.org";

    let reply = cmd_takeover(&ctx, bob, &["Floor"]).unwrap();
    assert!(reply.contains("Kitchen"), "{reply}");
    assert!(reply.contains("Bath"), "{reply}");
    assert!(reply.contains("!takeover Floor"), "{reply}");

    let state = ctx.state.borrow();
    assert_eq!(
        state.slot_assignments,
        before,
        "nothing may change while the choice is ambiguous"
    );
}

#[test]
fn member_of_several_groups_must_specify_which_one() {
    let (mut state, floor_id, _aid, bid) = three_person_state_matrix();
    let mut kitchen_group = CleaningGroup::new("Kitchen Crew");
    let kitchen_group_id = kitchen_group.id.clone();
    kitchen_group.member_ids = vec![bid.clone()];
    state.cleaning_groups.push(kitchen_group);
    let before = state.slot_assignments.clone();
    let ctx = test_context(state);
    let bob = "@bob:example.org";

    let reply = cmd_takeover(&ctx, bob, &[]).unwrap();
    assert!(reply.contains("multiple groups"), "{reply}");
    assert!(reply.contains("Floor"), "{reply}");
    assert!(reply.contains("Kitchen Crew"), "{reply}");

    let state = ctx.state.borrow();
    assert_eq!(
        state.slot_assignments,
        before,
        "nothing may change while the group is ambiguous"
    );
    let _ = (floor_id, kitchen_group_id);
}

#[test]
fn nothing_to_take_over_is_reported_clearly() {
    let (mut state, group_id, aid, bid, ..) = multi_slot_group_matrix();
    let (year, week) = current_iso_week();
    for slot_index in [0, 1] {
        state.slot_assignments.push(SlotAssignment {
            group_id: group_id.clone(),
            slot_index,
            iso_year: year,
            iso_week: week,
            shift: 0,
            person_id: Some(bid.clone()),
            source: Default::default(),
        });
    }
    let before = state.slot_assignments.clone();
    let ctx = test_context(state);
    let bob = "@bob:example.org";

    let reply = cmd_takeover(&ctx, bob, &["Floor"]).unwrap();
    assert!(reply.contains("Nothing to take over"), "{reply}");

    let state = ctx.state.borrow();
    assert_eq!(
        state.slot_assignments,
        before,
        "both slots were already Bob's — nothing should change"
    );
    let _ = aid;
}

#[test]
fn explicit_group_and_slot_syntax_still_works_for_multi_slot_groups() {
    let (mut state, group_id, aid, bid, ..) = multi_slot_group_matrix();
    let (year, week) = current_iso_week();
    state.slot_assignments.push(SlotAssignment {
        group_id: group_id.clone(),
        slot_index: 1,
        iso_year: year,
        iso_week: week,
        shift: 0,
        person_id: Some(aid),
        source: Default::default(),
    });
    let ctx = test_context(state);
    let bob = "@bob:example.org";

    let reply = cmd_takeover(&ctx, bob, &["Floor", "Bath"]).unwrap();
    assert!(reply.contains("took over"), "{reply}");
    assert!(reply.contains("Bath"), "{reply}");

    let state = ctx.state.borrow();
    let assignment = state
        .slot_assignments
        .iter()
        .find(|a| {
            a.group_id == group_id && a.iso_year == year && a.iso_week == week && a.slot_index == 1
        }).unwrap();
    assert_eq!(assignment.person_id.as_deref(), Some(bid.as_str()));
}

#[test]
fn swap_in_a_group_with_slots_moves_only_the_requesters_slot() {
    let (mut state, group_id, _aid, bid, ..) = multi_slot_group_matrix();
    let carla = Person::new_matrix("@carla:example.org");
    let carla_id = carla.id.clone();
    state.persons.push(carla);
    let ctx = test_context(state);
    let alice = "@alice:example.org";
    let carla = "@carla:example.org";
    let (year, week) = current_iso_week();

    let reply = cmd_swap(&ctx, alice, &["@carla:example.org", "Floor"]).unwrap();
    assert!(reply.contains("Floor / Kitchen"), "{reply}");
    let wrong = cmd_swap(&ctx, alice, &["@carla:example.org", "Floor", "Bath"]).unwrap();
    assert!(wrong.contains("isn't yours"), "{wrong}");

    let id = ctx.state.borrow().swap_requests[0].id.to_string();
    let accepted = cmd_acceptswap(&ctx, carla, &[id.as_str()]).unwrap();
    assert!(accepted.contains("Kitchen"), "{accepted}");

    let state = ctx.state.borrow();
    let group = state.group_by_id(&group_id).unwrap().clone();
    assert_eq!(
        state
            .slot_assignee(&group, 0, Turn::new(year, week, 0))
            .map(|p| p.id.clone()),
        Some(carla_id)
    );
    assert_eq!(
        state
            .slot_assignee(&group, 1, Turn::new(year, week, 0))
            .map(|p| p.id.clone()),
        Some(bid)
    );
}

#[test]
fn accepting_a_swap_after_the_week_was_reassigned_elsewhere_is_refused_not_overwritten() {
    let (mut state, group_id, first_id, _second_id) = rotation_state();
    let (year, week) = current_iso_week();
    state.slot_assignments.push(SlotAssignment {
        group_id: group_id.clone(),
        slot_index: 0,
        iso_year: year,
        iso_week: week,
        shift: 0,
        person_id: Some(first_id.clone()),
        source: Default::default(),
    });
    let carla = Person::new_matrix("@carla:example.org");
    let carla_id = carla.id.clone();
    state.persons.push(carla);

    let ctx = test_context(state);
    let alice = "@alice:example.org";
    let bob = "@bob:example.org";

    let swap_reply = cmd_swap(&ctx, alice, &["@bob:example.org", "2nd Floor"]).unwrap();
    let id: u64 = swap_reply
        .split('#')
        .nth(1)
        .unwrap()
        .split_whitespace()
        .next()
        .unwrap()
        .parse().unwrap();

    {
        let mut state = ctx.state.borrow_mut();
        state
            .apply_event(DomainEvent::SlotAssigned {
                group_id: group_id.clone(),
                slot_index: 0,
                iso_year: year,
                iso_week: week,
                shift: 0,
                person_id: Some(carla_id.clone()),
                source: AssignmentSource::Assign,
                actor_id: Some("@admin:example.org".to_owned()),
                previous_person_id: Some(first_id.clone()),
            })
            .unwrap();
    }

    let accept_reply = cmd_acceptswap(&ctx, bob, &[&id.to_string()]).unwrap();
    assert!(accept_reply.contains("no longer valid"), "{accept_reply}");

    let state = ctx.state.borrow();
    assert_eq!(
        assignee_for(&state, &group_id, year, week),
        Some(carla_id),
        "Carla's reassignment must survive an unrelated stale swap acceptance"
    );
    assert_eq!(
        state
            .swap_requests
            .iter()
            .find(|s| s.id == id)
            .unwrap()
            .status,
        SwapStatus::Rejected,
        "the stale request should be auto-cancelled, not left pending forever"
    );
}

#[test]
fn removing_a_slot_repoints_future_assignments_at_the_same_physical_slot() {
    let mut group = CleaningGroup::new("Floor");
    let gid = group.id.clone();
    let mut kitchen = CleaningSlot::new("Kitchen");
    kitchen.id = "kitchen".into();
    let mut bath = CleaningSlot::new("Bath");
    bath.id = "bath".into();
    let mut hallway = CleaningSlot::new("Hallway");
    hallway.id = "hallway".into();
    group.slots = vec![kitchen, bath, hallway];
    let alice = Person::new_named("Alice");
    let bob = Person::new_named("Bob");
    let (aid, bid) = (alice.id.clone(), bob.id.clone());
    group.member_ids = vec![aid.clone(), bid.clone()];

    let mut state = State::default();
    state.persons = vec![alice, bob];
    state.cleaning_groups.push(group);
    let (year, week) = current_iso_week();
    state.slot_assignments = vec![
        SlotAssignment {
            group_id: gid.clone(),
            slot_index: 0,
            iso_year: year,
            iso_week: week,
            shift: 0,
            person_id: Some(aid.clone()),
            source: Default::default(),
        },
        SlotAssignment {
            group_id: gid.clone(),
            slot_index: 2,
            iso_year: year,
            iso_week: week,
            shift: 0,
            person_id: Some(bid.clone()),
            source: Default::default(),
        },
    ];

    let ctx = test_context(state);
    let reply = cmd_removeslot(&ctx, ADMIN, &["Floor", "Bath"]).unwrap();
    assert!(reply.contains("Removed slot"), "{reply}");

    let state = ctx.state.borrow();
    let group = state.group_by_id(&gid).unwrap();
    assert_eq!(
        group
            .slots
            .iter()
            .map(|s| s.id.as_str())
            .collect::<Vec<_>>(),
        vec!["kitchen", "hallway"]
    );

    let alice_assignment = state
        .slot_assignments
        .iter()
        .find(|a| a.person_id.as_deref() == Some(aid.as_str())).unwrap();
    assert_eq!(alice_assignment.slot_index, 0);

    let bob_assignment = state
        .slot_assignments
        .iter()
        .find(|a| a.person_id.as_deref() == Some(bid.as_str())).unwrap();
    assert_eq!(
        bob_assignment.slot_index, 1,
        "must be re-pointed at Hallway's new index"
    );
    assert_eq!(
        group
            .slots
            .get(bob_assignment.slot_index)
            .map(|s| s.id.as_str()),
        Some("hallway"),
        "the re-pointed index must resolve back to the same physical slot"
    );
    assert!(state
        .slot_assignments
        .iter()
        .all(|a| a.slot_index < group.slots.len()));
}

#[test]
fn absence_declared_after_the_week_is_frozen_does_not_retroactively_change_it() {
    let (mut state, group_id, first_id, _second_id) = rotation_state();
    let (year, week) = current_iso_week();
    state.slot_assignments.push(SlotAssignment {
        group_id: group_id.clone(),
        slot_index: 0,
        iso_year: year,
        iso_week: week,
        shift: 0,
        person_id: Some(first_id.clone()),
        source: Default::default(),
    });
    let ctx = test_context(state);

    let reply = cmd_absent(&ctx, ADMIN, &["@alice:example.org"]).unwrap();
    assert!(reply.contains("away"), "{reply}");

    let state = ctx.state.borrow();
    assert_eq!(
        assignee_for(&state, &group_id, year, week),
        Some(first_id),
        "an already-frozen assignment must survive a later !absent for the same person"
    );
}

#[test]
fn assign_takeover_and_swap_produce_distinguishable_audit_metadata() {
    let (mut state, group_id, first_id, second_id) = rotation_state();
    let (year, week) = current_iso_week();
    state.slot_assignments.push(SlotAssignment {
        group_id: group_id.clone(),
        slot_index: 0,
        iso_year: year,
        iso_week: week,
        shift: 0,
        person_id: Some(first_id.clone()),
        source: Default::default(),
    });
    let carla = Person::new_matrix("@carla:example.org");
    let carla_id = carla.id.clone();
    state.persons.push(carla);
    let (next_year, next_week) = add_weeks(year, week, 1);
    state.slot_assignments.push(SlotAssignment {
        group_id: group_id.clone(),
        slot_index: 0,
        iso_year: next_year,
        iso_week: next_week,
        shift: 0,
        person_id: Some(second_id.clone()),
        source: Default::default(),
    });

    let ctx = test_context(state);
    let bob = "@bob:example.org";

    cmd_assign(&ctx, ADMIN, &["2nd Floor", "@carla:example.org"]).unwrap();
    {
        let state = ctx.state.borrow();
        let a = state
            .slot_assignments
            .iter()
            .find(|a| a.group_id == group_id && a.iso_year == year && a.iso_week == week)
            .unwrap();
        assert_eq!(a.source, AssignmentSource::Assign);
    }
    let assign_event = last_slot_assigned_event(&ctx);
    assert_eq!(assign_event.0, AssignmentSource::Assign);
    assert_eq!(assign_event.1.as_deref(), Some("@admin:example.org"));
    assert_eq!(assign_event.2.as_deref(), Some(first_id.as_str()));

    let takeover_reply = cmd_takeover(&ctx, bob, &["2nd Floor"]).unwrap();
    assert!(takeover_reply.contains("took over"), "{takeover_reply}");
    let bob_id = {
        ctx.state.borrow()
            .person_by_matrix_id("@bob:example.org")
            .unwrap()
            .id
            .clone()
    };
    let takeover_event = last_slot_assigned_event(&ctx);
    assert_eq!(takeover_event.0, AssignmentSource::Takeover);
    assert_eq!(takeover_event.1.as_deref(), Some("@bob:example.org"));
    assert_eq!(takeover_event.2.as_deref(), Some(carla_id.as_str()));

    let swap_reply = cmd_swap(
        &ctx,
        bob,
        &[
            "@alice:example.org",
            "2nd Floor",
            "week",
            &next_week.to_string(),
        ],
    )
    .unwrap();
    let id: u64 = swap_reply
        .split('#')
        .nth(1)
        .unwrap()
        .split_whitespace()
        .next()
        .unwrap()
        .parse().unwrap();
    let alice = "@alice:example.org";
    cmd_acceptswap(&ctx, alice, &[&id.to_string()]).unwrap();
    let swap_event = last_slot_assigned_event(&ctx);
    assert_eq!(swap_event.0, AssignmentSource::Swap);
    assert_eq!(swap_event.1.as_deref(), Some("@alice:example.org"));
    assert_eq!(swap_event.2.as_deref(), Some(bob_id.as_str()));
}

fn last_slot_assigned_event(
    ctx: &Ctx,
) -> (AssignmentSource, Option<String>, Option<PersonId>) {
    let state = ctx.state.borrow();
    state
        .event_log
        .iter()
        .rev()
        .find_map(|logged| match &logged.event {
            DomainEvent::SlotAssigned {
                source,
                actor_id,
                previous_person_id,
                ..
            } => Some((*source, actor_id.clone(), previous_person_id.clone())),
            _ => None,
        })
        .expect("expected a SlotAssigned event in the log")
}

fn two_slot_week() -> (State, GroupId, PersonId, PersonId) {
    let mut state = State::default();
    let alice = Person::new_matrix("@alice:example.org");
    let bob = Person::new_matrix("@bob:example.org");
    let carol = Person::new_named("Carol");
    let (alice_id, bob_id) = (alice.id.clone(), bob.id.clone());
    let mut group = CleaningGroup::new("Floor");
    let group_id = group.id.clone();
    group.member_ids = vec![alice_id.clone(), bob_id.clone(), carol.id.clone()];
    let mut scharni = CleaningSlot::new("Scharni");
    scharni.id = "s0".into();
    let mut colbe = CleaningSlot::new("Colbe");
    colbe.id = "s1".into();
    group.slots = vec![scharni, colbe];
    state.persons = vec![alice, bob, carol];
    state.cleaning_groups.push(group);
    let (year, week) = current_iso_week();
    for (slot_index, person_id) in [(0, &alice_id), (1, &bob_id)] {
        state
            .apply_event(DomainEvent::SlotAssigned {
                group_id: group_id.clone(),
                slot_index,
                iso_year: year,
                iso_week: week,
                shift: 0,
                person_id: Some(person_id.clone()),
                source: AssignmentSource::Assign,
                actor_id: None,
                previous_person_id: None,
            })
            .unwrap();
    }
    (state, group_id, alice_id, bob_id)
}

#[test]
fn status_lists_every_person_of_a_shared_week_with_their_own_state() {
    let (state, _group_id, _alice_id, _bob_id) = two_slot_week();
    let ctx = test_context(state);
    let alice = "@alice:example.org";

    let before = status(&ctx).unwrap();
    assert!(before.contains("0 of 2 done"), "{before}");
    assert!(before.contains("⬜ Scharni · alice"), "{before}");
    assert!(before.contains("⬜ Colbe · bob"), "{before}");

    cmd_done(&ctx, alice, &[]).unwrap();
    let after = status(&ctx).unwrap();
    assert!(after.contains("1 of 2 done"), "{after}");
    assert!(after.contains("✅ Scharni · alice"), "{after}");
    assert!(after.contains("⬜ Colbe · bob"), "{after}");
    assert!(!after.contains("@alice:example.org"), "{after}");
}

#[test]
fn status_shows_who_actually_cleaned_and_skips() {
    let (state, group_id, _alice_id, bob_id) = two_slot_week();
    let ctx = test_context(state);
    let (year, week) = current_iso_week();
    {
        let mut state = ctx.state.borrow_mut();
        state
            .apply_event(DomainEvent::CleaningCompleted {
                group_id: group_id.clone(),
                slot_id: Some("s0".into()),
                person_id: bob_id.clone(),
                responsible_person_ids: vec![],
                iso_year: year,
                iso_week: week,
                shift: 0,
            })
            .unwrap();
    }
    cmd_skip(&ctx, ADMIN, &["Floor"]).unwrap();

    let text = status(&ctx).unwrap();
    assert!(text.contains("✅ Scharni · alice (done by bob)"), "{text}");
    assert!(text.contains("⏭️ Colbe · bob · skipped"), "{text}");
    assert!(text.contains("2 of 2 done"), "{text}");
}

#[test]
fn undo_in_a_shared_week_only_takes_back_the_senders_own_slot() {
    let (state, group_id, _alice_id, _bob_id) = two_slot_week();
    let ctx = test_context(state);
    let alice = "@alice:example.org";
    let bob = "@bob:example.org";
    let (year, week) = current_iso_week();

    cmd_done(&ctx, alice, &[]).unwrap();
    cmd_done(&ctx, bob, &[]).unwrap();
    assert!(ctx.state.borrow().is_completed(&group_id, year, week));

    let reply = cmd_undo(&ctx, alice, &[]).unwrap();
    assert!(reply.contains("Floor / Scharni"), "{reply}");
    {
        let state = ctx.state.borrow();
        assert!(!is_slot_done(&state, &group_id, "s0", year, week));
        assert!(
            is_slot_done(&state, &group_id, "s1", year, week),
            "Bob's mark must survive Alice's undo"
        );
    }

    cmd_undo(&ctx, ADMIN, &["Floor"]).unwrap();
    assert!(!is_slot_done(&ctx.state.borrow(), &group_id, "s1", year, week));
}

#[test]
fn bare_done_only_marks_what_is_open_for_the_sender() {
    let (mut state, group_id, alice_id, bob_id) = two_slot_week();
    let mut kitchen = CleaningGroup::new("Kitchen");
    let kitchen_id = kitchen.id.clone();
    kitchen.member_ids = vec![alice_id.clone(), bob_id.clone()];
    state.cleaning_groups.push(kitchen);
    let (year, week) = current_iso_week();
    state
        .apply_event(DomainEvent::SlotAssigned {
            group_id: kitchen_id.clone(),
            slot_index: 0,
            iso_year: year,
            iso_week: week,
            shift: 0,
            person_id: Some(alice_id),
            source: AssignmentSource::Assign,
            actor_id: None,
            previous_person_id: None,
        }).unwrap();
    let ctx = test_context(state);
    let bob = "@bob:example.org";
    let stranger = "@nobody:example.org";

    let reply = cmd_done(&ctx, bob, &[]).unwrap();
    assert!(reply.contains("Floor / Colbe"), "{reply}");
    {
        let state = ctx.state.borrow();
        assert!(is_slot_done(&state, &group_id, "s1", year, week));
        assert!(!is_slot_done(&state, &group_id, "s0", year, week));
        assert!(
            !state.is_completed(&kitchen_id, year, week),
            "a group where nothing is open for Bob must not be marked"
        );
    }

    let reply = cmd_done(&ctx, stranger, &[]).unwrap();
    assert!(reply.contains("not registered"), "{reply}");
}

#[test]
fn groups_overview_shows_every_group_with_its_members() {
    let (mut state, _group_id, _alice_id, bob_id) = two_slot_week();
    let mut storage = CleaningGroup::new("Storage");
    storage.member_ids = vec![bob_id];
    storage.is_active = false;
    state.cleaning_groups.push(storage);
    let ctx = test_context(state);

    let text = groups(&ctx, None).unwrap();
    assert!(
        text.contains("**Floor** (3) · alice, bob, Carol (no Matrix)"),
        "{text}"
    );
    assert!(text.contains("Slots: Scharni · Colbe"), "{text}");
    assert!(text.contains("🚫 Disabled: Storage"), "{text}");

    let detail = groups(&ctx, Some("floor")).unwrap();
    assert!(detail.contains("🏢 **Floor**"), "{detail}");
    assert!(detail.contains("⬜ Scharni · alice"), "{detail}");
    assert!(detail.contains("@bob:example.org"), "{detail}");

    let missing = groups(&ctx, Some("Attic")).unwrap();
    assert!(missing.contains("not found"), "{missing}");
}

#[test]
fn old_command_names_point_to_their_replacement() {
    assert!(renamed_command_hint("!cleanplan")
        .unwrap()
        .contains("!plan [N]"));
    assert!(renamed_command_hint("!adduser")
        .unwrap()
        .contains("!member add"));
    assert!(renamed_command_hint("!setroomweight")
        .unwrap()
        .contains("!groups weight"));
    assert!(renamed_command_hint("!unknown").is_none());
}

#[test]
fn help_is_short_and_admin_help_is_separate() {
    let help = help_text();
    assert!(help.lines().count() <= 16, "{help}");
    assert!(help.contains("!groups"));
    assert!(!help.contains("!plan assign"));
    assert!(admin_help_text().contains("!plan assign"));
}

fn freeze(
    state: &mut State,
    group_id: &GroupId,
    slot_index: usize,
    (year, week): (i32, u32),
    person: &PersonId,
) {
    state.slot_assignments.push(SlotAssignment {
        group_id: group_id.clone(),
        slot_index,
        iso_year: year,
        iso_week: week,
        shift: 0,
        person_id: Some(person.clone()),
        source: Default::default(),
    });
}

#[test]
fn next_names_the_persons_own_turn_not_just_the_next_due_week() {
    let (mut state, group_id, alice_id, bob_id) = rotation_state();
    let (y, w) = current_iso_week();
    freeze(&mut state, &group_id, 0, (y, w), &alice_id);
    freeze(&mut state, &group_id, 0, add_weeks(y, w, 1), &bob_id);
    let ctx = test_context(state);
    let alice = "@alice:example.org";
    let bob = "@bob:example.org";

    let reply = cmd_next(&ctx, bob, &[]).unwrap();
    assert!(reply.contains("next week"), "{reply}");
    let reply = cmd_next(&ctx, alice, &[]).unwrap();
    assert!(reply.contains("this week"), "{reply}");

    cmd_done(&ctx, alice, &[]).unwrap();
    let reply = cmd_next(&ctx, alice, &[]).unwrap();
    assert!(!reply.contains("this week"), "{reply}");
    assert!(reply.contains("Already done: 2nd Floor"), "{reply}");
}

#[test]
fn apostrophes_are_letters_and_typographic_quotes_group_words() {
    assert_eq!(
        tokenize("!member add Nick's \u{201c}2nd Floor\u{201d}"),
        ["!member", "add", "Nick's", "2nd Floor"]
    );
    assert_eq!(
        tokenize("!groups add \"Dach Boden\""),
        ["!groups", "add", "Dach Boden"]
    );
}

#[test]
fn multi_word_names_need_no_quotes() {
    let (mut state, _group_id, _alice_id, _bob_id) = rotation_state();
    let mut floor = CleaningGroup::new("Floor");
    floor.slots = vec![CleaningSlot::new("Scharni Toilette")];
    state.cleaning_groups.push(floor);
    let norm = |cmd: &str, args: &[&str]| normalize_args(&state, cmd, &words(args));

    assert_eq!(
        norm("!member", &["add", "Max", "Mustermann", "2nd", "Floor"]),
        ["add", "Max Mustermann", "2nd Floor"]
    );
    assert_eq!(
        norm(
            "!plan",
            &["assign", "2nd", "floor", "Max", "Mustermann", "week", "40"]
        ),
        ["assign", "2nd Floor", "Max", "Mustermann", "week", "40"]
    );
    assert_eq!(
        norm(
            "!groups",
            &["weight", "2nd", "Floor", "Big", "Kitchen", "1.5"]
        ),
        ["weight", "2nd Floor", "Big Kitchen", "1.5"]
    );
    assert_eq!(
        norm(
            "!groups",
            &["slot", "add", "2nd", "Floor", "Scharni", "Toilette"]
        ),
        ["slot", "add", "2nd Floor", "Scharni Toilette"]
    );
    assert_eq!(
        norm("!groups", &["remove", "2nd", "Floor", "confirm"]),
        ["remove", "2nd Floor", "confirm"]
    );
    assert_eq!(
        norm("!member", &["away", "Max", "Mustermann", "3"]),
        ["away", "Max Mustermann", "3"]
    );
    assert_eq!(norm("!done", &["2nd", "Floor"]), ["2nd Floor"]);
    assert_eq!(
        norm("!swap", &["@bob:example.org", "2nd", "Floor", "week", "40"]),
        ["@bob:example.org", "2nd Floor", "week", "40"]
    );
}

#[test]
fn deleting_a_group_needs_confirmation_and_leaves_nothing_behind() {
    let (mut state, group_id, alice_id, _bob_id) = rotation_state();
    freeze(&mut state, &group_id, 0, current_iso_week(), &alice_id);
    let ctx = test_context(state);
    let alice = "@alice:example.org";
    cmd_done(&ctx, alice, &[]).unwrap();

    let warning = cmd_removefloor(&ctx, ADMIN, &["2nd Floor"]).unwrap();
    assert!(
        warning.contains("!groups remove 2nd Floor confirm"),
        "{warning}"
    );
    assert!(ctx.state.borrow().group_by_id(&group_id).is_some());

    cmd_removefloor(&ctx, ADMIN, &["2nd Floor", "confirm"]).unwrap();
    let state = ctx.state.borrow();
    assert!(state.group_by_id(&group_id).is_none());
    assert!(state
        .slot_assignments
        .iter()
        .all(|a| a.group_id != group_id));
    assert!(state.completions.iter().all(|c| c.group_id != group_id));
    let report = validate_state(&state);
    assert!(
        !report.summary().contains(&group_id),
        "no dangling references: {}",
        report.summary()
    );
}

#[test]
fn personal_stats_count_own_turns_not_every_week_of_the_group() {
    let (mut state, group_id, alice_id, bob_id) = rotation_state();
    let (y, w) = current_iso_week();
    for (back, person) in [(4, &alice_id), (3, &bob_id), (2, &alice_id), (1, &bob_id)] {
        freeze(&mut state, &group_id, 0, add_weeks(y, w, -back), person);
    }
    for (back, by) in [(4, &alice_id), (2, &alice_id), (1, &bob_id)] {
        let (cy, cw) = add_weeks(y, w, -back);
        state.completions.push(Completion {
            group_id: group_id.clone(),
            slot_id: None,
            completed_by_id: by.clone(),
            responsible_person_ids: vec![],
            iso_year: cy,
            iso_week: cw,
            shift: 0,
            completed_at: now(),
            skipped: false,
        });
    }

    let alice = person_stats(&state, &alice_id).unwrap();
    assert_eq!((alice.completed, alice.due_weeks, alice.missed), (2, 2, 0));
    assert_eq!(alice.completed as f64 / alice.due_weeks as f64, 1.0);
    assert_eq!(alice.streak, 2);
    let bob = person_stats(&state, &bob_id).unwrap();
    assert_eq!((bob.completed, bob.due_weeks, bob.missed), (1, 2, 1));
    assert_eq!(bob.streak, 1);
}

#[test]
fn skipping_one_slot_leaves_the_other_open() {
    let (state, group_id, ..) = two_slot_week();
    let ctx = test_context(state);
    let (year, week) = current_iso_week();

    let reply = cmd_skip(&ctx, ADMIN, &["Floor", "Colbe"]).unwrap();
    assert!(reply.contains("Floor / Colbe"), "{reply}");
    let state = ctx.state.borrow();
    assert!(is_slot_done(&state, &group_id, "s1", year, week));
    assert!(!is_slot_done(&state, &group_id, "s0", year, week));
}

#[test]
fn going_away_points_out_weeks_already_planned_for_the_person() {
    let (mut state, group_id, alice_id, _bob_id) = rotation_state();
    let next = add_weeks(current_iso_week().0, current_iso_week().1, 1);
    freeze(&mut state, &group_id, 0, next, &alice_id);
    let ctx = test_context(state);

    let reply = cmd_absent(&ctx, ADMIN, &["@alice:example.org", "3"]).unwrap();
    assert!(
        reply.contains(&format!(
            "Still planned for them: week {} 2nd Floor",
            next.1
        )),
        "{reply}"
    );
}

fn kitchen_and_bathroom() -> (State, CleaningGroup, CleaningGroup, Vec<PersonId>) {
    let mut state = State::default();
    state.created_at = Some(now());
    let people: Vec<Person> = [
        "@anna:example.org",
        "@ben:example.org",
        "@cleo:example.org",
        "@dan:example.org",
    ]
    .iter()
    .map(|m| Person::new_matrix(m))
    .collect();
    let ids: Vec<PersonId> = people.iter().map(|p| p.id.clone()).collect();
    state.persons = people;
    let mut kitchen = CleaningGroup::new("Kitchen");
    kitchen.member_ids = ids.clone();
    let mut bathroom = CleaningGroup::new("Bathroom");
    bathroom.member_ids = ids.clone();
    bathroom.rhythm = Rhythm {
        every_weeks: Some(1),
        shift_starts: Rhythm::times_per_week(2),
    };
    state.cleaning_groups = vec![kitchen.clone(), bathroom.clone()];
    for ev in materialize(&state, 4) {
        state.apply_event(ev).unwrap();
    }
    (state, kitchen, bathroom, ids)
}

fn holder(state: &State, group: &CleaningGroup, turn: Turn) -> PersonId {
    state.slot_assignee(group, 0, turn).unwrap().id.clone()
}

#[test]
fn a_weekly_and_a_twice_weekly_group_are_planned_side_by_side() {
    let (state, kitchen, bathroom, ids) = kitchen_and_bathroom();
    let (y, w) = current_iso_week();

    let kitchen_people: Vec<PersonId> = (0..4)
        .map(|i| {
            let (y, w) = add_weeks(y, w, i);
            assert_eq!(state.turns_in_week(&kitchen, today(), y, w).len(), 1);
            holder(&state, &kitchen, Turn::new(y, w, 0))
        })
        .collect();
    assert_eq!(kitchen_people, ids);

    let mut bathroom_people = Vec::new();
    for i in 0..4 {
        let (y, w) = add_weeks(y, w, i);
        let turns = state.turns_in_week(&bathroom, today(), y, w);
        assert_eq!(turns.len(), 2);
        let first = holder(&state, &bathroom, turns[0]);
        let second = holder(&state, &bathroom, turns[1]);
        assert_ne!(
            first, second,
            "the two halves of a week go to different people"
        );
        bathroom_people.extend([first, second]);
    }
    for id in &ids {
        assert_eq!(bathroom_people.iter().filter(|p| *p == id).count(), 2);
    }
    let (start, end) = Turn::new(y, w, 1).dates(&bathroom.rhythm);
    assert_eq!(weekday_of(start), 3);
    assert_eq!(weekday_of(end), 6);
}

#[test]
fn status_shows_each_shift_with_its_own_person_state_and_whats_next() {
    let (state, _kitchen, bathroom, ids) = kitchen_and_bathroom();
    let (y, w) = current_iso_week();
    let first_shift_person = state
        .person_by_id(&holder(&state, &bathroom, Turn::new(y, w, 0)))
        .unwrap()
        .matrix_id
        .clone().unwrap();
    let ctx = test_context(state);
    let _ = ids;

    {
        let mut state = ctx.state.borrow_mut();
        let pid = state
            .person_by_matrix_id(&first_shift_person)
            .unwrap()
            .id
            .clone();
        let duty = Duty {
            group_id: bathroom.id.clone(),
            slot_index: 0,
            turn: Turn::new(y, w, 0),
        };
        mark_duties_done(&mut state, &pid, &vec![duty], today(), now()).unwrap();
    }
    let text = status(&ctx).unwrap();
    assert!(
        text.contains("**Bathroom** · 2× per week (Mon–Wed, Thu–Sun)"),
        "{text}"
    );
    assert!(text.contains("✅ Mon–Wed · "), "{text}");
    assert!(text.contains("⬜ Thu–Sun · "), "{text}");
    assert!(text.contains("**Kitchen**\n⬜ anna"), "{text}");
    assert!(text.contains("1 of 3 done"), "{text}");
    assert!(
        text.contains(&format!("Next (week {}): Mon–Wed ", add_weeks(y, w, 1).1)),
        "{text}"
    );
    let now_marked = text.lines().filter(|l| l.ends_with("← now")).count();
    assert!(now_marked <= 1, "{text}");
}

#[test]
fn done_marks_started_turns_and_otherwise_only_the_next_one() {
    let (mut state, _kitchen, bathroom, _ids) = kitchen_and_bathroom();
    let (y, w) = current_iso_week();
    let next_week = add_weeks(y, w, 1);
    let who = holder(&state, &bathroom, Turn::new(next_week.0, next_week.1, 1));
    let duties = markable_duties(&state, &who, next_week, &None, today()).unwrap();
    assert!(!duties.is_empty());
    let start_of = |d: &Duty| d.turn.dates(&state.group_by_id(&d.group_id).unwrap().rhythm).0;
    let first_start = start_of(&duties[0]);
    assert!(duties.iter().all(|d| start_of(d) == first_start));

    let last_week = add_weeks(y, w, -1);
    freeze(&mut state, &bathroom.id, 0, last_week, &who);
    state.slot_assignments.push(SlotAssignment {
        group_id: bathroom.id.clone(),
        slot_index: 0,
        iso_year: last_week.0,
        iso_week: last_week.1,
        shift: 1,
        person_id: Some(who.clone()),
        source: Default::default(),
    });
    let duties = markable_duties(&state, &who, last_week, &Some(bathroom.id.clone()), today()).unwrap();
    assert_eq!(duties.len(), 2);
    mark_duties_done(&mut state, &who, &duties, today(), now()).unwrap();
    assert!(state.is_completed(&bathroom.id, last_week.0, last_week.1));
}

#[test]
fn reminders_follow_each_turn() {
    let (state, _kitchen, bathroom, _ids) = kitchen_and_bathroom();
    let (y, w) = current_iso_week();
    let day =
        |weekday: i32| Date { day: week_monday(y, w).day + weekday };
    let names = |turns: Vec<(&CleaningGroup, Turn)>| -> Vec<(String, u8)> {
        turns.into_iter().map(|(g, t)| (g.name.clone(), t.shift)).collect()
    };
    let initial = ReminderKind::Initial;
    let final_ = ReminderKind::Final;

    assert!(turns_to_remind(&state, day(0), &initial, 6).is_empty());
    assert_eq!(
        names(turns_to_remind(&state, day(2), &final_, 6)),
        [("Bathroom".to_owned(), 0)]
    );
    assert_eq!(
        names(turns_to_remind(&state, day(3), &initial, 6)),
        [("Bathroom".to_owned(), 1)]
    );
    assert_eq!(
        names(turns_to_remind(&state, day(6), &final_, 6)),
        [("Kitchen".to_owned(), 0), ("Bathroom".to_owned(), 1)]
    );

    let mut state = state;
    let who = holder(&state, &bathroom, Turn::new(y, w, 1));
    mark_duties_done(
        &mut state,
        &who,
        &vec![Duty {
            group_id: bathroom.id.clone(),
            slot_index: 0,
            turn: Turn::new(y, w, 1),
        }],
        today(),
        now(),
    )
    .unwrap();
    state.mark_reminder_sent(
        &state.cleaning_groups[0].id.clone(),
        y,
        w,
        0,
        final_.clone(),
    );
    assert!(turns_to_remind(&state, day(6), &final_, 6).is_empty());
}

#[test]
fn changing_the_rhythm_replans_later_weeks_without_costing_anyone_a_turn() {
    let (mut state, kitchen, _bathroom, ids) = kitchen_and_bathroom();
    state.cleaning_groups.retain(|g| g.id == kitchen.id);
    let (y, w) = current_iso_week();
    let this_week = holder(&state, &kitchen, Turn::new(y, w, 0));
    let ctx = test_context(state);

    let reply = cmd_groups_rhythm(&ctx, ADMIN, &["Kitchen", "2x"]).unwrap();
    assert!(
        reply.contains("now cleaned 2× per week (Mon–Wed, Thu–Sun)"),
        "{reply}"
    );

    let state = ctx.state.borrow();
    let kitchen = state.group_by_id(&kitchen.id).unwrap().clone();
    assert_eq!(holder(&state, &kitchen, Turn::new(y, w, 0)), this_week);
    let mut order = vec![this_week];
    for i in 0..3 {
        let (y, w) = add_weeks(y, w, i);
        for turn in state.turns_in_week(&kitchen, today(), y, w) {
            if (turn.year, turn.week, turn.shift) != (y, w, 0) || i > 0 {
                order.push(holder(&state, &kitchen, turn));
            }
        }
    }
    assert_eq!(
        &order[..4],
        &ids[..],
        "Anna, Ben, Cleo, Dan — nobody skipped"
    );
    drop(state);

    cmd_groups_rhythm(&ctx, ADMIN, &["Kitchen", "weekly", "every", "2"]).unwrap();
    let state = ctx.state.borrow();
    let kitchen = state.group_by_id(&kitchen.id).unwrap().clone();
    assert_eq!(kitchen.rhythm.describe(), "every 2 weeks");
    let (ny, nw) = add_weeks(y, w, 1);
    assert!(state.turns_in_week(&kitchen, today(), ny, nw).is_empty());
    assert!(state
        .slot_assignments
        .iter()
        .all(|a| a.group_id != kitchen.id
            || (a.iso_year, a.iso_week) <= (y, w)
            || state.is_due_week(&kitchen, today(), a.iso_year, a.iso_week)));
}

#[test]
fn rhythm_specs_parse() {
    let weekly = Rhythm::weekly();
    let r = parse_rhythm(&weekly, &words(&["2x"]), 0).unwrap();
    assert_eq!(r.describe(), "2× per week (Mon–Wed, Thu–Sun)");
    let r = parse_rhythm(&weekly, &words(&["thu"]), 0).unwrap();
    assert_eq!(r.describe(), "2× per week (Mon–Wed, Thu–Sun)");
    let r = parse_rhythm(&weekly, &words(&["every", "2", "weeks"]), 0).unwrap();
    assert_eq!(r.describe(), "every 2 weeks");
    let r = parse_rhythm(&r, &words(&["weekly"]), 0).unwrap();
    assert_eq!(r.describe(), "weekly");
    let r = parse_rhythm(&weekly, &words(&["1x"]), 0).unwrap();
    assert!(r.shift_starts.is_empty());
    assert!(parse_rhythm(&weekly, &words(&["9x"]), 0).is_err());
    assert!(parse_rhythm(&weekly, &words(&["often"]), 0).is_err());
}

#[test]
fn a_calendar_feed_has_one_event_per_shift_with_its_own_dates() {
    let (state, _kitchen, bathroom, _ids) = kitchen_and_bathroom();
    let (y, w) = current_iso_week();
    let who = holder(&state, &bathroom, Turn::new(y, w, 1));
    let snapshot = build_schedule(&state, 1);
    let mine: Vec<_> = snapshot
        .for_person(&who)
        .into_iter()
        .filter(|a| a.group_id == bathroom.id)
        .collect();
    assert_eq!(mine.len(), 1);
    assert_eq!(mine[0].shift_label.as_deref(), Some("Thu–Sun"));
    let ics = render_ics(&snapshot, &who);
    let thursday = Turn::new(y, w, 1).dates(&bathroom.rhythm).0;
    assert!(
        ics.contains(&format!("DTSTART;VALUE=DATE:{}", compact_date(thursday))),
        "{ics}"
    );
    assert!(ics.contains("Bathroom (Thu–Sun)"), "{ics}");
}

#[test]
fn stats_count_turns_so_a_twice_weekly_group_owes_twice_the_duties() {
    let (mut state, kitchen, bathroom, _ids) = kitchen_and_bathroom();
    let start = now();
    state.created_at = Some(Timestamp { secs: start.secs - 3 * 7 * 86400, nanos: start.nanos });
    let (y, w) = current_iso_week();
    let over_now = state
        .turns_in_week(&bathroom, today(), y, w)
        .into_iter()
        .filter(|t| state.turn_over(&bathroom, *t))
        .count();
    assert_eq!(state.closed_turns(&kitchen).len(), 3);
    assert_eq!(state.closed_turns(&bathroom).len(), 6 + over_now);
    let fairness = fairness_counts(&state, &bathroom.id, today()).unwrap();
    assert_eq!(fairness.due_weeks, 6 + over_now);
    let expected = (fairness.due_weeks * fairness.slots) as f64 / fairness.members as f64;
    assert!((expected - (6 + over_now) as f64 / 4.0).abs() < 1e-9);
}
