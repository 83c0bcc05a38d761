use cleaning_bot::calendar::{now, today, week_monday, week_of, Date, Timestamp};
use cleaning_bot::domain::{CleaningGroup, Person, SlotAssignment};
use cleaning_bot::rhythm::{Rhythm, Turn};
use cleaning_bot::scheduler::{
    action_after_look, build_weekly_plan, decide_plan_reconcile_action, effective_plan_body,
    is_reminder_time, parse_hhmm, plan_edit, plan_to_post, prefer_edit, reminder_to_send,
    tidy_mentions, tracked_plan, week_key, weekly_plan, Message, PlanLook, PlanReconcileAction,
};
use cleaning_bot::state::{lookup, Absence, Completion, Entry, ReminderKind, State};

const PLAN: &str = "$plan1:example.org";

fn plan(state: &State, year: i32, week: u32) -> Message {
    build_weekly_plan(state, year, week, &state.cleaning_groups.iter().collect(), today())
}

fn decide(
    state: &State,
    year: i32,
    week: u32,
    expected: &str,
    actual: Option<&str>,
) -> PlanReconcileAction {
    decide_plan_reconcile_action(state, year, week, expected, &actual.map(str::to_owned), today())
}

#[test]
fn plan_marks_an_already_frozen_but_now_absent_assignee_as_away() {
    let alice = Person::new_matrix("@alice:example.org");
    let aid = alice.id.clone();
    let mut group = CleaningGroup::new("Kitchen");
    let gid = group.id.clone();
    group.member_ids = vec![aid.clone()];

    let mut state = State::default();
    state.persons.push(alice);
    let year = 2024;
    let week = 10;
    state.slot_assignments.push(SlotAssignment {
        group_id: gid.clone(),
        slot_index: 0,
        iso_year: year,
        iso_week: week,
        shift: 0,
        person_id: Some(aid.clone()),
        source: Default::default(),
    });
    state.absences.push(Absence {
        person_id: aid,
        group_id: gid.clone(),
        from_year: year,
        from_week: week,
        duration_weeks: 1,
    });
    state.cleaning_groups.push(group);

    let plan = plan(&state, year, week).text;
    assert!(plan.contains("🌴 away"), "{plan}");
}

#[test]
fn refreshing_the_plan_after_completion_keeps_the_person_visible_as_done() {
    let bob = Person::new_matrix("@bob:example.org");
    let bid = bob.id.clone();
    let mut group = CleaningGroup::new("Kitchen");
    let gid = group.id.clone();
    group.member_ids = vec![bid.clone()];

    let mut state = State::default();
    state.persons.push(bob);
    let year = 2024;
    let week = 10;
    state.slot_assignments.push(SlotAssignment {
        group_id: gid.clone(),
        slot_index: 0,
        iso_year: year,
        iso_week: week,
        shift: 0,
        person_id: Some(bid.clone()),
        source: Default::default(),
    });
    state.completions.push(Completion {
        group_id: gid.clone(),
        slot_id: None,
        completed_by_id: bid,
        responsible_person_ids: vec![],
        iso_year: year,
        iso_week: week,
        shift: 0,
        completed_at: now(),
        skipped: false,
    });
    state.cleaning_groups.push(group);

    let due_groups: Vec<_> = state
        .cleaning_groups
        .iter()
        .filter(|g| state.belongs_in_weekly_plan(g, today(), year, week))
        .collect();
    assert_eq!(
        due_groups.len(),
        1,
        "the completed group must still be included"
    );

    let plan = build_weekly_plan(&state, year, week, &due_groups, today()).text;
    assert!(
        plan.contains("✅ bob") || plan.contains("✅ @bob:example.org"),
        "{plan}"
    );
    assert!(plan.contains("cleaned"), "{plan}");
}

#[test]
fn weekly_plan_mentions_a_completed_room_member_with_a_real_mxid_pill() {
    let alice = Person::new_matrix("@alice:example.org");
    let aid = alice.id.clone();
    let mut group = CleaningGroup::new("Kitchen");
    let gid = group.id.clone();
    group.member_ids = vec![aid.clone()];

    let mut state = State::default();
    state.persons.push(alice);
    let (year, week) = (2024, 10);
    state.slot_assignments.push(SlotAssignment {
        group_id: gid.clone(),
        slot_index: 0,
        iso_year: year,
        iso_week: week,
        shift: 0,
        person_id: Some(aid.clone()),
        source: Default::default(),
    });
    state.completions.push(Completion {
        group_id: gid.clone(),
        slot_id: None,
        completed_by_id: aid,
        responsible_person_ids: vec![],
        iso_year: year,
        iso_week: week,
        shift: 0,
        completed_at: now(),
        skipped: false,
    });
    state.cleaning_groups.push(group);

    let due_groups: Vec<_> = state
        .cleaning_groups
        .iter()
        .filter(|g| state.belongs_in_weekly_plan(g, today(), year, week))
        .collect();
    let Message { text: raw_msg, mxids } =
        build_weekly_plan(&state, year, week, &due_groups, today());
    assert!(
        mxids.contains(&"@alice:example.org".to_string()),
        "{mxids:?}"
    );
    assert!(raw_msg.contains("@alice:example.org"), "{raw_msg}");
}

#[test]
fn weekly_plan_mentions_every_assigned_room_member_across_groups() {
    let alice = Person::new_matrix("@alice:example.org");
    let bob = Person::new_matrix("@bob:example.org");
    let (aid, bid) = (alice.id.clone(), bob.id.clone());

    let mut kitchen = CleaningGroup::new("Kitchen");
    kitchen.member_ids = vec![aid.clone()];
    let mut bath = CleaningGroup::new("Bathroom");
    bath.member_ids = vec![bid.clone()];
    let (kid, wid) = (kitchen.id.clone(), bath.id.clone());

    let mut state = State::default();
    state.persons.push(alice);
    state.persons.push(bob);
    let (year, week) = (2024, 10);
    state.slot_assignments.push(SlotAssignment {
        group_id: kid,
        slot_index: 0,
        iso_year: year,
        iso_week: week,
        shift: 0,
        person_id: Some(aid),
        source: Default::default(),
    });
    state.slot_assignments.push(SlotAssignment {
        group_id: wid,
        slot_index: 0,
        iso_year: year,
        iso_week: week,
        shift: 0,
        person_id: Some(bid),
        source: Default::default(),
    });
    state.cleaning_groups.push(kitchen);
    state.cleaning_groups.push(bath);

    let Message { text: raw_msg, mxids } = plan(&state, year, week);
    assert_eq!(mxids.len(), 2, "{mxids:?}");
    assert!(raw_msg.contains("@alice:example.org"), "{raw_msg}");
    assert!(raw_msg.contains("@bob:example.org"), "{raw_msg}");
}

#[test]
fn weekly_plan_falls_back_to_plain_text_for_an_unresolvable_or_matrix_less_person() {
    let mut carol = Person::new_matrix("@carol:example.org");
    carol.matrix_id = None;
    let cid = carol.id.clone();
    let mut group = CleaningGroup::new("Kitchen");
    let gid = group.id.clone();
    group.member_ids = vec![cid.clone()];

    let mut state = State::default();
    state.persons.push(carol);
    let (year, week) = (2024, 10);
    state.slot_assignments.push(SlotAssignment {
        group_id: gid,
        slot_index: 0,
        iso_year: year,
        iso_week: week,
        shift: 0,
        person_id: Some(cid),
        source: Default::default(),
    });
    state.cleaning_groups.push(group);

    let Message { text: raw_msg, mxids } = plan(&state, year, week);
    assert!(
        mxids.is_empty(),
        "person without a Matrix ID must not be listed for mention: {mxids:?}"
    );

    assert!(raw_msg.contains("carol"), "{raw_msg}");
}

#[test]
fn refreshing_the_plan_to_completed_preserves_the_mention_across_the_edit() {
    let dave = Person::new_matrix("@dave:example.org");
    let did = dave.id.clone();
    let mut group = CleaningGroup::new("Kitchen");
    let gid = group.id.clone();
    group.member_ids = vec![did.clone()];

    let mut state = State::default();
    state.persons.push(dave);
    let (year, week) = (2024, 10);
    state.slot_assignments.push(SlotAssignment {
        group_id: gid.clone(),
        slot_index: 0,
        iso_year: year,
        iso_week: week,
        shift: 0,
        person_id: Some(did.clone()),
        source: Default::default(),
    });
    state.cleaning_groups.push(group.clone());

    let Message { text: msg_open, mxids: mxids_open } = plan(&state, year, week);
    assert!(mxids_open.contains(&"@dave:example.org".to_string()));
    assert!(msg_open.contains("@dave:example.org"), "{msg_open}");

    state.completions.push(Completion {
        group_id: gid.clone(),
        slot_id: None,
        completed_by_id: did,
        responsible_person_ids: vec![],
        iso_year: year,
        iso_week: week,
        shift: 0,
        completed_at: now(),
        skipped: false,
    });

    let due_groups: Vec<_> = state
        .cleaning_groups
        .iter()
        .filter(|g| state.belongs_in_weekly_plan(g, today(), year, week))
        .collect();
    let Message { text: msg_done, mxids: mxids_done } =
        build_weekly_plan(&state, year, week, &due_groups, today());
    assert!(
        mxids_done.contains(&"@dave:example.org".to_string()),
        "{mxids_done:?}"
    );
    assert!(msg_done.contains("@dave:example.org"), "{msg_done}");
}

#[test]
fn effective_plan_body_prefers_a_bundled_edit_over_the_original_content() {
    let evt = r#"{
        "type": "m.room.message",
        "event_id": "$plan1:example.org",
        "sender": "@bot:example.org",
        "origin_server_ts": 0,
        "room_id": "!room:example.org",
        "content": { "msgtype": "m.text", "body": "original text" },
        "unsigned": {
            "m.relations": {
                "m.replace": {
                    "type": "m.room.message",
                    "event_id": "$edit1:example.org",
                    "sender": "@bot:example.org",
                    "origin_server_ts": 1,
                    "room_id": "!room:example.org",
                    "content": {
                        "msgtype": "m.text",
                        "body": "* edited text",
                        "m.new_content": { "msgtype": "m.text", "body": "edited text" },
                        "m.relates_to": { "rel_type": "m.replace", "event_id": "$plan1:example.org" }
                    }
                }
            }
        }
    }"#;

    assert_eq!(effective_plan_body(evt).as_deref(), Some("edited text"));
}

#[test]
fn effective_plan_body_falls_back_to_the_original_body_when_never_edited() {
    let evt = r#"{
        "type": "m.room.message",
        "event_id": "$plan1:example.org",
        "sender": "@bot:example.org",
        "origin_server_ts": 0,
        "room_id": "!room:example.org",
        "content": { "msgtype": "m.text", "body": "never edited" }
    }"#;

    assert_eq!(effective_plan_body(evt).as_deref(), Some("never edited"));
}

#[test]
fn effective_plan_body_is_none_for_a_redacted_event() {
    let evt = r#"{
        "type": "m.room.message",
        "event_id": "$plan1:example.org",
        "sender": "@bot:example.org",
        "origin_server_ts": 0,
        "room_id": "!room:example.org",
        "content": {},
        "unsigned": { "redacted_because": { "type": "m.room.redaction", "event_id": "$r:example.org" } }
    }"#;

    assert_eq!(effective_plan_body(evt), None);
}

fn plan_reconcile_fixture() -> (State, i32, u32, String) {
    let bob = Person::new_matrix("@bob:example.org");
    let bid = bob.id.clone();
    let mut group = CleaningGroup::new("Kitchen");
    let gid = group.id.clone();
    group.member_ids = vec![bid.clone()];

    let mut state = State::default();
    state.persons.push(bob);
    let (year, week) = (2024, 10);
    state.slot_assignments.push(SlotAssignment {
        group_id: gid,
        slot_index: 0,
        iso_year: year,
        iso_week: week,
        shift: 0,
        person_id: Some(bid),
        source: Default::default(),
    });
    state.cleaning_groups.push(group);

    let week_key = format!("{year}-W{week:02}");
    state.weekly_plan_canonical.push(Entry { key: week_key.clone(), value: PLAN.to_owned() });
    (state, year, week, week_key)
}

#[test]
fn reconcile_no_plan_tracked_and_nothing_due_are_left_alone() {
    let state = State::default();
    assert_eq!(
        decide(&state, 2024, 10, "", None),
        PlanReconcileAction::NoPlanTracked,
        "nothing stored for this week at all"
    );

    let (mut untracked, year, week, week_key) = plan_reconcile_fixture();
    untracked.weekly_plan_canonical.retain(|e| e.key != week_key);
    assert_eq!(
        decide(&untracked, year, week, "", None),
        PlanReconcileAction::NoPlanTracked
    );
}

#[test]
fn reconcile_reports_already_consistent_when_state_and_live_matrix_content_match() {
    let (state, year, week, _) = plan_reconcile_fixture();
    let raw_msg = plan(&state, year, week).text;

    assert_eq!(
        decide(&state, year, week, &raw_msg, Some(raw_msg.as_str())),
        PlanReconcileAction::AlreadyConsistent
    );
}

#[test]
fn reconcile_edits_a_stale_matrix_message() {
    let (state, year, week, _) = plan_reconcile_fixture();
    let raw_msg = plan(&state, year, week).text;
    let stale_live_content = "this is what an old, out-of-date plan text looked like";

    assert_eq!(
        decide(&state, year, week, &raw_msg, Some(stale_live_content)),
        PlanReconcileAction::NeedsEdit {
            event_id: PLAN.to_owned()
        }
    );
}

#[test]
fn reconcile_recreates_a_missing_matrix_message() {
    let (state, year, week, _) = plan_reconcile_fixture();
    let raw_msg = plan(&state, year, week).text;

    assert_eq!(
        decide(&state, year, week, &raw_msg, None),
        PlanReconcileAction::NeedsRecreate
    );
}

#[test]
fn a_look_that_told_nothing_leaves_the_plan_alone() {
    let (state, year, week, _) = plan_reconcile_fixture();
    let text = plan(&state, year, week).text;
    let after = |look: PlanLook| action_after_look(&state, year, week, &text, &look, today());

    assert_eq!(after(PlanLook::Inconclusive), None);
    assert_eq!(after(PlanLook::Gone), Some(PlanReconcileAction::NeedsRecreate));
    let old = r#"{"content": {"msgtype": "m.text", "body": "an old plan"}}"#;
    assert_eq!(
        after(PlanLook::Shown(old.to_owned())),
        Some(PlanReconcileAction::NeedsEdit { event_id: PLAN.to_owned() })
    );
    let redacted = r#"{"content": {}}"#;
    assert_eq!(
        after(PlanLook::Shown(redacted.to_owned())),
        Some(PlanReconcileAction::NeedsRecreate)
    );
    let body = text.replace('"', "\\\"").replace('\n', "\\n");
    let shown = format!("{{\"content\": {{\"msgtype\": \"m.text\", \"body\": \"{body}\"}}}}");
    assert_eq!(after(PlanLook::Shown(shown)), Some(PlanReconcileAction::AlreadyConsistent));
}

#[test]
fn reconcile_edits_when_completion_state_differs_from_what_matrix_shows() {
    let (mut state, year, week, _) = plan_reconcile_fixture();
    let open_text = plan(&state, year, week).text;
    assert!(open_text.contains('⬜'), "{open_text}");

    let bid = state.persons[0].id.clone();
    let gid = state.cleaning_groups[0].id.clone();
    state.completions.push(Completion {
        group_id: gid,
        slot_id: None,
        completed_by_id: bid,
        responsible_person_ids: vec![],
        iso_year: year,
        iso_week: week,
        shift: 0,
        completed_at: now(),
        skipped: false,
    });
    let expected_now = plan(&state, year, week).text;
    assert!(
        expected_now.contains('✅') && expected_now.contains("cleaned"),
        "{expected_now}"
    );

    assert_eq!(
        decide(
            &state,
            year,
            week,
            &expected_now,
            Some(open_text.as_str())
        ),
        PlanReconcileAction::NeedsEdit {
            event_id: PLAN.to_owned()
        }
    );
}

#[test]
fn reconcile_detects_drift_even_when_the_rendered_cache_agrees_with_state() {
    let (mut state, year, week, week_key) = plan_reconcile_fixture();
    let raw_msg = plan(&state, year, week).text;

    state.weekly_plan_rendered.push(Entry { key: week_key, value: raw_msg.clone() });

    let live_matrix_body = "someone hand-edited this pinned message";

    assert_eq!(
        decide(&state, year, week, &raw_msg, Some(live_matrix_body)),
        PlanReconcileAction::NeedsEdit {
            event_id: PLAN.to_owned()
        },
        "must repair based on live Matrix content, not the weekly_plan_rendered cache"
    );
}

#[test]
fn reconcile_is_idempotent_across_repeated_runs() {
    let (state, year, week, _) = plan_reconcile_fixture();
    let raw_msg = plan(&state, year, week).text;

    assert_eq!(
        decide(&state, year, week, &raw_msg, Some("stale")),
        PlanReconcileAction::NeedsEdit {
            event_id: PLAN.to_owned()
        }
    );

    for _ in 0..3 {
        assert_eq!(
            decide(&state, year, week, &raw_msg, Some(raw_msg.as_str())),
            PlanReconcileAction::AlreadyConsistent
        );
    }
}

/// One group with two shifts a week and two people, created long ago.
fn two_shifts() -> (State, i32, u32) {
    let mut state = State::default();
    state.created_at = Some(Timestamp { secs: 0, nanos: 0 });
    let anna = Person::new_matrix("@anna:example.org");
    let ben = Person::new_matrix("@ben:example.org");
    let mut group = CleaningGroup::new("Kitchen");
    group.member_ids = vec![anna.id.clone(), ben.id.clone()];
    group.rhythm = Rhythm { every_weeks: Some(1), shift_starts: vec![0, 3] };
    state.persons = vec![anna, ben];
    state.cleaning_groups.push(group);
    let (year, week) = week_of(today());
    (state, year, week)
}

#[test]
fn a_plan_is_posted_once_on_its_weekday() {
    let (mut state, year, week) = two_shifts();
    assert!(plan_to_post(&state, 1, 0, year, week, today()).is_none());
    let message = plan_to_post(&state, 0, 0, year, week, today()).unwrap();
    assert_eq!(message.mxids, ["@anna:example.org", "@ben:example.org"]);
    state.register_weekly_plan_message(year, week, &message.text, PLAN);
    assert!(plan_to_post(&state, 0, 0, year, week, today()).is_none());
    assert_eq!(tracked_plan(&state, year, week).as_deref(), Some(PLAN));
    assert_eq!(lookup(&state.weekly_plan_rendered, &week_key(year, week)), Some(&message.text));
}

#[test]
fn a_plan_is_edited_only_when_its_text_changes() {
    let (mut state, year, week) = two_shifts();
    assert!(plan_edit(&state, year, week, today()).is_none());
    let text = weekly_plan(&state, year, week, today()).unwrap().text;
    state.register_weekly_plan_message(year, week, &text, PLAN);
    assert!(plan_edit(&state, year, week, today()).is_none());
    let (group_id, person_id) = (state.cleaning_groups[0].id.clone(), state.persons[0].id.clone());
    state.completions.push(Completion {
        group_id,
        slot_id: None,
        completed_by_id: person_id,
        responsible_person_ids: vec![],
        iso_year: year,
        iso_week: week,
        shift: 0,
        completed_at: now(),
        skipped: false,
    });
    let edit = plan_edit(&state, year, week, today()).unwrap();
    assert_eq!(edit.event_id, PLAN);
    assert_ne!(edit.message.text, text);
}

#[test]
fn each_turn_is_reminded_of_once() {
    let (mut state, year, week) = two_shifts();
    let thursday = Date { day: week_monday(year, week).day + 3 };
    let kind = ReminderKind::Initial;
    let reminder = reminder_to_send(&state, thursday, &kind, 6, year, week, today()).unwrap();
    assert_eq!(reminder.turns.len(), 1);
    assert_eq!(reminder.turns[0].turn, Turn::new(year, week, 1));
    assert_eq!(reminder.message.mxids, ["@ben:example.org"]);
    state.mark_turns_reminded(&reminder.turns, &kind);
    assert!(state.reminder_sent(&state.cleaning_groups[0].id, year, week, 1, &kind));
    assert!(reminder_to_send(&state, thursday, &kind, 6, year, week, today()).is_none());
}

#[test]
fn nobody_is_mentioned_twice() {
    let list = ["@b:x", "@a:x", "@b:x"].map(str::to_owned).to_vec();
    assert_eq!(tidy_mentions(list), ["@a:x", "@b:x"]);
}

#[test]
fn reminders_go_out_from_the_minute_they_are_set_for() {
    assert_eq!(parse_hhmm("08:05"), (8, 5));
    assert_eq!(parse_hhmm("07:30"), (7, 30));
    assert_eq!(parse_hhmm(""), (9, 0));
    assert_eq!(parse_hhmm("8"), (9, 0));
    assert_eq!(parse_hhmm("noon"), (9, 0));
    assert_eq!(parse_hhmm("10:xx"), (9, 0));
    assert_eq!(parse_hhmm("xx:10"), (9, 0));
    assert_eq!(parse_hhmm("25:61"), (23, 59));
    assert!(is_reminder_time(8, 5, "08:05"));
    assert!(is_reminder_time(9, 0, "08:05"));
    assert!(!is_reminder_time(8, 4, "08:05"));
}

#[test]
fn weeks_are_filed_under_year_and_week() {
    assert_eq!(week_key(2025, 3), "2025-W03");
    assert_eq!(week_key(2025, 40), "2025-W40");
}

#[test]
fn a_body_that_is_no_text_is_passed_over() {
    assert_eq!(effective_plan_body("not json"), None);
    assert_eq!(effective_plan_body(r#"{"content": {"body": 3}}"#), None);
    assert_eq!(prefer_edit(Some("b".to_owned()), Some("a".to_owned())).as_deref(), Some("b"));
    assert_eq!(prefer_edit(None, Some("a".to_owned())).as_deref(), Some("a"));
}
