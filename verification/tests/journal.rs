use cleaning_bot::analytics::DomainEvent;
use cleaning_bot::calendar::{add_weeks, current_iso_week, now, today};
use cleaning_bot::domain::{AssignmentSource, CleaningGroup, CleaningSlot, Person};
use cleaning_bot::inspect::validate_state;
use cleaning_bot::journal::StateError;
use cleaning_bot::planning::{
    apply_group_join, leave_group, materialize_and_apply, reset_and_rematerialize,
};
use cleaning_bot::rhythm::{Rhythm, Turn};
use cleaning_bot::state::{Absence, State, SwapStatus};

fn three_people() -> (State, String, Vec<String>) {
    let mut state = State::default();
    state.created_at = Some(now());
    state.persons = ["Anna", "Bob", "Carla"].map(Person::new_named).to_vec();
    let ids: Vec<String> = state.persons.iter().map(|p| p.id.clone()).collect();
    let mut group = CleaningGroup::new("Floor");
    let gid = group.id.clone();
    group.member_ids = ids.clone();
    state.cleaning_groups.push(group);
    (state, gid, ids)
}

fn assigned(gid: &str, week: (i32, u32), person: Option<&String>) -> DomainEvent {
    DomainEvent::SlotAssigned {
        group_id: gid.to_owned(),
        slot_index: 0,
        iso_year: week.0,
        iso_week: week.1,
        shift: 0,
        person_id: person.cloned(),
        source: AssignmentSource::Assign,
        actor_id: None,
        previous_person_id: None,
    }
}

fn holder(state: &State, gid: &str, week: (i32, u32)) -> Option<String> {
    let group = state.group_by_id(gid).unwrap();
    state.slot_assignee(group, 0, Turn::new(week.0, week.1, 0)).map(|p| p.id.clone())
}

#[test]
fn an_assignment_reads_back_and_replaces_the_one_before() {
    let (mut state, gid, ids) = three_people();
    let week = current_iso_week();
    let next = add_weeks(week.0, week.1, 1);
    state.apply_event(assigned(&gid, week, Some(&ids[1]))).unwrap();
    state.apply_event(assigned(&gid, next, Some(&ids[0]))).unwrap();
    state.apply_event(assigned(&gid, week, Some(&ids[2]))).unwrap();
    assert_eq!(holder(&state, &gid, week), Some(ids[2].clone()));
    assert_eq!(holder(&state, &gid, next), Some(ids[0].clone()));
    assert_eq!(state.slot_assignments.len(), 2);
    assert_eq!(state.slot_assignments[1].person_id, Some(ids[2].clone()));
    assert_eq!(state.event_log.len(), 3);
    state.apply_event(assigned(&gid, week, None)).unwrap();
    assert_eq!(holder(&state, &gid, week), None);
}

#[test]
fn events_about_something_unknown_are_refused() {
    let (mut state, gid, ids) = three_people();
    let unknown = DomainEvent::GroupDisabled { group_id: "nowhere".to_owned() };
    assert_eq!(state.apply_event(unknown), Err(StateError::UnknownGroup));
    let nobody =
        DomainEvent::PersonMatrixLinked { person_id: "x".to_owned(), matrix_id: "@x:y".to_owned() };
    assert_eq!(state.apply_event(nobody), Err(StateError::UnknownPerson));
    assert_eq!(
        state.apply_event(DomainEvent::SwapRejected { swap_id: 7 }),
        Err(StateError::UnknownSwap)
    );
    assert!(state.event_log.is_empty());
    let left = DomainEvent::PersonLeftGroup { person_id: ids[0].clone(), group_id: gid.clone() };
    assert_eq!(state.apply_event(left), Ok(()));
    assert_eq!(state.group_by_id(&gid).unwrap().member_ids, ids[1..]);
}

#[test]
fn a_mark_that_is_taken_back_leaves_the_week_open() {
    let (mut state, gid, ids) = three_people();
    let (year, week) = current_iso_week();
    state
        .apply_event(DomainEvent::CleaningCompleted {
            group_id: gid.clone(),
            slot_id: None,
            person_id: ids[0].clone(),
            responsible_person_ids: vec![ids[0].clone()],
            iso_year: year,
            iso_week: week,
            shift: 0,
        })
        .unwrap();
    assert!(state.is_completed(&gid, year, week));
    state
        .apply_event(DomainEvent::CleaningUndone {
            group_id: gid.clone(),
            iso_year: year,
            iso_week: week,
            shift: None,
            slot_id: None,
        })
        .unwrap();
    assert!(!state.is_completed(&gid, year, week));
    state
        .apply_event(DomainEvent::CleaningSkipped {
            group_id: gid.clone(),
            skipper_id: ids[0].clone(),
            iso_year: year,
            iso_week: week,
            shift: None,
            slot_id: None,
        })
        .unwrap();
    assert!(state.is_completed(&gid, year, week));
}

#[test]
fn a_rejected_swap_stays_rejected() {
    let (mut state, gid, _) = three_people();
    let (year, week) = current_iso_week();
    let request = DomainEvent::SwapRequested {
        group_id: gid,
        requester_mxid: "@a:x".to_owned(),
        target_mxid: "@b:x".to_owned(),
        iso_year: year,
        iso_week: week,
        shift: 0,
        slot_index: 0,
    };
    state.apply_event(request).unwrap();
    let id = state.swap_requests[0].id;
    assert_eq!(state.swap_requests[0].status, SwapStatus::Pending);
    state.apply_event(DomainEvent::SwapRejected { swap_id: id }).unwrap();
    assert_eq!(state.swap_requests[0].status, SwapStatus::Rejected);
}

#[test]
fn planning_twice_is_planning_once_and_keeps_what_was_planned() {
    let (mut state, gid, ids) = three_people();
    let (y, w) = current_iso_week();
    materialize_and_apply(&mut state, 2, today(), now()).unwrap();
    let before = state.slot_assignments.clone();
    materialize_and_apply(&mut state, 2, today(), now()).unwrap();
    assert_eq!(state.slot_assignments, before);
    materialize_and_apply(&mut state, 4, today(), now()).unwrap();
    assert_eq!(state.slot_assignments[..2], before[..]);
    assert_eq!(holder(&state, &gid, add_weeks(y, w, 3)), Some(ids[0].clone()));
}

#[test]
fn starting_over_keeps_this_week() {
    let (mut state, gid, ids) = three_people();
    let week = current_iso_week();
    state.apply_event(assigned(&gid, week, Some(&ids[2]))).unwrap();
    state.apply_event(assigned(&gid, add_weeks(week.0, week.1, 1), Some(&ids[2]))).unwrap();
    assert_eq!(reset_and_rematerialize(&mut state, &gid, today(), 3, now()), Ok(1));
    assert_eq!(holder(&state, &gid, week), Some(ids[2].clone()));
    assert_eq!(holder(&state, &gid, add_weeks(week.0, week.1, 1)), Some(ids[0].clone()));
}

#[test]
fn joining_and_leaving_keep_what_others_were_given() {
    let (mut state, gid, ids) = three_people();
    let (y, w) = current_iso_week();
    materialize_and_apply(&mut state, 3, today(), now()).unwrap();
    let before: Vec<_> = (0..3).map(|n| holder(&state, &gid, add_weeks(y, w, n))).collect();
    let dora = Person::new_named("Dora");
    let dora_id = dora.id.clone();
    state.persons.push(dora);
    apply_group_join(&mut state, &gid, &dora_id, today(), 4, now()).unwrap();
    let after: Vec<_> = (0..3).map(|n| holder(&state, &gid, add_weeks(y, w, n))).collect();
    assert_eq!(before, after);
    assert_eq!(holder(&state, &gid, add_weeks(y, w, 3)), Some(dora_id));
    leave_group(&mut state, &ids[1], &gid, today(), now()).unwrap();
    assert_eq!(holder(&state, &gid, (y, w)), before[0]);
    assert_ne!(holder(&state, &gid, add_weeks(y, w, 1)), before[1]);
    assert_eq!(holder(&state, &gid, add_weeks(y, w, 2)), before[2]);
}

#[test]
fn removing_a_slot_moves_the_slots_after_it() {
    let (mut state, gid, ids) = three_people();
    for id in ["a", "b", "c"] {
        let mut slot = CleaningSlot::new(id);
        slot.id = id.to_owned();
        state.cleaning_groups[0].slots.push(slot);
    }
    let week = current_iso_week();
    for slot in 0..3 {
        let mut event = assigned(&gid, week, Some(&ids[slot]));
        if let DomainEvent::SlotAssigned { slot_index, .. } = &mut event {
            *slot_index = slot;
        }
        state.apply_event(event).unwrap();
    }
    state
        .apply_event(DomainEvent::SlotRemoved { group_id: gid, slot_id: "b".to_owned() })
        .unwrap();
    let places: Vec<_> =
        state.slot_assignments.iter().map(|a| (a.slot_index, a.person_id.clone())).collect();
    assert_eq!(places, [(0, Some(ids[0].clone())), (1, Some(ids[2].clone()))]);
}

#[test]
fn turns_are_due_by_the_rhythm_from_the_start() {
    let (mut state, ..) = three_people();
    let (y, w) = current_iso_week();
    state.cleaning_groups[0].rhythm = Rhythm { every_weeks: Some(3), shift_starts: vec![0, 2] };
    let group = state.cleaning_groups[0].clone();
    for n in 0..7 {
        let (year, week) = add_weeks(y, w, n);
        let due = n % 3 == 0;
        assert_eq!(state.is_due_week(&group, today(), year, week), due);
        let turns = state.turns_in_week(&group, today(), year, week).len();
        assert_eq!(turns, if due { 2 } else { 0 });
    }
    assert_eq!(state.next_due_week(&group, today(), add_weeks(y, w, 1)), add_weeks(y, w, 3));
}

#[test]
fn dangling_references_are_reported() {
    let (mut state, gid, _) = three_people();
    assert!(validate_state(&state).errors.is_empty());
    state.cleaning_groups[0].member_ids.push("ghost".to_owned());
    state.absences.push(Absence {
        person_id: "ghost".to_owned(),
        group_id: gid,
        from_year: 2025,
        from_week: 1,
        duration_weeks: 1,
    });
    let report = validate_state(&state);
    assert!(!report.errors.is_empty());
    assert!(report.summary().contains("ghost"), "{}", report.summary());
}

#[test]
fn nothing_is_remembered_twice() {
    let (mut state, gid, ids) = three_people();
    let (year, week) = current_iso_week();
    state.cleaning_groups[0].slots = vec![CleaningSlot::new("Oven"), CleaningSlot::new("Sink")];
    let skipped = DomainEvent::CleaningSkipped {
        group_id: gid.clone(),
        skipper_id: ids[0].clone(),
        iso_year: year,
        iso_week: week,
        shift: None,
        slot_id: None,
    };
    let done = DomainEvent::CleaningCompleted {
        group_id: gid.clone(),
        slot_id: Some(state.cleaning_groups[0].slots[1].id.clone()),
        person_id: ids[1].clone(),
        responsible_person_ids: vec![],
        iso_year: year,
        iso_week: week,
        shift: 0,
    };
    let events = [
        DomainEvent::GroupCreated { group_id: gid.clone(), name: "Again".to_owned() },
        DomainEvent::PersonJoinedGroup { group_id: gid.clone(), person_id: ids[0].clone() },
        assigned(&gid, (year, week), Some(&ids[1])),
        done,
        skipped,
    ];
    for e in events.iter().chain(&events) {
        state.apply_event(e.clone()).unwrap();
    }
    assert_eq!(state.cleaning_groups.len(), 1);
    assert_eq!(state.cleaning_groups[0].member_ids, ids);
    assert_eq!(state.slot_assignments.len(), 1);
    let marks: Vec<_> = state.completions.iter().map(|c| (&c.slot_id, c.skipped)).collect();
    let slots = &state.cleaning_groups[0].slots;
    assert_eq!(marks, [(&Some(slots[1].id.clone()), false), (&Some(slots[0].id.clone()), true)]);
    assert_eq!(state.event_log.len(), 10);
}

#[test]
fn replaying_the_log_gives_the_same_state() {
    let mut state = State::default();
    let created = |name: &str| DomainEvent::PersonCreated {
        person_id: name.to_owned(),
        display_name: name.to_owned(),
        matrix_id: None,
    };
    let joined = |name: &str| DomainEvent::PersonJoinedGroup {
        person_id: name.to_owned(),
        group_id: "floor".to_owned(),
    };
    let slot = |name: &str| DomainEvent::SlotAdded {
        group_id: "floor".to_owned(),
        slot_id: name.to_owned(),
        slot_name: name.to_owned(),
    };
    let week = current_iso_week();
    for e in [
        DomainEvent::GroupCreated { group_id: "floor".to_owned(), name: "Floor".to_owned() },
        created("Anna"),
        created("Bob"),
        joined("Anna"),
        joined("Bob"),
        slot("Oven"),
        slot("Sink"),
        assigned("floor", week, Some(&"Bob".to_owned())),
        DomainEvent::SlotRemoved { group_id: "floor".to_owned(), slot_id: "Oven".to_owned() },
        DomainEvent::CleaningSkipped {
            group_id: "floor".to_owned(),
            skipper_id: "Anna".to_owned(),
            iso_year: week.0,
            iso_week: week.1,
            shift: None,
            slot_id: None,
        },
    ] {
        state.apply_event(e).unwrap();
    }
    let mut again = State::default();
    for logged in &state.event_log {
        again.apply_event(logged.event.clone()).unwrap();
    }
    let held = |s: &State| {
        let marks: Vec<_> = s.completions.iter().map(|c| (c.slot_id.clone(), c.skipped)).collect();
        format!("{:?} {:?} {:?} {marks:?}", s.persons, s.cleaning_groups, s.slot_assignments)
    };
    assert_eq!(held(&again), held(&state));
    assert!(state.slot_assignments.is_empty());
    assert_eq!(state.completions.len(), 1);
}
