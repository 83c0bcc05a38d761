use cleaning_bot::analytics::DomainEvent;
use cleaning_bot::calendar::{add_weeks, current_iso_week, now, today};
use cleaning_bot::domain::{
    CleaningGroup, CleaningSlot, GroupId, Person, PersonId, SlotAssignment,
};
use cleaning_bot::resolver::{
    materialize, materialize_group, preview_slot_assignee, reconcile_queue, rewind_queue,
};
use cleaning_bot::rhythm::Turn;
use cleaning_bot::state::{Absence, State};

fn two_person_state() -> (State, String, String) {
    let mut st = State::default();
    st.created_at = Some(now());
    let p1 = Person::new_named("Alice");
    let p2 = Person::new_named("Bob");
    let (id1, id2) = (p1.id.clone(), p2.id.clone());
    st.persons.extend([p1, p2]);
    let mut g = CleaningGroup::new("Kitchen");
    g.member_ids.extend([id1.clone(), id2.clone()]);
    st.cleaning_groups.push(g);
    (st, id1, id2)
}

#[test]
fn first_materialization_assigns_in_order() {
    let (st, id1, id2) = two_person_state();
    let evs = materialize(&st, 2);
    if let DomainEvent::SlotAssigned { person_id, .. } = &evs[0] {
        assert_eq!(person_id.as_deref(), Some(id1.as_str()));
    }
    if let DomainEvent::SlotAssigned { person_id, .. } = &evs[1] {
        assert_eq!(person_id.as_deref(), Some(id2.as_str()));
    }
}

#[test]
fn already_stored_slots_are_skipped() {
    let (mut st, id1, _id2) = two_person_state();
    let first_evs = materialize(&st, 1);
    for ev in &first_evs {
        st.apply_event(ev.clone()).unwrap();
    }
    let second_evs = materialize(&st, 1);
    assert!(
        second_evs.is_empty(),
        "should skip already-stored assignment"
    );
    let stored = &st.slot_assignments[0];
    assert_eq!(stored.person_id.as_deref(), Some(id1.as_str()));
}

#[test]
fn rotation_stable_after_member_leaves() {
    let (mut st, id1, id2) = two_person_state();
    let evs = materialize(&st, 2);
    for ev in evs {
        st.apply_event(ev).unwrap();
    }

    let gid = st.cleaning_groups[0].id.clone();
    st.apply_event(DomainEvent::PersonLeftGroup {
        person_id: id1.clone(),
        group_id: gid,
    })
    .unwrap();

    let new_evs = materialize(&st, 3);
    let unfrozen: Vec<_> = new_evs
        .iter()
        .filter(|e| matches!(e, DomainEvent::SlotAssigned { .. }))
        .collect();
    assert!(!unfrozen.is_empty());
    if let DomainEvent::SlotAssigned { person_id, .. } = &unfrozen[0] {
        assert_eq!(
            person_id.as_deref(),
            Some(id2.as_str()),
            "Bob should be next"
        );
    }
}

#[test]
fn multi_slot_round_robin() {
    let mut st = State::default();
    st.created_at = Some(now());
    let people: Vec<Person> = (0..4)
        .map(|i| Person::new_named(&format!("P{i}")))
        .collect();
    let ids: Vec<_> = people.iter().map(|p| p.id.clone()).collect();
    st.persons.extend(people);

    let mut g = CleaningGroup::new("Floor");
    g.member_ids.extend(ids.clone());
    let mut s0 = CleaningSlot::new("Scharni");
    s0.id = "s0".into();
    let mut s1 = CleaningSlot::new("Colbe");
    s1.id = "s1".into();
    g.slots.extend([s0, s1]);
    st.cleaning_groups.push(g);

    let evs = materialize(&st, 2);
    let slot_evs: Vec<_> = evs
        .iter()
        .filter(|e| matches!(e, DomainEvent::SlotAssigned { .. }))
        .collect();
    assert_eq!(slot_evs.len(), 4);
    if let (
        DomainEvent::SlotAssigned { person_id: p0, .. },
        DomainEvent::SlotAssigned { person_id: p1, .. },
    ) = (slot_evs[0], slot_evs[1])
    {
        assert_eq!(p0.as_deref(), Some(ids[0].as_str()));
        assert_eq!(p1.as_deref(), Some(ids[1].as_str()));
    }
    if let (
        DomainEvent::SlotAssigned { person_id: p2, .. },
        DomainEvent::SlotAssigned { person_id: p3, .. },
    ) = (slot_evs[2], slot_evs[3])
    {
        assert_eq!(p2.as_deref(), Some(ids[2].as_str()));
        assert_eq!(p3.as_deref(), Some(ids[3].as_str()));
    }
}

#[test]
fn three_person_rotation_cycles_stably() {
    let mut st = State::default();
    st.created_at = Some(now());
    let people: Vec<Person> = ["Anna", "Bob", "Carla"]
        .iter()
        .map(|n| Person::new_named(n))
        .collect();
    let ids: Vec<_> = people.iter().map(|p| p.id.clone()).collect();
    st.persons.extend(people);
    let mut g = CleaningGroup::new("Floor");
    g.member_ids.extend(ids.clone());
    st.cleaning_groups.push(g);

    let evs = materialize(&st, 6);
    let names: Vec<Option<String>> = evs
        .iter()
        .filter_map(|e| match e {
            DomainEvent::SlotAssigned { person_id, .. } => Some(person_id.clone()),
            _ => None,
        })
        .collect();
    assert_eq!(
        names,
        vec![
            Some(ids[0].clone()),
            Some(ids[1].clone()),
            Some(ids[2].clone()),
            Some(ids[0].clone()),
            Some(ids[1].clone()),
            Some(ids[2].clone()),
        ]
    );
}

#[test]
fn materialize_is_deterministic() {
    let (st, ..) = two_person_state();
    let a = materialize(&st, 8);
    let b = materialize(&st, 8);
    let render = |evs: &[DomainEvent]| format!("{evs:?}");
    assert_eq!(render(&a), render(&b));
}

#[test]
fn reconcile_seeds_fresh_queue_from_member_ids() {
    let (st, id1, id2) = two_person_state();
    let group = &st.cleaning_groups[0];
    assert_eq!(reconcile_queue(&st, group), vec![id1, id2]);
}

#[test]
fn reconcile_continues_the_cycle_after_an_upgrade_from_a_queueless_state() {
    let (mut st, id1, id2) = two_person_state();
    let gid = st.cleaning_groups[0].id.clone();
    for (i, pid) in [id1.clone(), id2.clone(), id1.clone()]
        .into_iter()
        .enumerate()
    {
        st.slot_assignments.push(SlotAssignment {
            group_id: gid.clone(),
            slot_index: 0,
            iso_year: 2020,
            iso_week: (i + 1) as u32,
            shift: 0,
            person_id: Some(pid),
            source: Default::default(),
        });
    }
    st.cleaning_groups[0].rotation_queue.clear();

    let queue = reconcile_queue(&st, &st.cleaning_groups[0]);
    assert_eq!(queue, vec![id2, id1]);
}

fn make_group(
    name: &str,
    member_count: usize,
    slot_count: usize,
) -> (State, GroupId, Vec<PersonId>) {
    let mut st = State::default();
    st.created_at = Some(now());
    let people: Vec<Person> = (0..member_count)
        .map(|i| Person::new_named(&format!("P{i}")))
        .collect();
    let ids: Vec<_> = people.iter().map(|p| p.id.clone()).collect();
    st.persons.extend(people);
    let mut g = CleaningGroup::new(name);
    let gid = g.id.clone();
    g.member_ids.extend(ids.clone());
    for i in 0..slot_count {
        let mut slot = CleaningSlot::new(&format!("Slot{i}"));
        slot.id = format!("s{i}");
        g.slots.push(slot);
    }
    st.cleaning_groups.push(g);
    (st, gid, ids)
}

fn week_slot_picks(
    evs: &[DomainEvent],
    week_index: usize,
    num_slots: usize,
) -> Vec<Option<PersonId>> {
    let slot_evs: Vec<_> = evs
        .iter()
        .filter(|e| matches!(e, DomainEvent::SlotAssigned { .. }))
        .collect();
    (0..num_slots)
        .map(|si| match slot_evs[week_index * num_slots + si] {
            DomainEvent::SlotAssigned { person_id, .. } => person_id.clone(),
            _ => unreachable!(),
        })
        .collect()
}

#[test]
fn one_member_two_slots_leaves_the_second_slot_unassigned_not_double_booked() {
    let (st, _gid, ids) = make_group("Floor", 1, 2);
    let evs = materialize(&st, 1);
    let week0 = week_slot_picks(&evs, 0, 2);
    assert_eq!(week0[0], Some(ids[0].clone()), "the one member gets slot 0");
    assert_eq!(
        week0[1], None,
        "slot 1 must stay unassigned, not double-book P0"
    );
}

#[test]
fn two_members_three_slots_leaves_the_third_slot_unassigned_not_double_booked() {
    let (st, _gid, ids) = make_group("Floor", 2, 3);
    let evs = materialize(&st, 1);
    let week0 = week_slot_picks(&evs, 0, 3);
    assert_eq!(week0[0], Some(ids[0].clone()));
    assert_eq!(week0[1], Some(ids[1].clone()));
    assert_eq!(
        week0[2], None,
        "no third distinct member — must not repeat P0"
    );

    let (st, _gid, ids) = make_group("Floor", 2, 3);
    let evs = materialize(&st, 2);
    let week1 = week_slot_picks(&evs, 1, 3);
    assert_eq!(week1[0], Some(ids[0].clone()));
    assert_eq!(week1[1], Some(ids[1].clone()));
    assert_eq!(week1[2], None);
}

#[test]
fn two_members_two_slots_and_three_members_two_slots_never_double_book() {
    let (st, ..) = make_group("Floor", 2, 2);
    let evs = materialize(&st, 1);
    let week0 = week_slot_picks(&evs, 0, 2);
    assert!(week0.iter().all(|p| p.is_some()));
    assert_ne!(week0[0], week0[1], "must not double-book the same person");

    let (st, ..) = make_group("Floor", 3, 2);
    let evs = materialize(&st, 1);
    let week0 = week_slot_picks(&evs, 0, 2);
    assert!(week0.iter().all(|p| p.is_some()));
    assert_ne!(week0[0], week0[1]);
}

#[test]
fn repeated_materialize_and_apply_with_the_same_horizon_is_a_no_op() {
    let (mut st, id1, id2) = two_person_state();
    for ev in materialize(&st, 4) {
        st.apply_event(ev).unwrap();
    }
    let queue_after_first = st.cleaning_groups[0].rotation_queue.clone();
    let assignments_after_first: Vec<_> = st
        .slot_assignments
        .iter()
        .map(|a| (a.iso_week, a.person_id.clone()))
        .collect();

    for _ in 0..3 {
        let evs = materialize(&st, 4);
        assert!(
            evs.is_empty(),
            "re-materializing the same horizon must produce zero events"
        );
        for ev in evs {
            st.apply_event(ev).unwrap();
        }
    }

    assert_eq!(
        st.cleaning_groups[0].rotation_queue, queue_after_first,
        "queue must not drift"
    );
    let assignments_after: Vec<_> = st
        .slot_assignments
        .iter()
        .map(|a| (a.iso_week, a.person_id.clone()))
        .collect();
    assert_eq!(assignments_after, assignments_after_first);
    let _ = (id1, id2);
}

#[test]
fn reconcile_continues_correctly_with_a_realistic_mix_of_past_and_future_assignments() {
    let (mut st, gid, ids) = make_group("Floor", 3, 0);
    let (cur_y, cur_w) = current_iso_week();
    let weeks: Vec<(i32, u32)> = (-2..2i64).map(|n| add_weeks(cur_y, cur_w, n)).collect();
    for (i, &(y, w)) in weeks.iter().enumerate() {
        st.slot_assignments.push(SlotAssignment {
            group_id: gid.clone(),
            slot_index: 0,
            iso_year: y,
            iso_week: w,
            shift: 0,
            person_id: Some(ids[i % 3].clone()),
            source: Default::default(),
        });
    }
    st.cleaning_groups[0].rotation_queue.clear();

    let queue = reconcile_queue(&st, &st.cleaning_groups[0]);
    assert_eq!(queue, vec![ids[1].clone(), ids[2].clone(), ids[0].clone()]);

    let a = materialize(&st, 4);
    let b = materialize(&st, 4);
    assert_eq!(format!("{a:?}"), format!("{b:?}"));
    for ev in a {
        if let DomainEvent::SlotAssigned {
            iso_year, iso_week, ..
        } = &ev
        {
            assert!(
                weeks.iter().all(|&(y, w)| (*iso_year, *iso_week) != (y, w)),
                "must not re-touch an already-frozen week"
            );
        }
    }
}

#[test]
fn preview_beyond_the_horizon_agrees_with_materialize() {
    let (st, id1, id2) = two_person_state();
    let (y, w) = add_weeks(current_iso_week().0, current_iso_week().1, 4);
    let group = &st.cleaning_groups[0];
    let preview = preview_slot_assignee(&st, group, 0, Turn::new(y, w, 0));

    let evs = materialize(&st, 5);
    let expected = evs
        .iter()
        .find_map(|e| match e {
            DomainEvent::SlotAssigned {
                iso_year,
                iso_week,
                shift: 0,
                person_id,
                ..
            } if *iso_year == y && *iso_week == w => Some(person_id.clone()),
            _ => None,
        })
        .flatten();
    assert_eq!(preview, expected);
    assert!(preview == Some(id1) || preview == Some(id2));
}

fn absence(
    person_id: &PersonId,
    group_id: &str,
    from: (i32, u32),
    duration_weeks: u32,
) -> Absence {
    Absence {
        person_id: person_id.clone(),
        group_id: group_id.to_owned(),
        from_year: from.0,
        from_week: from.1,
        duration_weeks,
    }
}

#[test]
fn absent_member_is_skipped_but_keeps_their_queue_position() {
    let (mut st, gid, ids) = make_group("Floor", 3, 0);
    let (anna, bob, carla) = (ids[0].clone(), ids[1].clone(), ids[2].clone());
    let due = current_iso_week();
    st.absences.push(absence(&anna, &gid, due, 1));

    let evs = materialize(&st, 1);
    let picked = week_slot_picks(&evs, 0, 1);
    assert_eq!(
        picked[0],
        Some(bob.clone()),
        "Bob is next in line after Anna is skipped"
    );

    for ev in evs {
        st.apply_event(ev).unwrap();
    }
    assert_eq!(
        st.cleaning_groups[0].rotation_queue,
        vec![anna, carla, bob],
        "Anna keeps her place at the front instead of losing her turn or being pushed to the back"
    );
}

#[test]
fn returning_from_absence_continues_the_rotation_fairly() {
    let (mut st, gid, ids) = make_group("Floor", 3, 0);
    let (anna, bob, carla) = (ids[0].clone(), ids[1].clone(), ids[2].clone());
    let due = current_iso_week();
    st.absences.push(absence(&anna, &gid, due, 2));

    let evs = materialize(&st, 3);
    let picks: Vec<_> = (0..3)
        .map(|i| week_slot_picks(&evs, i, 1)[0].clone())
        .collect();
    assert_eq!(picks, vec![Some(bob), Some(carla), Some(anna)]);
}

#[test]
fn several_members_absent_at_once_are_all_skipped() {
    let (mut st, gid, ids) = make_group("Floor", 3, 0);
    let (anna, bob, carla) = (ids[0].clone(), ids[1].clone(), ids[2].clone());
    let due = current_iso_week();
    st.absences.push(absence(&anna, &gid, due, 1));
    st.absences.push(absence(&bob, &gid, due, 1));

    let evs = materialize(&st, 1);
    assert_eq!(
        week_slot_picks(&evs, 0, 1),
        vec![Some(carla)],
        "only Carla is eligible"
    );
}

#[test]
fn all_members_absent_leaves_the_slot_unassigned_not_a_fallback_pick() {
    let (mut st, gid, ids) = make_group("Floor", 2, 0);
    let due = current_iso_week();
    for id in &ids {
        st.absences.push(absence(id, &gid, due, 1));
    }

    let evs = materialize(&st, 1);
    assert_eq!(
        week_slot_picks(&evs, 0, 1),
        vec![None],
        "nobody eligible — must stay unassigned, not fall back to an absent member"
    );
    assert!(!evs
        .iter()
        .any(|e| matches!(e, DomainEvent::RotationQueueSet { .. })));
}

#[test]
fn multi_slot_with_one_member_absent_does_not_double_book_the_rest() {
    let (mut st, gid, ids) = make_group("Floor", 3, 2);
    let (anna, bob, carla) = (ids[0].clone(), ids[1].clone(), ids[2].clone());
    let due = current_iso_week();
    st.absences.push(absence(&anna, &gid, due, 1));

    let evs = materialize(&st, 1);
    let picked = week_slot_picks(&evs, 0, 2);
    assert!(
        picked.iter().all(|p| p.is_some()),
        "both slots must be filled from the remaining two members"
    );
    assert_ne!(picked[0], picked[1], "must not double-book the same person");
    assert!(
        picked.iter().all(|p| p != &Some(anna.clone())),
        "the absent member must never be drawn"
    );
    let picked_set: std::collections::HashSet<_> = picked.into_iter().flatten().collect();
    assert_eq!(picked_set, std::collections::HashSet::from([bob, carla]));
}

#[test]
fn materialize_with_absences_is_deterministic_across_repeated_runs() {
    let (mut st, gid, ids) = make_group("Floor", 3, 0);
    let due = current_iso_week();
    st.absences.push(absence(&ids[0], &gid, due, 2));

    let a = materialize(&st, 6);
    let b = materialize(&st, 6);
    assert_eq!(
        format!("{a:?}"),
        format!("{b:?}"),
        "must be a pure function of state"
    );

    for ev in a {
        st.apply_event(ev).unwrap();
    }
    let queue_after_first_pass = st.cleaning_groups[0].rotation_queue.clone();
    let assignments_after_first_pass: Vec<_> = st
        .slot_assignments
        .iter()
        .map(|a| (a.iso_week, a.person_id.clone()))
        .collect();

    let replay_evs = materialize(&st, 6);
    assert!(
        replay_evs.is_empty(),
        "already-frozen weeks must not be revisited on a restart"
    );
    assert_eq!(st.cleaning_groups[0].rotation_queue, queue_after_first_pass);
    let assignments_after_replay: Vec<_> = st
        .slot_assignments
        .iter()
        .map(|a| (a.iso_week, a.person_id.clone()))
        .collect();
    assert_eq!(assignments_after_first_pass, assignments_after_replay);
}

#[test]
fn rewinding_gives_dropped_turns_back_in_the_order_they_were_drawn() {
    let drawn = |week: u32, shift: u8, person: Option<&str>| SlotAssignment {
        group_id: "g".to_owned(),
        slot_index: 0,
        iso_year: 2025,
        iso_week: week,
        shift,
        person_id: person.map(str::to_owned),
        source: Default::default(),
    };
    let queue: Vec<PersonId> = ["d", "a", "b", "c"].map(str::to_owned).to_vec();
    let dropped =
        vec![drawn(41, 0, Some("c")), drawn(40, 1, Some("b")), drawn(40, 0, None), drawn(42, 0, Some("b"))];
    assert_eq!(rewind_queue(&queue, &dropped), ["b", "c", "d", "a"]);
    assert_eq!(rewind_queue(&queue, &vec![drawn(40, 0, Some("x"))]), ["d", "a", "b", "c"]);
}

#[test]
fn one_group_is_planned_alone() {
    let (mut st, id1, _) = two_person_state();
    let mut bath = CleaningGroup::new("Bath");
    bath.member_ids.push(id1.clone());
    let bath_id = bath.id.clone();
    st.cleaning_groups.push(bath);
    let events = materialize_group(&st, &st.cleaning_groups[1], 3);
    assert_eq!(events.len(), 4);
    for e in &events[..3] {
        match e {
            DomainEvent::SlotAssigned { group_id, person_id, .. } => {
                assert_eq!(*group_id, bath_id);
                assert_eq!(person_id.as_ref(), Some(&id1));
            }
            other => panic!("{other:?}"),
        }
    }
    match &events[3] {
        DomainEvent::RotationQueueSet { group_id, queue } => {
            assert_eq!(*group_id, bath_id);
            assert_eq!(*queue, [id1]);
        }
        other => panic!("{other:?}"),
    }
}

#[test]
fn a_turn_with_two_slots_has_two_assignees() {
    let (mut st, id1, id2) = two_person_state();
    st.cleaning_groups[0].slots = vec![CleaningSlot::new("Floor"), CleaningSlot::new("Oven")];
    for e in materialize(&st, 1) {
        st.apply_event(e).unwrap();
    }
    let (year, week) = current_iso_week();
    let people = st.turn_assignees(&st.cleaning_groups[0], Turn { year, week, shift: 0 }, today());
    let ids: Vec<&PersonId> = people.into_iter().map(|p| &p.unwrap().id).collect();
    assert_eq!(ids, [&id1, &id2]);
}

#[test]
fn a_slot_is_changed_in_place() {
    let mut g = CleaningGroup::new("Kitchen");
    g.slots = vec![CleaningSlot::new("Floor"), CleaningSlot::new("Oven")];
    let id = g.slots[1].id.clone();
    g.slot_by_id_mut(&id).unwrap().name = "Stove".to_owned();
    assert_eq!(g.slot_by_id(&id).unwrap().name, "Stove");
    assert_eq!(g.slots[0].name, "Floor");
    assert!(g.slot_by_id_mut(&"none".to_owned()).is_none());
}
