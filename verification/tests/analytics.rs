use cleaning_bot::analytics::{
    active_group_names, backfill_events, count_cleaned, fairness_counts, global_leaderboard,
    group_stats, person_stats, workload_counts, DomainEvent,
};
use cleaning_bot::calendar::{add_weeks, current_iso_week, now, today, Timestamp};
use cleaning_bot::domain::{CleaningGroup, Person, SlotAssignment};
use cleaning_bot::state::{Completion, State};

fn completion(group_id: &str, person_id: &str, week: (i32, u32), skipped: bool) -> Completion {
    Completion {
        group_id: group_id.to_owned(),
        slot_id: None,
        completed_by_id: person_id.to_owned(),
        responsible_person_ids: vec![],
        iso_year: week.0,
        iso_week: week.1,
        shift: 0,
        completed_at: now(),
        skipped,
    }
}

#[test]
fn backfill_produces_events_from_completions() {
    let mut st = State::default();
    st.created_at = Some(now());

    let p = Person::new_matrix("@alice:example.org");
    let pid = p.id.clone();
    st.persons.push(p);
    let mut g = CleaningGroup::new("Kitchen");
    let gid = g.id.clone();
    g.member_ids.push(pid.clone());
    st.cleaning_groups.push(g);

    st.completions.push(completion(&gid, &pid, (2025, 10), false));

    let events = backfill_events(&st);
    assert_eq!(events.len(), 1);
    assert!(matches!(events[0].event, DomainEvent::CleaningCompleted { .. }));
}

/// Two people, one cleaning each in 2025, tracked since 1970.
fn even_state() -> (State, String, String, String) {
    let mut st = State::default();
    st.created_at = Some(Timestamp { secs: 0, nanos: 0 });
    let p1 = Person::new_matrix("@alice:example.org");
    let p2 = Person::new_matrix("@bob:example.org");
    let (pid1, pid2) = (p1.id.clone(), p2.id.clone());
    st.persons = vec![p1, p2];
    let mut g = CleaningGroup::new("TestGroup");
    let gid = g.id.clone();
    g.member_ids = vec![pid1.clone(), pid2.clone()];
    st.cleaning_groups.push(g);
    for (pid, week) in [(&pid1, 1), (&pid2, 2)] {
        st.completions.push(completion(&gid, pid, (2025, week), false));
    }
    (st, gid, pid1, pid2)
}

#[test]
fn everybody_is_counted_for_what_they_cleaned() {
    let (st, gid, pid1, pid2) = even_state();
    let counts = fairness_counts(&st, &gid, today()).unwrap();
    assert_eq!((counts.slots, counts.members), (1, 2));
    assert_eq!(counts.entries.iter().map(|e| e.actual).collect::<Vec<_>>(), [1, 1]);
    assert!(counts.due_weeks > 2800);
    assert_eq!(count_cleaned(&st, &gid, &pid1), 1);
    assert_eq!(count_cleaned(&st, &gid, &pid2), 1);
    assert_eq!(count_cleaned(&st, "elsewhere", &pid1), 0);
    assert!(fairness_counts(&st, "elsewhere", today()).is_none());
}

#[test]
fn the_load_of_a_person_is_shared_by_group() {
    let (st, gid, ..) = even_state();
    let (weeks, people) = workload_counts(&st, today());
    assert!(weeks > 2800);
    assert_eq!(people.len(), 2);
    assert_eq!(people[0].groups.len(), 1);
    assert_eq!(people[0].groups[0].group_id, gid);
    assert_eq!(people[0].groups[0].members, 2);
    assert_eq!(people[0].groups[0].cleaned, 1);
}

#[test]
fn statistics_add_up() {
    let (mut st, gid, pid1, pid2) = even_state();
    let (y, w) = current_iso_week();
    let at = add_weeks(y, w, -3);
    st.created_at = Some(Timestamp { secs: now().secs - 3 * 7 * 86400, nanos: 0 });
    for (n, who) in [(3, &pid1), (2, &pid2), (1, &pid1)] {
        let week = add_weeks(y, w, -n);
        st.slot_assignments.push(SlotAssignment {
            group_id: gid.clone(),
            slot_index: 0,
            iso_year: week.0,
            iso_week: week.1,
            shift: 0,
            person_id: Some(who.clone()),
            source: Default::default(),
        });
    }
    st.completions = vec![
        completion(&gid, &pid1, at, false),
        completion(&gid, &pid2, add_weeks(y, w, -2), true),
    ];
    let group = group_stats(&st, &gid).unwrap();
    assert_eq!(group.due_weeks, 3);
    assert_eq!((group.completed, group.skipped, group.missed), (1, 1, 1));
    assert_eq!(group.member_count, 2);
    let alice = person_stats(&st, &pid1).unwrap();
    assert_eq!((alice.due_weeks, alice.completed, alice.missed), (2, 1, 1));
    let bob = person_stats(&st, &pid2).unwrap();
    assert_eq!((bob.skipped, bob.completed, bob.missed), (1, 0, 0));
    let board = global_leaderboard(&st);
    assert_eq!(board.len(), 2);
    assert_eq!(board[0].person_id, pid1);
    assert_eq!(active_group_names(&st, &pid1), ["TestGroup"]);
    assert!(person_stats(&st, "nobody").is_none());
}
