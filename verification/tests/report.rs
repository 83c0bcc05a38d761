use cleaning_bot::calendar::{current_iso_week, now, today, Timestamp};
use cleaning_bot::domain::{CleaningGroup, CleaningSlot, Person, SlotAssignment};
use cleaning_bot::report::describe_state;
use cleaning_bot::state::{Absence, Completion, State};

fn described(state: &State, weights: &Vec<Option<String>>) -> String {
    describe_state(
        state,
        today(),
        "store/state.json",
        &Some("2025-01-06T00:00:00Z".to_owned()),
        &None,
        weights,
    )
}

#[test]
fn an_empty_state_is_described() {
    let text = described(&State::default(), &vec![]);
    let bar = "═══════════════════════════════════════════════";
    assert_eq!(
        text,
        [
            bar,
            "  cleaning-bot state: store/state.json",
            bar,
            "",
            "Created:       2025-01-06T00:00:00Z",
            "",
            "── Persons (0) ──────────────────────────────",
            "",
            "── Groups (0) ───────────────────────────────",
            "",
            "── Completions: 0 done, 0 skipped ─────────",
            "",
            "── Future schedule (next 10 assignments) ────",
            "",
            "── Validation ────────────────────────────────",
            "  Completion counts per group:",
            "",
            "  ✅ No issues found.",
        ]
        .join("\n")
    );
}

#[test]
fn persons_groups_and_plans_are_described() {
    let mut state = State::default();
    let alice = Person::new_matrix("@alice:example.org");
    let bob = Person::new_named("Bob");
    let mut group = CleaningGroup::new("Kitchen");
    group.member_ids.push(alice.id.clone());
    group.slots.push(CleaningSlot::new("Floor"));
    let (year, week) = current_iso_week();
    state.slot_assignments.push(SlotAssignment {
        group_id: group.id.clone(),
        slot_index: 0,
        iso_year: year,
        iso_week: week,
        shift: 0,
        person_id: Some(alice.id.clone()),
        source: Default::default(),
    });
    for (i, skipped) in [false, true, false].into_iter().enumerate() {
        state.completions.push(Completion {
            group_id: group.id.clone(),
            slot_id: None,
            completed_by_id: alice.id.clone(),
            responsible_person_ids: vec![],
            iso_year: 2025,
            iso_week: i as u32 + 1,
            shift: 0,
            completed_at: Timestamp { secs: now().secs + i as i64, nanos: 0 },
            skipped,
        });
    }
    state.absences.push(Absence {
        person_id: alice.id.clone(),
        group_id: group.id.clone(),
        from_year: 2025,
        from_week: 7,
        duration_weeks: 2,
    });
    let name = alice.display_name.clone();
    state.persons.extend([alice, bob]);
    state.cleaning_groups.push(group);

    let text = described(&state, &vec![Some("2.00".to_owned())]);
    let lines: Vec<&str> = text.split('\n').collect();
    for line in [
        format!("  Kitchen (1 members): {name}"),
        "    slot «Floor»: (no rooms)".to_owned(),
        "    weight: 2.00×".to_owned(),
        "── Completions: 2 done, 1 skipped ─────────".to_owned(),
        format!("  {year:04}-W{week:02}  Kitchen{:<28} → {name} ← THIS WEEK", " / Floor"),
        format!("  {name} in Kitchen: from 2025-W07 for 2 weeks"),
        "── Stubs / ungrouped persons (1) ──────────".to_owned(),
        "  Bob (no mxid) — no group".to_owned(),
        "    Kitchen: 2 done, 1 skipped".to_owned(),
        format!("  {:<24}  {:<36}  ⚠ no group", "Bob", "(no matrix)"),
    ] {
        assert!(lines.contains(&line.as_str()), "{line}\n{text}");
    }
    let late = text.find("2025-W03").unwrap();
    let early = text.find("2025-W01").unwrap();
    assert!(late < early);
    assert!(!text.contains("2025-W02"));
}
