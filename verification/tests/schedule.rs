use cleaning_bot::calendar::now;
use cleaning_bot::domain::{CleaningGroup, Person};
use cleaning_bot::ical::render_ics;
use cleaning_bot::pdf::render_tex;
use cleaning_bot::rhythm::Rhythm;
use cleaning_bot::schedule::build_schedule;
use cleaning_bot::state::State;

fn simple_state() -> State {
    let mut st = State::default();
    st.created_at = Some(now());

    let p = Person::new_matrix("@alice:example.org");
    let pid = p.id.clone();
    st.persons.push(p);

    let mut g = CleaningGroup::new("Kitchen");
    g.member_ids.push(pid);
    st.cleaning_groups.push(g);
    st
}

#[test]
fn snapshot_is_deterministic() {
    let st = simple_state();
    let s1 = build_schedule(&st, 4);
    let s2 = build_schedule(&st, 4);

    assert_eq!(s1.assignments.len(), s2.assignments.len());
    for (a, b) in s1.assignments.iter().zip(s2.assignments.iter()) {
        assert_eq!(a.uid, b.uid, "UIDs must be stable");
        assert_eq!(a.iso_year, b.iso_year);
        assert_eq!(a.iso_week, b.iso_week);
        assert_eq!(a.group_id, b.group_id);
    }
}

#[test]
fn uid_is_stable_across_rebuilds() {
    let st = simple_state();
    let s1 = build_schedule(&st, 2);
    let s2 = build_schedule(&st, 2);
    assert_eq!(s1.assignments[0].uid, s2.assignments[0].uid);
}

#[test]
fn state_timestamp_is_deterministic() {
    let st = simple_state();
    let s1 = build_schedule(&st, 2);
    let s2 = build_schedule(&st, 2);
    assert_eq!(s1.state_timestamp, s2.state_timestamp);
}

#[test]
fn no_assignee_when_group_is_empty() {
    let mut st = State::default();
    st.created_at = Some(now());
    st.cleaning_groups.push(CleaningGroup::new("EmptyGroup"));

    let snap = build_schedule(&st, 1);
    assert_eq!(snap.assignments.len(), 1);
    assert!(snap.assignments[0].assignee.is_none());
}

#[test]
fn for_person_filters_correctly() {
    let st = simple_state();
    let snap = build_schedule(&st, 4);
    let person_id = st.persons[0].id.clone();
    let filtered = snap.for_person(&person_id);
    assert_eq!(
        filtered.len(),
        snap.assignments
            .iter()
            .filter(|a| a.assignee.is_some())
            .count()
    );
}

fn alice_state() -> State {
    let mut st = State::default();
    st.created_at = Some(now());
    st.last_modified = st.created_at;
    let p = Person::new_matrix("@alice:example.org");
    let id = p.id.clone();
    st.persons.push(p);
    let mut g = CleaningGroup::new("Kitchen");
    g.member_ids.push(id);
    st.cleaning_groups.push(g);
    st
}

#[test]
fn ics_output_is_deterministic() {
    let st = alice_state();
    let sn1 = build_schedule(&st, 4);
    let sn2 = build_schedule(&st, 4);
    let id = &st.persons[0].id;
    assert_eq!(render_ics(&sn1, id), render_ics(&sn2, id));
}

#[test]
fn ics_contains_stable_uids() {
    let st = alice_state();
    let sn1 = build_schedule(&st, 2);
    let sn2 = build_schedule(&st, 2);
    let id = &st.persons[0].id;
    let body1 = render_ics(&sn1, id);
    let body2 = render_ics(&sn2, id);
    let uids1: Vec<&str> = body1.lines().filter(|l| l.starts_with("UID:")).collect();
    let uids2: Vec<&str> = body2.lines().filter(|l| l.starts_with("UID:")).collect();
    assert_eq!(uids1, uids2, "UIDs must be stable");
    assert!(!uids1.is_empty(), "should have at least one VEVENT");
}

#[test]
fn ics_empty_for_unknown_person() {
    let st = alice_state();
    let sn = build_schedule(&st, 4);
    let ics = render_ics(&sn, &"not-a-real-uuid".to_owned());
    assert!(!ics.contains("BEGIN:VEVENT"), "no events for unknown person");
}

fn bob_state() -> State {
    let mut st = State::default();
    st.created_at = Some(now());
    st.last_modified = st.created_at;
    let p = Person::new_matrix("@bob:example.org");
    let id = p.id.clone();
    st.persons.push(p);
    let mut g = CleaningGroup::new("Hallway");
    g.member_ids.push(id);
    st.cleaning_groups.push(g);
    st
}

#[test]
fn tex_output_is_deterministic() {
    let st = bob_state();
    let sn1 = build_schedule(&st, 4);
    let sn2 = build_schedule(&st, 4);
    assert_eq!(render_tex(&sn1, 1), render_tex(&sn2, 1));
}

#[test]
fn tex_contains_group_name() {
    let st = bob_state();
    let sn = build_schedule(&st, 2);
    let tex = render_tex(&sn, 1);
    assert!(tex.contains("Hallway"), "group name must appear in .tex output");
}

#[test]
fn tex_column_headers_are_english() {
    let st = bob_state();
    let sn = build_schedule(&st, 2);
    let tex = render_tex(&sn, 1);
    assert!(tex.contains("Responsible"), "column headers must be in English");
    assert!(tex.contains("Area / Rooms"));
    assert!(!tex.contains("Putzplan"));
}

#[test]
fn each_group_gets_its_own_section() {
    let mut st = State::default();
    st.created_at = Some(now());
    for name in ["Floor A", "Floor B"] {
        let p = Person::new_named(name);
        let pid = p.id.clone();
        st.persons.push(p);
        let mut g = CleaningGroup::new(name);
        g.member_ids.push(pid);
        st.cleaning_groups.push(g);
    }
    let sn = build_schedule(&st, 2);
    let tex = render_tex(&sn, 1);
    assert!(tex.contains("Floor A"));
    assert!(tex.contains("Floor B"));
    assert!(tex.contains(r"\clearpage"), "groups must be separated by \\clearpage");
}

#[test]
fn uses_longtable_not_tabularx() {
    let st = bob_state();
    let sn = build_schedule(&st, 2);
    let tex = render_tex(&sn, 1);
    assert!(tex.contains("longtable"), "must use longtable for page-breaking");
    assert!(!tex.contains("tabularx"), "tabularx cannot break across pages");
}

#[test]
fn an_assignment_knows_whom_to_mention() {
    let mut st = simple_state();
    let snap = build_schedule(&st, 1);
    assert_eq!(snap.assignments[0].assignee_mxid(), Some("@alice:example.org"));
    st.persons[0].matrix_id = None;
    let snap = build_schedule(&st, 1);
    assert_eq!(snap.assignments[0].assignee_mxid(), None);
}

#[test]
fn every_line_of_a_calendar_is_short_and_ends_in_crlf() {
    let mut st = alice_state();
    st.cleaning_groups[0].name = "Küche und Flur; ".repeat(9);
    st.cleaning_groups[0].room_names = vec!["Erster\nZweiter, Dritter".to_owned()];
    let sn = build_schedule(&st, 5);
    let id = st.persons[0].id.clone();
    let ics = render_ics(&sn, &id);
    assert!(ics.ends_with("\r\n"));
    for line in ics.split_inclusive('\n') {
        assert!(line.ends_with("\r\n"), "{line:?}");
        assert!(line.len() - 2 <= 75, "{line:?}");
    }
    let marks: Vec<String> = ics
        .split_inclusive('\n')
        .filter(|l| *l == "BEGIN:VEVENT\r\n" || l.starts_with("UID:"))
        .map(|l| l.to_owned())
        .collect();
    let mine = sn.for_person(&id);
    assert_eq!(mine.len(), 5);
    let mut expected: Vec<String> = vec![];
    for a in &mine {
        assert_eq!(a.uid.len(), 36);
        assert!(a.uid.chars().all(|c| matches!(c, '0'..='9' | 'a'..='f' | '-')), "{}", a.uid);
        expected.push("BEGIN:VEVENT\r\n".to_owned());
        expected.push(format!("UID:{}\r\n", a.uid));
    }
    assert_eq!(marks, expected);
}

#[test]
fn the_shifts_of_a_week_share_its_row_heading() {
    let mut st = bob_state();
    st.cleaning_groups[0].rhythm =
        Rhythm { every_weeks: Some(1), shift_starts: Rhythm::times_per_week(2) };
    let sn = build_schedule(&st, 2);
    assert_eq!(sn.assignments.len(), 4);
    let tex = render_tex(&sn, 1);
    assert_eq!(tex.matches("\\cline{3-6}").count(), 2);
    for a in &sn.assignments {
        assert_eq!(tex.matches(&format!("\\textbf{{{}}}", a.iso_week)).count(), 1);
    }
}

#[test]
fn entries_stand_by_first_day_and_then_by_group() {
    let mut st = bob_state();
    let mut hall = CleaningGroup::new("Attic");
    hall.member_ids.push(st.persons[0].id.clone());
    hall.rhythm = Rhythm { every_weeks: Some(1), shift_starts: Rhythm::times_per_week(2) };
    st.cleaning_groups.push(hall);
    let sn = build_schedule(&st, 2);
    let names: Vec<&str> = sn.assignments.iter().map(|a| a.group_name.as_str()).collect();
    assert_eq!(names, ["Hallway", "Attic", "Attic", "Hallway", "Attic", "Attic"]);
    for all in [sn.assignments.iter().collect(), sn.for_person(&st.persons[0].id)] {
        let days: Vec<i32> = all.iter().map(|a| a.start.day).collect();
        assert!(days.windows(2).all(|d| d[0] <= d[1]), "{days:?}");
    }
}
