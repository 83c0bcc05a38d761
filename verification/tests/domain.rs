use cleaning_bot::domain::{
    assignment_uid, calendar_token_of, default_weight, fingerprint, new_calendar_token,
    slot_assignment_uid, verify_calendar_token, CleaningGroup, CleaningSlot, Person,
};

#[test]
fn an_issued_token_is_accepted_and_no_other() {
    let (token, hash) = new_calendar_token();
    assert_eq!(token.len(), 64);
    assert_eq!(hash.len(), 64);
    assert!(verify_calendar_token(&token, &hash));
    assert!(verify_calendar_token(&token.to_uppercase(), &hash));
    let (other, _) = new_calendar_token();
    assert!(!verify_calendar_token(&other, &hash));
    assert!(!verify_calendar_token("not hex", &hash));
    assert!(!verify_calendar_token(&token[1..], &hash));
}

#[test]
fn a_token_is_written_in_hex_and_stored_as_its_hash() {
    let (token, hash) = calendar_token_of(&vec![0, 255]);
    assert_eq!(token, "00ff");
    assert_eq!(hash, "06eb7d6a69ee19e5fbdf749018d3d2abfa04bcbd1365db312eb86dc7169389b8");
}

#[test]
fn a_fingerprint_is_the_hash_of_the_text() {
    assert_eq!(
        fingerprint("abc"),
        "ba7816bf8f01cfea414140de5dae2223b00361a396177a9cb410ff61f20015ad"
    );
}

#[test]
fn uids_are_derived_from_what_they_stand_for() {
    assert_eq!(assignment_uid("g", 2025, 3, "p"), "339e263d-14b2-5bdd-913d-c4f587caa4b5");
    assert_eq!(
        slot_assignment_uid("g", "s", 2025, 40, "p"),
        "2f8cc4ad-7d23-565a-bb6f-4c8e6b0bf3cd"
    );
    assert_ne!(assignment_uid("g", 2025, 3, "p"), assignment_uid("g", 2025, 4, "p"));
}

#[test]
fn new_people_groups_and_slots_have_ids_of_their_own() {
    let (a, b) = (Person::new_named("Anna"), Person::new_named("Anna"));
    assert_ne!(a.id, b.id);
    assert_eq!(a.id.len(), 36);
    assert!(a.active && a.matrix_id.is_none());
    assert_ne!(CleaningGroup::new("x").id, CleaningGroup::new("x").id);
    assert_ne!(CleaningSlot::new("x").id, CleaningSlot::new("x").id);
    assert_eq!(f64::from_bits(default_weight().bits), 1.0);
}

#[test]
fn people_answer_to_their_account_and_their_name() {
    let p = Person::new_matrix("@alice:example.org");
    assert_eq!(p.display_name, "alice");
    assert!(p.matches("@alice:example.org"));
    assert!(p.matches("Alice"));
    assert!(!p.matches("bob"));
}

#[test]
fn slots_are_found_by_name_and_id() {
    let mut group = CleaningGroup::new("Floor");
    assert_eq!(group.people_per_turn(), 1);
    assert!(!group.is_multi_slot());
    let mut bath = CleaningSlot::new("Bath");
    bath.id = "bath".to_owned();
    group.slots = vec![CleaningSlot::new("Kitchen"), bath];
    assert!(group.is_multi_slot());
    assert_eq!(group.people_per_turn(), 2);
    assert_eq!(group.slot_position("bath"), Some(1));
    assert_eq!(group.slot_position_by_id("bath"), Some(1));
    assert_eq!(group.slot_by_name("BATH").unwrap().id, "bath");
    assert!(group.slot_by_id(&"kitchen".to_owned()).is_none());
}
