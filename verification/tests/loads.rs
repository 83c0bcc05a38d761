use cleaning_bot::analytics::PersonShare;
use cleaning_bot::calendar::{now, today};
use cleaning_bot::commands::groups::{group_detail_text, Factors, RoomFactor};
use cleaning_bot::commands::load::{
    group_load_text, workload_text, GroupLoad, LoadFigure, SlotLoad,
};
use cleaning_bot::commands::outlook::{announce_reply, Announced};
use cleaning_bot::commands::stats::pages;
use cleaning_bot::domain::{CleaningGroup, CleaningSlot};
use cleaning_bot::state::State;

fn person(name: &str, groups: &[&str]) -> PersonShare {
    PersonShare {
        display_name: name.to_owned(),
        group_names: groups.iter().map(|g| g.to_string()).collect(),
        groups: vec![],
    }
}

fn figure(expected: u64, done: u64, ratio: &str) -> LoadFigure {
    LoadFigure {
        expected,
        done,
        ratio: ratio.to_owned(),
        delta: "+1.0%".to_owned(),
        icon: "🟢".to_owned(),
    }
}

#[test]
fn whoever_has_most_to_do_is_listed_first() {
    let people = vec![
        person("Alice", &["Kitchen"]),
        person("Bob", &["Bath", "Attic"]),
        person("Cleo", &["Attic"]),
    ];
    let figures = vec![figure(10, 7, "1.00"), figure(20, 3, "2.00"), figure(10, 9, "1.00")];
    assert_eq!(
        workload_text(8, "0.15", &people, &figures),
        "🏋️ **Load** · 8 wks · 0.15 yr\n\
         🟢 **Bob**  +1.0% · 2.00× · Bath, Attic\n\
         🟢 **Alice**  +1.0% · 1.00× · Kitchen\n\
         🟢 **Cleo**  +1.0% · 1.00× · Attic\n\
         ⬆ Cleo · ⬇ Bob"
    );
    assert_eq!(
        workload_text(3, "0.06", &people, &figures),
        "🏋️ **Expected load** (structural · 3 wks tracked)\n\
         **Bob**  2.00× · Bath, Attic\n\
         **Alice**  1.00× · Kitchen\n\
         **Cleo**  1.00× · Attic"
    );
    assert_eq!(
        workload_text(8, "0.15", &vec![], &vec![]),
        "No members assigned to any group yet."
    );
}

#[test]
fn groups_tell_what_they_ask_of_their_members() {
    let mut state = State::default();
    let mut kitchen = CleaningGroup::new("Kitchen");
    kitchen.slots.push(CleaningSlot::new("Oven"));
    let mut attic = CleaningGroup::new("Attic");
    attic.is_active = false;
    state.cleaning_groups = vec![kitchen, CleaningGroup::new("Bath"), attic];
    let load = |ratio: &str, slots: Vec<SlotLoad>| GroupLoad {
        ratio: ratio.to_owned(),
        rooms: "2".to_owned(),
        factor: None,
        slots,
        room_factors: vec![],
    };
    let oven = SlotLoad { rooms: "3".to_owned(), factor: Some("1.5".to_owned()) };
    let mut loads = vec![load("1.25", vec![oven]), load("0.75", vec![]), load("9.99", vec![])];
    loads[1].factor = Some("2.0".to_owned());
    for (room, factor) in [("Tub", "3.0"), ("Basin", "0.5")] {
        loads[1].room_factors.push(RoomFactor {
            room: room.to_owned(),
            factor: factor.to_owned(),
        });
    }
    assert_eq!(
        group_load_text(&state, &loads),
        "📊 **Groups**  (1.0× = avg load/person/yr)\n\
         **Kitchen**  1.25× · 1p · weekly · 2r\n  └ Oven  3r ×1.5\n\
         **Bath**  0.75× · 1p · weekly · 2r · ×2.0\n  weights: Basin ×0.5, Tub ×3.0"
    );
    for group in &mut state.cleaning_groups {
        group.is_active = false;
    }
    assert_eq!(group_load_text(&state, &loads), "No active cleaning groups configured.");
}

#[test]
fn the_factors_of_rooms_are_listed_in_order() {
    let mut state = State::default();
    state.created_at = Some(now());
    state.cleaning_groups.push(CleaningGroup::new("Bath"));
    let room = |room: &str| RoomFactor { room: room.to_owned(), factor: "2.0".to_owned() };
    let factors = Factors { group: None, slots: vec![], rooms: vec![room("Tub"), room("Basin")] };
    let text = group_detail_text(&state, &state.cleaning_groups[0], &factors, today());
    assert!(text.ends_with("\nRoom weights: Basin ×2.0, Tub ×2.0"), "{text}");
}

#[test]
fn an_announcement_is_told_by_what_came_of_it() {
    assert_eq!(announce_reply(&Announced::Posted), "📋 Weekly plan announced and pinned.");
    assert_eq!(
        announce_reply(&Announced::NothingDue),
        "Nothing is due this week — no plan to announce."
    );
    assert_eq!(
        announce_reply(&Announced::Failed("offline".to_owned())),
        "❌ Failed to announce weekly plan: offline"
    );
    assert_eq!(pages("a", "b"), "a\n\nb");
    assert_eq!(pages("a", ""), "a");
}
