//! What the groups look like: members, turn order, slots, rooms and workload factors.

use vstd::prelude::*;

use crate::calendar::{is_today, is_year, lemma_today, Date};
use crate::commands::assignments::lemma_known_group;
use crate::commands::base::{current_week, full_label, person_label, CommandError};
use crate::commands::members::{next_assignment_summary, summary};
use crate::commands::overview::{
    away_sign, line_texts, plain_name, put_lines, show_away, show_name, week_lines, week_task_lines,
};
use crate::commands::people::active;
use crate::domain::{CleaningGroup, CleaningSlot, Person};
use crate::lists::{lemma_filter_step, lemma_first_index_is};
use crate::planning::{dated_in, group_dates_fit, is_known, known, this_week};
use crate::resolver::{reconcile_queue, turn_order};
use crate::sorting::{ordered, sort_texts};
use crate::state::{group_named, State};
use crate::text::{decimal, join, join_texts, put_text, put_texts, show, views};

verus! {

// ── All groups ───────────────────────────────────────────────────────────────

/// A member by name, with a sign when they are away.
pub open spec fn member_text(state: State, group: CleaningGroup, p: Person, week: (i32, u32)) -> Seq<char> {
    plain_name(p) + away_sign(state, p, group.id@, week)
}

/// The members of a group by name.
pub open spec fn members_text(state: State, group: CleaningGroup, week: (i32, u32)) -> Seq<char> {
    let members = state.persons_of(group.member_ids@);
    if members.len() == 0 {
        "no members"@
    } else {
        join(members.map_values(|p: Person| member_text(state, group, p, week)), ", "@)
    }
}

/// A slot with its rooms.
pub open spec fn slot_text(slot: CleaningSlot) -> Seq<char> {
    if slot.room_names@.len() == 0 {
        slot.name@
    } else {
        slot.name@ + " ("@ + join(views(slot.room_names@), ", "@) + ")"@
    }
}

/// The slots of a group with their rooms, or its rooms.
pub open spec fn rooms_lines(group: CleaningGroup) -> Seq<Seq<char>> {
    if group.slots@.len() > 0 {
        seq![
            "Slots: "@ + join(
                group.slots@.map_values(|s: CleaningSlot| slot_text(s)),
                " · "@,
            ),
        ]
    } else {
        match group.rooms_line() {
            Some(t) => seq![t],
            None => Seq::empty(),
        }
    }
}

/// What the overview says of a group.
pub open spec fn group_lines(state: State, group: CleaningGroup, week: (i32, u32)) -> Seq<Seq<char>> {
    seq![
        ""@,
        "**"@ + group.name@ + "** ("@ + decimal(state.persons_of(group.member_ids@).len())
            + ") · "@ + members_text(state, group, week),
    ] + rooms_lines(group)
}

/// What the overview says of the active ones of groups.
pub open spec fn active_lines(state: State, groups: Seq<CleaningGroup>, week: (i32, u32)) -> Seq<Seq<char>>
    decreases groups.len(),
{
    if groups.len() == 0 {
        Seq::empty()
    } else {
        let r = active_lines(state, groups.drop_last(), week);
        if groups.last().is_active {
            r + group_lines(state, groups.last(), week)
        } else {
            r
        }
    }
}

/// A group that takes no part at the moment.
pub open spec fn disabled() -> spec_fn(CleaningGroup) -> bool {
    |g: CleaningGroup| !g.is_active
}

/// Every group with its members at a glance.
pub open spec fn all_groups(state: State, today: Date) -> Seq<char> {
    let groups = state.cleaning_groups@;
    let off = groups.filter(disabled());
    if groups.len() == 0 {
        "No cleaning groups configured yet."@
    } else {
        join(
            seq!["🏢 **Cleaning groups** ("@ + decimal(groups.filter(active()).len()) + ")"@]
                + active_lines(state, groups, this_week(today)) + (if off.len() == 0 {
                Seq::empty()
            } else {
                seq![
                    ""@,
                    "🚫 Disabled: "@ + join(off.map_values(|g: CleaningGroup| g.name@), ", "@),
                ]
            }),
            "\n"@,
        )
    }
}

/// The members of a group by name.
fn show_members(state: &State, group: &CleaningGroup, members: &Vec<&Person>, week: (i32, u32)) -> (r:
    String)
    requires
        state.wf(),
        is_year(week.0 as int),
        members@.len() == state.persons_of(group.member_ids@).len(),
        forall|i: int|
            0 <= i < members@.len() ==> *(#[trigger] members@[i]) == state.persons_of(
                group.member_ids@,
            )[i],
    ensures
        r@ == members_text(*state, *group, week),
{
    if members.len() == 0 {
        return "no members".to_owned();
    }
    let ghost all = state.persons_of(group.member_ids@).map_values(
        |p: Person| member_text(*state, *group, p, week),
    );
    let mut names: Vec<String> = Vec::new();
    let mut i: usize = 0;
    assert(views(names@) =~= all.take(0));
    while i < members.len()
        invariant
            i <= members.len(),
            state.wf(),
            is_year(week.0 as int),
            members@.len() == state.persons_of(group.member_ids@).len(),
            forall|k: int|
                0 <= k < members@.len() ==> *(#[trigger] members@[k]) == state.persons_of(
                    group.member_ids@,
                )[k],
            all == state.persons_of(group.member_ids@).map_values(
                |p: Person| member_text(*state, *group, p, week),
            ),
            views(names@) == all.take(i as int),
        decreases members.len() - i,
    {
        let p = members[i];
        let name = show_name(p).concat(show_away(state, p, group.id.as_str(), week));
        assert(all.take(i + 1) =~= all.take(i as int).push(name@));
        put_text(&mut names, name);
        i += 1;
    }
    assert(all.take(i as int) =~= all);
    join_texts(&names, ", ")
}

/// The slots of a group with their rooms, or its rooms.
fn show_rooms(group: &CleaningGroup) -> (r: Vec<String>)
    ensures
        views(r@) == rooms_lines(*group),
{
    let mut r: Vec<String> = Vec::new();
    assert(views(r@) =~= Seq::<Seq<char>>::empty());
    if group.slots.len() > 0 {
        let ghost all = group.slots@.map_values(|s: CleaningSlot| slot_text(s));
        let mut slots: Vec<String> = Vec::new();
        let mut i: usize = 0;
        assert(views(slots@) =~= all.take(0));
        while i < group.slots.len()
            invariant
                i <= group.slots.len(),
                all == group.slots@.map_values(|s: CleaningSlot| slot_text(s)),
                views(slots@) == all.take(i as int),
            decreases group.slots.len() - i,
        {
            let s = &group.slots[i];
            let t: String = if s.room_names.len() == 0 {
                s.name.clone()
            } else {
                s.name.clone().concat(" (").concat(join_texts(&s.room_names, ", ").as_str()).concat(
                    ")",
                )
            };
            assert(all.take(i + 1) =~= all.take(i as int).push(t@));
            put_text(&mut slots, t);
            i += 1;
        }
        assert(all.take(i as int) =~= all);
        put_text(&mut r, "Slots: ".to_owned().concat(join_texts(&slots, " · ").as_str()));
    } else {
        match group.rooms_text() {
            Some(t) => {
                put_text(&mut r, t);
            },
            None => {},
        }
    }
    assert(views(r@) =~= rooms_lines(*group));
    r
}

/// The names of the groups that take no part at the moment.
fn disabled_names(groups: &Vec<CleaningGroup>) -> (r: Vec<String>)
    ensures
        views(r@) == groups@.filter(disabled()).map_values(|g: CleaningGroup| g.name@),
{
    let ghost f = |g: CleaningGroup| g.name@;
    let mut r: Vec<String> = Vec::new();
    let mut i: usize = 0;
    proof {
        assert(groups@.take(0).filter(disabled()) =~= Seq::<CleaningGroup>::empty()) by {
            reveal(Seq::filter);
        }
        assert(views(r@) =~= Seq::<CleaningGroup>::empty().map_values(f));
    }
    while i < groups.len()
        invariant
            i <= groups.len(),
            f == (|g: CleaningGroup| g.name@),
            views(r@) == groups@.take(i as int).filter(disabled()).map_values(f),
        decreases groups.len() - i,
    {
        let g = &groups[i];
        proof {
            lemma_filter_step(groups@, disabled(), i as int);
        }
        if !g.is_active {
            proof {
                let before = groups@.take(i as int).filter(disabled());
                assert(before.push(*g).map_values(f) =~= before.map_values(f).push(g.name@));
            }
            put_text(&mut r, g.name.clone());
        }
        i += 1;
    }
    assert(groups@.take(i as int) =~= groups@);
    r
}

/// Every group with its members at a glance.
pub fn groups_text(state: &State, today: Date) -> (r: String)
    requires
        state.wf(),
        is_today(today.day as int),
    ensures
        r@ == all_groups(*state, today),
{
    let groups = &state.cleaning_groups;
    if groups.len() == 0 {
        return "No cleaning groups configured yet.".to_owned();
    }
    let week = current_week(today);
    let mut body: Vec<String> = Vec::new();
    let mut n: usize = 0;
    let mut i: usize = 0;
    proof {
        assert(views(body@) =~= Seq::<Seq<char>>::empty());
        assert(groups@.take(0) =~= Seq::<CleaningGroup>::empty());
        assert(groups@.take(0).filter(active()) =~= Seq::<CleaningGroup>::empty()) by {
            reveal(Seq::filter);
        }
    }
    while i < groups.len()
        invariant
            i <= groups.len(),
            groups == &state.cleaning_groups,
            state.wf(),
            week == this_week(today),
            is_year(week.0 as int),
            n <= i,
            n == groups@.take(i as int).filter(active()).len(),
            views(body@) == active_lines(*state, groups@.take(i as int), week),
        decreases groups.len() - i,
    {
        let g = &groups[i];
        proof {
            lemma_filter_step(groups@, active(), i as int);
            let more = groups@.take(i + 1);
            assert(more.drop_last() =~= groups@.take(i as int));
            assert(more.last() == *g);
        }
        if g.is_active {
            let ghost before = views(body@);
            let members = state.members_of(g);
            put_text(&mut body, "".to_owned());
            put_text(
                &mut body,
                "**".to_owned().concat(g.name.as_str()).concat("** (").concat(
                    show(members.len() as u64).as_str(),
                ).concat(") · ").concat(show_members(state, g, &members, week).as_str()),
            );
            let rooms = show_rooms(g);
            put_texts(&mut body, &rooms);
            assert(views(body@) =~= before + group_lines(*state, *g, week));
            n += 1;
        }
        i += 1;
    }
    assert(groups@.take(i as int) =~= groups@);
    let mut lines: Vec<String> = Vec::new();
    let head = "🏢 **Cleaning groups** (".to_owned().concat(show(n as u64).as_str()).concat(")");
    assert(views(lines@) =~= Seq::<Seq<char>>::empty());
    put_text(&mut lines, head);
    assert(views(lines@) =~= seq![head@]);
    put_texts(&mut lines, &body);
    let off = disabled_names(groups);
    if off.len() > 0 {
        let ghost before = views(lines@);
        put_text(&mut lines, "".to_owned());
        put_text(
            &mut lines,
            "🚫 Disabled: ".to_owned().concat(join_texts(&off, ", ").as_str()),
        );
        assert(views(lines@) =~= before + seq![
            ""@,
            "🚫 Disabled: "@ + join(views(off@), ", "@),
        ]);
        assert(views(off@).len() == off@.len());
    } else {
        assert(views(off@).len() == off@.len());
        assert(views(lines@) =~= views(lines@) + Seq::<Seq<char>>::empty());
    }
    join_texts(&lines, "\n")
}

// ── One group ────────────────────────────────────────────────────────────────

/// A room with its workload factor as it is shown, "2.0".
#[derive(Clone, Debug)]
pub struct RoomFactor {
    pub room: String,
    pub factor: String,
}

/// The workload factors of a group that are not neutral, as they are shown.
#[derive(Clone, Debug)]
pub struct Factors {
    /// Of the group.
    pub group: Option<String>,
    /// Of its slots, in their order.
    pub slots: Vec<Option<String>>,
    /// Of its rooms and those of its slots.
    pub rooms: Vec<RoomFactor>,
}

/// The headline of a group in detail.
pub open spec fn detail_head(group: CleaningGroup, factors: Factors) -> Seq<char> {
    "🏢 **"@ + group.name@ + "**"@ + (if group.is_active {
        ""@
    } else {
        " · 🚫 disabled"@
    }) + (match factors.group {
        Some(w) => " · weight ×"@ + w@,
        None => ""@,
    })
}

/// Somebody in the turn order.
pub open spec fn queue_label(state: State, group: CleaningGroup, id: Seq<char>, week: (i32, u32)) -> Seq<char> {
    match state.person(id) {
        Some(p) => full_label(p) + away_sign(state, p, group.id@, week),
        None => "unknown ("@ + id + ")"@,
    }
}

/// The turn order of a group, numbered.
pub open spec fn queue_lines(state: State, group: CleaningGroup, week: (i32, u32)) -> Seq<Seq<char>> {
    let queue = turn_order(state, group);
    if queue.len() == 0 {
        seq!["No members yet."@]
    } else {
        seq!["Members, next unplanned turn first:"@] + Seq::new(
            queue.len(),
            |i: int|
                decimal((i + 1) as nat) + ". "@ + queue_label(state, group, queue[i]@, week),
        )
    }
}

/// The line about a slot.
pub open spec fn slot_line(slot: CleaningSlot, factor: Option<String>) -> Seq<char> {
    "• "@ + slot.name@ + " · "@ + (if slot.room_names@.len() == 0 {
        "no rooms"@
    } else {
        join(views(slot.room_names@), ", "@)
    }) + (match factor {
        Some(w) => " · ×"@ + w@,
        None => ""@,
    })
}

/// The factor of a slot.
pub open spec fn factor_at(factors: Factors, i: int) -> Option<String> {
    if i < factors.slots@.len() {
        factors.slots@[i]
    } else {
        None
    }
}

/// The slots of a group with their rooms and factors, or its rooms.
pub open spec fn slot_lines(group: CleaningGroup, factors: Factors) -> Seq<Seq<char>> {
    if group.slots@.len() > 0 {
        seq!["Slots:"@] + Seq::new(
            group.slots@.len(),
            |i: int| slot_line(group.slots@[i], factor_at(factors, i)),
        )
    } else {
        match group.rooms_line() {
            Some(t) => seq![t],
            None => Seq::empty(),
        }
    }
}

/// Rooms with their factors, "Kitchen ×2.0".
pub open spec fn factor_texts(rooms: Seq<RoomFactor>) -> Seq<Seq<char>> {
    rooms.map_values(|f: RoomFactor| f.room@ + " ×"@ + f.factor@)
}

/// One group in detail: turn order, this week, next turn, rooms, workload factors.
pub open spec fn detail(state: State, group: CleaningGroup, factors: Factors, today: Date) -> Seq<
    char,
> {
    let week = this_week(today);
    join(
        seq![detail_head(group, factors)] + queue_lines(state, group, week) + (if state.in_plan(
            group,
            today,
            week.0,
            week.1,
        ) {
            seq!["This week (week "@ + decimal(week.1 as nat) + "):"@] + line_texts(
                week_lines(state, group, today),
            )
        } else {
            Seq::empty()
        }) + (if turn_order(state, group).len() == 0 {
            Seq::empty()
        } else {
            seq![summary(state, group.id@, today)]
        }) + slot_lines(group, factors) + (if factors.rooms@.len() == 0 {
            Seq::empty()
        } else {
            seq!["Room weights: "@ + join(ordered(factor_texts(factors.rooms@)), ", "@)]
        }),
        "\n"@,
    )
}

/// The turn order of a group, numbered.
fn show_queue(state: &State, group: &CleaningGroup, queue: &Vec<String>, week: (i32, u32)) -> (r: Vec<
    String,
>)
    requires
        state.wf(),
        is_year(week.0 as int),
        queue@ == turn_order(*state, *group),
    ensures
        views(r@) == queue_lines(*state, *group, week),
{
    let mut r: Vec<String> = Vec::new();
    assert(views(r@) =~= Seq::<Seq<char>>::empty());
    if queue.len() == 0 {
        put_text(&mut r, "No members yet.".to_owned());
        assert(views(r@) =~= queue_lines(*state, *group, week));
        return r;
    }
    put_text(&mut r, "Members, next unplanned turn first:".to_owned());
    let ghost head = seq!["Members, next unplanned turn first:"@];
    let ghost all = Seq::new(
        queue@.len(),
        |i: int| decimal((i + 1) as nat) + ". "@ + queue_label(*state, *group, queue@[i]@, week),
    );
    let mut i: usize = 0;
    assert(views(r@) =~= head + all.take(0));
    while i < queue.len()
        invariant
            i <= queue.len(),
            state.wf(),
            is_year(week.0 as int),
            all == Seq::new(
                queue@.len(),
                |i: int|
                    decimal((i + 1) as nat) + ". "@ + queue_label(
                        *state,
                        *group,
                        queue@[i]@,
                        week,
                    ),
            ),
            views(r@) == head + all.take(i as int),
        decreases queue.len() - i,
    {
        let label: String = match state.person_by_id(queue[i].as_str()) {
            Some(p) => person_label(p).concat(show_away(state, p, group.id.as_str(), week)),
            None => "unknown (".to_owned().concat(queue[i].as_str()).concat(")"),
        };
        let line = show(i as u64 + 1).concat(". ").concat(label.as_str());
        assert(head + all.take(i + 1) =~= (head + all.take(i as int)).push(line@));
        put_text(&mut r, line);
        i += 1;
    }
    assert(all.take(i as int) =~= all);
    assert(head + all =~= queue_lines(*state, *group, week));
    r
}

/// The slots of a group with their rooms and factors, or its rooms.
fn show_slots(group: &CleaningGroup, factors: &Factors) -> (r: Vec<String>)
    ensures
        views(r@) == slot_lines(*group, *factors),
{
    let mut r: Vec<String> = Vec::new();
    assert(views(r@) =~= Seq::<Seq<char>>::empty());
    if group.slots.len() == 0 {
        match group.rooms_text() {
            Some(t) => {
                put_text(&mut r, t);
            },
            None => {},
        }
        assert(views(r@) =~= slot_lines(*group, *factors));
        return r;
    }
    put_text(&mut r, "Slots:".to_owned());
    let ghost head = seq!["Slots:"@];
    let ghost all = Seq::new(
        group.slots@.len(),
        |i: int| slot_line(group.slots@[i], factor_at(*factors, i)),
    );
    let mut i: usize = 0;
    assert(views(r@) =~= head + all.take(0));
    while i < group.slots.len()
        invariant
            i <= group.slots.len(),
            all == Seq::new(
                group.slots@.len(),
                |i: int| slot_line(group.slots@[i], factor_at(*factors, i)),
            ),
            views(r@) == head + all.take(i as int),
        decreases group.slots.len() - i,
    {
        let s = &group.slots[i];
        let rooms: String = if s.room_names.len() == 0 {
            "no rooms".to_owned()
        } else {
            join_texts(&s.room_names, ", ")
        };
        let factor: String = if i < factors.slots.len() {
            match &factors.slots[i] {
                Some(w) => " · ×".to_owned().concat(w.as_str()),
                None => "".to_owned(),
            }
        } else {
            "".to_owned()
        };
        let line = "• ".to_owned().concat(s.name.as_str()).concat(" · ").concat(
            rooms.as_str(),
        ).concat(factor.as_str());
        assert(head + all.take(i + 1) =~= (head + all.take(i as int)).push(line@));
        put_text(&mut r, line);
        i += 1;
    }
    assert(all.take(i as int) =~= all);
    assert(head + all =~= slot_lines(*group, *factors));
    r
}

/// Writes rooms with their factors.
pub fn show_factors(rooms: &Vec<RoomFactor>) -> (r: Vec<String>)
    ensures
        views(r@) == factor_texts(rooms@),
{
    let ghost all = factor_texts(rooms@);
    let mut r: Vec<String> = Vec::new();
    let mut i: usize = 0;
    assert(views(r@) =~= all.take(0));
    while i < rooms.len()
        invariant
            i <= rooms.len(),
            all == factor_texts(rooms@),
            views(r@) == all.take(i as int),
        decreases rooms.len() - i,
    {
        let text = rooms[i].room.clone().concat(" ×").concat(rooms[i].factor.as_str());
        assert(all.take(i + 1) =~= all.take(i as int).push(text@));
        put_text(&mut r, text);
        i += 1;
    }
    assert(all.take(i as int) =~= all);
    r
}

/// One group in detail: turn order, this week, next turn, rooms, workload factors.
pub fn group_detail_text(state: &State, group: &CleaningGroup, factors: &Factors, today: Date) -> (r:
    String)
    requires
        known(*state, today),
        dated_in(*state, group.id@),
        state.cleaning_groups@.contains(*group),
    ensures
        r@ == detail(*state, *group, *factors, today),
{
    proof {
        lemma_known_group(*state, today, *group);
        lemma_today(today.day as int);
    }
    let week = current_week(today);
    let off: &str = if group.is_active {
        ""
    } else {
        " · 🚫 disabled"
    };
    let weight: String = match &factors.group {
        Some(w) => " · weight ×".to_owned().concat(w.as_str()),
        None => "".to_owned(),
    };
    let head = "🏢 **".to_owned().concat(group.name.as_str()).concat("**").concat(off).concat(
        weight.as_str(),
    );
    let mut lines: Vec<String> = Vec::new();
    assert(views(lines@) =~= Seq::<Seq<char>>::empty());
    put_text(&mut lines, head);
    assert(views(lines@) =~= seq![detail_head(*group, *factors)]);
    let queue = reconcile_queue(state, group);
    let order = show_queue(state, group, &queue, week);
    put_texts(&mut lines, &order);
    let ghost part = views(lines@);
    if state.belongs_in_weekly_plan(group, today, week.0, week.1) {
        put_text(
            &mut lines,
            "This week (week ".to_owned().concat(show(week.1 as u64).as_str()).concat("):"),
        );
        let tasks = week_task_lines(state, group, today);
        put_lines(&mut lines, &tasks);
        assert(views(lines@) =~= part + (seq![
            "This week (week "@ + decimal(week.1 as nat) + "):"@,
        ] + line_texts(week_lines(*state, *group, today))));
    } else {
        assert(views(lines@) =~= part + Seq::<Seq<char>>::empty());
    }
    let ghost part = views(lines@);
    if queue.len() > 0 {
        let next = next_assignment_summary(state, group.id.as_str(), today);
        put_text(&mut lines, next);
        assert(views(lines@) =~= part + seq![next@]);
    } else {
        assert(views(lines@) =~= part + Seq::<Seq<char>>::empty());
    }
    let slots = show_slots(group, factors);
    put_texts(&mut lines, &slots);
    let ghost part = views(lines@);
    let rooms = show_factors(&factors.rooms);
    assert(views(rooms@).len() == factors.rooms@.len());
    if rooms.len() > 0 {
        let ranked = sort_texts(rooms);
        let line = "Room weights: ".to_owned().concat(join_texts(&ranked, ", ").as_str());
        put_text(&mut lines, line);
        assert(views(lines@) =~= part + seq![line@]);
    } else {
        assert(views(lines@) =~= part + Seq::<Seq<char>>::empty());
    }
    let r = join_texts(&lines, "\n");
    assert(r@ == detail(*state, *group, *factors, today));
    r
}

// ── !groups ──────────────────────────────────────────────────────────────────

/// What `!groups` says: of all groups, or of the one that is named.
pub open spec fn groups_answer(
    text: Seq<char>,
    state: State,
    name: Option<String>,
    factors: Factors,
    today: Date,
) -> bool {
    match name {
        None => text == all_groups(state, today),
        Some(name) => match state.group_of_name(name@) {
            Some(g) => text == detail(state, g, factors, today),
            None => text == "Group «"@ + name@ + "» not found. !groups lists all groups."@,
        },
    }
}

/// Whether the weeks that `!groups` names can be represented.
pub open spec fn groups_fit(state: State, name: Option<String>, today: Date) -> bool {
    known(state, today) && match name {
        None => true,
        Some(name) => match state.group_of_name(name@) {
            Some(g) => dated_in(state, g.id@),
            None => true,
        },
    }
}

/// Shows all groups, or the one that is named. `factors` are those of the named group.
pub fn cmd_groups(state: &State, name: &Option<String>, factors: &Factors, today: Date) -> (r: Result<
    String,
    CommandError,
>)
    ensures
        !groups_fit(*state, *name, today) ==> r == Err::<String, CommandError>(
            CommandError::OutOfRange,
        ),
        groups_fit(*state, *name, today) ==> r is Ok && groups_answer(
            r->Ok_0@,
            *state,
            *name,
            *factors,
            today,
        ),
{
    if !is_known(state, today) {
        return Err(CommandError::OutOfRange);
    }
    match name {
        None => Ok(groups_text(state, today)),
        Some(n) => match state.group_by_name(n.as_str()) {
            Some(g) => {
                if !group_dates_fit(state, g.id.as_str()) {
                    return Err(CommandError::OutOfRange);
                }
                proof {
                    lemma_first_index_is(state.cleaning_groups@, group_named(n@));
                }
                Ok(group_detail_text(state, g, factors, today))
            },
            None => Ok(
                "Group «".to_owned().concat(n.as_str()).concat(
                    "» not found. !groups lists all groups.",
                ),
            ),
        },
    }
}

} // verus!
