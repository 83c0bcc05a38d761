//! Taking marks back and excusing tasks.

use vstd::prelude::*;

use crate::analytics::DomainEvent;
use crate::calendar::{is_year, Date, Timestamp};
use crate::commands::base::{
    answered, current_week, group_position_by_name, lemma_group_known, meant_turn, no_group,
    no_group_text, perform, says_only, turn_meant, Answer, CommandError, Request,
};
use crate::commands::done::{
    add_list_line, is_finished, list_line, show_task, slot_id_of, task_name, task_names,
};
use crate::commands::takeover::{named_choice, named_slot, Choice};
use crate::commands::tasks::{are_tasks, is_open, list_own_tasks, own_tasks, task_open, Task};
use crate::course::{marks_only, ran};
use crate::domain::{CleaningGroup, SlotId};
use crate::journal::only_completions;
use crate::lists::{first_index, lemma_filter_step, lemma_first_index, retain, some};
use crate::planning::{is_known, known, this_week};
use crate::rhythm::Turn;
use crate::roster::mark_in_week;
use crate::state::{group_named, ReactionDone, State};
use crate::text::{contains_text, join, join_texts, lemma_views_push, same_text, says, views};

verus! {

/// What taking marks back comes to.
pub struct Undo {
    pub events: Seq<DomainEvent>,
    /// What was taken back.
    pub undone: Seq<Seq<char>>,
    /// The groups in which there was nothing to take back.
    pub open: Seq<Seq<char>>,
    /// The groups that whoever asks is not in.
    pub denied: Seq<Seq<char>>,
    /// The ids of the groups in which something was taken back.
    pub groups: Seq<Seq<char>>,
}

/// The event that takes marks of a week back.
pub open spec fn undoes(group: CleaningGroup, week: (i32, u32), shift: Option<u8>, slot_id: Option<SlotId>) -> DomainEvent {
    DomainEvent::CleaningUndone {
        group_id: group.id,
        iso_year: week.0,
        iso_week: week.1,
        shift,
        slot_id,
    }
}

/// The events that take back the marks of tasks.
pub open spec fn undo_events(state: State, tasks: Seq<Task>) -> Seq<DomainEvent> {
    tasks.map_values(
        |t: Task|
            {
                let g = state.cleaning_groups@[t.group as int];
                undoes(
                    g,
                    (t.turn.year, t.turn.week),
                    Some(t.turn.shift),
                    slot_id_of(g, t.slot as int),
                )
            },
    )
}

/// The running turn of the group at a place.
pub open spec fn running(state: State, k: int, today: Date) -> Task {
    Task {
        group: k as usize,
        slot: 0,
        turn: turn_meant(state.cleaning_groups@[k], this_week(today), today),
    }
}

/// The marks that are taken back in the group at a place: all of the week, or those of the tasks
/// of somebody, or, in a group without slots, that of the running turn.
pub open spec fn undo_in(
    state: State,
    req: Request,
    person_id: Option<String>,
    whole: bool,
    k: int,
) -> (Seq<DomainEvent>, Seq<Seq<char>>) {
    let g = state.cleaning_groups@[k];
    let week = this_week(req.today);
    let own = match person_id {
        Some(id) => own_tasks(state, k, week, id@, req.today).filter(is_finished(state)),
        None => Seq::empty(),
    };
    let now = running(state, k, req.today);
    if whole {
        (
            seq![undoes(g, week, None, None)],
            if some(state.completions@, mark_in_week(g.id@, week.0, week.1)) {
                seq![g.name@]
            } else {
                Seq::empty()
            },
        )
    } else if own.len() > 0 {
        (undo_events(state, own), task_names(state, own))
    } else if g.slots@.len() > 0 {
        (Seq::empty(), Seq::empty())
    } else {
        (
            seq![undoes(g, week, Some(now.turn.shift), None)],
            if is_open(state)(now) {
                Seq::empty()
            } else {
                seq![task_name(state, now)]
            },
        )
    }
}

/// Whether somebody is a member of a group.
pub open spec fn is_in(group: CleaningGroup, person_id: Option<String>) -> bool {
    match person_id {
        Some(id) => says(group.member_ids@, id@),
        None => false,
    }
}

/// What taking marks back in groups comes to.
pub open spec fn undo_all(
    state: State,
    req: Request,
    person_id: Option<String>,
    whole: bool,
    places: Seq<int>,
) -> Undo
    decreases places.len(),
{
    if places.len() == 0 {
        Undo {
            events: Seq::empty(),
            undone: Seq::empty(),
            open: Seq::empty(),
            denied: Seq::empty(),
            groups: Seq::empty(),
        }
    } else {
        let r = undo_all(state, req, person_id, whole, places.drop_last());
        let g = state.cleaning_groups@[places.last()];
        if !req.is_admin && !is_in(g, person_id) {
            Undo { denied: r.denied.push(g.name@), ..r }
        } else {
            let (events, names) = undo_in(state, req, person_id, whole, places.last());
            if names.len() > 0 {
                Undo {
                    events: r.events + events,
                    undone: r.undone + names,
                    groups: r.groups.push(g.id@),
                    ..r
                }
            } else {
                Undo { events: r.events + events, open: r.open.push(g.name@), ..r }
            }
        }
    }
}

/// The places of the first groups that somebody is in.
pub open spec fn places_in(state: State, person_id: Option<String>, n: nat) -> Seq<int>
    decreases n,
{
    if n == 0 {
        Seq::empty()
    } else {
        let r = places_in(state, person_id, (n - 1) as nat);
        if is_in(state.cleaning_groups@[n - 1], person_id) {
            r.push(n - 1)
        } else {
            r
        }
    }
}

/// Reactions that did not mark one of these groups in a week.
pub open spec fn reaction_not_in(groups: Seq<Seq<char>>, week: (i32, u32)) -> spec_fn(
    ReactionDone,
) -> bool {
    |d: ReactionDone|
        !(d.iso_year == week.0 && d.iso_week == week.1 && groups.contains(d.group_id@))
}

/// Whether marks were taken back, and what is remembered of the reactions that made them.
pub open spec fn undid(pre: State, post: State, u: Undo, week: (i32, u32), now: Timestamp) -> bool {
    exists|mid: State|
        {
            &&& #[trigger] ran(pre, mid, u.events, now)
            &&& only_completions(pre, mid)
            &&& post == (State { reaction_dones: post.reaction_dones, ..mid })
            &&& post.reaction_dones@ == pre.reaction_dones@.filter(reaction_not_in(u.groups, week))
        }
}

/// What `!undo` says of what was taken back.
pub open spec fn undo_text(u: Undo) -> Seq<char> {
    join(
        list_line("↩️ Undone: "@, u.undone) + list_line("Not done this week: "@, u.open)
            + list_line("❌ Not your group: "@, u.denied),
        "\n"@,
    )
}

/// The id of whoever asks.
pub open spec fn sender_id(state: State, req: Request) -> Option<String> {
    match state.person_of(req.sender@) {
        Some(p) => Some(p.id),
        None => None,
    }
}

/// What `!undo` does: in a group that is named, or in all groups of whoever asks.
pub open spec fn did_undo(
    pre: State,
    post: State,
    r: Result<String, CommandError>,
    req: Request,
    args: Seq<String>,
) -> bool {
    let id = sender_id(pre, req);
    let places = if args.len() > 0 {
        seq![first_index(pre.cleaning_groups@, group_named(args[0]@))]
    } else {
        places_in(pre, id, pre.cleaning_groups@.len())
    };
    let u = undo_all(pre, req, id, req.is_admin && args.len() > 0, places);
    if !known(pre, req.today) {
        r == Err::<String, CommandError>(CommandError::OutOfRange) && post == pre
    } else if args.len() > 0 && pre.group_of_name(args[0]@) is None {
        says_only(pre, post, r, no_group_text(args[0]@))
    } else if places.len() == 0 {
        says_only(pre, post, r, "You are not assigned to any group."@)
    } else {
        &&& r is Ok
        &&& r->Ok_0@ == undo_text(u)
        &&& undid(pre, post, u, this_week(req.today), req.now)
    }
}

/// What taking marks back comes to.
struct Undoing {
    events: Vec<DomainEvent>,
    undone: Vec<String>,
    open: Vec<String>,
    denied: Vec<String>,
    groups: Vec<String>,
}

/// Whether that is what it comes to.
spec fn is_undo(x: Undoing, u: Undo) -> bool {
    &&& x.events@ == u.events
    &&& views(x.undone@) == u.undone
    &&& views(x.open@) == u.open
    &&& views(x.denied@) == u.denied
    &&& views(x.groups@) == u.groups
}

/// The done ones of tasks.
fn finished_tasks(state: &State, tasks: &Vec<Task>) -> (r: Vec<Task>)
    requires
        are_tasks(*state, tasks@),
    ensures
        r@ == tasks@.filter(is_finished(*state)),
        are_tasks(*state, r@),
{
    let ghost p = is_finished(*state);
    let mut r: Vec<Task> = Vec::new();
    let mut i: usize = 0;
    assert(tasks@.take(0).filter(p) =~= Seq::<Task>::empty()) by {
        reveal(Seq::filter);
    }
    while i < tasks.len()
        invariant
            i <= tasks.len(),
            p == is_finished(*state),
            are_tasks(*state, tasks@),
            r@ == tasks@.take(i as int).filter(p),
            are_tasks(*state, r@),
        decreases tasks.len() - i,
    {
        proof {
            lemma_filter_step(tasks@, p, i as int);
        }
        let t = tasks[i];
        if !task_open(state, &t) {
            r.push(t);
        }
        i += 1;
    }
    assert(tasks@.take(i as int) =~= tasks@);
    r
}

/// Whether a group has a mark in a week.
fn has_mark(state: &State, group_id: &str, week: (i32, u32)) -> (r: bool)
    ensures
        r == some(state.completions@, mark_in_week(group_id@, week.0, week.1)),
{
    let ghost p = mark_in_week(group_id@, week.0, week.1);
    let mut i: usize = 0;
    while i < state.completions.len()
        invariant
            i <= state.completions.len(),
            p == mark_in_week(group_id@, week.0, week.1),
            forall|k: int| 0 <= k < i ==> !p(#[trigger] state.completions@[k]),
        decreases state.completions.len() - i,
    {
        let c = &state.completions[i];
        if c.iso_year == week.0 && c.iso_week == week.1 && same_text(
            c.group_id.as_str(),
            group_id,
        ) {
            proof {
                lemma_first_index(state.completions@, p, i as int);
            }
            return true;
        }
        i += 1;
    }
    proof {
        lemma_first_index(state.completions@, p, i as int);
    }
    false
}

/// Finds the marks that are taken back in the group at a place.
fn find_undo_in(
    state: &State,
    req: &Request,
    person_id: &Option<String>,
    whole: bool,
    k: usize,
) -> (r: (Vec<DomainEvent>, Vec<String>))
    requires
        known(*state, req.today),
        k < state.cleaning_groups@.len(),
    ensures
        (r.0@, views(r.1@)) == undo_in(*state, *req, *person_id, whole, k as int),
        forall|i: int| 0 <= i < r.0@.len() ==> #[trigger] r.0@[i] is CleaningUndone,
{
    let mut events: Vec<DomainEvent> = Vec::new();
    let mut names: Vec<String> = Vec::new();
    let week = current_week(req.today);
    let g = &state.cleaning_groups[k];
    assert(views(names@) =~= Seq::<Seq<char>>::empty());
    if whole {
        events.push(
            DomainEvent::CleaningUndone {
                group_id: g.id.clone(),
                iso_year: week.0,
                iso_week: week.1,
                shift: None,
                slot_id: None,
            },
        );
        assert(events@ =~= seq![undoes(*g, week, None, None)]);
        if has_mark(state, g.id.as_str(), week) {
            names.push(g.name.clone());
            assert(views(names@) =~= seq![g.name@]);
        }
        return (events, names);
    }
    let own: Vec<Task> = match person_id {
        Some(id) => {
            let all = list_own_tasks(state, k, week, id.as_str(), req.today);
            finished_tasks(state, &all)
        },
        None => Vec::new(),
    };
    if own.len() > 0 {
        let mut i: usize = 0;
        assert(events@ =~= undo_events(*state, own@).take(0));
        assert(views(names@) =~= task_names(*state, own@).take(0));
        while i < own.len()
            invariant
                i <= own.len(),
                are_tasks(*state, own@),
                events@ == undo_events(*state, own@).take(i as int),
                views(names@) == task_names(*state, own@).take(i as int),
                forall|j: int| 0 <= j < events@.len() ==> #[trigger] events@[j] is CleaningUndone,
            decreases own.len() - i,
        {
            let t = own[i];
            let h = &state.cleaning_groups[t.group];
            let e = DomainEvent::CleaningUndone {
                group_id: h.id.clone(),
                iso_year: t.turn.year,
                iso_week: t.turn.week,
                shift: Some(t.turn.shift),
                slot_id: if t.slot < h.slots.len() {
                    Some(h.slots[t.slot].id.clone())
                } else {
                    None
                },
            };
            let name = show_task(state, &t);
            proof {
                lemma_views_push(names@, name);
                assert(undo_events(*state, own@).take(i + 1) =~= undo_events(*state, own@).take(
                    i as int,
                ).push(e));
                assert(task_names(*state, own@).take(i + 1) =~= task_names(*state, own@).take(
                    i as int,
                ).push(name@));
            }
            events.push(e);
            names.push(name);
            i += 1;
        }
        assert(undo_events(*state, own@).take(i as int) =~= undo_events(*state, own@));
        assert(task_names(*state, own@).take(i as int) =~= task_names(*state, own@));
        return (events, names);
    }
    if g.slots.len() > 0 {
        return (events, names);
    }
    let turn = meant_turn(g, week, req.today);
    let t = Task { group: k, slot: 0, turn };
    events.push(
        DomainEvent::CleaningUndone {
            group_id: g.id.clone(),
            iso_year: week.0,
            iso_week: week.1,
            shift: Some(turn.shift),
            slot_id: None,
        },
    );
    assert(events@ =~= seq![undoes(*g, week, Some(turn.shift), None)]);
    if !task_open(state, &t) {
        let name = show_task(state, &t);
        names.push(name);
        assert(views(names@) =~= seq![name@]);
    }
    (events, names)
}

/// Finds what taking marks back in groups comes to.
fn find_undo(
    state: &State,
    req: &Request,
    person_id: &Option<String>,
    whole: bool,
    places: &Vec<usize>,
) -> (r: Undoing)
    requires
        known(*state, req.today),
        forall|i: int| 0 <= i < places@.len() ==> #[trigger] places@[i] < state.cleaning_groups@.len(),
    ensures
        is_undo(
            r,
            undo_all(*state, *req, *person_id, whole, places@.map_values(|k: usize| k as int)),
        ),
        forall|i: int| 0 <= i < r.events@.len() ==> #[trigger] r.events@[i] is CleaningUndone,
{
    let ghost ks = places@.map_values(|k: usize| k as int);
    let mut r = Undoing {
        events: Vec::new(),
        undone: Vec::new(),
        open: Vec::new(),
        denied: Vec::new(),
        groups: Vec::new(),
    };
    let mut i: usize = 0;
    proof {
        assert(ks.take(0) =~= Seq::<int>::empty());
        assert(views(Seq::<String>::empty()) =~= Seq::<Seq<char>>::empty());
    }
    while i < places.len()
        invariant
            i <= places.len(),
            known(*state, req.today),
            forall|j: int|
                0 <= j < places@.len() ==> #[trigger] places@[j] < state.cleaning_groups@.len(),
            ks == places@.map_values(|k: usize| k as int),
            is_undo(r, undo_all(*state, *req, *person_id, whole, ks.take(i as int))),
            forall|j: int| 0 <= j < r.events@.len() ==> #[trigger] r.events@[j] is CleaningUndone,
        decreases places.len() - i,
    {
        let k = places[i];
        let g = &state.cleaning_groups[k];
        proof {
            assert(ks.take(i + 1).drop_last() =~= ks.take(i as int));
            assert(ks.take(i + 1).last() == k as int);
        }
        let member: bool = match person_id {
            Some(id) => contains_text(&g.member_ids, id.as_str()),
            None => false,
        };
        if !req.is_admin && !member {
            proof {
                lemma_views_push(r.denied@, g.name);
            }
            r.denied.push(g.name.clone());
        } else {
            let (mut events, mut names) = find_undo_in(state, req, person_id, whole, k);
            let ghost a = r.events@;
            let ghost b = events@;
            assert(views(names@).len() == names@.len());
            r.events.append(&mut events);
            assert forall|j: int| 0 <= j < r.events@.len() implies #[trigger] r.events@[j] is CleaningUndone by {
                if j < a.len() {
                    assert(r.events@[j] == a[j]);
                } else {
                    assert(r.events@[j] == b[j - a.len()]);
                }
            }
            if names.len() > 0 {
                proof {
                    assert(views(r.undone@ + names@) =~= views(r.undone@) + views(names@));
                    lemma_views_push(r.groups@, g.id);
                }
                r.undone.append(&mut names);
                r.groups.push(g.id.clone());
            } else {
                proof {
                    lemma_views_push(r.open@, g.name);
                }
                r.open.push(g.name.clone());
            }
        }
        i += 1;
    }
    assert(ks.take(i as int) =~= ks);
    r
}

/// Takes back marks of this week, in a group that is named or in all groups of whoever asks. An
/// admin who names a group takes back all marks of its week.
pub fn cmd_undo(state: &mut State, req: &Request, args: &Vec<String>) -> (r: Result<
    String,
    CommandError,
>)
    ensures
        did_undo(*old(state), *final(state), r, *req, args@),
{
    if !is_known(state, req.today) {
        return Err(CommandError::OutOfRange);
    }
    let person_id: Option<String> = match state.person_by_matrix_id(req.sender.as_str()) {
        Some(p) => Some(p.id.clone()),
        None => None,
    };
    let places: Vec<usize> = if args.len() > 0 {
        match group_position_by_name(state, args[0].as_str()) {
            Some(k) => {
                let mut v: Vec<usize> = Vec::new();
                v.push(k);
                assert(v@.map_values(|k: usize| k as int) =~= seq![k as int]);
                v
            },
            None => {
                return Ok(no_group(args[0].as_str()));
            },
        }
    } else {
        list_places_in(state, &person_id)
    };
    assert(places@.map_values(|k: usize| k as int).len() == places@.len());
    if places.len() == 0 {
        return Ok("You are not assigned to any group.".to_owned());
    }
    let ghost pre = *state;
    let u = find_undo(state, req, &person_id, req.is_admin && args.len() > 0, &places);
    let week = current_week(req.today);
    let ghost all = u.events@;
    match state.apply_marks(u.events, req.now) {
        Ok(_) => {},
        Err(e) => {
            return Err(CommandError::Refused(e));
        },
    }
    let ghost mid = *state;
    let groups = u.groups;
    let keep = |d: &ReactionDone| -> (r: bool)
        ensures
            r == reaction_not_in(views(groups@), week)(*d),
        {
            let listed = contains_text(&groups, d.group_id.as_str());
            proof {
                lemma_listed(groups@, d.group_id@);
            }
            !(d.iso_year == week.0 && d.iso_week == week.1 && listed)
        };
    retain(&mut state.reaction_dones, keep, Ghost(reaction_not_in(views(groups@), week)));
    proof {
        assert(ran(pre, mid, all, req.now));
    }
    let mut lines: Vec<String> = Vec::new();
    assert(views(lines@) =~= Seq::<Seq<char>>::empty());
    add_list_line(&mut lines, "↩️ Undone: ", &u.undone);
    add_list_line(&mut lines, "Not done this week: ", &u.open);
    add_list_line(&mut lines, "❌ Not your group: ", &u.denied);
    assert(views(lines@) =~= list_line("↩️ Undone: "@, views(u.undone@)) + list_line(
        "Not done this week: "@,
        views(u.open@),
    ) + list_line("❌ Not your group: "@, views(u.denied@)));
    Ok(join_texts(&lines, "\n"))
}

/// Whether a text is in a list, seen two ways.
proof fn lemma_listed(list: Seq<String>, t: Seq<char>)
    ensures
        says(list, t) == views(list).contains(t),
{
    if says(list, t) {
        let i = choose|i: int| 0 <= i < list.len() && list[i]@ == t;
        assert(views(list)[i] == t);
    }
    if views(list).contains(t) {
        let i = choose|i: int| 0 <= i < views(list).len() && views(list)[i] == t;
        assert(list[i]@ == t);
    }
}

/// Lists the places of the groups that somebody is in.
fn list_places_in(state: &State, person_id: &Option<String>) -> (r: Vec<usize>)
    ensures
        r@.map_values(|k: usize| k as int) == places_in(
            *state,
            *person_id,
            state.cleaning_groups@.len(),
        ),
        forall|i: int| 0 <= i < r@.len() ==> #[trigger] r@[i] < state.cleaning_groups@.len(),
{
    let mut r: Vec<usize> = Vec::new();
    let mut k: usize = 0;
    assert(r@.map_values(|k: usize| k as int) =~= Seq::<int>::empty());
    while k < state.cleaning_groups.len()
        invariant
            k <= state.cleaning_groups.len(),
            r@.map_values(|k: usize| k as int) == places_in(*state, *person_id, k as nat),
            forall|i: int| 0 <= i < r@.len() ==> #[trigger] r@[i] < state.cleaning_groups@.len(),
        decreases state.cleaning_groups.len() - k,
    {
        let member: bool = match person_id {
            Some(id) => contains_text(&state.cleaning_groups[k].member_ids, id.as_str()),
            None => false,
        };
        if member {
            assert(r@.push(k).map_values(|k: usize| k as int) =~= r@.map_values(
                |k: usize| k as int,
            ).push(k as int));
            r.push(k);
        }
        k += 1;
    }
    r
}

// ── !skip ────────────────────────────────────────────────────────────────────

/// The event that excuses what is open in a week of a group, or of one of its slots.
pub open spec fn excuses(
    group: CleaningGroup,
    week: (i32, u32),
    by: String,
    slot_id: Option<SlotId>,
) -> DomainEvent {
    DomainEvent::CleaningSkipped {
        group_id: group.id,
        skipper_id: by,
        iso_year: week.0,
        iso_week: week.1,
        shift: None,
        slot_id,
    }
}

/// Whoever asks, by id, or by Matrix id when they are not known.
pub open spec fn sender_key(state: State, req: Request) -> String {
    match state.person_of(req.sender@) {
        Some(p) => p.id,
        None => req.sender,
    }
}

/// Whether a slot is done in the first shifts of a week.
pub open spec fn slot_done_through(
    state: State,
    group: CleaningGroup,
    slot: int,
    week: (i32, u32),
    n: int,
) -> bool {
    forall|s: int|
        0 <= s < n ==> #[trigger] state.slot_done(
            group,
            slot,
            Turn { year: week.0, week: week.1, shift: s as u8 },
        )
}

/// The groups that are due in a week and active, of the first ones.
pub open spec fn due_places(state: State, week: (i32, u32), today: Date, n: nat) -> Seq<int>
    decreases n,
{
    if n == 0 {
        Seq::empty()
    } else {
        let r = due_places(state, week, today, (n - 1) as nat);
        let g = state.cleaning_groups@[n - 1];
        if g.is_active && state.due(g, today, week.0 as int, week.1 as int) {
            r.push(n - 1)
        } else {
            r
        }
    }
}

/// What excusing the week of groups comes to: the events, the groups that were excused and those
/// that were done.
pub open spec fn skip_all(state: State, week: (i32, u32), by: String, places: Seq<int>) -> (
    Seq<DomainEvent>,
    Seq<Seq<char>>,
    Seq<Seq<char>>,
)
    decreases places.len(),
{
    if places.len() == 0 {
        (Seq::empty(), Seq::empty(), Seq::empty())
    } else {
        let (events, skipped, done) = skip_all(state, week, by, places.drop_last());
        let g = state.cleaning_groups@[places.last()];
        if state.week_done(g, week.0, week.1) {
            (events, skipped, done.push(g.name@))
        } else {
            (events.push(excuses(g, week, by, None)), skipped.push(g.name@), done)
        }
    }
}

/// What `!skip` says.
pub open spec fn skip_text(skipped: Seq<Seq<char>>, done: Seq<Seq<char>>) -> Seq<char> {
    join(list_line("⏭️ Skipped: "@, skipped) + list_line("Already done: "@, done), "\n"@)
}

/// What excusing a slot of a group comes to.
pub open spec fn skip_slot(state: State, week: (i32, u32), by: String, g: CleaningGroup, slot: int) -> Answer {
    let name = g.name@ + " / "@ + g.slots@[slot].name@;
    if slot_done_through(state, g, slot, week, g.rhythm.week_shifts().len() as int) {
        Answer::Says(skip_text(Seq::empty(), seq![name]))
    } else {
        Answer::Does(
            excuses(g, week, by, Some(g.slots@[slot].id)),
            skip_text(seq![name], Seq::empty()),
        )
    }
}

/// What `!skip` does: it excuses what is open this week in a group or slot that is named, or in
/// every active group that is due.
pub open spec fn skip_answer(state: State, req: Request, args: Seq<String>) -> Answer {
    let week = this_week(req.today);
    let by = sender_key(state, req);
    let k = first_index(state.cleaning_groups@, group_named(args[0]@));
    let g = state.cleaning_groups@[k];
    let places = if args.len() > 0 {
        seq![k]
    } else {
        due_places(state, week, req.today, state.cleaning_groups@.len())
    };
    let (events, skipped, done) = skip_all(state, week, by, places);
    if !req.is_admin {
        Answer::Fails(CommandError::NotAdmin)
    } else if !known(state, req.today) {
        Answer::Fails(CommandError::OutOfRange)
    } else if args.len() > 0 && state.group_of_name(args[0]@) is None {
        Answer::Says(no_group_text(args[0]@))
    } else if args.len() > 1 {
        match named_choice(g, args[1]@) {
            Choice::Slot(h, slot) => skip_slot(state, week, by, g, slot),
            Choice::Unclear(t) => Answer::Says(t),
        }
    } else {
        Answer::Runs(events, skip_text(skipped, done))
    }
}

/// What `!skip` says.
fn show_skips(skipped: &Vec<String>, done: &Vec<String>) -> (r: String)
    ensures
        r@ == skip_text(views(skipped@), views(done@)),
{
    let mut lines: Vec<String> = Vec::new();
    assert(views(lines@) =~= Seq::<Seq<char>>::empty());
    add_list_line(&mut lines, "⏭️ Skipped: ", skipped);
    add_list_line(&mut lines, "Already done: ", done);
    assert(views(lines@) =~= list_line("⏭️ Skipped: "@, views(skipped@)) + list_line(
        "Already done: "@,
        views(done@),
    ));
    join_texts(&lines, "\n")
}

/// Whether a slot is done in all shifts of a week.
fn is_slot_week_done(state: &State, group: &CleaningGroup, slot: usize, week: (i32, u32)) -> (r: bool)
    ensures
        r == slot_done_through(
            *state,
            *group,
            slot as int,
            week,
            group.rhythm.week_shifts().len() as int,
        ),
{
    let n = group.rhythm.shift_count();
    let mut s: usize = 0;
    while s < n
        invariant
            s <= n <= 7,
            n == group.rhythm.week_shifts().len(),
            slot_done_through(*state, *group, slot as int, week, s as int),
        decreases n - s,
    {
        let turn = Turn { year: week.0, week: week.1, shift: s as u8 };
        if !state.is_turn_slot_done(group, slot, turn) {
            assert(!state.slot_done(
                *group,
                slot as int,
                Turn { year: week.0, week: week.1, shift: (s as int) as u8 },
            ));
            return false;
        }
        s += 1;
    }
    true
}

/// Excuses a slot of a group this week.
fn skip_one_slot(state: &mut State, req: &Request, by: String, k: usize, slot: usize) -> (r: Result<
    String,
    CommandError,
>)
    requires
        known(*old(state), req.today),
        k < old(state).cleaning_groups@.len(),
        slot < old(state).cleaning_groups@[k as int].slots@.len(),
    ensures
        answered(
            *old(state),
            *final(state),
            r,
            skip_slot(
                *old(state),
                this_week(req.today),
                by,
                old(state).cleaning_groups@[k as int],
                slot as int,
            ),
            req.now,
        ),
{
    let week = current_week(req.today);
    let g = &state.cleaning_groups[k];
    let mut names: Vec<String> = Vec::new();
    let none: Vec<String> = Vec::new();
    let name = g.name.clone().concat(" / ").concat(g.slots[slot].name.as_str());
    names.push(name);
    assert(views(names@) =~= seq![name@]);
    assert(views(none@) =~= Seq::<Seq<char>>::empty());
    if is_slot_week_done(state, g, slot, week) {
        return Ok(show_skips(&none, &names));
    }
    proof {
        lemma_group_known(*state, k as int);
    }
    let event = DomainEvent::CleaningSkipped {
        group_id: g.id.clone(),
        skipper_id: by,
        iso_year: week.0,
        iso_week: week.1,
        shift: None,
        slot_id: Some(g.slots[slot].id.clone()),
    };
    perform(state, event, show_skips(&names, &none), req.now)
}

/// Finds what excusing the week of groups comes to.
fn find_skips(state: &State, week: (i32, u32), by: &String, places: &Vec<usize>) -> (r: (
    Vec<DomainEvent>,
    Vec<String>,
    Vec<String>,
))
    requires
        forall|i: int| 0 <= i < places@.len() ==> #[trigger] places@[i] < state.cleaning_groups@.len(),
    ensures
        (r.0@, views(r.1@), views(r.2@)) == skip_all(
            *state,
            week,
            *by,
            places@.map_values(|k: usize| k as int),
        ),
        forall|i: int| 0 <= i < r.0@.len() ==> marks_only(*state, #[trigger] r.0@[i]),
{
    let ghost ks = places@.map_values(|k: usize| k as int);
    let mut events: Vec<DomainEvent> = Vec::new();
    let mut skipped: Vec<String> = Vec::new();
    let mut done: Vec<String> = Vec::new();
    let mut i: usize = 0;
    proof {
        assert(ks.take(0) =~= Seq::<int>::empty());
        assert(views(Seq::<String>::empty()) =~= Seq::<Seq<char>>::empty());
    }
    while i < places.len()
        invariant
            i <= places.len(),
            forall|j: int|
                0 <= j < places@.len() ==> #[trigger] places@[j] < state.cleaning_groups@.len(),
            ks == places@.map_values(|k: usize| k as int),
            (events@, views(skipped@), views(done@)) == skip_all(
                *state,
                week,
                *by,
                ks.take(i as int),
            ),
            forall|j: int| 0 <= j < events@.len() ==> marks_only(*state, #[trigger] events@[j]),
        decreases places.len() - i,
    {
        let k = places[i];
        let g = &state.cleaning_groups[k];
        proof {
            assert(ks.take(i + 1).drop_last() =~= ks.take(i as int));
            assert(ks.take(i + 1).last() == k as int);
            lemma_group_known(*state, k as int);
        }
        let name = g.name.clone();
        if state.is_week_done(g, week.0, week.1) {
            proof {
                lemma_views_push(done@, name);
            }
            done.push(name);
        } else {
            proof {
                lemma_views_push(skipped@, name);
            }
            events.push(
                DomainEvent::CleaningSkipped {
                    group_id: g.id.clone(),
                    skipper_id: by.clone(),
                    iso_year: week.0,
                    iso_week: week.1,
                    shift: None,
                    slot_id: None,
                },
            );
            skipped.push(name);
        }
        i += 1;
    }
    assert(ks.take(i as int) =~= ks);
    (events, skipped, done)
}

/// Lists the places of the active groups that are due in a week.
fn list_due_places(state: &State, week: (i32, u32), today: Date) -> (r: Vec<usize>)
    requires
        state.wf(),
        today.in_week(),
        is_year(week.0 as int),
    ensures
        r@.map_values(|k: usize| k as int) == due_places(
            *state,
            week,
            today,
            state.cleaning_groups@.len(),
        ),
        forall|i: int| 0 <= i < r@.len() ==> #[trigger] r@[i] < state.cleaning_groups@.len(),
{
    let mut r: Vec<usize> = Vec::new();
    let mut k: usize = 0;
    assert(r@.map_values(|k: usize| k as int) =~= Seq::<int>::empty());
    while k < state.cleaning_groups.len()
        invariant
            k <= state.cleaning_groups.len(),
            state.wf(),
            today.in_week(),
            is_year(week.0 as int),
            r@.map_values(|k: usize| k as int) == due_places(*state, week, today, k as nat),
            forall|i: int| 0 <= i < r@.len() ==> #[trigger] r@[i] < state.cleaning_groups@.len(),
        decreases state.cleaning_groups.len() - k,
    {
        let g = &state.cleaning_groups[k];
        if g.is_active && state.is_due_week(g, today, week.0, week.1) {
            assert(r@.push(k).map_values(|k: usize| k as int) =~= r@.map_values(
                |k: usize| k as int,
            ).push(k as int));
            r.push(k);
        }
        k += 1;
    }
    r
}

/// Excuses what is open this week: in a group or slot that is named, or in every active group that
/// is due.
pub fn cmd_skip(state: &mut State, req: &Request, args: &Vec<String>) -> (r: Result<
    String,
    CommandError,
>)
    ensures
        answered(*old(state), *final(state), r, skip_answer(*old(state), *req, args@), req.now),
{
    if !req.is_admin {
        return Err(CommandError::NotAdmin);
    }
    if !is_known(state, req.today) {
        return Err(CommandError::OutOfRange);
    }
    let by: String = match state.person_by_matrix_id(req.sender.as_str()) {
        Some(p) => p.id.clone(),
        None => req.sender.clone(),
    };
    let week = current_week(req.today);
    let places: Vec<usize> = if args.len() > 0 {
        match group_position_by_name(state, args[0].as_str()) {
            Some(k) => {
                if args.len() > 1 {
                    return match named_slot(&state.cleaning_groups[k], args[1].as_str()) {
                        Ok(slot) => skip_one_slot(state, req, by, k, slot),
                        Err(t) => Ok(t),
                    };
                }
                let mut v: Vec<usize> = Vec::new();
                v.push(k);
                assert(v@.map_values(|k: usize| k as int) =~= seq![k as int]);
                v
            },
            None => {
                return Ok(no_group(args[0].as_str()));
            },
        }
    } else {
        proof {
            crate::calendar::lemma_today(req.today.day as int);
        }
        list_due_places(state, week, req.today)
    };
    let (events, skipped, done) = find_skips(state, week, &by, &places);
    let text = show_skips(&skipped, &done);
    match state.apply_marks(events, req.now) {
        Ok(_) => Ok(text),
        Err(e) => Err(CommandError::Refused(e)),
    }
}

} // verus!
