//! Who takes part in which group.

use vstd::prelude::*;

use crate::analytics::{turn_of, DomainEvent};
use crate::calendar::{is_today, Date};
use crate::commands::base::{
    answered, bad_user_id_text, current_week, full_label, no_group, no_group_text, person_label,
    says_only, show_week, user_id_verdict, week_label, Answer, CommandError, Request,
};
use crate::commands::outlook::{find_first_week, first_week, week_in};
use crate::commands::tasks::{are_tasks, is_open, list_own_tasks, open_tasks, own_tasks, Task};
use crate::commands::takeover::registers;
use crate::course::step;
use crate::domain::{fresh_id, Person, SlotAssignment};
use crate::ids::{is_user_id, reads_as_user_id};
use crate::journal::StateError;
use crate::lists::{
    filter_map, first_index, lemma_filter_map_step, lemma_filter_step, lemma_first_index_is,
};
use crate::planning::{
    apply_group_join, dated_in, future_count, group_dates_fit, is_known, joined, keeps_dates,
    later_week, leave_group, left, known, this_week,
};
use crate::state::{group_named, group_with_id, State};
use crate::text::{
    contains_text, decimal, join, join_texts, lemma_views_push, same_text, says, show, views,
};

verus! {

// ── What comes next in a group ───────────────────────────────────────────────

/// An assignment of a group in a week after the current one.
pub open spec fn later_in(group_id: Seq<char>, today: Date) -> spec_fn(SlotAssignment) -> bool {
    |a: SlotAssignment| a.group_id@ == group_id && later_week(a.iso_year, a.iso_week, this_week(today))
}

/// Who holds an assignment of a week.
pub open spec fn holder_in(state: State, week: (i32, u32)) -> spec_fn(SlotAssignment) -> Option<
    Seq<char>,
> {
    |a: SlotAssignment|
        if week_in(a) == week && a.person_id is Some {
            match state.person(a.person_id->0@) {
                Some(p) => Some(full_label(p)),
                None => None,
            }
        } else {
            None
        }
}

/// Texts without repetitions next to each other.
pub open spec fn without_repeats(s: Seq<Seq<char>>) -> Seq<Seq<char>>
    decreases s.len(),
{
    if s.len() == 0 {
        Seq::empty()
    } else {
        let r = without_repeats(s.drop_last());
        if r.len() > 0 && r.last() == s.last() {
            r
        } else {
            r.push(s.last())
        }
    }
}

/// Who cleans next in a group.
pub open spec fn summary(state: State, group_id: Seq<char>, today: Date) -> Seq<char> {
    match state.group(group_id) {
        None => "Next: unavailable."@,
        Some(g) => {
            let later = state.slot_assignments@.filter(later_in(group_id, today));
            let week = first_week(later);
            let names = without_repeats(filter_map(later, holder_in(state, week)));
            if g.member_ids@.len() == 0 {
                "Next: rotation is empty."@
            } else if later.len() == 0 {
                "Next: no future assignment is materialized."@
            } else {
                "Next: "@ + (if names.len() == 0 {
                    "unassigned"@
                } else {
                    join(names, ", "@)
                }) + " · week "@ + week_label(week) + "."@
            }
        },
    }
}

/// Lists the assignments of a group after the current week, by place.
fn list_later(state: &State, group_id: &str, today: Date) -> (r: Vec<usize>)
    requires
        is_today(today.day as int),
    ensures
        forall|i: int| 0 <= i < r@.len() ==> #[trigger] r@[i] < state.slot_assignments@.len(),
        r@.map_values(|k: usize| state.slot_assignments@[k as int])
            == state.slot_assignments@.filter(later_in(group_id@, today)),
{
    let ghost p = later_in(group_id@, today);
    let all = &state.slot_assignments;
    let now = current_week(today);
    let mut r: Vec<usize> = Vec::new();
    let mut i: usize = 0;
    assert(all@.take(0).filter(p) =~= Seq::<SlotAssignment>::empty()) by {
        reveal(Seq::filter);
    }
    assert(r@.map_values(|k: usize| all@[k as int]) =~= Seq::<SlotAssignment>::empty());
    while i < all.len()
        invariant
            i <= all.len(),
            all == &state.slot_assignments,
            p == later_in(group_id@, today),
            now == this_week(today),
            forall|j: int| 0 <= j < r@.len() ==> #[trigger] r@[j] < all@.len(),
            r@.map_values(|k: usize| all@[k as int]) == all@.take(i as int).filter(p),
        decreases all.len() - i,
    {
        proof {
            lemma_filter_step(all@, p, i as int);
        }
        let a = &all[i];
        if (a.iso_year > now.0 || (a.iso_year == now.0 && a.iso_week > now.1)) && same_text(
            a.group_id.as_str(),
            group_id,
        ) {
            assert(r@.push(i).map_values(|k: usize| all@[k as int]) =~= r@.map_values(
                |k: usize| all@[k as int],
            ).push(all@[i as int]));
            r.push(i);
        }
        i += 1;
    }
    assert(all@.take(i as int) =~= all@);
    r
}

/// Tells who cleans next in a group.
pub fn next_assignment_summary(state: &State, group_id: &str, today: Date) -> (r: String)
    requires
        is_today(today.day as int),
        dated_in(*state, group_id@),
    ensures
        r@ == summary(*state, group_id@, today),
{
    let group = match state.group_by_id(group_id) {
        Some(g) => g,
        None => {
            return "Next: unavailable.".to_owned();
        },
    };
    if group.member_ids.len() == 0 {
        return "Next: rotation is empty.".to_owned();
    }
    let places = list_later(state, group_id, today);
    let ghost later = state.slot_assignments@.filter(later_in(group_id@, today));
    assert(later.len() == places@.len());
    if places.len() == 0 {
        return "Next: no future assignment is materialized.".to_owned();
    }
    proof {
        let p = later_in(group_id@, today);
        reveal(dated_in);
        crate::lists::lemma_filter(state.slot_assignments@, p);
        assert forall|i: int| 0 <= i < places@.len() implies turn_of(
            state.slot_assignments@[#[trigger] places@[i] as int],
        ).wf() by {
            assert(places@.map_values(|k: usize| state.slot_assignments@[k as int])[i]
                == state.slot_assignments@[places@[i] as int]);
            assert(p(later[i]));
        }
    }
    let week = find_first_week(state, &places, Ghost(later));
    let ghost f = holder_in(*state, week);
    let mut names: Vec<String> = Vec::new();
    let mut i: usize = 0;
    proof {
        assert(later.take(0) =~= Seq::<SlotAssignment>::empty());
        assert(views(names@) =~= Seq::<Seq<char>>::empty());
    }
    while i < places.len()
        invariant
            i <= places.len(),
            forall|j: int|
                0 <= j < places@.len() ==> #[trigger] places@[j] < state.slot_assignments@.len(),
            later == places@.map_values(|k: usize| state.slot_assignments@[k as int]),
            f == holder_in(*state, week),
            views(names@) == without_repeats(filter_map(later.take(i as int), f)),
        decreases places.len() - i,
    {
        proof {
            lemma_filter_map_step(later, f, i as int);
        }
        let a = &state.slot_assignments[places[i]];
        assert(*a == later[i as int]);
        if a.iso_year == week.0 && a.iso_week == week.1 {
            if let Some(id) = &a.person_id {
                if let Some(p) = state.person_by_id(id.as_str()) {
                    let label = person_label(p);
                    let ghost before = filter_map(later.take(i as int), f);
                    proof {
                        assert(before.push(label@).drop_last() =~= before);
                        lemma_views_push(names@, label);
                        assert(views(names@).len() == names@.len());
                        if names@.len() > 0 {
                            assert(views(names@).last() == names@[names@.len() - 1]@);
                        }
                    }
                    let repeated = names.len() > 0 && same_text(
                        names[names.len() - 1].as_str(),
                        label.as_str(),
                    );
                    if !repeated {
                        names.push(label);
                    }
                }
            }
        }
        i += 1;
    }
    proof {
        assert(later.take(i as int) =~= later);
        assert(views(names@).len() == names@.len());
    }
    let who: String = if names.len() == 0 {
        "unassigned".to_owned()
    } else {
        join_texts(&names, ", ")
    };
    "Next: ".to_owned().concat(who.as_str()).concat(" · week ").concat(
        show_week(week).as_str(),
    ).concat(".")
}

// ── What somebody still has to do ────────────────────────────────────────────

/// A task by slot, or by group when that has no slots.
pub open spec fn short_name(state: State, t: Task) -> Seq<char> {
    let g = state.cleaning_groups@[t.group as int];
    if t.slot < g.slots@.len() {
        g.slots@[t.slot as int].name@
    } else {
        g.name@
    }
}

/// What somebody still has to do this week in the group at a place.
pub open spec fn still_open(state: State, k: int, person_id: Seq<char>, today: Date) -> Seq<Seq<char>> {
    own_tasks(state, k, this_week(today), person_id, today).filter(is_open(state)).map_values(
        |t: Task| short_name(state, t),
    )
}

/// What somebody still has to do this week in a group.
pub open spec fn open_in_group(state: State, group_id: Seq<char>, person_id: Seq<char>, today: Date) -> Seq<
    Seq<char>,
> {
    if state.group(group_id) is Some {
        still_open(
            state,
            first_index(state.cleaning_groups@, group_with_id(group_id)),
            person_id,
            today,
        )
    } else {
        Seq::empty()
    }
}

/// Tells what somebody still has to do this week in a group.
pub fn current_open_assignments(state: &State, group_id: &str, person_id: &str, today: Date) -> (r:
    Vec<String>)
    requires
        known(*state, today),
    ensures
        views(r@) == open_in_group(*state, group_id@, person_id@, today),
{
    let mut names: Vec<String> = Vec::new();
    assert(views(names@) =~= Seq::<Seq<char>>::empty());
    let k = match state.group_position(group_id) {
        Some(k) => k,
        None => {
            return names;
        },
    };
    let own = list_own_tasks(state, k, current_week(today), person_id, today);
    let open = open_tasks(state, &own);
    let ghost all = open@.map_values(|t: Task| short_name(*state, t));
    let mut i: usize = 0;
    assert(views(names@) =~= all.take(0));
    while i < open.len()
        invariant
            i <= open.len(),
            are_tasks(*state, open@),
            all == open@.map_values(|t: Task| short_name(*state, t)),
            views(names@) == all.take(i as int),
        decreases open.len() - i,
    {
        let t = open[i];
        let g = &state.cleaning_groups[t.group];
        let name: String = if t.slot < g.slots.len() {
            g.slots[t.slot].name.clone()
        } else {
            g.name.clone()
        };
        proof {
            lemma_views_push(names@, name);
            assert(all.take(i + 1) =~= all.take(i as int).push(name@));
        }
        names.push(name);
        i += 1;
    }
    assert(all.take(i as int) =~= all);
    names
}

// ── Joining ──────────────────────────────────────────────────────────────────

/// Whether somebody joined a group, and a text was returned.
pub open spec fn entered(
    pre: State,
    post: State,
    r: Result<String, CommandError>,
    req: Request,
    group_id: Seq<char>,
    person_id: String,
    text: Seq<char>,
) -> bool {
    &&& r is Ok
    &&& r->Ok_0@ == text
    &&& joined(
        pre,
        post,
        pre.group(group_id)->0,
        person_id,
        req.today,
        req.usual as int,
        req.now,
    )
}

/// What becomes of somebody who is to join a group: they are a member already, or become one.
pub open spec fn enters_as(
    pre: State,
    post: State,
    r: Result<String, CommandError>,
    req: Request,
    group_id: Seq<char>,
    person_id: String,
    already: Seq<char>,
    welcome: Seq<char>,
    with_summary: bool,
) -> bool {
    if says(pre.group(group_id)->0.member_ids@, person_id@) {
        says_only(pre, post, r, already)
    } else {
        entered(
            pre,
            post,
            r,
            req,
            group_id,
            person_id,
            if with_summary {
                welcome + summary(post, group_id, req.today)
            } else {
                welcome
            },
        )
    }
}

/// Lets somebody join a group, unless they are a member already.
pub fn enter(
    state: &mut State,
    req: &Request,
    group_id: &String,
    person_id: &String,
    already: String,
    welcome: String,
    with_summary: bool,
) -> (r: Result<String, CommandError>)
    requires
        old(state).group(group_id@) is Some,
        known(*old(state), req.today),
        with_summary ==> dated_in(*old(state), group_id@),
    ensures
        enters_as(
            *old(state),
            *final(state),
            r,
            *req,
            group_id@,
            *person_id,
            already@,
            welcome@,
            with_summary,
        ),
{
    let member: bool = match state.group_by_id(group_id.as_str()) {
        Some(g) => contains_text(&g.member_ids, person_id.as_str()),
        None => false,
    };
    if member {
        return Ok(already);
    }
    match apply_group_join(state, group_id, person_id, req.today, req.usual, req.now) {
        Ok(_) => {},
        Err(e) => {
            return Err(CommandError::Refused(e));
        },
    }
    if with_summary {
        let next = next_assignment_summary(state, group_id.as_str(), req.today);
        Ok(welcome.concat(next.as_str()))
    } else {
        Ok(welcome)
    }
}

/// What `!join` does: whoever asks becomes known under an id, unless they are already, and a
/// member of a group.
pub open spec fn did_join(
    pre: State,
    post: State,
    r: Result<String, CommandError>,
    req: Request,
    args: Seq<String>,
    id: String,
) -> bool {
    if !known(pre, req.today) {
        answered(pre, post, r, Answer::Fails(CommandError::OutOfRange), req.now)
    } else if args.len() == 0 {
        says_only(pre, post, r, "Usage: !join <group>"@)
    } else {
        match pre.group_of_name(args[0]@) {
            None => says_only(pre, post, r, no_group_text(args[0]@)),
            Some(g) => exists|mid: State|
                {
                    &&& #[trigger] step(pre, mid, registers(req, id), req.now)
                    &&& match mid.person_of(req.sender@) {
                        None => unknown_person(mid, post, r),
                        Some(p) => enters_as(
                            mid,
                            post,
                            r,
                            req,
                            g.id@,
                            p.id,
                            "You are already in «"@ + args[0]@ + "»."@,
                            "✅ Joined «"@ + args[0]@ + "»."@,
                            false,
                        ),
                    }
                },
        }
    }
}

/// That somebody who should be known is not.
pub open spec fn unknown_person(pre: State, post: State, r: Result<String, CommandError>) -> bool {
    post == pre && r == Err::<String, CommandError>(
        CommandError::Refused(StateError::UnknownPerson),
    )
}

/// A group that is found by name is found by id.
proof fn lemma_named_group(state: State, name: Seq<char>)
    requires
        state.group_of_name(name) is Some,
    ensures
        state.cleaning_groups@.contains(state.group_of_name(name)->0),
        state.group(state.group_of_name(name)->0.id@) is Some,
        state.cleaning_groups@.contains(state.group(state.group_of_name(name)->0.id@)->0),
{
    lemma_first_index_is(state.cleaning_groups@, group_named(name));
    let i = first_index(state.cleaning_groups@, group_named(name));
    assert(state.cleaning_groups@[i] == state.group_of_name(name)->0);
    crate::commands::base::lemma_group_known(state, i);
    let p = group_with_id(state.cleaning_groups@[i].id@);
    lemma_first_index_is(state.cleaning_groups@, p);
    assert(state.cleaning_groups@[first_index(state.cleaning_groups@, p)] == state.group(
        state.cleaning_groups@[i].id@,
    )->0);
}

/// Somebody new leaves groups and plan as they are.
pub proof fn lemma_registered(pre: State, mid: State, e: DomainEvent, req: Request, group_id: Seq<char>)
    requires
        e is PersonCreated,
        step(pre, mid, e, req.now),
        pre.group(group_id) is Some,
    ensures
        mid.group(group_id) == pre.group(group_id),
        forall|today: Date| #[trigger] known(pre, today) ==> known(mid, today),
        keeps_dates(pre, mid),
{
    crate::planning::lemma_same_dates(pre, mid);
}

/// Lets whoever asks join a group; they become known under `id` unless they are already.
pub fn join_as(state: &mut State, req: &Request, args: &Vec<String>, id: String) -> (r: Result<
    String,
    CommandError,
>)
    ensures
        did_join(*old(state), *final(state), r, *req, args@, id),
{
    if !is_known(state, req.today) {
        return Err(CommandError::OutOfRange);
    }
    if args.len() == 0 {
        return Ok("Usage: !join <group>".to_owned());
    }
    let group_id = match state.group_by_name(args[0].as_str()) {
        Some(g) => g.id.clone(),
        None => {
            return Ok(no_group(args[0].as_str()));
        },
    };
    proof {
        lemma_named_group(*state, args@[0]@);
    }
    let ghost pre = *state;
    let event = DomainEvent::PersonCreated {
        person_id: id,
        display_name: req.sender.clone(),
        matrix_id: Some(req.sender.clone()),
    };
    match state.apply_event_at(event, req.now) {
        Ok(_) => {},
        Err(e) => {
            return Err(CommandError::Refused(e));
        },
    }
    let ghost mid = *state;
    proof {
        assert(step(pre, mid, registers(*req, id), req.now));
        lemma_registered(pre, mid, registers(*req, id), *req, group_id@);
    }
    let person_id = match state.person_by_matrix_id(req.sender.as_str()) {
        Some(p) => p.id.clone(),
        None => {
            return Err(CommandError::Refused(StateError::UnknownPerson));
        },
    };
    let already = "You are already in «".to_owned().concat(args[0].as_str()).concat("».");
    let welcome = "✅ Joined «".to_owned().concat(args[0].as_str()).concat("».");
    enter(state, req, &group_id, &person_id, already, welcome, false)
}

/// Lets whoever asks join a group. Somebody new gets a random id.
pub fn cmd_joinfloor(state: &mut State, req: &Request, args: &Vec<String>) -> (r: Result<
    String,
    CommandError,
>)
    ensures
        exists|id: String|
            id@.len() == 36 && #[trigger] did_join(
                *old(state),
                *final(state),
                r,
                *req,
                args@,
                id,
            ),
{
    let id = fresh_id();
    join_as(state, req, args, id)
}

/// That somebody is in a group already.
pub open spec fn already_text(who: Seq<char>, group_name: Seq<char>) -> Seq<char> {
    who + " is already in «"@ + group_name + "». No changes made."@
}

/// That somebody was added to a group.
pub open spec fn added_text(who: Seq<char>, note: Seq<char>, group_name: Seq<char>) -> Seq<char> {
    "✅ Added "@ + who + note + " to «"@ + group_name
        + "».\nTakes effect from the next open week; already-planned weeks are unchanged.\n"@
}

/// The event by which somebody becomes known under an id.
pub open spec fn introduces(id: String, who: String, matrix: bool) -> DomainEvent {
    DomainEvent::PersonCreated {
        person_id: id,
        display_name: who,
        matrix_id: if matrix {
            Some(who)
        } else {
            None
        },
    }
}

/// Somebody by Matrix id, or by Matrix id or name.
pub open spec fn looked_up(state: State, who: Seq<char>, matrix: bool) -> Option<Person> {
    if matrix {
        state.person_of(who)
    } else {
        state.person_named(who)
    }
}

/// The end of what is said of somebody without a Matrix account.
pub open spec fn account_note(matrix: bool) -> Seq<char> {
    if matrix {
        ""@
    } else {
        " (no Matrix)"@
    }
}

/// How somebody is added to a group.
pub open spec fn add_usage(matrix: bool) -> Seq<char> {
    if matrix {
        "Usage: !cleaning add @user:server <group>"@
    } else {
        "Usage: !member add <@user:server | name> <group>"@
    }
}

/// What adding somebody to a group does, given, for a Matrix user, whether what they are called by
/// is a Matrix id: they become known under an id, unless they are already, and a member.
pub open spec fn did_add(
    pre: State,
    post: State,
    r: Result<String, CommandError>,
    req: Request,
    args: Seq<String>,
    matrix: bool,
    valid: bool,
    id: String,
) -> bool {
    if !req.is_admin {
        answered(pre, post, r, Answer::Fails(CommandError::NotAdmin), req.now)
    } else if !known(pre, req.today) {
        answered(pre, post, r, Answer::Fails(CommandError::OutOfRange), req.now)
    } else if args.len() < 2 {
        says_only(pre, post, r, add_usage(matrix))
    } else if matrix && !valid {
        says_only(pre, post, r, bad_user_id_text(args[0]@))
    } else {
        let who = args[0];
        match pre.group_of_name(args[1]@) {
            None => says_only(pre, post, r, no_group_text(args[1]@)),
            Some(g) => if !dated_in(pre, g.id@) {
                answered(pre, post, r, Answer::Fails(CommandError::OutOfRange), req.now)
            } else {
                match looked_up(pre, who@, matrix) {
                    Some(p) => added_as(pre, post, r, req, g.id@, p.id, who, matrix, args[1]@),
                    None => exists|mid: State|
                        {
                            &&& #[trigger] step(pre, mid, introduces(id, who, matrix), req.now)
                            &&& match looked_up(mid, who@, matrix) {
                                None => unknown_person(mid, post, r),
                                Some(p) => added_as(
                                    mid,
                                    post,
                                    r,
                                    req,
                                    g.id@,
                                    p.id,
                                    who,
                                    matrix,
                                    args[1]@,
                                ),
                            }
                        },
                }
            },
        }
    }
}

/// What becomes of a known person who is added to a group.
pub open spec fn added_as(
    pre: State,
    post: State,
    r: Result<String, CommandError>,
    req: Request,
    group_id: Seq<char>,
    person_id: String,
    who: String,
    matrix: bool,
    group_name: Seq<char>,
) -> bool {
    enters_as(
        pre,
        post,
        r,
        req,
        group_id,
        person_id,
        already_text(who@, group_name),
        added_text(who@, account_note(matrix), group_name),
        true,
    )
}

/// Looks somebody up.
fn look_up(state: &State, who: &str, matrix: bool) -> (r: Option<String>)
    ensures
        (r is Some) == (looked_up(*state, who@, matrix) is Some),
        r is Some ==> r->0 == looked_up(*state, who@, matrix)->0.id,
{
    let found = if matrix {
        state.person_by_matrix_id(who)
    } else {
        state.find_person(who)
    };
    match found {
        Some(p) => Some(p.id.clone()),
        None => None,
    }
}

/// Adds a known person to a group.
fn add_known(
    state: &mut State,
    req: &Request,
    group_id: &String,
    person_id: &String,
    args: &Vec<String>,
    matrix: bool,
) -> (r: Result<String, CommandError>)
    requires
        args@.len() >= 2,
        old(state).group(group_id@) is Some,
        known(*old(state), req.today),
        dated_in(*old(state), group_id@),
    ensures
        added_as(
            *old(state),
            *final(state),
            r,
            *req,
            group_id@,
            *person_id,
            args@[0],
            matrix,
            args@[1]@,
        ),
{
    let already = args[0].clone().concat(" is already in «").concat(args[1].as_str()).concat(
        "». No changes made.",
    );
    let note: &str = if matrix {
        ""
    } else {
        " (no Matrix)"
    };
    let welcome = "✅ Added ".to_owned().concat(args[0].as_str()).concat(note).concat(
        " to «",
    ).concat(args[1].as_str()).concat(
        "».\nTakes effect from the next open week; already-planned weeks are unchanged.\n",
    );
    enter(state, req, group_id, person_id, already, welcome, true)
}

/// Adds somebody to a group, given whether what they are called by is the id of a Matrix user;
/// they become known under `id` unless they are already.
pub fn add_as(
    state: &mut State,
    req: &Request,
    args: &Vec<String>,
    matrix: bool,
    valid: bool,
    id: String,
) -> (r: Result<String, CommandError>)
    ensures
        did_add(*old(state), *final(state), r, *req, args@, matrix, valid, id),
{
    if !req.is_admin {
        return Err(CommandError::NotAdmin);
    }
    if !is_known(state, req.today) {
        return Err(CommandError::OutOfRange);
    }
    if args.len() < 2 {
        return Ok(
            if matrix {
                "Usage: !cleaning add @user:server <group>".to_owned()
            } else {
                "Usage: !member add <@user:server | name> <group>".to_owned()
            },
        );
    }
    if matrix {
        if let Err(t) = user_id_verdict(args[0].as_str(), valid) {
            return Ok(t);
        }
    }
    let group_id = match state.group_by_name(args[1].as_str()) {
        Some(g) => g.id.clone(),
        None => {
            return Ok(no_group(args[1].as_str()));
        },
    };
    proof {
        lemma_named_group(*state, args@[1]@);
    }
    if !group_dates_fit(state, group_id.as_str()) {
        return Err(CommandError::OutOfRange);
    }
    if let Some(person_id) = look_up(state, args[0].as_str(), matrix) {
        return add_known(state, req, &group_id, &person_id, args, matrix);
    }
    let ghost pre = *state;
    let event = DomainEvent::PersonCreated {
        person_id: id,
        display_name: args[0].clone(),
        matrix_id: if matrix {
            Some(args[0].clone())
        } else {
            None
        },
    };
    match state.apply_event_at(event, req.now) {
        Ok(_) => {},
        Err(e) => {
            return Err(CommandError::Refused(e));
        },
    }
    let ghost mid = *state;
    proof {
        assert(step(pre, mid, introduces(id, args@[0], matrix), req.now));
        lemma_registered(pre, mid, introduces(id, args@[0], matrix), *req, group_id@);
    }
    match look_up(state, args[0].as_str(), matrix) {
        Some(person_id) => add_known(state, req, &group_id, &person_id, args, matrix),
        None => Err(CommandError::Refused(StateError::UnknownPerson)),
    }
}

/// Whether somebody is called by the id of a Matrix user.
pub open spec fn names_user(args: Seq<String>) -> bool {
    args.len() > 0 && is_user_id(args[0]@)
}

/// Adds a Matrix user to a group. Somebody new gets a random id.
pub fn add_matrix_participant(state: &mut State, req: &Request, args: &Vec<String>) -> (r: Result<
    String,
    CommandError,
>)
    ensures
        exists|id: String|
            id@.len() == 36 && #[trigger] did_add(
                *old(state),
                *final(state),
                r,
                *req,
                args@,
                true,
                names_user(args@),
                id,
            ),
{
    let valid = args.len() > 0 && reads_as_user_id(args[0].as_str());
    assert(valid == names_user(args@));
    let id = fresh_id();
    add_as(state, req, args, true, valid, id)
}

/// Adds a person without a Matrix account to a group. Somebody new gets a random id.
pub fn cmd_addperson(state: &mut State, req: &Request, args: &Vec<String>) -> (r: Result<
    String,
    CommandError,
>)
    ensures
        exists|id: String|
            id@.len() == 36 && #[trigger] did_add(
                *old(state),
                *final(state),
                r,
                *req,
                args@,
                false,
                false,
                id,
            ),
{
    let id = fresh_id();
    add_as(state, req, args, false, false, id)
}

// ── Leaving ──────────────────────────────────────────────────────────────────

/// Whether somebody left a group, and a text was returned.
pub open spec fn went(
    pre: State,
    post: State,
    r: Result<String, CommandError>,
    req: Request,
    group_id: Seq<char>,
    person_id: Seq<char>,
    text: Seq<char>,
) -> bool {
    &&& r is Ok
    &&& r->Ok_0@ == text
    &&& left(pre, post, pre.group(group_id)->0, person_id, req.today, req.now)
}

/// The texts for somebody who is to leave a group.
pub struct Goodbye {
    /// That they are not a member.
    pub stranger: Seq<char>,
    /// What stands before what they still have to do.
    pub busy: Seq<char>,
    /// What stands after what they still have to do.
    pub busy_end: Seq<char>,
}

/// What becomes of somebody who is to leave a group: they are not in it, still have something to
/// do, or leave; then a text is returned that `done` makes of the number of their turns that went
/// to others.
pub open spec fn leaves_as(
    pre: State,
    post: State,
    r: Result<String, CommandError>,
    req: Request,
    group_id: Seq<char>,
    person_id: Seq<char>,
    bye: Goodbye,
    done: Seq<char>,
) -> bool {
    let open = open_in_group(pre, group_id, person_id, req.today);
    if !says(pre.group(group_id)->0.member_ids@, person_id) {
        says_only(pre, post, r, bye.stranger)
    } else if open.len() > 0 {
        says_only(pre, post, r, bye.busy + join(open, ", "@) + bye.busy_end)
    } else {
        went(pre, post, r, req, group_id, person_id, done)
    }
}

/// What comes of trying to leave a group.
enum Leaving {
    /// Nothing changed; this is to be said.
    Stays(String),
    /// So many turns went to others.
    Gone(usize),
}

/// Takes somebody out of a group, unless they are not in it or still have something to do.
fn leave(
    state: &mut State,
    req: &Request,
    group_id: &String,
    person_id: &String,
    stranger: String,
    busy: String,
    busy_end: &str,
) -> (r: Result<Leaving, CommandError>)
    requires
        known(*old(state), req.today),
        old(state).group(group_id@) is Some,
    ensures
        ({
            let pre = *old(state);
            let post = *final(state);
            let open = open_in_group(pre, group_id@, person_id@, req.today);
            if !says(pre.group(group_id@)->0.member_ids@, person_id@) {
                post == pre && r is Ok && r->Ok_0 is Stays && r->Ok_0->Stays_0@ == stranger@
            } else if open.len() > 0 {
                post == pre && r is Ok && r->Ok_0 is Stays && r->Ok_0->Stays_0@ == busy@ + join(
                    open,
                    ", "@,
                ) + busy_end@
            } else {
                &&& r is Ok
                &&& r->Ok_0 is Gone
                &&& r->Ok_0->Gone_0 == future_count(pre, person_id@, group_id@, req.today)
                &&& left(pre, post, pre.group(group_id@)->0, person_id@, req.today, req.now)
                &&& known(post, req.today)
                &&& keeps_dates(pre, post)
            }
        }),
{
    let member: bool = match state.group_by_id(group_id.as_str()) {
        Some(g) => contains_text(&g.member_ids, person_id.as_str()),
        None => false,
    };
    if !member {
        return Ok(Leaving::Stays(stranger));
    }
    let open = current_open_assignments(
        state,
        group_id.as_str(),
        person_id.as_str(),
        req.today,
    );
    assert(views(open@).len() == open@.len());
    if open.len() > 0 {
        return Ok(
            Leaving::Stays(busy.concat(join_texts(&open, ", ").as_str()).concat(busy_end)),
        );
    }
    match leave_group(state, person_id, group_id, req.today, req.now) {
        Ok(n) => Ok(Leaving::Gone(n)),
        Err(e) => Err(CommandError::Refused(e)),
    }
}

/// What `!leave` does.
pub open spec fn did_leave(
    pre: State,
    post: State,
    r: Result<String, CommandError>,
    req: Request,
    args: Seq<String>,
) -> bool {
    if !known(pre, req.today) {
        answered(pre, post, r, Answer::Fails(CommandError::OutOfRange), req.now)
    } else if args.len() == 0 {
        says_only(pre, post, r, "Usage: !leave <group>"@)
    } else {
        match pre.person_of(req.sender@) {
            None => says_only(pre, post, r, "You are not registered in any group."@),
            Some(p) => match pre.group_of_name(args[0]@) {
                None => says_only(pre, post, r, no_group_text(args[0]@)),
                Some(g) => leaves_as(
                    pre,
                    post,
                    r,
                    req,
                    g.id@,
                    p.id@,
                    Goodbye {
                        stranger: "You are not in «"@ + args[0]@ + "»."@,
                        busy: "You cannot leave «"@ + args[0]@
                            + "» while your current assignment is open ("@,
                        busy_end: "). Complete or skip it first."@,
                    },
                    "✅ Left «"@ + args[0]@ + "»."@,
                ),
            },
        }
    }
}

/// Lets whoever asks leave a group, unless they still have something to do this week.
pub fn cmd_leavefloor(state: &mut State, req: &Request, args: &Vec<String>) -> (r: Result<
    String,
    CommandError,
>)
    ensures
        did_leave(*old(state), *final(state), r, *req, args@),
{
    if !is_known(state, req.today) {
        return Err(CommandError::OutOfRange);
    }
    if args.len() == 0 {
        return Ok("Usage: !leave <group>".to_owned());
    }
    let person_id = match state.person_by_matrix_id(req.sender.as_str()) {
        Some(p) => p.id.clone(),
        None => {
            return Ok("You are not registered in any group.".to_owned());
        },
    };
    let group_id = match state.group_by_name(args[0].as_str()) {
        Some(g) => g.id.clone(),
        None => {
            return Ok(no_group(args[0].as_str()));
        },
    };
    proof {
        lemma_named_group(*state, args@[0]@);
    }
    let stranger = "You are not in «".to_owned().concat(args[0].as_str()).concat("».");
    let busy = "You cannot leave «".to_owned().concat(args[0].as_str()).concat(
        "» while your current assignment is open (",
    );
    match leave(
        state,
        req,
        &group_id,
        &person_id,
        stranger,
        busy,
        "). Complete or skip it first.",
    ) {
        Ok(Leaving::Stays(t)) => Ok(t),
        Ok(Leaving::Gone(_)) => Ok("✅ Left «".to_owned().concat(args[0].as_str()).concat("».")),
        Err(e) => Err(e),
    }
}

/// How somebody is removed from a group.
pub open spec fn remove_usage(matrix: bool) -> Seq<char> {
    if matrix {
        "Usage: !cleaning remove @user:server <group>"@
    } else {
        "Usage: !member remove <@user:server | name> <group>"@
    }
}

/// That somebody is not known.
pub open spec fn nobody_text(who: Seq<char>, matrix: bool) -> Seq<char> {
    if matrix {
        who + " is not registered. No changes made."@
    } else {
        "Person «"@ + who + "» not found."@
    }
}

/// That somebody was removed from a group.
pub open spec fn removed_text(who: Seq<char>, group_name: Seq<char>, refilled: int) -> Seq<char> {
    "✅ Removed "@ + who + " from «"@ + group_name
        + "».\nCurrent, completed, and other members' future assignments were preserved. Refilled "@
        + decimal(refilled as nat) + " vacated week(s).\n"@
}

/// What removing somebody from a group does, given whether what they are called by is the id of a
/// Matrix user.
pub open spec fn did_remove(
    pre: State,
    post: State,
    r: Result<String, CommandError>,
    req: Request,
    args: Seq<String>,
    matrix: bool,
    valid: bool,
) -> bool {
    if !req.is_admin {
        answered(pre, post, r, Answer::Fails(CommandError::NotAdmin), req.now)
    } else if !known(pre, req.today) {
        answered(pre, post, r, Answer::Fails(CommandError::OutOfRange), req.now)
    } else if args.len() < 2 {
        says_only(pre, post, r, remove_usage(matrix))
    } else if matrix && !valid {
        says_only(pre, post, r, bad_user_id_text(args[0]@))
    } else {
        match looked_up(pre, args[0]@, matrix) {
            None => says_only(pre, post, r, nobody_text(args[0]@, matrix)),
            Some(p) => match pre.group_of_name(args[1]@) {
                None => says_only(pre, post, r, no_group_text(args[1]@)),
                Some(g) => if !dated_in(pre, g.id@) {
                    answered(pre, post, r, Answer::Fails(CommandError::OutOfRange), req.now)
                } else {
                    leaves_as(
                        pre,
                        post,
                        r,
                        req,
                        g.id@,
                        p.id@,
                        Goodbye {
                            stranger: args[0]@ + " is not in «"@ + args[1]@
                                + "». No changes made."@,
                            busy: "Cannot remove "@ + args[0]@ + " from «"@ + args[1]@
                                + "»: their current assignment is still open ("@,
                            busy_end: "). Complete, skip, or manually reassign it first. No changes made."@,
                        },
                        removed_text(
                            args[0]@,
                            args[1]@,
                            future_count(pre, p.id@, g.id@, req.today),
                        ) + summary(post, g.id@, req.today),
                    )
                },
            },
        }
    }
}

/// Removes somebody from a group, given whether what they are called by is the id of a Matrix
/// user.
pub fn remove_checked(
    state: &mut State,
    req: &Request,
    args: &Vec<String>,
    matrix: bool,
    valid: bool,
) -> (r: Result<String, CommandError>)
    ensures
        did_remove(*old(state), *final(state), r, *req, args@, matrix, valid),
{
    if !req.is_admin {
        return Err(CommandError::NotAdmin);
    }
    if !is_known(state, req.today) {
        return Err(CommandError::OutOfRange);
    }
    if args.len() < 2 {
        return Ok(
            if matrix {
                "Usage: !cleaning remove @user:server <group>".to_owned()
            } else {
                "Usage: !member remove <@user:server | name> <group>".to_owned()
            },
        );
    }
    if matrix {
        if let Err(t) = user_id_verdict(args[0].as_str(), valid) {
            return Ok(t);
        }
    }
    let person_id = match look_up(state, args[0].as_str(), matrix) {
        Some(id) => id,
        None => {
            return Ok(
                if matrix {
                    args[0].clone().concat(" is not registered. No changes made.")
                } else {
                    "Person «".to_owned().concat(args[0].as_str()).concat("» not found.")
                },
            );
        },
    };
    let group_id = match state.group_by_name(args[1].as_str()) {
        Some(g) => g.id.clone(),
        None => {
            return Ok(no_group(args[1].as_str()));
        },
    };
    proof {
        lemma_named_group(*state, args@[1]@);
    }
    if !group_dates_fit(state, group_id.as_str()) {
        return Err(CommandError::OutOfRange);
    }
    let stranger = args[0].clone().concat(" is not in «").concat(args[1].as_str()).concat(
        "». No changes made.",
    );
    let busy = "Cannot remove ".to_owned().concat(args[0].as_str()).concat(" from «").concat(
        args[1].as_str(),
    ).concat("»: their current assignment is still open (");
    match leave(
        state,
        req,
        &group_id,
        &person_id,
        stranger,
        busy,
        "). Complete, skip, or manually reassign it first. No changes made.",
    ) {
        Ok(Leaving::Stays(t)) => Ok(t),
        Ok(Leaving::Gone(n)) => {
            let next = next_assignment_summary(state, group_id.as_str(), req.today);
            Ok(
                "✅ Removed ".to_owned().concat(args[0].as_str()).concat(" from «").concat(
                    args[1].as_str(),
                ).concat(
                    "».\nCurrent, completed, and other members' future assignments were preserved. Refilled ",
                ).concat(show(n as u64).as_str()).concat(" vacated week(s).\n").concat(
                    next.as_str(),
                ),
            )
        },
        Err(e) => Err(e),
    }
}

/// Removes a Matrix user from a group, unless they still have something to do this week.
pub fn remove_matrix_participant(state: &mut State, req: &Request, args: &Vec<String>) -> (r:
    Result<String, CommandError>)
    ensures
        did_remove(
            *old(state),
            *final(state),
            r,
            *req,
            args@,
            true,
            names_user(args@),
        ),
{
    let valid = args.len() > 0 && reads_as_user_id(args[0].as_str());
    remove_checked(state, req, args, true, valid)
}

/// Removes a person from a group, unless they still have something to do this week.
pub fn cmd_removeperson(state: &mut State, req: &Request, args: &Vec<String>) -> (r: Result<
    String,
    CommandError,
>)
    ensures
        did_remove(*old(state), *final(state), r, *req, args@, false, false),
{
    remove_checked(state, req, args, false, false)
}

/// Whether somebody is called by what looks like a Matrix id.
pub open spec fn is_handle(args: Seq<String>) -> bool {
    args.len() > 0 && args[0]@.len() > 0 && args[0]@[0] == '@'
}

/// Whether somebody is called by what looks like a Matrix id.
fn starts_with_handle(args: &Vec<String>) -> (r: bool)
    ensures
        r == is_handle(args@),
{
    if args.len() == 0 {
        return false;
    }
    let v = crate::text::chars_of(args[0].as_str());
    v.len() > 0 && v[0] == '@'
}

/// Whether somebody is called by what looks like a Matrix id, and is one.
pub open spec fn is_valid_handle(args: Seq<String>) -> bool {
    is_handle(args) && names_user(args)
}

/// Adds somebody to a group: a Matrix user by id, anybody else by name.
pub fn cmd_member_add(state: &mut State, req: &Request, args: &Vec<String>) -> (r: Result<
    String,
    CommandError,
>)
    ensures
        exists|id: String|
            id@.len() == 36 && #[trigger] did_add(
                *old(state),
                *final(state),
                r,
                *req,
                args@,
                is_handle(args@),
                is_valid_handle(args@),
                id,
            ),
{
    if starts_with_handle(args) {
        assert(is_valid_handle(args@) == names_user(args@));
        add_matrix_participant(state, req, args)
    } else {
        assert(is_valid_handle(args@) == false);
        cmd_addperson(state, req, args)
    }
}

/// Removes somebody from a group: a Matrix user by id, anybody else by name.
pub fn cmd_member_remove(state: &mut State, req: &Request, args: &Vec<String>) -> (r: Result<
    String,
    CommandError,
>)
    ensures
        did_remove(
            *old(state),
            *final(state),
            r,
            *req,
            args@,
            is_handle(args@),
            is_valid_handle(args@),
        ),
{
    if starts_with_handle(args) {
        remove_matrix_participant(state, req, args)
    } else {
        cmd_removeperson(state, req, args)
    }
}

} // verus!
