//! Marking tasks as done.

use vstd::prelude::*;

use crate::analytics::{DomainEvent, Duty};
use crate::calendar::{is_year, Date, Timestamp};
use crate::commands::base::{
    current_week, group_position_by_name, meant_turn, no_group, no_group_text, says_only,
    slot_ending, slot_suffix, turn_meant, CommandError, Request,
};
use crate::commands::tasks::{
    all_own, are_tasks, is_open, lemma_markable, list_all_own, list_own_tasks, markable, own_tasks,
    pick_markable, task_open, Task,
};
use crate::course::history;
use crate::domain::{CleaningGroup, SlotId};
use crate::journal::{refusal, StateError};
use crate::lists::{first_index, lemma_filter_step, lemma_first_index, some};
use crate::planning::{is_known, known, this_week, turn_fits};
use crate::rhythm::Turn;
use crate::state::{group_named, State};
use crate::text::{contains_text, join, join_texts, lemma_views_push, says, views};

verus! {

/// The id of a slot of a group.
pub open spec fn slot_id_of(group: CleaningGroup, slot: int) -> Option<SlotId> {
    if 0 <= slot < group.slots@.len() {
        Some(group.slots@[slot].id)
    } else {
        None
    }
}

/// Whether an event marks a task as done by somebody, to the credit of whoever is responsible.
pub open spec fn marks(e: DomainEvent, state: State, t: Task, by: String, today: Date) -> bool {
    let g = state.cleaning_groups@[t.group as int];
    match e {
        DomainEvent::CleaningCompleted {
            group_id,
            slot_id,
            person_id,
            responsible_person_ids,
            iso_year,
            iso_week,
            shift,
        } => {
            &&& group_id == g.id
            &&& slot_id == slot_id_of(g, t.slot as int)
            &&& person_id == by
            &&& responsible_person_ids@ == (match state.assignee(
                g,
                t.slot as int,
                t.turn,
                today,
            ) {
                Some(p) => seq![p.id],
                None => Seq::empty(),
            })
            &&& (Turn { year: iso_year, week: iso_week, shift }) == t.turn
        },
        _ => false,
    }
}

/// The shift of a turn, for groups with several.
pub open spec fn shift_note(group: CleaningGroup, turn: Turn) -> Seq<char> {
    match turn.shift_text(group.rhythm) {
        Some(t) => " ("@ + t + ")"@,
        None => ""@,
    }
}

/// A task by group, slot and shift.
pub open spec fn task_name(state: State, t: Task) -> Seq<char> {
    let g = state.cleaning_groups@[t.group as int];
    g.name@ + slot_suffix(g, t.slot as int, " / "@) + shift_note(g, t.turn)
}

/// What is said of a task that was marked, given the state after that.
pub open spec fn mark_text(state: State, after: State, t: Task) -> Seq<char> {
    let g = state.cleaning_groups@[t.group as int];
    if g.slots@.len() > 0 && after.week_done(g, t.turn.year, t.turn.week) {
        g.name@ + " ✅ fully done"@
    } else {
        task_name(state, t)
    }
}

/// Whether tasks were marked as done, one after another, and what is said of them.
pub open spec fn marked_by(
    h: Seq<State>,
    events: Seq<DomainEvent>,
    pre: State,
    post: State,
    tasks: Seq<Task>,
    by: String,
    today: Date,
    now: Timestamp,
    said: Seq<Seq<char>>,
) -> bool {
    &&& history(h, events, now)
    &&& h[0] == pre
    &&& h.last() == post
    &&& events.len() == tasks.len()
    &&& said.len() == tasks.len()
    &&& forall|i: int|
        0 <= i < tasks.len() ==> marks(#[trigger] events[i], pre, tasks[i], by, today)
    &&& forall|i: int|
        0 <= i < tasks.len() ==> #[trigger] said[i] == mark_text(pre, h[i + 1], tasks[i])
}

/// Whether tasks were marked as done, and what is said of them.
pub open spec fn marked(
    pre: State,
    post: State,
    tasks: Seq<Task>,
    by: String,
    today: Date,
    now: Timestamp,
    said: Seq<Seq<char>>,
) -> bool {
    exists|h: Seq<State>, events: Seq<DomainEvent>| #[trigger]
        marked_by(h, events, pre, post, tasks, by, today, now, said)
}

/// The shift of a turn, for groups with several.
pub fn show_shift(group: &CleaningGroup, turn: Turn) -> (r: String)
    ensures
        r@ == shift_note(*group, turn),
{
    match turn.shift_label(&group.rhythm) {
        Some(t) => " (".to_owned().concat(t.as_str()).concat(")"),
        None => "".to_owned(),
    }
}

/// A task by group, slot and shift.
pub fn show_task(state: &State, t: &Task) -> (r: String)
    requires
        t.group < state.cleaning_groups@.len(),
    ensures
        r@ == task_name(*state, *t),
{
    let g = &state.cleaning_groups[t.group];
    g.name.clone().concat(slot_ending(g, t.slot, " / ").as_str()).concat(
        show_shift(g, t.turn).as_str(),
    )
}

/// The event that marks a task as done.
fn mark_event(state: &State, t: &Task, by: &String, today: Date) -> (r: DomainEvent)
    requires
        known(*state, today),
        t.group < state.cleaning_groups@.len(),
        t.turn.wf(),
    ensures
        marks(r, *state, *t, *by, today),
{
    proof {
        crate::planning::lemma_known(*state, today);
    }
    let g = &state.cleaning_groups[t.group];
    let mut ids: Vec<String> = Vec::new();
    match state.slot_assignee_at(g, t.slot, t.turn, today) {
        Some(p) => {
            ids.push(p.id.clone());
            assert(ids@ =~= seq![p.id]);
        },
        None => {},
    }
    DomainEvent::CleaningCompleted {
        group_id: g.id.clone(),
        slot_id: if t.slot < g.slots.len() {
            Some(g.slots[t.slot].id.clone())
        } else {
            None
        },
        person_id: by.clone(),
        responsible_person_ids: ids,
        iso_year: t.turn.year,
        iso_week: t.turn.week,
        shift: t.turn.shift,
    }
}

/// Marks tasks as done, one after another, and says so.
pub fn mark_all(state: &mut State, tasks: &Vec<Task>, by: &String, today: Date, now: Timestamp) -> (r:
    Result<Vec<String>, StateError>)
    requires
        known(*old(state), today),
        are_tasks(*old(state), tasks@),
    ensures
        r is Ok,
        marked(*old(state), *final(state), tasks@, *by, today, now, views(r->Ok_0@)),
        final(state).cleaning_groups == old(state).cleaning_groups,
{
    let ghost pre = *state;
    let mut events: Vec<DomainEvent> = Vec::new();
    let mut i: usize = 0;
    while i < tasks.len()
        invariant
            i <= tasks.len(),
            *state == pre,
            known(*state, today),
            are_tasks(*state, tasks@),
            events@.len() == i,
            forall|k: int| 0 <= k < i ==> marks(#[trigger] events@[k], pre, tasks@[k], *by, today),
        decreases tasks.len() - i,
    {
        events.push(mark_event(state, &tasks[i], by, today));
        i += 1;
    }
    let ghost all = events@;
    let ghost mut h: Seq<State> = seq![pre];
    let mut said: Vec<String> = Vec::new();
    let mut n: usize = 0;
    assert(all.skip(0) =~= all);
    assert(views(said@) =~= Seq::<Seq<char>>::empty());
    while n < tasks.len()
        invariant
            n <= tasks.len(),
            all.len() == tasks@.len(),
            events@ == all.skip(n as int),
            are_tasks(pre, tasks@),
            forall|k: int|
                0 <= k < all.len() ==> marks(#[trigger] all[k], pre, tasks@[k], *by, today),
            state.cleaning_groups == pre.cleaning_groups,
            history(h, all.take(n as int), now),
            h.len() == n + 1,
            h[0] == pre,
            h.last() == *state,
            said@.len() == n,
            forall|k: int|
                0 <= k < n ==> #[trigger] views(said@)[k] == mark_text(pre, h[k + 1], tasks@[k]),
        decreases tasks.len() - n,
    {
        let ghost mid = *state;
        let ghost said_before = views(said@);
        let e = events.remove(0);
        proof {
            assert(e == all[n as int]);
            assert(marks(all[n as int], pre, tasks@[n as int], *by, today));
            assert(refusal(*state, e) is None);
        }
        match state.apply_event_at(e, now) {
            Ok(_) => {},
            Err(e) => {
                return Err(e);
            },
        }
        let t = tasks[n];
        let g = &state.cleaning_groups[t.group];
        let done: bool = g.slots.len() > 0 && state.is_week_done(g, t.turn.year, t.turn.week);
        let text: String = if done {
            g.name.clone().concat(" ✅ fully done")
        } else {
            show_task(state, &t)
        };
        proof {
            let g2 = h.push(*state);
            let es = all.take(n + 1);
            assert forall|k: int| 0 <= k < es.len() implies crate::course::step(
                g2[k],
                g2[k + 1],
                #[trigger] es[k],
                now,
            ) by {
                if k < n {
                    assert(es[k] == all.take(n as int)[k]);
                    assert(crate::course::step(h[k], h[k + 1], all.take(n as int)[k], now));
                }
            }
            assert(history(g2, es, now));
            lemma_views_push(said@, text);
            assert(task_name(*state, t) == task_name(pre, t));
            assert(text@ == mark_text(pre, *state, t));
            assert forall|k: int| 0 <= k < n + 1 implies #[trigger] views(said@.push(text))[k]
                == mark_text(pre, g2[k + 1], tasks@[k]) by {
                if k < n {
                    assert(views(said@.push(text))[k] == said_before[k]);
                }
            }
            h = g2;
            assert(events@ =~= all.skip(n + 1));
        }
        said.push(text);
        n += 1;
    }
    proof {
        assert(all.take(n as int) =~= all);
        assert(marked_by(h, all, pre, *state, tasks@, *by, today, now, views(said@)));
    }
    Ok(said)
}

/// Whether a task is what a duty names.
pub open spec fn names_task(state: State, d: Duty, t: Task) -> bool {
    &&& t.group == crate::journal::place_of(state, d.group_id@)
    &&& t.slot == d.slot_index
    &&& t.turn == d.turn
}

/// Whether tasks are what duties name.
pub open spec fn name_tasks(state: State, duties: Seq<Duty>, tasks: Seq<Task>) -> bool {
    &&& tasks.len() == duties.len()
    &&& forall|i: int| 0 <= i < tasks.len() ==> names_task(state, duties[i], #[trigger] tasks[i])
}

/// Whether duties are of groups that there are, and their days can be represented.
pub open spec fn duties_fit(state: State, duties: Seq<Duty>) -> bool {
    forall|i: int|
        0 <= i < duties.len() ==> state.group((#[trigger] duties[i]).group_id@) is Some
            && duties[i].turn.wf()
}

/// The tasks that duties name.
fn find_tasks(state: &State, duties: &Vec<Duty>) -> (r: Option<Vec<Task>>)
    ensures
        (r is Some) == duties_fit(*state, duties@),
        r is Some ==> name_tasks(*state, duties@, r->0@) && are_tasks(*state, r->0@),
{
    let mut tasks: Vec<Task> = Vec::new();
    let mut i: usize = 0;
    while i < duties.len()
        invariant
            i <= duties.len(),
            tasks@.len() == i,
            are_tasks(*state, tasks@),
            forall|k: int|
                0 <= k < i ==> state.group((#[trigger] duties@[k]).group_id@) is Some
                    && duties@[k].turn.wf(),
            forall|k: int| 0 <= k < i ==> names_task(*state, duties@[k], #[trigger] tasks@[k]),
        decreases duties.len() - i,
    {
        let d = &duties[i];
        let fits = turn_fits(d.turn);
        match state.group_position(d.group_id.as_str()) {
            Some(k) if fits => {
                tasks.push(Task { group: k, slot: d.slot_index, turn: d.turn });
            },
            _ => {
                assert(!(state.group(duties@[i as int].group_id@) is Some
                    && duties@[i as int].turn.wf()));
                return None;
            },
        }
        i += 1;
    }
    Some(tasks)
}

/// Marks duties as done by somebody, and says so. Nothing changes when a duty is of a group that
/// there is not, or its days cannot be represented.
pub fn mark_duties_done(
    state: &mut State,
    person_id: &String,
    duties: &Vec<Duty>,
    today: Date,
    now: Timestamp,
) -> (r: Result<Vec<String>, CommandError>)
    ensures
        (r is Ok) == (known(*old(state), today) && duties_fit(*old(state), duties@)),
        r is Err ==> *final(state) == *old(state),
        !known(*old(state), today) ==> r is Err && r->Err_0 == CommandError::OutOfRange,
        known(*old(state), today) && r is Err ==> r->Err_0 == CommandError::Refused(
            StateError::UnknownGroup,
        ),
        r is Ok ==> exists|tasks: Seq<Task>| #[trigger]
            name_tasks(*old(state), duties@, tasks) && marked(
                *old(state),
                *final(state),
                tasks,
                *person_id,
                today,
                now,
                views(r->Ok_0@),
            ),
{
    if !is_known(state, today) {
        return Err(CommandError::OutOfRange);
    }
    let tasks = match find_tasks(state, duties) {
        Some(tasks) => tasks,
        None => {
            return Err(CommandError::Refused(StateError::UnknownGroup));
        },
    };
    match mark_all(state, &tasks, person_id, today, now) {
        Ok(said) => Ok(said),
        Err(e) => Err(CommandError::Refused(e)),
    }
}

// ── !done ────────────────────────────────────────────────────────────────────

/// What `!done` says to somebody who has nothing to do.
pub const NOTHING_OPEN: &'static str = "Nothing open for you this week. (!status shows who cleans what; !done <group> marks a group you cleaned for someone else.)";

/// What `!done` comes to.
pub enum Marking {
    /// Nothing changes, and a text is returned.
    Says(Seq<char>),
    /// Tasks are marked; others were done before.
    Marks(Seq<Task>, Seq<Seq<char>>),
}

/// The names of tasks.
pub open spec fn task_names(state: State, tasks: Seq<Task>) -> Seq<Seq<char>> {
    tasks.map_values(|t: Task| task_name(state, t))
}

/// Whether a task is done.
pub open spec fn is_finished(state: State) -> spec_fn(Task) -> bool {
    |t: Task| !is_open(state)(t)
}

/// An open task of the group at a place.
pub open spec fn open_in(state: State, k: usize) -> spec_fn(Task) -> bool {
    |t: Task| t.group == k && is_open(state)(t)
}

/// A done task of a slot of a group in which something else is open.
pub open spec fn done_beside(state: State, tasks: Seq<Task>) -> spec_fn(Task) -> bool {
    |t: Task|
        !is_open(state)(t) && state.cleaning_groups@[t.group as int].slots@.len() > 0 && some(
            tasks,
            open_in(state, t.group),
        )
}

/// The running turn of the group at a place, marked by somebody who may have cleaned for somebody
/// else.
pub open spec fn helping_hand(state: State, req: Request, k: int) -> Marking {
    let t = Task {
        group: k as usize,
        slot: 0,
        turn: turn_meant(state.cleaning_groups@[k], this_week(req.today), req.today),
    };
    if is_open(state)(t) {
        Marking::Marks(seq![t], Seq::empty())
    } else {
        Marking::Marks(Seq::empty(), seq![task_name(state, t)])
    }
}

/// What `!done` does for the group at a place.
pub open spec fn done_in(state: State, req: Request, person_id: Seq<char>, k: int) -> Marking {
    let g = state.cleaning_groups@[k];
    let own = own_tasks(state, k, this_week(req.today), person_id, req.today);
    let done = task_names(state, own.filter(is_finished(state)));
    if !says(g.member_ids@, person_id) && own.len() == 0 {
        Marking::Says("You are not a member of «"@ + g.name@ + "»."@)
    } else if own.filter(is_open(state)).len() > 0 {
        Marking::Marks(
            markable(state, own, req.today),
            if g.slots@.len() > 0 {
                done
            } else {
                Seq::empty()
            },
        )
    } else if g.slots@.len() > 0 {
        if own.len() == 0 {
            Marking::Says("You are not assigned to any slot in «"@ + g.name@ + "» this week."@)
        } else {
            Marking::Marks(Seq::empty(), done)
        }
    } else {
        helping_hand(state, req, k)
    }
}

/// Whether somebody may mark a group without a task of their own: an active group without slots
/// that they are in and that is due.
pub open spec fn may_help(state: State, group: CleaningGroup, person_id: Seq<char>, today: Date) -> bool {
    &&& says(group.member_ids@, person_id)
    &&& group.is_active
    &&& group.slots@.len() == 0
    &&& state.due(group, today, this_week(today).0 as int, this_week(today).1 as int)
}

/// The places of the first groups that somebody may mark without a task of their own.
pub open spec fn helpable(state: State, person_id: Seq<char>, today: Date, n: nat) -> Seq<int>
    decreases n,
{
    if n == 0 {
        Seq::empty()
    } else {
        let r = helpable(state, person_id, today, (n - 1) as nat);
        if may_help(state, state.cleaning_groups@[n - 1], person_id, today) {
            r.push(n - 1)
        } else {
            r
        }
    }
}

/// What `!done` does when no group is named: the tasks of whoever asks that are open, and without
/// any the only group that they may mark.
pub open spec fn done_anywhere(state: State, req: Request, person_id: Seq<char>) -> Marking {
    let own = all_own(
        state,
        this_week(req.today),
        person_id,
        None,
        req.today,
        state.cleaning_groups@.len(),
    );
    let plain = helpable(state, person_id, req.today, state.cleaning_groups@.len());
    if own.filter(is_open(state)).len() > 0 {
        Marking::Marks(
            markable(state, own, req.today),
            task_names(state, own.filter(done_beside(state, own))),
        )
    } else if plain.len() == 1 {
        helping_hand(state, req, plain[0])
    } else if state.groups_of(person_id).len() == 0 {
        Marking::Says("You are not in any cleaning group."@)
    } else {
        Marking::Says(NOTHING_OPEN@)
    }
}

/// The line that lists things, or none when there are none.
pub open spec fn list_line(title: Seq<char>, items: Seq<Seq<char>>) -> Seq<Seq<char>> {
    if items.len() > 0 {
        seq![title + join(items, ", "@)]
    } else {
        Seq::empty()
    }
}

/// What `!done` does for somebody.
pub open spec fn done_marking(state: State, req: Request, person_id: Seq<char>, args: Seq<String>) -> Marking {
    let name = join(views(args), " "@);
    if args.len() == 0 {
        done_anywhere(state, req, person_id)
    } else if state.group_of_name(name) is Some {
        done_in(
            state,
            req,
            person_id,
            first_index(state.cleaning_groups@, group_named(name)),
        )
    } else {
        Marking::Says(no_group_text(name))
    }
}

/// Whether tasks were marked, and that was said.
pub open spec fn said_marked(
    pre: State,
    post: State,
    r: Result<String, CommandError>,
    req: Request,
    by: String,
    m: Marking,
) -> bool {
    match m {
        Marking::Says(t) => says_only(pre, post, r, t),
        Marking::Marks(tasks, before) => exists|said: Seq<Seq<char>>|
            {
                &&& #[trigger] marked(pre, post, tasks, by, req.today, req.now, said)
                &&& r is Ok
                &&& r->Ok_0@ == join(
                    list_line("✅ Cleaned: "@, said) + list_line("Already done: "@, before),
                    "\n"@,
                )
            },
    }
}

/// What `!done` does.
pub open spec fn did_done(
    pre: State,
    post: State,
    r: Result<String, CommandError>,
    req: Request,
    args: Seq<String>,
) -> bool {
    if !known(pre, req.today) {
        r == Err::<String, CommandError>(CommandError::OutOfRange) && post == pre
    } else {
        match pre.person_of(req.sender@) {
            None => says_only(
                pre,
                post,
                r,
                "You are not registered. Join a group with !join <group>."@,
            ),
            Some(p) => said_marked(pre, post, r, req, p.id, done_marking(pre, req, p.id@, args)),
        }
    }
}

/// What `!done` comes to.
struct Marks {
    says: Option<String>,
    tasks: Vec<Task>,
    before: Vec<String>,
}

/// Whether that is what it comes to.
spec fn is_marking(m: Marks, state: State, spec_m: Marking) -> bool {
    match spec_m {
        Marking::Says(t) => m.says is Some && m.says->0@ == t,
        Marking::Marks(tasks, before) => {
            &&& m.says is None
            &&& m.tasks@ == tasks
            &&& views(m.before@) == before
            &&& are_tasks(state, tasks)
        },
    }
}

/// Only a text.
fn only_says(t: String) -> (r: Marks)
    ensures
        r.says == Some(t),
{
    Marks { says: Some(t), tasks: Vec::new(), before: Vec::new() }
}

/// Names the tasks that are done, of groups with something open beside when asked for.
pub fn name_finished(state: &State, tasks: &Vec<Task>, beside: bool) -> (r: Vec<String>)
    requires
        are_tasks(*state, tasks@),
    ensures
        beside ==> views(r@) == task_names(*state, tasks@.filter(done_beside(*state, tasks@))),
        !beside ==> views(r@) == task_names(*state, tasks@.filter(is_finished(*state))),
{
    let ghost p = if beside {
        done_beside(*state, tasks@)
    } else {
        is_finished(*state)
    };
    let mut r: Vec<String> = Vec::new();
    let mut i: usize = 0;
    assert(tasks@.take(0).filter(p) =~= Seq::<Task>::empty()) by {
        reveal(Seq::filter);
    }
    assert(views(r@) =~= task_names(*state, Seq::<Task>::empty()));
    while i < tasks.len()
        invariant
            i <= tasks.len(),
            p == if beside {
                done_beside(*state, tasks@)
            } else {
                is_finished(*state)
            },
            are_tasks(*state, tasks@),
            views(r@) == task_names(*state, tasks@.take(i as int).filter(p)),
        decreases tasks.len() - i,
    {
        proof {
            lemma_filter_step(tasks@, p, i as int);
        }
        let t = tasks[i];
        let wanted: bool = !task_open(state, &t) && (!beside || (
        state.cleaning_groups[t.group].slots.len() > 0 && has_open(state, tasks, t.group)));
        if wanted {
            let name = show_task(state, &t);
            proof {
                lemma_views_push(r@, name);
                assert(task_names(*state, tasks@.take(i as int).filter(p).push(t)) =~= task_names(
                    *state,
                    tasks@.take(i as int).filter(p),
                ).push(name@));
            }
            r.push(name);
        }
        i += 1;
    }
    assert(tasks@.take(i as int) =~= tasks@);
    r
}

/// Whether something is open in the group at a place.
fn has_open(state: &State, tasks: &Vec<Task>, k: usize) -> (r: bool)
    requires
        are_tasks(*state, tasks@),
    ensures
        r == some(tasks@, open_in(*state, k)),
{
    let ghost p = open_in(*state, k);
    let mut i: usize = 0;
    while i < tasks.len()
        invariant
            i <= tasks.len(),
            p == open_in(*state, k),
            are_tasks(*state, tasks@),
            forall|j: int| 0 <= j < i ==> !p(#[trigger] tasks@[j]),
        decreases tasks.len() - i,
    {
        if tasks[i].group == k && task_open(state, &tasks[i]) {
            proof {
                lemma_first_index(tasks@, p, i as int);
            }
            return true;
        }
        i += 1;
    }
    proof {
        lemma_first_index(tasks@, p, i as int);
    }
    false
}

/// The running turn of the group at a place.
fn lend_hand(state: &State, req: &Request, k: usize) -> (r: Marks)
    requires
        known(*state, req.today),
        k < state.cleaning_groups@.len(),
    ensures
        is_marking(r, *state, helping_hand(*state, *req, k as int)),
{
    let week = current_week(req.today);
    let turn = meant_turn(&state.cleaning_groups[k], week, req.today);
    let t = Task { group: k, slot: 0, turn };
    let mut r = Marks { says: None, tasks: Vec::new(), before: Vec::new() };
    if task_open(state, &t) {
        r.tasks.push(t);
        assert(r.tasks@ =~= seq![t]);
        assert(views(r.before@) =~= Seq::<Seq<char>>::empty());
    } else {
        let name = show_task(state, &t);
        r.before.push(name);
        assert(views(r.before@) =~= seq![name@]);
    }
    r
}

/// Finds what `!done` does for the group at a place.
fn find_done_in(state: &State, req: &Request, person_id: &str, k: usize) -> (r: Marks)
    requires
        known(*state, req.today),
        k < state.cleaning_groups@.len(),
    ensures
        is_marking(r, *state, done_in(*state, *req, person_id@, k as int)),
{
    let week = current_week(req.today);
    let g = &state.cleaning_groups[k];
    let own = list_own_tasks(state, k, week, person_id, req.today);
    if own.len() == 0 && !contains_text(&g.member_ids, person_id) {
        return only_says(
            "You are not a member of «".to_owned().concat(g.name.as_str()).concat("»."),
        );
    }
    let tasks = pick_markable(state, &own, req.today);
    proof {
        if own@.filter(is_open(*state)).len() > 0 {
            lemma_markable(*state, own@, req.today);
        } else {
            lemma_nothing_markable(*state, own@, req.today);
        }
        assert(views(Seq::<String>::empty()) =~= Seq::<Seq<char>>::empty());
    }
    if tasks.len() > 0 {
        let before = if g.slots.len() > 0 {
            name_finished(state, &own, false)
        } else {
            Vec::new()
        };
        return Marks { says: None, tasks, before };
    }
    if g.slots.len() > 0 {
        if own.len() == 0 {
            return only_says(
                "You are not assigned to any slot in «".to_owned().concat(
                    g.name.as_str(),
                ).concat("» this week."),
            );
        }
        return Marks { says: None, tasks, before: name_finished(state, &own, false) };
    }
    lend_hand(state, req, k)
}

/// When nothing is open, nothing can be marked.
proof fn lemma_nothing_markable(state: State, tasks: Seq<Task>, today: Date)
    requires
        tasks.filter(is_open(state)).len() == 0,
    ensures
        markable(state, tasks, today) == Seq::<Task>::empty(),
{
    let open = tasks.filter(is_open(state));
    crate::lists::lemma_filter(open, crate::commands::tasks::has_begun(state, today));
    crate::lists::lemma_filter(
        open,
        crate::commands::tasks::begins_on(state, crate::commands::tasks::earliest(state, open)),
    );
    assert(markable(state, tasks, today) =~= Seq::<Task>::empty());
}

/// Finds what `!done` does when no group is named.
fn find_done_anywhere(state: &State, req: &Request, person_id: &str) -> (r: Marks)
    requires
        known(*state, req.today),
    ensures
        is_marking(r, *state, done_anywhere(*state, *req, person_id@)),
{
    let week = current_week(req.today);
    let own = list_all_own(state, week, person_id, &None, req.today);
    let tasks = pick_markable(state, &own, req.today);
    proof {
        if own@.filter(is_open(*state)).len() > 0 {
            lemma_markable(*state, own@, req.today);
        } else {
            lemma_nothing_markable(*state, own@, req.today);
        }
        crate::calendar::lemma_today(req.today.day as int);
    }
    if tasks.len() > 0 {
        let before = name_finished(state, &own, true);
        return Marks { says: None, tasks, before };
    }
    let mut plain: Vec<usize> = Vec::new();
    let mut k: usize = 0;
    while k < state.cleaning_groups.len()
        invariant
            k <= state.cleaning_groups.len(),
            known(*state, req.today),
            req.today.in_week(),
            is_year(week.0 as int),
            week == this_week(req.today),
            plain@.len() == helpable(*state, person_id@, req.today, k as nat).len(),
            forall|i: int|
                0 <= i < plain@.len() ==> plain@[i] < state.cleaning_groups@.len()
                    && #[trigger] plain@[i] == helpable(
                    *state,
                    person_id@,
                    req.today,
                    k as nat,
                )[i],
        decreases state.cleaning_groups.len() - k,
    {
        let g = &state.cleaning_groups[k];
        if g.is_active && g.slots.len() == 0 && contains_text(&g.member_ids, person_id)
            && state.is_due_week(g, req.today, week.0, week.1) {
            plain.push(k);
        }
        k += 1;
    }
    if plain.len() == 1 {
        assert(plain@[0] == helpable(
            *state,
            person_id@,
            req.today,
            state.cleaning_groups@.len(),
        )[0]);
        return lend_hand(state, req, plain[0]);
    }
    if state.groups_for_person(person_id).len() == 0 {
        only_says("You are not in any cleaning group.".to_owned())
    } else {
        only_says(NOTHING_OPEN.to_owned())
    }
}

/// Adds the line that lists things, unless there are none.
pub fn add_list_line(lines: &mut Vec<String>, title: &str, items: &Vec<String>)
    ensures
        views(final(lines)@) == views(old(lines)@) + list_line(title@, views(items@)),
{
    assert(views(items@).len() == items@.len());
    if items.len() > 0 {
        let line = title.to_owned().concat(join_texts(items, ", ").as_str());
        proof {
            lemma_views_push(lines@, line);
            assert(views(lines@.push(line)) =~= views(lines@) + seq![line@]);
        }
        lines.push(line);
    } else {
        assert(views(lines@) =~= views(lines@) + Seq::<Seq<char>>::empty());
    }
}

/// Finds what `!done` does for somebody.
fn find_done(state: &State, req: &Request, person_id: &str, args: &Vec<String>) -> (r: Marks)
    requires
        known(*state, req.today),
    ensures
        is_marking(r, *state, done_marking(*state, *req, person_id@, args@)),
{
    if args.len() == 0 {
        return find_done_anywhere(state, req, person_id);
    }
    let name = join_texts(args, " ");
    match group_position_by_name(state, name.as_str()) {
        Some(k) => find_done_in(state, req, person_id, k),
        None => only_says(no_group(name.as_str())),
    }
}

/// Marks what whoever asks has cleaned this week, in a group that is named or wherever they have
/// something to do.
pub fn cmd_done(state: &mut State, req: &Request, args: &Vec<String>) -> (r: Result<
    String,
    CommandError,
>)
    ensures
        did_done(*old(state), *final(state), r, *req, args@),
{
    if !is_known(state, req.today) {
        return Err(CommandError::OutOfRange);
    }
    let person_id = match state.person_by_matrix_id(req.sender.as_str()) {
        Some(p) => p.id.clone(),
        None => {
            return Ok("You are not registered. Join a group with !join <group>.".to_owned());
        },
    };
    let m = find_done(state, req, person_id.as_str(), args);
    if let Some(t) = m.says {
        return Ok(t);
    }
    match mark_all(state, &m.tasks, &person_id, req.today, req.now) {
        Ok(said) => {
            let mut lines: Vec<String> = Vec::new();
            assert(views(lines@) =~= Seq::<Seq<char>>::empty());
            add_list_line(&mut lines, "✅ Cleaned: ", &said);
            add_list_line(&mut lines, "Already done: ", &m.before);
            assert(views(lines@) =~= list_line("✅ Cleaned: "@, views(said@)) + list_line(
                "Already done: "@,
                views(m.before@),
            ));
            Ok(join_texts(&lines, "\n"))
        },
        Err(e) => Err(CommandError::Refused(e)),
    }
}

} // verus!
