//! Which marks `!done`, `!skip` and `!undo` make and take back.

use vstd::prelude::*;

use crate::analytics::DomainEvent;
use crate::calendar::{Date, Timestamp};
use crate::commands::base::{answered, turn_meant, CommandError, Request};
use crate::commands::done::{
    did_done, done_marking, is_finished, marked, marked_by, Marking,
};
use crate::commands::marks::{
    did_undo, due_places, excuses, is_in, places_in, sender_id, sender_key, skip_all, skip_answer,
    undo_all, undo_in, undoes,
};
use crate::commands::members::{did_leave, open_in_group};
use crate::commands::tasks::{
    all_own, begins_on, earliest, has_begun, is_open, live, looked_at, markable, own_tasks,
    responsible, shift_tasks, slot_tasks, start_of, Task,
};
use crate::course::{history, ran, step};
use crate::domain::{CleaningGroup, Person};
use crate::event_laws::{
    is_mark_under, is_taken_back, law_completing_adds_one_mark, law_skipping_excuses_what_is_open,
    law_undoing_takes_back_those_marks, rest_is_kept, Part,
};
use crate::lists::{lemma_filter, lemma_first_index_is, lemma_some};
use crate::plain::{is_marked, lemma_marked, lemma_turn_marked, marks, places};
use crate::planning::{known, this_week};
use crate::rhythm::{lemma_shift_count, Turn};
use crate::state::{Completion, State};
use crate::text::says;

verus! {

// ── Done ─────────────────────────────────────────────────────────────────────

/// Whether a slot of a turn of the current week falls to somebody.
pub open spec fn is_ones_own(state: State, t: Task, person_id: Seq<char>, today: Date) -> bool {
    is_own_in(state, t, this_week(today), person_id, today)
}

/// Whether a slot of a turn of a week falls to somebody.
pub open spec fn is_own_in(
    state: State,
    t: Task,
    week: (i32, u32),
    person_id: Seq<char>,
    today: Date,
) -> bool {
    let g = state.cleaning_groups@[t.group as int];
    &&& t.group < state.cleaning_groups@.len()
    &&& t.slot < places(g)
    &&& t.turn.shift < g.rhythm.week_shifts().len()
    &&& (t.turn.year, t.turn.week) == week
    &&& match state.assignee(g, t.slot as int, t.turn, today) {
        Some(p) => p.id@ == person_id,
        None => false,
    }
}

/// Whether a turn is the running one of a group without slots that somebody is a member of, or has
/// a turn in.
pub open spec fn is_anybodys(state: State, t: Task, person_id: Seq<char>, today: Date) -> bool {
    let g = state.cleaning_groups@[t.group as int];
    &&& t.group < state.cleaning_groups@.len()
    &&& g.slots@.len() == 0
    &&& t.slot == 0
    &&& t.turn == turn_meant(g, this_week(today), today)
    &&& says(g.member_ids@, person_id) || exists|u: Task|
        u.group == t.group && #[trigger] is_ones_own(state, u, person_id, today)
}

/// Whether a group takes place in the current week: it is due, or somebody is assigned in it.
pub open spec fn takes_place(state: State, group: CleaningGroup, today: Date) -> bool {
    takes_place_in(state, group, this_week(today), today)
}

/// Whether a group takes place in a week: it is due, or somebody is assigned in it.
pub open spec fn takes_place_in(state: State, group: CleaningGroup, week: (i32, u32), today: Date) -> bool {
    state.due(group, today, week.0 as int, week.1 as int) || exists|i: int|
        0 <= i < state.slot_assignments@.len() && (
        #[trigger] state.slot_assignments@[i]).group_id@ == group.id@
            && state.slot_assignments@[i].iso_year == week.0
            && state.slot_assignments@[i].iso_week == week.1
}

proof fn lemma_live(state: State, group: CleaningGroup, week: (i32, u32), today: Date)
    ensures
        live(state, group, week, today) == takes_place_in(state, group, week, today),
{
    let p = crate::commands::tasks::frozen_in(group.id@, week);
    let s = state.slot_assignments@;
    lemma_some(s, p);
    assert forall|i: int| 0 <= i < s.len() implies p(#[trigger] s[i]) == (s[i].group_id@
        == group.id@ && s[i].iso_year == week.0 && s[i].iso_week == week.1) by {}
}

proof fn lemma_slot_tasks(
    state: State,
    k: int,
    turn: Turn,
    person_id: Seq<char>,
    today: Date,
    n: nat,
    t: Task,
)
    requires
        0 <= k < state.cleaning_groups@.len(),
        k == k as usize,
        n <= usize::MAX,
    ensures
        slot_tasks(state, k, turn, person_id, today, n).contains(t) == (t.group == k && t.turn
            == turn && t.slot < n && responsible(
            state,
            state.cleaning_groups@[k],
            t.slot as int,
            turn,
            person_id,
            today,
        )),
    decreases n,
{
    if n > 0 {
        let m = (n - 1) as nat;
        lemma_slot_tasks(state, k, turn, person_id, today, m, t);
        let r = slot_tasks(state, k, turn, person_id, today, m);
        let s = slot_tasks(state, k, turn, person_id, today, n);
        let x = Task { group: k as usize, slot: m as usize, turn };
        if r.contains(t) {
            let i = choose|i: int| 0 <= i < r.len() && r[i] == t;
            assert(s[i] == t);
        }
        if responsible(state, state.cleaning_groups@[k], m as int, turn, person_id, today) {
            assert(s[s.len() - 1] == x);
        }
        if s.contains(t) {
            let i = choose|i: int| 0 <= i < s.len() && s[i] == t;
            if i < r.len() {
                assert(r[i] == t);
            }
        }
    }
}

proof fn lemma_shift_tasks(
    state: State,
    k: int,
    week: (i32, u32),
    person_id: Seq<char>,
    today: Date,
    n: nat,
    t: Task,
)
    requires
        0 <= k < state.cleaning_groups@.len(),
        n <= 7,
    ensures
        shift_tasks(state, k, week, person_id, today, n).contains(t) == (t.group == k && (
        t.turn.year,
        t.turn.week,
    ) == week && t.turn.shift < n && t.slot < places(state.cleaning_groups@[k]) && responsible(
            state,
            state.cleaning_groups@[k],
            t.slot as int,
            t.turn,
            person_id,
            today,
        )),
    decreases n,
{
    let g = state.cleaning_groups@[k];
    assert(state.cleaning_groups@.len() == state.cleaning_groups.len());
    assert(g.slots@.len() == g.slots.len());
    if n > 0 {
        let m = (n - 1) as nat;
        let turn = Turn { year: week.0, week: week.1, shift: m as u8 };
        lemma_shift_tasks(state, k, week, person_id, today, m, t);
        lemma_slot_tasks(state, k, turn, person_id, today, g.slot_count(), t);
        let r = shift_tasks(state, k, week, person_id, today, m);
        let more = slot_tasks(state, k, turn, person_id, today, g.slot_count());
        let s = shift_tasks(state, k, week, person_id, today, n);
        assert(s == r + more);
        lemma_in_sum(r, more, t);
    }
}

proof fn lemma_in_sum<A>(a: Seq<A>, b: Seq<A>, x: A)
    ensures
        (a + b).contains(x) == (a.contains(x) || b.contains(x)),
{
    let c = a + b;
    if a.contains(x) {
        let i = choose|i: int| 0 <= i < a.len() && a[i] == x;
        assert(c[i] == x);
    }
    if b.contains(x) {
        let i = choose|i: int| 0 <= i < b.len() && b[i] == x;
        assert(c[a.len() + i] == x);
    }
    if c.contains(x) {
        let i = choose|i: int| 0 <= i < c.len() && c[i] == x;
        if i < a.len() {
            assert(a[i] == x);
        } else {
            assert(b[i - a.len()] == x);
        }
    }
}

proof fn lemma_own_tasks(state: State, k: int, person_id: Seq<char>, today: Date, t: Task)
    requires
        0 <= k < state.cleaning_groups@.len(),
    ensures
        own_tasks(state, k, this_week(today), person_id, today).contains(t) == (t.group == k
            && is_ones_own(state, t, person_id, today) && takes_place(
            state,
            state.cleaning_groups@[k],
            today,
        )),
{
    lemma_own_in(state, k, this_week(today), person_id, today, t);
}

/// The tasks of a person in a group and week are the slots that fall to them.
pub proof fn lemma_own_in(
    state: State,
    k: int,
    week: (i32, u32),
    person_id: Seq<char>,
    today: Date,
    t: Task,
)
    requires
        0 <= k < state.cleaning_groups@.len(),
    ensures
        own_tasks(state, k, week, person_id, today).contains(t) == (t.group == k && is_own_in(
            state,
            t,
            week,
            person_id,
            today,
        ) && takes_place_in(state, state.cleaning_groups@[k], week, today)),
{
    let g = state.cleaning_groups@[k];
    lemma_live(state, g, week, today);
    lemma_shift_count(g.rhythm);
    lemma_shift_tasks(state, k, week, person_id, today, g.rhythm.week_shifts().len(), t);
}

proof fn lemma_all_own(state: State, person_id: Seq<char>, today: Date, n: nat, t: Task)
    requires
        n <= state.cleaning_groups@.len(),
    ensures
        all_own(state, this_week(today), person_id, None, today, n).contains(t) == (t.group < n
            && is_ones_own(state, t, person_id, today) && takes_place(
            state,
            state.cleaning_groups@[t.group as int],
            today,
        ) && state.cleaning_groups@[t.group as int].is_active),
{
    lemma_all_own_in(state, this_week(today), person_id, today, n, t);
}

/// The tasks of a person in a week are the slots that fall to them in active groups.
pub proof fn lemma_all_own_in(
    state: State,
    week: (i32, u32),
    person_id: Seq<char>,
    today: Date,
    n: nat,
    t: Task,
)
    requires
        n <= state.cleaning_groups@.len(),
    ensures
        all_own(state, week, person_id, None, today, n).contains(t) == (t.group < n && is_own_in(
            state,
            t,
            week,
            person_id,
            today,
        ) && takes_place_in(state, state.cleaning_groups@[t.group as int], week, today)
            && state.cleaning_groups@[t.group as int].is_active),
    decreases n,
{
    if n > 0 {
        let m = (n - 1) as nat;
        lemma_all_own_in(state, week, person_id, today, m, t);
        lemma_own_in(state, m as int, week, person_id, today, t);
        let r = all_own(state, week, person_id, None, today, m);
        if looked_at(state.cleaning_groups@[m as int], None) {
            lemma_in_sum(r, own_tasks(state, m as int, week, person_id, today), t);
        }
    }
}

proof fn lemma_markable_is(state: State, tasks: Seq<Task>, today: Date, t: Task)
    ensures
        markable(state, tasks, today).contains(t) ==> tasks.contains(t) && is_open(state)(t),
        tasks.contains(t) && is_open(state)(t) && start_of(state, t) <= today.day ==> markable(
            state,
            tasks,
            today,
        ).contains(t),
{
    let open = tasks.filter(is_open(state));
    let begun = open.filter(has_begun(state, today));
    let first = open.filter(begins_on(state, earliest(state, open)));
    lemma_filter(tasks, is_open(state));
    lemma_filter(open, has_begun(state, today));
    lemma_filter(open, begins_on(state, earliest(state, open)));
    let m = markable(state, tasks, today);
    if m.contains(t) {
        let i = choose|i: int| 0 <= i < m.len() && m[i] == t;
        assert(open.contains(t)) by {
            if begun.len() > 0 {
                assert(open.contains(begun[i]));
            } else {
                assert(open.contains(first[i]));
            }
        }
        let k = choose|k: int| 0 <= k < open.len() && open[k] == t;
        assert(is_open(state)(open[k]) && tasks.contains(open[k]));
    }
    if tasks.contains(t) && is_open(state)(t) && start_of(state, t) <= today.day {
        let i = choose|i: int| 0 <= i < tasks.len() && tasks[i] == t;
        assert(is_open(state)(tasks[i]));
        assert(open.contains(tasks[i]));
        let k = choose|k: int| 0 <= k < open.len() && open[k] == t;
        assert(has_begun(state, today)(open[k]));
        assert(begun.contains(open[k]));
    }
}

/// Whether a mark says that somebody cleaned a slot of a turn that was open.
pub open spec fn is_new_mark(pre: State, c: Completion, by: Seq<char>, t: Task) -> bool {
    let g = pre.cleaning_groups@[t.group as int];
    &&& marks(c, g, t.slot as int, t.turn)
    &&& c.completed_by_id@ == by
    &&& !c.skipped
    &&& !is_marked(pre, g, t.slot as int, t.turn)
}

/// What marking one task comes to.
proof fn lemma_marked_one(
    a: State,
    b: State,
    e: DomainEvent,
    pre: State,
    t: Task,
    by: String,
    today: Date,
    now: Timestamp,
)
    requires
        step(a, b, e, now),
        crate::commands::done::marks(e, pre, t, by, today),
        t.slot < places(pre.cleaning_groups@[t.group as int]),
    ensures
        rest_is_kept(a, b, Part::Marks),
        is_marked(b, pre.cleaning_groups@[t.group as int], t.slot as int, t.turn),
        b.completions == a.completions || (b.completions@ == a.completions@.push(
            b.completions@.last(),
        ) && marks(
            b.completions@.last(),
            pre.cleaning_groups@[t.group as int],
            t.slot as int,
            t.turn,
        ) && b.completions@.last().completed_by_id@ == by@ && !b.completions@.last().skipped),
{
    let g = pre.cleaning_groups@[t.group as int];
    match e {
        DomainEvent::CleaningCompleted {
            group_id,
            slot_id,
            person_id,
            responsible_person_ids,
            iso_year,
            iso_week,
            shift,
        } => {
            law_completing_adds_one_mark(
                a,
                b,
                group_id,
                slot_id,
                person_id,
                responsible_person_ids,
                t.turn,
                now,
            );
            let had = exists|i: int|
                0 <= i < a.completions@.len() && is_mark_under(
                    #[trigger] a.completions@[i],
                    group_id@,
                    slot_id,
                    t.turn,
                );
            if had {
                let i = choose|i: int|
                    0 <= i < a.completions@.len() && is_mark_under(
                        #[trigger] a.completions@[i],
                        group_id@,
                        slot_id,
                        t.turn,
                    );
                assert(marks(b.completions@[i], g, t.slot as int, t.turn));
            } else {
                let c = b.completions@.last();
                assert(b.completions@[b.completions@.len() - 1] == c);
                assert(marks(c, g, t.slot as int, t.turn));
            }
        },
        _ => {},
    }
}

/// Whether a mark is of one of the first tasks.
pub open spec fn is_of_tasks(pre: State, c: Completion, by: Seq<char>, tasks: Seq<Task>, n: int) -> bool {
    exists|j: int| 0 <= j < n && is_new_mark(pre, c, by, #[trigger] tasks[j])
}

/// Whether a task of a state is marked in another.
pub open spec fn is_done_in(pre: State, post: State, t: Task) -> bool {
    is_marked(post, pre.cleaning_groups@[t.group as int], t.slot as int, t.turn)
}

/// What marking tasks one after another comes to.
pub proof fn lemma_marked_run(
    h: Seq<State>,
    events: Seq<DomainEvent>,
    pre: State,
    post: State,
    tasks: Seq<Task>,
    by: String,
    today: Date,
    now: Timestamp,
    said: Seq<Seq<char>>,
    n: int,
)
    requires
        marked_by(h, events, pre, post, tasks, by, today, now, said),
        forall|i: int|
            0 <= i < tasks.len() ==> is_open(pre)(#[trigger] tasks[i]) && tasks[i].slot < places(
                pre.cleaning_groups@[tasks[i].group as int],
            ),
        0 <= n <= tasks.len(),
    ensures
        marks_stay(pre, h[n]),
        forall|i: int|
            pre.completions@.len() <= i < h[n].completions@.len() ==> is_of_tasks(
                pre,
                #[trigger] h[n].completions@[i],
                by@,
                tasks,
                n,
            ),
        forall|j: int| 0 <= j < n ==> is_done_in(pre, h[n], #[trigger] tasks[j]),
    decreases n,
{
    if n > 0 {
        let m = n - 1;
        lemma_marked_run(h, events, pre, post, tasks, by, today, now, said, m);
        let a = h[m];
        let b = h[n];
        let t = tasks[m];
        let g = pre.cleaning_groups@[t.group as int];
        assert(step(h[m], h[m + 1], events[m], now));
        assert(crate::commands::done::marks(events[m], pre, tasks[m], by, today));
        assert(is_open(pre)(tasks[m]));
        lemma_marked(pre, g, t.slot as int, t.turn);
        lemma_marked_one(a, b, events[m], pre, t, by, today, now);
        let s = a.completions@;
        let u = b.completions@;
        assert forall|i: int| pre.completions@.len() <= i < u.len() implies is_of_tasks(
            pre,
            #[trigger] u[i],
            by@,
            tasks,
            n,
        ) by {
            if i < s.len() {
                assert(u[i] == s[i]);
                assert(is_of_tasks(pre, s[i], by@, tasks, m));
                let j = choose|j: int|
                    0 <= j < m && is_new_mark(pre, s[i], by@, #[trigger] tasks[j]);
                assert(is_new_mark(pre, u[i], by@, tasks[j]));
            } else {
                assert(is_new_mark(pre, u[i], by@, tasks[m]));
            }
        }
        assert forall|j: int| 0 <= j < n implies is_done_in(pre, b, #[trigger] tasks[j]) by {
            if j < m {
                assert(is_done_in(pre, a, tasks[j]));
                lemma_stays_done(pre, a, b, tasks[j]);
            }
        }
    }
}

proof fn lemma_stays_done(pre: State, a: State, b: State, t: Task)
    requires
        is_done_in(pre, a, t),
        b.completions@.len() >= a.completions@.len(),
        forall|i: int|
            0 <= i < a.completions@.len() ==> #[trigger] b.completions@[i] == a.completions@[i],
    ensures
        is_done_in(pre, b, t),
{
    let g = pre.cleaning_groups@[t.group as int];
    let i = choose|i: int|
        0 <= i < a.completions@.len() && marks(
            #[trigger] a.completions@[i],
            g,
            t.slot as int,
            t.turn,
        );
    assert(marks(b.completions@[i], g, t.slot as int, t.turn));
}

/// Whether the marks there were are still there.
pub open spec fn marks_stay(pre: State, post: State) -> bool {
    &&& rest_is_kept(pre, post, Part::Marks)
    &&& post.completions@.len() >= pre.completions@.len()
    &&& forall|i: int|
        0 <= i < pre.completions@.len() ==> #[trigger] post.completions@[i] == pre.completions@[i]
}

/// Whether a task may be marked by somebody: it was open, and it is their own or anybody's.
pub open spec fn is_for(state: State, t: Task, person_id: Seq<char>, today: Date) -> bool {
    is_ones_own(state, t, person_id, today) || is_anybodys(state, t, person_id, today)
}

proof fn lemma_done_tasks(pre: State, req: Request, p: Person, args: Seq<String>, tasks: Seq<Task>, before: Seq<Seq<char>>)
    requires
        done_marking(pre, req, p.id@, args) == Marking::Marks(tasks, before),
    ensures
        forall|j: int|
            0 <= j < tasks.len() ==> is_open(pre)(#[trigger] tasks[j]) && is_for(
                pre,
                tasks[j],
                p.id@,
                req.today,
            ) && tasks[j].slot < places(pre.cleaning_groups@[tasks[j].group as int]),
{
    let n = pre.cleaning_groups@.len();
    assert(n == pre.cleaning_groups.len());
    let name = crate::text::join(crate::text::views(args), " "@);
    let k = crate::lists::first_index(
        pre.cleaning_groups@,
        crate::state::group_named(name),
    );
    lemma_first_index_is(pre.cleaning_groups@, crate::state::group_named(name));
    let all = all_own(pre, this_week(req.today), p.id@, None, req.today, n);
    let own = own_tasks(pre, k, this_week(req.today), p.id@, req.today);
    crate::commands::mark_laws::lemma_helpable(pre, p.id@, req.today, n);
    assert forall|j: int| 0 <= j < tasks.len() implies is_open(pre)(#[trigger] tasks[j]) && is_for(
        pre,
        tasks[j],
        p.id@,
        req.today,
    ) && tasks[j].slot < places(pre.cleaning_groups@[tasks[j].group as int]) by {
        assert(tasks.contains(tasks[j]));
        if args.len() == 0 {
            if all.filter(is_open(pre)).len() > 0 {
                lemma_markable_is(pre, all, req.today, tasks[j]);
                lemma_all_own(pre, p.id@, req.today, n, tasks[j]);
            }
        } else {
            if own.filter(is_open(pre)).len() > 0 {
                lemma_markable_is(pre, own, req.today, tasks[j]);
                lemma_own_tasks(pre, k, p.id@, req.today, tasks[j]);
            } else if own.len() > 0 {
                assert(own.contains(own[0]));
                lemma_own_tasks(pre, k, p.id@, req.today, own[0]);
            }
        }
    }
}

proof fn lemma_helpable(state: State, person_id: Seq<char>, today: Date, n: nat)
    requires
        n <= state.cleaning_groups@.len(),
    ensures
        forall|i: int|
            0 <= i < crate::commands::done::helpable(state, person_id, today, n).len() ==> 0 <= (
            #[trigger] crate::commands::done::helpable(state, person_id, today, n)[i]) < n
                && crate::commands::done::may_help(
                state,
                state.cleaning_groups@[crate::commands::done::helpable(
                    state,
                    person_id,
                    today,
                    n,
                )[i]],
                person_id,
                today,
            ),
    decreases n,
{
    if n > 0 {
        lemma_helpable(state, person_id, today, (n - 1) as nat);
        let r = crate::commands::done::helpable(state, person_id, today, (n - 1) as nat);
        let s = crate::commands::done::helpable(state, person_id, today, n);
        assert forall|i: int| 0 <= i < s.len() implies 0 <= (#[trigger] s[i]) < n
            && crate::commands::done::may_help(
            state,
            state.cleaning_groups@[s[i]],
            person_id,
            today,
        ) by {
            if i < r.len() {
                assert(s[i] == r[i]);
            }
        }
    }
}

/// `!done` makes marks of the sender, of slots of the current week that were open and are the
/// sender's own or those of a group without slots; it never marks a slot of somebody else. What was
/// marked stays, and nothing else changes.
pub proof fn law_done_marks_ones_own(
    pre: State,
    post: State,
    r: Result<String, CommandError>,
    req: Request,
    args: Seq<String>,
    p: Person,
)
    requires
        did_done(pre, post, r, req, args),
        pre.person_of(req.sender@) == Some(p),
    ensures
        marks_stay(pre, post),
        forall|i: int|
            pre.completions@.len() <= i < post.completions@.len() ==> exists|t: Task|
                is_new_mark(pre, #[trigger] post.completions@[i], p.id@, t) && #[trigger] is_for(
                    pre,
                    t,
                    p.id@,
                    req.today,
                ),
{
    if known(pre, req.today) {
        match done_marking(pre, req, p.id@, args) {
            Marking::Says(_) => {},
            Marking::Marks(tasks, before) => {
                lemma_done_tasks(pre, req, p, args, tasks, before);
                let said = choose|said: Seq<Seq<char>>| #[trigger]
                    marked(pre, post, tasks, p.id, req.today, req.now, said);
                let (h, events) = choose|h: Seq<State>, events: Seq<DomainEvent>| #[trigger]
                    marked_by(h, events, pre, post, tasks, p.id, req.today, req.now, said);
                let n = tasks.len() as int;
                lemma_marked_run(
                    h,
                    events,
                    pre,
                    post,
                    tasks,
                    p.id,
                    req.today,
                    req.now,
                    said,
                    n,
                );
                assert(h[n] == post);
                assert forall|i: int|
                    pre.completions@.len() <= i < post.completions@.len() implies exists|t: Task|
                    is_new_mark(pre, #[trigger] post.completions@[i], p.id@, t) && #[trigger] is_for(
                        pre,
                        t,
                        p.id@,
                        req.today,
                    ) by {
                    assert(is_of_tasks(pre, h[n].completions@[i], p.id@, tasks, n));
                    let j = choose|j: int|
                        0 <= j < n && is_new_mark(
                            pre,
                            h[n].completions@[i],
                            p.id@,
                            #[trigger] tasks[j],
                        );
                    assert(is_for(pre, tasks[j], p.id@, req.today));
                }
            },
        }
    }
}

/// After `!done` every slot of the current week that falls to the sender in an active group and
/// whose turn has begun is marked, in each of their groups.
pub proof fn law_done_marks_all_that_has_begun(
    pre: State,
    post: State,
    r: Result<String, CommandError>,
    req: Request,
    args: Seq<String>,
    p: Person,
    t: Task,
)
    requires
        did_done(pre, post, r, req, args),
        pre.person_of(req.sender@) == Some(p),
        known(pre, req.today),
        args.len() == 0,
        is_ones_own(pre, t, p.id@, req.today),
        pre.cleaning_groups@[t.group as int].is_active,
        takes_place(pre, pre.cleaning_groups@[t.group as int], req.today),
        t.turn.first_day(pre.cleaning_groups@[t.group as int].rhythm) <= req.today.day,
    ensures
        is_marked(post, pre.cleaning_groups@[t.group as int], t.slot as int, t.turn),
{
    let g = pre.cleaning_groups@[t.group as int];
    let n = pre.cleaning_groups@.len();
    let all = all_own(pre, this_week(req.today), p.id@, None, req.today, n);
    law_done_marks_ones_own(pre, post, r, req, args, p);
    lemma_all_own(pre, p.id@, req.today, n, t);
    lemma_markable_is(pre, all, req.today, t);
    lemma_marked(pre, g, t.slot as int, t.turn);
    if is_marked(pre, g, t.slot as int, t.turn) {
        let i = choose|i: int|
            0 <= i < pre.completions@.len() && marks(
                #[trigger] pre.completions@[i],
                g,
                t.slot as int,
                t.turn,
            );
        assert(post.completions@[i] == pre.completions@[i]);
    } else {
        lemma_filter(all, is_open(pre));
        let k = choose|k: int| 0 <= k < all.len() && all[k] == t;
        assert(is_open(pre)(all[k]));
        assert(all.filter(is_open(pre)).contains(all[k]));
        let tasks = markable(pre, all, req.today);
        let before = done_marking(pre, req, p.id@, args)->Marks_1;
        assert(done_marking(pre, req, p.id@, args) == Marking::Marks(tasks, before));
        lemma_done_tasks(pre, req, p, args, tasks, before);
        let said = choose|said: Seq<Seq<char>>| #[trigger]
            marked(pre, post, tasks, p.id, req.today, req.now, said);
        let (h, events) = choose|h: Seq<State>, events: Seq<DomainEvent>| #[trigger]
            marked_by(h, events, pre, post, tasks, p.id, req.today, req.now, said);
        let m = tasks.len() as int;
        lemma_marked_run(h, events, pre, post, tasks, p.id, req.today, req.now, said, m);
        assert(h[m] == post);
        let j = choose|j: int| 0 <= j < tasks.len() && tasks[j] == t;
        assert(is_done_in(pre, h[m], tasks[j]));
    }
}

// ── Skip ─────────────────────────────────────────────────────────────────────

/// Whether all slots of a group's shifts in a week are marked.
pub open spec fn week_is_marked(state: State, group: CleaningGroup, week: (i32, u32)) -> bool {
    forall|s: int, k: int|
        0 <= s < group.rhythm.week_shifts().len() && 0 <= k < places(group) ==> #[trigger] is_marked(
            state,
            group,
            k,
            Turn { year: week.0, week: week.1, shift: s as u8 },
        )
}

/// Whether a mark is an excuse of a week by somebody.
pub open spec fn is_excuse_of(c: Completion, week: (i32, u32), by: Seq<char>) -> bool {
    &&& c.skipped
    &&& c.completed_by_id@ == by
    &&& c.iso_year == week.0
    &&& c.iso_week == week.1
}

proof fn lemma_week_stays_marked(a: State, b: State, g: CleaningGroup, week: (i32, u32))
    requires
        week_is_marked(a, g, week),
        b.completions@.len() >= a.completions@.len(),
        forall|i: int|
            0 <= i < a.completions@.len() ==> #[trigger] b.completions@[i] == a.completions@[i],
    ensures
        week_is_marked(b, g, week),
{
    assert forall|s: int, k: int|
        0 <= s < g.rhythm.week_shifts().len() && 0 <= k < places(g) implies #[trigger] is_marked(
        b,
        g,
        k,
        Turn { year: week.0, week: week.1, shift: s as u8 },
    ) by {
        let turn = Turn { year: week.0, week: week.1, shift: s as u8 };
        assert(is_marked(a, g, k, turn));
        let i = choose|i: int|
            0 <= i < a.completions@.len() && marks(#[trigger] a.completions@[i], g, k, turn);
        assert(marks(b.completions@[i], g, k, turn));
    }
}

/// What skipping groups one after another comes to.
proof fn lemma_skipped_run(
    h: Seq<State>,
    events: Seq<DomainEvent>,
    pre: State,
    groups: Seq<CleaningGroup>,
    week: (i32, u32),
    by: String,
    now: Timestamp,
    n: int,
)
    requires
        history(h, events, now),
        h[0] == pre,
        groups.len() == events.len(),
        forall|i: int|
            0 <= i < events.len() ==> #[trigger] events[i] == excuses(groups[i], week, by, None),
        0 <= n <= events.len(),
    ensures
        marks_stay(pre, h[n]),
        forall|i: int|
            pre.completions@.len() <= i < h[n].completions@.len() ==> is_excuse_of(
                #[trigger] h[n].completions@[i],
                week,
                by@,
            ),
        forall|i: int|
            0 <= i < n && pre.group(groups[i].id@) == Some(#[trigger] groups[i]) ==> week_is_marked(
                h[n],
                groups[i],
                week,
            ),
    decreases n,
{
    if n > 0 {
        let m = n - 1;
        lemma_skipped_run(h, events, pre, groups, week, by, now, m);
        let a = h[m];
        let b = h[n];
        let g = groups[m];
        assert(events[m] == excuses(groups[m], week, by, None));
        assert(step(h[m], h[m + 1], events[m], now));
        law_skipping_excuses_what_is_open(a, b, g.id, by, week.0, week.1, None, None, now);
        assert(a.cleaning_groups == pre.cleaning_groups);
        assert(a.group(g.id@) == pre.group(g.id@));
        let s = a.completions@;
        let u = b.completions@;
        assert forall|i: int| pre.completions@.len() <= i < u.len() implies is_excuse_of(
            #[trigger] u[i],
            week,
            by@,
        ) by {
            if i < s.len() {
                assert(u[i] == s[i]);
            }
        }
        assert forall|i: int|
            0 <= i < n && pre.group(groups[i].id@) == Some(#[trigger] groups[i]) implies week_is_marked(
            b,
            groups[i],
            week,
        ) by {
            if i < m {
                lemma_week_stays_marked(a, b, groups[i], week);
            } else {
                assert forall|x: int, k: int|
                    0 <= x < g.rhythm.week_shifts().len() && 0 <= k < places(g) implies
                    #[trigger] is_marked(
                    b,
                    g,
                    k,
                    Turn { year: week.0, week: week.1, shift: x as u8 },
                ) by {}
            }
        }
    }
}

/// Which groups the events of skipping are about.
proof fn lemma_skip_all(state: State, week: (i32, u32), by: String, places: Seq<int>) -> (groups: Seq<
    CleaningGroup,
>)
    ensures
        ({
            let events = skip_all(state, week, by, places).0;
            &&& groups.len() == events.len()
            &&& forall|i: int|
                0 <= i < events.len() ==> #[trigger] events[i] == excuses(
                    groups[i],
                    week,
                    by,
                    None,
                )
            &&& forall|j: int|
                0 <= j < places.len() ==> groups.contains(
                    state.cleaning_groups@[#[trigger] places[j]],
                ) || state.week_done(state.cleaning_groups@[places[j]], week.0, week.1)
        }),
    decreases places.len(),
{
    if places.len() == 0 {
        Seq::empty()
    } else {
        let u = places.drop_last();
        let r = lemma_skip_all(state, week, by, u);
        let g = state.cleaning_groups@[places.last()];
        let groups = if state.week_done(g, week.0, week.1) {
            r
        } else {
            r.push(g)
        };
        assert forall|j: int| 0 <= j < places.len() implies groups.contains(
            state.cleaning_groups@[#[trigger] places[j]],
        ) || state.week_done(state.cleaning_groups@[places[j]], week.0, week.1) by {
            if j < u.len() {
                assert(u[j] == places[j]);
                let x = state.cleaning_groups@[u[j]];
                if r.contains(x) {
                    let i = choose|i: int| 0 <= i < r.len() && r[i] == x;
                    assert(groups[i] == x);
                }
            } else if !state.week_done(g, week.0, week.1) {
                assert(groups[groups.len() - 1] == g);
            }
        }
        groups
    }
}

proof fn lemma_due_places(state: State, week: (i32, u32), today: Date, n: nat, k: int)
    requires
        0 <= k < n,
        state.cleaning_groups@[k].is_active,
        state.due(state.cleaning_groups@[k], today, week.0 as int, week.1 as int),
    ensures
        due_places(state, week, today, n).contains(k),
    decreases n,
{
    let s = due_places(state, week, today, n);
    if k == n - 1 {
        assert(s[s.len() - 1] == k);
    } else {
        lemma_due_places(state, week, today, (n - 1) as nat, k);
        let r = due_places(state, week, today, (n - 1) as nat);
        let i = choose|i: int| 0 <= i < r.len() && r[i] == k;
        assert(s[i] == k);
    }
}

proof fn lemma_week_done_is_marked(state: State, g: CleaningGroup, week: (i32, u32))
    requires
        state.week_done(g, week.0, week.1),
    ensures
        week_is_marked(state, g, week),
{
    assert forall|s: int, k: int|
        0 <= s < g.rhythm.week_shifts().len() && 0 <= k < places(g) implies #[trigger] is_marked(
        state,
        g,
        k,
        Turn { year: week.0, week: week.1, shift: s as u8 },
    ) by {
        let turn = crate::roster::week_turn(week.0, week.1, s);
        assert(state.turn_done(g, turn));
        lemma_turn_marked(state, g, turn);
    }
}

/// An admin's `!skip` leaves no open slot in the current week: all slots of all shifts of every
/// active group that is due are marked. It adds excuses by the sender to the marks there were, and
/// changes nothing else.
pub proof fn law_skip_leaves_nothing_open(
    pre: State,
    post: State,
    r: Result<String, CommandError>,
    req: Request,
    args: Seq<String>,
    k: int,
)
    requires
        answered(pre, post, r, skip_answer(pre, req, args), req.now),
        req.is_admin,
        known(pre, req.today),
        args.len() == 0,
        0 <= k < pre.cleaning_groups@.len(),
        pre.cleaning_groups@[k].is_active,
        pre.due(
            pre.cleaning_groups@[k],
            req.today,
            this_week(req.today).0 as int,
            this_week(req.today).1 as int,
        ),
        forall|i: int|
            0 <= i < k ==> (#[trigger] pre.cleaning_groups@[i]).id@ != pre.cleaning_groups@[k].id@,
    ensures
        marks_stay(pre, post),
        forall|i: int|
            pre.completions@.len() <= i < post.completions@.len() ==> is_excuse_of(
                #[trigger] post.completions@[i],
                this_week(req.today),
                sender_key(pre, req)@,
            ),
        week_is_marked(post, pre.cleaning_groups@[k], this_week(req.today)),
{
    let week = this_week(req.today);
    let by = sender_key(pre, req);
    let n = pre.cleaning_groups@.len();
    let places = due_places(pre, week, req.today, n);
    let events = skip_all(pre, week, by, places).0;
    let groups = lemma_skip_all(pre, week, by, places);
    assert(ran(pre, post, events, req.now));
    let h = choose|h: Seq<State>| #[trigger]
        history(h, events, req.now) && h[0] == pre && h.last() == post;
    let m = events.len() as int;
    lemma_skipped_run(h, events, pre, groups, week, by, req.now, m);
    assert(h[m] == post);
    let g = pre.cleaning_groups@[k];
    lemma_due_places(pre, week, req.today, n, k);
    let j = choose|j: int| 0 <= j < places.len() && places[j] == k;
    assert(pre.cleaning_groups@[places[j]] == g);
    if groups.contains(g) {
        let q = crate::state::group_with_id(g.id@);
        assert forall|i: int| 0 <= i < k implies !q(#[trigger] pre.cleaning_groups@[i]) by {
            assert(pre.cleaning_groups@[i].id@ != g.id@);
        }
        crate::lists::lemma_first_index(pre.cleaning_groups@, q, k);
        let i = choose|i: int| 0 <= i < groups.len() && groups[i] == g;
        assert(pre.group(groups[i].id@) == Some(groups[i]));
        assert(week_is_marked(h[m], groups[i], week));
    } else {
        lemma_week_done_is_marked(pre, g, week);
        lemma_week_stays_marked(pre, post, g, week);
    }
}

// ── Undo ─────────────────────────────────────────────────────────────────────

/// Whether an event takes a mark back.
spec fn takes(e: DomainEvent, c: Completion) -> bool {
    match e {
        DomainEvent::CleaningUndone { group_id, iso_year, iso_week, shift, slot_id } => is_taken_back(
            group_id@,
            iso_year,
            iso_week,
            shift,
            slot_id,
        )(c),
        _ => false,
    }
}

/// What taking marks back one after another comes to.
proof fn lemma_undone_run(
    h: Seq<State>,
    events: Seq<DomainEvent>,
    pre: State,
    now: Timestamp,
    n: int,
    c: Completion,
)
    requires
        history(h, events, now),
        h[0] == pre,
        forall|i: int| 0 <= i < events.len() ==> (#[trigger] events[i]) is CleaningUndone,
        0 <= n <= events.len(),
    ensures
        rest_is_kept(pre, h[n], Part::Marks),
        h[n].completions@.contains(c) == (pre.completions@.contains(c) && forall|j: int|
            0 <= j < n ==> !takes(#[trigger] events[j], c)),
    decreases n,
{
    if n > 0 {
        let m = n - 1;
        lemma_undone_run(h, events, pre, now, m, c);
        let a = h[m].completions@;
        let b = h[n].completions@;
        assert(events[m] is CleaningUndone);
        assert(step(h[m], h[m + 1], events[m], now));
        match events[m] {
            DomainEvent::CleaningUndone { group_id, iso_year, iso_week, shift, slot_id } => {
                law_undoing_takes_back_those_marks(
                    h[m],
                    h[n],
                    group_id,
                    iso_year,
                    iso_week,
                    shift,
                    slot_id,
                    now,
                );
                let gone = is_taken_back(group_id@, iso_year, iso_week, shift, slot_id);
                assert(takes(events[m], c) == gone(c));
                if b.contains(c) {
                    let i = choose|i: int| 0 <= i < b.len() && b[i] == c;
                    assert(a.contains(b[i]) && !gone(b[i]));
                }
                if a.contains(c) && !gone(c) {
                    let i = choose|i: int| 0 <= i < a.len() && a[i] == c;
                    assert(b.contains(a[i]));
                }
            },
            _ => {},
        }
    }
}

/// Whether an event takes back marks of the group at a place in the current week, as somebody who
/// is no admin may: those of their own slots, or those of a turn of a group without slots.
spec fn takes_ones_own(state: State, e: DomainEvent, k: int, id: Option<String>, today: Date) -> bool {
    let g = state.cleaning_groups@[k];
    match e {
        DomainEvent::CleaningUndone { group_id, iso_year, iso_week, shift, slot_id } => {
            &&& 0 <= k < state.cleaning_groups@.len()
            &&& is_in(g, id)
            &&& group_id@ == g.id@
            &&& (iso_year, iso_week) == this_week(today)
            &&& shift is Some
            &&& g.slots@.len() > 0 ==> exists|t: Task|
                t.group == k && #[trigger] is_ones_own(state, t, id->0@, today) && t.turn.shift
                    == shift->0 && slot_id is Some && slot_id->0@ == g.slots@[t.slot as int].id@
        },
        _ => false,
    }
}

proof fn lemma_undo_in(state: State, req: Request, id: Option<String>, k: int, j: int)
    requires
        0 <= k < state.cleaning_groups@.len(),
        is_in(state.cleaning_groups@[k], id),
        0 <= j < undo_in(state, req, id, false, k).0.len(),
    ensures
        takes_ones_own(state, undo_in(state, req, id, false, k).0[j], k, id, req.today),
{
    let g = state.cleaning_groups@[k];
    let week = this_week(req.today);
    let all = own_tasks(state, k, week, id->0@, req.today);
    let own = all.filter(is_finished(state));
    lemma_filter(all, is_finished(state));
    if own.len() > 0 {
        let t = own[j];
        assert(all.contains(own[j]));
        lemma_own_tasks(state, k, id->0@, req.today, t);
        assert(is_ones_own(state, t, id->0@, req.today));
    }
}

/// Whether each event takes back marks of one of the groups at some places.
spec fn all_ones_own(
    state: State,
    events: Seq<DomainEvent>,
    id: Option<String>,
    today: Date,
) -> bool {
    forall|i: int|
        0 <= i < events.len() ==> is_allowed(state, #[trigger] events[i], id, today)
}

spec fn is_allowed(state: State, e: DomainEvent, id: Option<String>, today: Date) -> bool {
    exists|k: int| #[trigger] takes_ones_own(state, e, k, id, today)
}

proof fn lemma_undo_all(state: State, req: Request, id: Option<String>, places: Seq<int>)
    requires
        !req.is_admin,
        forall|i: int|
            0 <= i < places.len() ==> 0 <= #[trigger] places[i] < state.cleaning_groups@.len(),
    ensures
        all_ones_own(state, undo_all(state, req, id, false, places).events, id, req.today),
    decreases places.len(),
{
    if places.len() > 0 {
        let u = places.drop_last();
        let k = places.last();
        assert(0 <= places[places.len() - 1] < state.cleaning_groups@.len());
        assert forall|i: int| 0 <= i < u.len() implies 0 <= #[trigger] u[i]
            < state.cleaning_groups@.len() by {
            assert(u[i] == places[i]);
        }
        lemma_undo_all(state, req, id, u);
        let r = undo_all(state, req, id, false, u).events;
        let s = undo_all(state, req, id, false, places).events;
        let g = state.cleaning_groups@[k];
        if is_in(g, id) {
            let more = undo_in(state, req, id, false, k).0;
            assert(s == r + more);
            assert forall|i: int| 0 <= i < s.len() implies is_allowed(
                state,
                #[trigger] s[i],
                id,
                req.today,
            ) by {
                if i < r.len() {
                    assert(s[i] == r[i]);
                    assert(is_allowed(state, r[i], id, req.today));
                } else {
                    lemma_undo_in(state, req, id, k, i - r.len());
                    assert(takes_ones_own(state, s[i], k, id, req.today));
                }
            }
        }
    }
}

proof fn lemma_places_in(state: State, id: Option<String>, n: nat)
    requires
        n <= state.cleaning_groups@.len(),
    ensures
        forall|i: int|
            0 <= i < places_in(state, id, n).len() ==> 0 <= #[trigger] places_in(state, id, n)[i]
                < n,
        forall|k: int|
            0 <= k < n && is_in(#[trigger] state.cleaning_groups@[k], id) ==> places_in(
                state,
                id,
                n,
            ).contains(k),
    decreases n,
{
    if n > 0 {
        lemma_places_in(state, id, (n - 1) as nat);
        let r = places_in(state, id, (n - 1) as nat);
        let s = places_in(state, id, n);
        assert forall|i: int| 0 <= i < s.len() implies 0 <= #[trigger] s[i] < n by {
            if i < r.len() {
                assert(s[i] == r[i]);
            }
        }
        assert forall|k: int|
            0 <= k < n && is_in(#[trigger] state.cleaning_groups@[k], id) implies s.contains(k) by {
            if k < n - 1 {
                let i = choose|i: int| 0 <= i < r.len() && r[i] == k;
                assert(s[i] == k);
            } else {
                assert(s[s.len() - 1] == k);
            }
        }
    }
}

/// What `!undo` of somebody who is no admin did: events that take back what is their own, and the
/// state that they lead to.
proof fn lemma_undo_events(
    pre: State,
    post: State,
    r: Result<String, CommandError>,
    req: Request,
    args: Seq<String>,
) -> (events: Seq<DomainEvent>)
    requires
        did_undo(pre, post, r, req, args),
        !req.is_admin,
    ensures
        all_ones_own(pre, events, sender_id(pre, req), req.today),
        forall|c: Completion| #[trigger]
            post.completions@.contains(c) == (pre.completions@.contains(c) && forall|j: int|
                0 <= j < events.len() ==> !takes(#[trigger] events[j], c)),
        post.slot_assignments == pre.slot_assignments,
        post.cleaning_groups == pre.cleaning_groups,
        post.absences == pre.absences,
        known(pre, req.today) && args.len() == 0 && places_in(
            pre,
            sender_id(pre, req),
            pre.cleaning_groups@.len(),
        ).len() > 0 ==> events == undo_all(
            pre,
            req,
            sender_id(pre, req),
            false,
            places_in(pre, sender_id(pre, req), pre.cleaning_groups@.len()),
        ).events,
{
    let id = sender_id(pre, req);
    let n = pre.cleaning_groups@.len();
    let places = if args.len() > 0 {
        seq![crate::lists::first_index(pre.cleaning_groups@, crate::state::group_named(args[0]@))]
    } else {
        places_in(pre, id, n)
    };
    lemma_places_in(pre, id, n);
    if !known(pre, req.today) || (args.len() > 0 && pre.group_of_name(args[0]@) is None)
        || places.len() == 0 {
        Seq::empty()
    } else {
        lemma_first_index_is(
            pre.cleaning_groups@,
            crate::state::group_named(args[0]@),
        );
        let u = undo_all(pre, req, id, false, places);
        assert forall|i: int| 0 <= i < places.len() implies 0 <= #[trigger] places[i] < n by {}
        lemma_undo_all(pre, req, id, places);
        let mid = choose|mid: State|
            {
                &&& #[trigger] ran(pre, mid, u.events, req.now)
                &&& crate::journal::only_completions(pre, mid)
                &&& post == (State { reaction_dones: post.reaction_dones, ..mid })
                &&& post.reaction_dones@ == pre.reaction_dones@.filter(
                    crate::commands::marks::reaction_not_in(u.groups, this_week(req.today)),
                )
            };
        let h = choose|h: Seq<State>| #[trigger]
            history(h, u.events, req.now) && h[0] == pre && h.last() == mid;
        assert forall|i: int| 0 <= i < u.events.len() implies (
        #[trigger] u.events[i]) is CleaningUndone by {
            assert(is_allowed(pre, u.events[i], id, req.today));
            let k = choose|k: int| #[trigger]
                takes_ones_own(pre, u.events[i], k, id, req.today);
            assert(takes_ones_own(pre, u.events[i], k, id, req.today));
        }
        let m = u.events.len() as int;
        assert forall|c: Completion| #[trigger]
            post.completions@.contains(c) == (pre.completions@.contains(c) && forall|j: int|
                0 <= j < u.events.len() ==> !takes(#[trigger] u.events[j], c)) by {
            lemma_undone_run(h, u.events, pre, req.now, m, c);
            assert(h[m] == mid);
        }
        u.events
    }
}

/// `!undo` of somebody who is no admin makes no mark, and takes back none of another week, none of
/// a group that they are not in, and in a group with slots none but those of their own slots.
pub proof fn law_undo_keeps_what_is_not_ones_own(
    pre: State,
    post: State,
    r: Result<String, CommandError>,
    req: Request,
    args: Seq<String>,
    c: Completion,
)
    requires
        did_undo(pre, post, r, req, args),
        !req.is_admin,
    ensures
        post.slot_assignments == pre.slot_assignments,
        post.cleaning_groups == pre.cleaning_groups,
        post.absences == pre.absences,
        post.completions@.contains(c) ==> pre.completions@.contains(c),
        pre.completions@.contains(c) && !post.completions@.contains(c) ==> {
            &&& (c.iso_year, c.iso_week) == this_week(req.today)
            &&& pre.person_of(req.sender@) is Some
            &&& exists|k: int|
                {
                    let g = #[trigger] pre.cleaning_groups@[k];
                    &&& 0 <= k < pre.cleaning_groups@.len()
                    &&& g.id@ == c.group_id@
                    &&& says(g.member_ids@, pre.person_of(req.sender@)->0.id@)
                    &&& g.slots@.len() > 0 ==> exists|t: Task|
                        t.group == k && #[trigger] is_ones_own(
                            pre,
                            t,
                            pre.person_of(req.sender@)->0.id@,
                            req.today,
                        ) && marks(c, g, t.slot as int, t.turn)
                }
        },
{
    let events = lemma_undo_events(pre, post, r, req, args);
    let id = sender_id(pre, req);
    if pre.completions@.contains(c) && !post.completions@.contains(c) {
        let j = choose|j: int| 0 <= j < events.len() && takes(#[trigger] events[j], c);
        assert(is_allowed(pre, events[j], id, req.today));
        let k = choose|k: int| #[trigger] takes_ones_own(pre, events[j], k, id, req.today);
        assert(takes_ones_own(pre, events[j], k, id, req.today));
        let g = pre.cleaning_groups@[k];
        let p_id = id->0@;
        match events[j] {
            DomainEvent::CleaningUndone { group_id, iso_year, iso_week, shift, slot_id } => {
                if g.slots@.len() > 0 {
                    let t = choose|t: Task|
                        t.group == k && #[trigger] is_ones_own(pre, t, p_id, req.today)
                            && t.turn.shift == shift->0 && slot_id is Some && slot_id->0@
                            == g.slots@[t.slot as int].id@;
                    assert(is_ones_own(pre, t, p_id, req.today));
                    assert(marks(c, g, t.slot as int, t.turn));
                }
            },
            _ => {},
        }
        assert(g.id@ == c.group_id@);
    }
}

/// After a plain `!undo` of a member every slot of the current week that falls to them in a group
/// of theirs is open.
pub proof fn law_undo_opens_ones_own(
    pre: State,
    post: State,
    r: Result<String, CommandError>,
    req: Request,
    args: Seq<String>,
    p: Person,
    t: Task,
)
    requires
        did_undo(pre, post, r, req, args),
        !req.is_admin,
        known(pre, req.today),
        args.len() == 0,
        pre.person_of(req.sender@) == Some(p),
        is_ones_own(pre, t, p.id@, req.today),
        says(pre.cleaning_groups@[t.group as int].member_ids@, p.id@),
        takes_place(pre, pre.cleaning_groups@[t.group as int], req.today),
    ensures
        !is_marked(post, pre.cleaning_groups@[t.group as int], t.slot as int, t.turn),
{
    let events = lemma_undo_events(pre, post, r, req, args);
    let id = sender_id(pre, req);
    let n = pre.cleaning_groups@.len();
    let places = places_in(pre, id, n);
    lemma_places_in(pre, id, n);
    let k = t.group as int;
    let g = pre.cleaning_groups@[k];
    assert(is_in(pre.cleaning_groups@[k], id));
    assert(places.contains(k));
    if is_marked(post, g, t.slot as int, t.turn) {
        let s = post.completions@;
        let i = choose|i: int|
            0 <= i < s.len() && marks(#[trigger] s[i], g, t.slot as int, t.turn);
        let c = s[i];
        assert(s.contains(c));
        assert(pre.completions@.contains(c));
        let q = choose|q: int| 0 <= q < pre.completions@.len() && pre.completions@[q] == c;
        assert(marks(pre.completions@[q], g, t.slot as int, t.turn));
        assert(is_marked(pre, g, t.slot as int, t.turn));
        lemma_marked(pre, g, t.slot as int, t.turn);
        let e = lemma_own_is_undone(pre, req, id, places, t, p.id@);
        let j = choose|j: int| 0 <= j < events.len() && events[j] == e;
        assert(takes(events[j], c));
    }
}

/// Among the events of a plain `!undo` is one for each own slot that is done.
proof fn lemma_own_is_undone(
    state: State,
    req: Request,
    id: Option<String>,
    places: Seq<int>,
    t: Task,
    p_id: Seq<char>,
) -> (e: DomainEvent)
    requires
        places.contains(t.group as int),
        id is Some,
        id->0@ == p_id,
        t.group < state.cleaning_groups@.len(),
        is_in(state.cleaning_groups@[t.group as int], id),
        is_ones_own(state, t, p_id, req.today),
        takes_place(state, state.cleaning_groups@[t.group as int], req.today),
        !is_open(state)(t),
    ensures
        undo_all(state, req, id, false, places).events.contains(e),
        e == undoes(
            state.cleaning_groups@[t.group as int],
            (t.turn.year, t.turn.week),
            Some(t.turn.shift),
            crate::commands::done::slot_id_of(
                state.cleaning_groups@[t.group as int],
                t.slot as int,
            ),
        ),
    decreases places.len(),
{
    let k = t.group as int;
    let g = state.cleaning_groups@[k];
    let e = undoes(
        g,
        (t.turn.year, t.turn.week),
        Some(t.turn.shift),
        crate::commands::done::slot_id_of(g, t.slot as int),
    );
    let u = places.drop_last();
    let s = undo_all(state, req, id, false, places).events;
    let before = undo_all(state, req, id, false, u).events;
    if places.last() == k {
        let all = own_tasks(state, k, this_week(req.today), p_id, req.today);
        let own = all.filter(is_finished(state));
        lemma_own_tasks(state, k, p_id, req.today, t);
        lemma_filter(all, is_finished(state));
        let i = choose|i: int| 0 <= i < all.len() && all[i] == t;
        assert(is_finished(state)(all[i]));
        assert(own.contains(all[i]));
        let j = choose|j: int| 0 <= j < own.len() && own[j] == t;
        let more = undo_in(state, req, id, false, k).0;
        assert(more == crate::commands::marks::undo_events(state, own));
        assert(more[j] == e);
        assert(s == before + more);
        assert(s[before.len() + j] == e);
    } else {
        let i = choose|i: int| 0 <= i < places.len() && places[i] == k;
        assert(u[i] == k);
        let x = lemma_own_is_undone(state, req, id, u, t, p_id);
        let j = choose|j: int| 0 <= j < before.len() && before[j] == e;
        assert(s[j] == e);
    }
    e
}

// ── Leaving ──────────────────────────────────────────────────────────────────

/// Nobody leaves a group while a slot of the current week that falls to them in it is open: then
/// nothing changes.
pub proof fn law_nobody_leaves_with_an_open_slot(
    pre: State,
    post: State,
    r: Result<String, CommandError>,
    req: Request,
    args: Seq<String>,
    p: Person,
    t: Task,
)
    requires
        did_leave(pre, post, r, req, args),
        pre.person_of(req.sender@) == Some(p),
        args.len() > 0,
        pre.group_of_name(args[0]@) is Some,
        t.group < pre.cleaning_groups@.len(),
        pre.group_of_name(args[0]@)->0.id@ == pre.cleaning_groups@[t.group as int].id@,
        forall|i: int|
            0 <= i < t.group ==> (#[trigger] pre.cleaning_groups@[i]).id@
                != pre.cleaning_groups@[t.group as int].id@,
        is_ones_own(pre, t, p.id@, req.today),
        takes_place(pre, pre.cleaning_groups@[t.group as int], req.today),
        !is_marked(pre, pre.cleaning_groups@[t.group as int], t.slot as int, t.turn),
    ensures
        post == pre,
{
    let k = t.group as int;
    let g = pre.cleaning_groups@[k];
    let q = crate::state::group_with_id(g.id@);
    assert forall|i: int| 0 <= i < k implies !q(#[trigger] pre.cleaning_groups@[i]) by {
        assert(pre.cleaning_groups@[i].id@ != g.id@);
    }
    crate::lists::lemma_first_index(pre.cleaning_groups@, q, k);
    let all = own_tasks(pre, k, this_week(req.today), p.id@, req.today);
    let open = all.filter(is_open(pre));
    lemma_own_tasks(pre, k, p.id@, req.today, t);
    lemma_marked(pre, g, t.slot as int, t.turn);
    lemma_filter(all, is_open(pre));
    let i = choose|i: int| 0 <= i < all.len() && all[i] == t;
    assert(is_open(pre)(all[i]));
    assert(open.contains(all[i]));
    assert(open_in_group(pre, g.id@, p.id@, req.today).len() == open.len());
}

} // verus!
