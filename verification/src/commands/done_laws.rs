//! What holds of marking as done.

use vstd::prelude::*;

use crate::analytics::DomainEvent;
use crate::calendar::{
    is_today, lemma_today, lemma_week_at, lemma_weeks_in, lemma_whole_week, week_at, Date, Timestamp,
};
use crate::commands::base::{lemma_today_year, turn_meant, CommandError, Request};
use crate::commands::done::{
    did_done, done_in, done_marking, list_line, mark_text, marked, marked_by, marks, task_name,
    Marking,
};
use crate::commands::tasks::{
    begins_on, earliest, has_begun, is_open, markable, own_tasks, responsible, shift_tasks,
    slot_tasks, Task,
};
use crate::course::step;
use crate::domain::{CleaningGroup, Person};
use crate::lists::{first_index, lemma_filter_push, lemma_first_index_is, lemma_some, some};
use crate::planning::{known, this_week};
use crate::rhythm::{lemma_shift_count, Turn};
use crate::state::{completion_of, group_named, State};
use crate::text::{join, says, views};

verus! {

/// The turn of a shift of a week.
pub open spec fn turn_in(week: (i32, u32), shift: int) -> Turn {
    Turn { year: week.0, week: week.1, shift: shift as u8 }
}

/// Whether somebody has no open turn of a group without slots in a week but one.
pub open spec fn no_other_turn(
    state: State,
    k: int,
    week: (i32, u32),
    shift: int,
    person_id: Seq<char>,
    today: Date,
) -> bool {
    let g = state.cleaning_groups@[k];
    forall|s: int|
        0 <= s < g.rhythm.week_shifts().len() && s != shift && responsible(
            state,
            g,
            0,
            #[trigger] turn_in(week, s),
            person_id,
            today,
        ) ==> state.slot_done(g, 0, turn_in(week, s))
}

/// In a group that is cleaned in one shift there is no other turn.
pub proof fn law_one_shift_has_no_other_turn(
    state: State,
    k: int,
    week: (i32, u32),
    person_id: Seq<char>,
    today: Date,
)
    requires
        state.cleaning_groups@[k].rhythm.week_shifts().len() == 1,
    ensures
        no_other_turn(state, k, week, 0, person_id, today),
{
}

/// The open ones among somebody's tasks are at most the one that is not ruled out.
proof fn lemma_open_own(
    state: State,
    k: int,
    week: (i32, u32),
    shift: int,
    person_id: Seq<char>,
    today: Date,
    n: nat,
)
    requires
        0 <= k < state.cleaning_groups@.len(),
        state.cleaning_groups@[k].slots@.len() == 0,
        no_other_turn(state, k, week, shift, person_id, today),
        n <= state.cleaning_groups@[k].rhythm.week_shifts().len(),
        0 <= shift < 256,
    ensures
        ({
            let g = state.cleaning_groups@[k];
            let turn = turn_in(week, shift);
            shift_tasks(state, k, week, person_id, today, n).filter(is_open(state)) == if shift < n
                && responsible(state, g, 0, turn, person_id, today) && !state.slot_done(
                g,
                0,
                turn,
            ) {
                seq![Task { group: k as usize, slot: 0, turn }]
            } else {
                Seq::empty()
            }
        }),
    decreases n,
{
    let g = state.cleaning_groups@[k];
    lemma_shift_count(g.rhythm);
    let p = is_open(state);
    if n == 0 {
        reveal(Seq::filter);
    } else {
        let s = n - 1;
        lemma_open_own(state, k, week, shift, person_id, today, s as nat);
        let before = shift_tasks(state, k, week, person_id, today, s as nat);
        let turn = turn_in(week, s);
        let more = slot_tasks(state, k, turn, person_id, today, 1);
        assert(g.slot_count() == 1);
        assert(slot_tasks(state, k, turn, person_id, today, 0) =~= Seq::<Task>::empty());
        assert(shift_tasks(state, k, week, person_id, today, n) == before + more);
        let t = Task { group: k as usize, slot: 0, turn };
        if responsible(state, g, 0, turn, person_id, today) {
            assert(more =~= seq![t]);
            assert(before + more =~= before.push(t));
            lemma_filter_push(before, t, p);
            assert(state.cleaning_groups@.len() == state.cleaning_groups.len());
            assert(t.group == k);
        } else {
            assert(more =~= Seq::<Task>::empty());
            assert(before + more =~= before);
        }
        if shift < n {
            assert(before.filter(p).push(t) =~= before.filter(p) + seq![t]);
        }
    }
}

/// Marking one task makes one mark.
proof fn lemma_one_mark(
    pre: State,
    post: State,
    t: Task,
    by: String,
    today: Date,
    now: Timestamp,
    said: Seq<Seq<char>>,
)
    requires
        marked(pre, post, seq![t], by, today, now, said),
    ensures
        said == seq![mark_text(pre, post, t)],
        exists|e: DomainEvent| marks(e, pre, t, by, today) && #[trigger] step(pre, post, e, now),
{
    let (h, events) = choose|h: Seq<State>, events: Seq<DomainEvent>| #[trigger]
        marked_by(h, events, pre, post, seq![t], by, today, now, said);
    assert(seq![t][0] == t);
    assert(step(h[0], h[0int + 1], events[0], now));
    assert(h[1] == post);
    assert(marks(events[0], pre, t, by, today));
    assert(said[0] == mark_text(pre, h[0int + 1], t));
    assert(said =~= seq![mark_text(pre, post, t)]);
}

/// The turn that runs on a day can be represented.
proof fn lemma_running_turn(group: CleaningGroup, today: Date)
    requires
        is_today(today.day as int),
    ensures
        turn_meant(group, this_week(today), today).wf(),
{
    lemma_today(today.day as int);
    let (year, week) = week_at(today.week_no());
    lemma_week_at(today.week_no());
    lemma_whole_week(today.day as int, year, week);
    lemma_today_year(today.day as int, year, week);
    lemma_weeks_in(year);
}

/// A filter keeps one element or none of a list of one.
proof fn lemma_filter_single<A>(x: A, p: spec_fn(A) -> bool)
    ensures
        seq![x].filter(p) == if p(x) {
            seq![x]
        } else {
            Seq::empty()
        },
{
    lemma_filter_push(Seq::<A>::empty(), x, p);
    assert(Seq::<A>::empty().push(x) =~= seq![x]);
    assert(Seq::<A>::empty().filter(p) =~= Seq::<A>::empty()) by {
        reveal(Seq::filter);
    }
}

/// A single open task can be marked.
proof fn lemma_single_markable(state: State, tasks: Seq<Task>, t: Task, today: Date)
    requires
        tasks.filter(is_open(state)) == seq![t],
    ensures
        markable(state, tasks, today) == seq![t],
{
    let open = seq![t];
    lemma_filter_single(t, has_begun(state, today));
    lemma_filter_single(t, begins_on(state, earliest(state, open)));
    assert(open[0] == t);
}

/// What `!done` comes to for a group without slots whose running turn is open, by a member who has
/// no other open turn of it in the week: that turn is marked, whoever is responsible for it.
proof fn lemma_first_done(state: State, req: Request, person_id: Seq<char>, k: int)
    requires
        known(state, req.today),
        0 <= k < state.cleaning_groups@.len(),
        state.cleaning_groups@[k].slots@.len() == 0,
        says(state.cleaning_groups@[k].member_ids@, person_id),
        !state.slot_done(
            state.cleaning_groups@[k],
            0,
            turn_meant(state.cleaning_groups@[k], this_week(req.today), req.today),
        ),
        no_other_turn(
            state,
            k,
            this_week(req.today),
            turn_meant(
                state.cleaning_groups@[k],
                this_week(req.today),
                req.today,
            ).shift as int,
            person_id,
            req.today,
        ),
    ensures
        done_in(state, req, person_id, k) == Marking::Marks(
            seq![
                Task {
                    group: k as usize,
                    slot: 0,
                    turn: turn_meant(
                        state.cleaning_groups@[k],
                        this_week(req.today),
                        req.today,
                    ),
                },
            ],
            Seq::empty(),
        ),
{
    let g = state.cleaning_groups@[k];
    let week = this_week(req.today);
    let turn = turn_meant(g, week, req.today);
    let t = Task { group: k as usize, slot: 0, turn };
    let own = own_tasks(state, k, week, person_id, req.today);
    let open = own.filter(is_open(state));
    assert(state.cleaning_groups@.len() == state.cleaning_groups.len());
    assert(turn_in(week, turn.shift as int) == turn);
    lemma_open_own(
        state,
        k,
        week,
        turn.shift as int,
        person_id,
        req.today,
        g.rhythm.week_shifts().len(),
    );
    assert(Seq::<Task>::empty().filter(is_open(state)).len() == 0) by {
        reveal(Seq::filter);
    }
    if open.len() > 0 {
        lemma_single_markable(state, own, t, req.today);
    }
}

/// The same once the running turn is done: nothing is left to mark.
proof fn lemma_second_done(state: State, req: Request, person_id: Seq<char>, k: int)
    requires
        0 <= k < state.cleaning_groups@.len(),
        state.cleaning_groups@[k].slots@.len() == 0,
        says(state.cleaning_groups@[k].member_ids@, person_id),
        state.slot_done(
            state.cleaning_groups@[k],
            0,
            turn_meant(state.cleaning_groups@[k], this_week(req.today), req.today),
        ),
        no_other_turn(
            state,
            k,
            this_week(req.today),
            turn_meant(
                state.cleaning_groups@[k],
                this_week(req.today),
                req.today,
            ).shift as int,
            person_id,
            req.today,
        ),
    ensures
        done_in(state, req, person_id, k) == Marking::Marks(
            Seq::empty(),
            seq![
                task_name(
                    state,
                    Task {
                        group: k as usize,
                        slot: 0,
                        turn: turn_meant(
                            state.cleaning_groups@[k],
                            this_week(req.today),
                            req.today,
                        ),
                    },
                ),
            ],
        ),
{
    let g = state.cleaning_groups@[k];
    let week = this_week(req.today);
    let turn = turn_meant(g, week, req.today);
    assert(state.cleaning_groups@.len() == state.cleaning_groups.len());
    assert(turn_in(week, turn.shift as int) == turn);
    lemma_open_own(
        state,
        k,
        week,
        turn.shift as int,
        person_id,
        req.today,
        g.rhythm.week_shifts().len(),
    );
    assert(Seq::<Task>::empty().filter(is_open(state)).len() == 0) by {
        reveal(Seq::filter);
    }
}

/// Whether the marks of a turn are a single one, by somebody, to the credit of whoever is
/// responsible.
pub open spec fn marked_once(
    state: State,
    group: CleaningGroup,
    turn: Turn,
    by: Person,
    responsible: Option<Person>,
) -> bool {
    let found = state.completions@.filter(completion_of(group, 0, turn));
    &&& found.len() == 1
    &&& found[0].completed_by_id == by.id
    &&& found[0].responsible_person_ids@ == match responsible {
        Some(q) => seq![q.id],
        None => Seq::empty(),
    }
    &&& !found[0].skipped
}

/// A member of a group without slots whose running turn is open calls `!done` for it twice: the
/// first call makes the one mark of the turn, theirs and to the credit of whoever is responsible,
/// and says that it is cleaned; the second changes nothing and says that it was done. Neither
/// changes the plan or a turn order. Where a week has several shifts, the member must not have
/// another open turn of the group in it, which the second call would mark.
pub proof fn law_done_twice_marks_once(
    pre: State,
    mid: State,
    post: State,
    r: Result<String, CommandError>,
    s: Result<String, CommandError>,
    req: Request,
    again: Request,
    args: Seq<String>,
    p: Person,
    k: int,
)
    requires
        did_done(pre, mid, r, req, args),
        did_done(mid, post, s, again, args),
        known(pre, req.today),
        is_today(again.today.day as int),
        again.sender@ == req.sender@,
        args.len() > 0,
        pre.person_of(req.sender@) == Some(p),
        k == first_index(pre.cleaning_groups@, group_named(join(views(args), " "@))),
        k < pre.cleaning_groups@.len(),
        pre.cleaning_groups@[k].slots@.len() == 0,
        says(pre.cleaning_groups@[k].member_ids@, p.id@),
        ({
            let g = pre.cleaning_groups@[k];
            let week = this_week(req.today);
            let turn = turn_meant(g, week, req.today);
            &&& !pre.slot_done(g, 0, turn)
            &&& this_week(again.today) == week
            &&& turn_meant(g, week, again.today) == turn
            &&& no_other_turn(pre, k, week, turn.shift as int, p.id@, req.today)
            &&& no_other_turn(mid, k, week, turn.shift as int, p.id@, again.today)
        }),
    ensures
        ({
            let g = pre.cleaning_groups@[k];
            let turn = turn_meant(g, this_week(req.today), req.today);
            let name = task_name(pre, Task { group: k as usize, slot: 0, turn });
            &&& marked_once(mid, g, turn, p, pre.assignee(g, 0, turn, req.today))
            &&& r is Ok
            &&& r->Ok_0@ == "✅ Cleaned: "@ + name
            &&& s is Ok
            &&& s->Ok_0@ == "Already done: "@ + name
            &&& post == mid
            &&& mid.slot_assignments == pre.slot_assignments
            &&& mid.cleaning_groups == pre.cleaning_groups
        }),
{
    let name = join(views(args), " "@);
    let g = pre.cleaning_groups@[k];
    let week = this_week(req.today);
    let turn = turn_meant(g, week, req.today);
    let t = Task { group: k as usize, slot: 0, turn };
    assert(pre.cleaning_groups@.len() == pre.cleaning_groups.len());
    lemma_first_index_is(pre.cleaning_groups@, group_named(name));
    lemma_first_done(pre, req, p.id@, k);
    assert(done_marking(pre, req, p.id@, args) == done_in(pre, req, p.id@, k));
    let said = choose|said: Seq<Seq<char>>|
        {
            &&& #[trigger] marked(pre, mid, seq![t], p.id, req.today, req.now, said)
            &&& r is Ok
            &&& r->Ok_0@ == join(
                list_line("✅ Cleaned: "@, said) + list_line("Already done: "@, Seq::empty()),
                "\n"@,
            )
        };
    lemma_one_mark(pre, mid, t, p.id, req.today, req.now, said);
    let e = choose|e: DomainEvent|
        marks(e, pre, t, p.id, req.today) && #[trigger] step(pre, mid, e, req.now);
    lemma_running_turn(g, req.today);
    lemma_new_mark(pre, mid, e, t, p.id, req.today, req.now);
    assert(list_line("✅ Cleaned: "@, said) + list_line("Already done: "@, Seq::empty()) =~= seq![
        "✅ Cleaned: "@ + task_name(pre, t),
    ]);
    assert(known(mid, again.today));
    lemma_second_done(mid, again, p.id@, k);
    assert(mid.person_of(again.sender@) == Some(p));
    assert(done_marking(mid, again, p.id@, args) == done_in(mid, again, p.id@, k));
    let told = choose|told: Seq<Seq<char>>|
        {
            &&& #[trigger] marked(mid, post, Seq::<Task>::empty(), p.id, again.today, again.now, told)
            &&& s is Ok
            &&& s->Ok_0@ == join(
                list_line("✅ Cleaned: "@, told) + list_line(
                    "Already done: "@,
                    seq![task_name(mid, t)],
                ),
                "\n"@,
            )
        };
    let (h, events) = choose|h: Seq<State>, events: Seq<DomainEvent>| #[trigger]
        marked_by(
            h,
            events,
            mid,
            post,
            Seq::<Task>::empty(),
            p.id,
            again.today,
            again.now,
            told,
        );
    assert(h.len() == 1);
    assert(list_line("✅ Cleaned: "@, told) + list_line(
        "Already done: "@,
        seq![task_name(mid, t)],
    ) =~= seq!["Already done: "@ + task_name(pre, t)]);
}

/// A mark of an open turn is the only one of it.
proof fn lemma_new_mark(
    pre: State,
    post: State,
    e: DomainEvent,
    t: Task,
    by: String,
    today: Date,
    now: Timestamp,
)
    requires
        known(pre, today),
        t.group < pre.cleaning_groups@.len(),
        t.slot == 0,
        t.turn.wf(),
        pre.cleaning_groups@[t.group as int].slots@.len() == 0,
        !pre.slot_done(pre.cleaning_groups@[t.group as int], 0, t.turn),
        marks(e, pre, t, by, today),
        step(pre, post, e, now),
    ensures
        ({
            let g = pre.cleaning_groups@[t.group as int];
            let found = post.completions@.filter(completion_of(g, 0, t.turn));
            &&& found.len() == 1
            &&& found[0].completed_by_id == by
            &&& found[0].responsible_person_ids@ == match pre.assignee(g, 0, t.turn, today) {
                Some(q) => seq![q.id],
                None => Seq::empty(),
            }
            &&& !found[0].skipped
        }),
        post.slot_done(pre.cleaning_groups@[t.group as int], 0, t.turn),
        post.slot_assignments == pre.slot_assignments,
        post.cleaning_groups == pre.cleaning_groups,
        post.persons == pre.persons,
        forall|day: Date| is_today(day.day as int) ==> #[trigger] known(post, day),
{
    let g = pre.cleaning_groups@[t.group as int];
    let q = completion_of(g, 0, t.turn);
    let s = pre.completions@;
    let u = post.completions@;
    lemma_some(s, q);
    lemma_some(u, q);
    match e {
        DomainEvent::CleaningCompleted {
            group_id,
            slot_id,
            person_id,
            responsible_person_ids,
            iso_year,
            iso_week,
            shift,
        } => {
            let m = crate::journal::mark_of(group_id@, slot_id, t.turn);
            lemma_some(s, m);
            if some(s, m) {
                let i = choose|i: int| 0 <= i < s.len() && m(#[trigger] s[i]);
                assert(q(s[i]));
            }
            let c = u.last();
            assert(u =~= s.push(c));
            lemma_filter_push(s, c, q);
            crate::lists::lemma_filter(s, q);
            if s.filter(q).len() > 0 {
                let x = s.filter(q)[0];
                let i = choose|i: int| 0 <= i < s.len() && s[i] == x;
                assert(q(s[i]));
            }
            assert(q(c));
            assert(q(u[u.len() - 1]));
            assert(u.filter(q) =~= seq![c]);
        },
        _ => {},
    }
}

} // verus!
