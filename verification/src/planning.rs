//! Changes of the plan: filling it, starting it over, and what joining and leaving a group does
//! to it.

use vstd::prelude::*;

use crate::analytics::{marked_turn, turn_of, DomainEvent};
use crate::calendar::{
    is_day, is_today, is_year, lemma_today, lemma_whole_week, week_at, week_of, weeks_apart,
    weeks_between, year_fits, Date, Timestamp, FIRST_TODAY, LAST_TODAY, LAST_WEEK,
};
use crate::course::{
    freezes_at, history, lemma_only_plan, lemma_plan_event, lemma_plan_events, lemma_planning_step,
    lemma_ran_planning, lemma_ran_pop, only_plan, planned_ahead, planned_group, plans, ran, step,
};
use crate::domain::{CleaningGroup, GroupId, PersonId, SlotAssignment};
use crate::journal::{assignment_beside, next_swap_id, StateError};
use crate::lists::{
    find, first_index, lemma_filter, lemma_find_kept, lemma_first_index, lemma_first_index_is, retain,
    some,
};
use crate::resolver::{
    carries_out, first_due_no, first_due_number, freezes, frozen, group_plan, lemma_fitting,
    materialize_at, materialize_group_at, next_due_fits, reconcile_queue, stores_queue, turn_order,
};
use crate::rhythm::{Rhythm, Turn};
use crate::state::{assignment_of, group_with_id, State, SwapRequest};
use crate::text::{copy_texts, option_is, same_text, says};

verus! {

/// Whether weeks around a day can be told apart from the one that tracking started in: both can be
/// represented.
pub open spec fn known(state: State, today: Date) -> bool {
    state.wf() && is_today(today.day as int)
}

/// Such a day lies in a week that can be represented.
pub proof fn lemma_known(state: State, today: Date)
    requires
        known(state, today),
    ensures
        today.in_week(),
{
    lemma_today(today.day as int);
}

/// Changes of the plan keep that.
pub proof fn lemma_still_known(pre: State, post: State, today: Date)
    requires
        known(pre, today),
        only_plan(pre, post),
    ensures
        known(post, today),
{
    lemma_only_plan(pre, post, Seq::empty());
}

/// Whether the days of all assignments of a group can be represented.
#[verifier::opaque]
pub open spec fn dated_in(state: State, group_id: Seq<char>) -> bool {
    forall|i: int|
        0 <= i < state.slot_assignments@.len() && state.slot_assignments@[i].group_id@ == group_id
            ==> turn_of(#[trigger] state.slot_assignments@[i]).wf()
}

/// Whether the days of a group's assignments can still be represented where they could be before.
pub open spec fn keeps_dates(pre: State, post: State) -> bool {
    forall|id: Seq<char>| #[trigger] dated_in(pre, id) ==> dated_in(post, id)
}

/// The same assignments are of the same days.
pub proof fn lemma_same_dates(pre: State, post: State)
    requires
        post.slot_assignments == pre.slot_assignments,
    ensures
        keeps_dates(pre, post),
{
    reveal(dated_in);
}

/// Freezing turns that can be represented keeps the days representable.
pub proof fn lemma_step_dated(pre: State, post: State, e: DomainEvent, now: Timestamp)
    requires
        step(pre, post, e, now),
        plans(e),
        forall|group: Seq<char>, slot: int, turn: Turn| #[trigger]
            freezes_at(e, group, slot, turn) ==> turn.wf(),
    ensures
        keeps_dates(pre, post),
{
    match e {
        DomainEvent::SlotAssigned {
            group_id,
            slot_index,
            iso_year,
            iso_week,
            shift,
            person_id,
            source,
            actor_id,
            previous_person_id,
        } => {
            let turn = Turn { year: iso_year, week: iso_week, shift };
            assert(freezes_at(e, group_id@, slot_index as int, turn));
            let a = pre.slot_assignments@;
            let b = post.slot_assignments@;
            let q = assignment_beside(group_id@, slot_index as int, turn);
            lemma_filter(a, q);
            assert forall|id: Seq<char>| #[trigger] dated_in(pre, id) implies dated_in(post, id) by {
                reveal(dated_in);
                assert forall|i: int| 0 <= i < b.len() && b[i].group_id@ == id implies turn_of(
                    #[trigger] b[i],
                ).wf() by {
                    if i < b.len() - 1 {
                        assert(b[i] == a.filter(q)[i]);
                        assert(a.contains(b[i]));
                        let k = choose|k: int| 0 <= k < a.len() && a[k] == b[i];
                        assert(turn_of(a[k]).wf());
                    } else {
                        assert(turn_of(b[i]) == turn);
                    }
                }
            }
        },
        _ => {
            lemma_same_dates(pre, post);
        },
    }
}

/// The same for events one after another.
pub proof fn lemma_ran_dated(pre: State, post: State, events: Seq<DomainEvent>, now: Timestamp)
    requires
        ran(pre, post, events, now),
        forall|i: int| 0 <= i < events.len() ==> plans(#[trigger] events[i]),
        forall|i: int, group: Seq<char>, slot: int, turn: Turn|
            0 <= i < events.len() && #[trigger] freezes_at(events[i], group, slot, turn)
                ==> turn.wf(),
    ensures
        keeps_dates(pre, post),
    decreases events.len(),
{
    if events.len() == 0 {
        let h = choose|h: Seq<State>| #[trigger]
            history(h, events, now) && h[0] == pre && h.last() == post;
    } else {
        let front = events.drop_last();
        let mid = lemma_ran_pop(pre, post, events, now);
        assert forall|i: int| 0 <= i < front.len() implies plans(#[trigger] front[i]) by {
            assert(front[i] == events[i]);
        }
        assert forall|i: int, group: Seq<char>, slot: int, turn: Turn|
            0 <= i < front.len() && #[trigger] freezes_at(
                front[i],
                group,
                slot,
                turn,
            ) implies turn.wf() by {
            assert(freezes_at(events[i], group, slot, turn));
        }
        lemma_ran_dated(pre, mid, front, now);
        assert(plans(events[events.len() - 1]));
        assert forall|group: Seq<char>, slot: int, turn: Turn| #[trigger]
            freezes_at(events.last(), group, slot, turn) implies turn.wf() by {
            assert(freezes_at(events[events.len() - 1], group, slot, turn));
        }
        lemma_step_dated(mid, post, events.last(), now);
    }
}

/// Freezes the not yet frozen turns of every group's next due weeks. Whoever is assigned already
/// stays so, and doing it again changes nothing.
pub fn materialize_and_apply(state: &mut State, cycles: usize, today: Date, now: Timestamp) -> (r:
    Result<(), StateError>)
    requires
        known(*old(state), today),
    ensures
        r is Ok,
        planned_ahead(*old(state), *final(state), today, cycles as int, now),
        only_plan(*old(state), *final(state)),
        keeps_dates(*old(state), *final(state)),
{
    proof {
        lemma_known(*old(state), today);
    }
    let events = materialize_at(state, cycles, today);
    let ghost all = events@;
    proof {
        assert forall|i: int| 0 <= i < all.len() implies plans(#[trigger] all[i]) && old(
            state,
        ).group(planned_group(all[i])) is Some by {
            lemma_plan_events(*old(state), all, today, cycles as int, i);
        }
    }
    let r = state.apply_plan(events, now);
    proof {
        assert forall|i: int, group: Seq<char>, slot: int, turn: Turn|
            0 <= i < all.len() && #[trigger] freezes_at(
                all[i],
                group,
                slot,
                turn,
            ) implies turn.wf() by {
            lemma_plan_events(*old(state), all, today, cycles as int, i);
        }
        lemma_ran_dated(*old(state), *state, all, now);
    }
    r
}

// ── How far a group is planned ───────────────────────────────────────────────

/// How many weeks after a week the last assignment of a group is; -1 when none is in or after it.
/// Assignments of years that cannot be represented do not count.
pub open spec fn furthest(first: (i32, u32), s: Seq<SlotAssignment>, group_id: Seq<char>) -> int
    decreases s.len(),
{
    if s.len() == 0 {
        -1
    } else {
        let r = furthest(first, s.drop_last(), group_id);
        let d = weeks_apart(first, (s.last().iso_year, s.last().iso_week));
        if s.last().group_id@ == group_id && is_year(s.last().iso_year as int) && d > r {
            d
        } else {
            r
        }
    }
}

/// The first due week of a group from today on.
pub open spec fn first_due(state: State, group: CleaningGroup, today: Date) -> (i32, u32) {
    let week = week_at(first_due_no(state, group, today));
    (week.0 as i32, week.1 as u32)
}

/// How many due weeks of a group, from the next one on, are planned as far as its last assignment
/// goes; none when the next one cannot be represented.
#[verifier::opaque]
pub open spec fn horizon_of(state: State, group: CleaningGroup, today: Date) -> int {
    let d = furthest(first_due(state, group, today), state.slot_assignments@, group.id@);
    if !next_due_fits(state, group, today) || d < 0 {
        0
    } else {
        d / group.rhythm.interval() + 1
    }
}

/// How many due weeks of a group are planned; 0 when nothing is frozen yet.
pub fn group_horizon_weeks_ahead(state: &State, group: &CleaningGroup, today: Date) -> (r: usize)
    requires
        state.wf(),
        today.in_week(),
    ensures
        r == horizon_of(*state, *group, today),
        r <= 30000000,
{
    let no = first_due_number(state, group, today);
    proof {
        reveal(horizon_of);
        lemma_fitting(*state, *group, today, 0);
        assert(0 * group.rhythm.interval() == 0);
    }
    if no > LAST_WEEK {
        return 0;
    }
    let first = week_of(Date { day: (7 * no + 1) as i32 });
    proof {
        lemma_whole_week(7 * no + 1, first.0 as int, first.1 as int);
        assert(first == first_due(*state, *group, today));
    }
    let ghost all = state.slot_assignments@;
    let mut last: i64 = -1;
    let mut i: usize = 0;
    assert(all.take(0) =~= Seq::<SlotAssignment>::empty());
    while i < state.slot_assignments.len()
        invariant
            i <= state.slot_assignments.len(),
            all == state.slot_assignments@,
            is_year(first.0 as int),
            -1 <= last < 30000000,
            last == furthest(first, all.take(i as int), group.id@),
        decreases state.slot_assignments.len() - i,
    {
        let a = &state.slot_assignments[i];
        proof {
            assert(all.take(i + 1).drop_last() =~= all.take(i as int));
            assert(all.take(i + 1).last() == *a);
        }
        if year_fits(a.iso_year) && same_text(a.group_id.as_str(), group.id.as_str()) {
            let d = weeks_between(first, (a.iso_year, a.iso_week));
            if d > last {
                last = d;
            }
        }
        i += 1;
    }
    assert(all.take(i as int) =~= all);
    if last < 0 {
        0
    } else {
        let every = group.rhythm.every_weeks() as u64;
        let q: u64 = last as u64 / every;
        proof {
            assert(q <= last as u64) by (nonlinear_arith)
                requires
                    q == last as u64 / every,
                    every >= 1,
            ;
        }
        q as usize + 1
    }
}

// ── Whether planning can be done ─────────────────────────────────────────────

/// Whether a day can be represented.
pub fn day_fits(day: i64) -> (r: bool)
    ensures
        r == is_day(day as int),
{
    proof {
        reveal(crate::calendar::january_first);
    }
    -95746129 <= day && day < 95745400
}

/// Whether the days of a turn can be represented.
pub fn turn_fits(turn: Turn) -> (r: bool)
    ensures
        r == turn.wf(),
{
    if !year_fits(turn.year) {
        return false;
    }
    let monday = crate::calendar::week_monday(turn.year, turn.week);
    day_fits(monday.day as i64 + 6)
}

/// Whether the week of a point in time can be represented.
fn week_fits(t: Timestamp) -> (r: bool)
    ensures
        r == crate::calendar::whole_week(719163 + t.secs as int / 86400),
{
    match crate::calendar::date_of_timestamp(t) {
        Some(d) => {
            let back = crate::calendar::weekday_of(d) as i64;
            day_fits(d.day as i64 - back) && day_fits(d.day as i64 - back + 6)
        },
        None => false,
    }
}

/// Whether the days of all assignments of a group can be represented.
pub fn group_dates_fit(state: &State, group_id: &str) -> (r: bool)
    ensures
        r == dated_in(*state, group_id@),
{
    proof {
        reveal(dated_in);
    }
    let mut i: usize = 0;
    while i < state.slot_assignments.len()
        invariant
            i <= state.slot_assignments.len(),
            forall|k: int|
                0 <= k < i && state.slot_assignments@[k].group_id@ == group_id@ ==> turn_of(
                    #[trigger] state.slot_assignments@[k],
                ).wf(),
        decreases state.slot_assignments.len() - i,
    {
        let a = &state.slot_assignments[i];
        if same_text(a.group_id.as_str(), group_id) && !turn_fits(
            Turn { year: a.iso_year, week: a.iso_week, shift: a.shift },
        ) {
            proof {
                reveal(dated_in);
                assert(!turn_of(state.slot_assignments@[i as int]).wf());
            }
            return false;
        }
        i += 1;
    }
    true
}

/// Whether the days of all assignments and marks can be represented.
pub fn dates_fit(state: &State) -> (r: bool)
    ensures
        r == state.dated(),
{
    let mut i: usize = 0;
    while i < state.slot_assignments.len()
        invariant
            i <= state.slot_assignments.len(),
            forall|k: int| 0 <= k < i ==> turn_of(#[trigger] state.slot_assignments@[k]).wf(),
        decreases state.slot_assignments.len() - i,
    {
        let a = &state.slot_assignments[i];
        if !turn_fits(Turn { year: a.iso_year, week: a.iso_week, shift: a.shift }) {
            assert(!turn_of(state.slot_assignments@[i as int]).wf());
            return false;
        }
        i += 1;
    }
    let mut k: usize = 0;
    while k < state.completions.len()
        invariant
            k <= state.completions.len(),
            forall|j: int|
                0 <= j < state.slot_assignments@.len() ==> turn_of(
                    #[trigger] state.slot_assignments@[j],
                ).wf(),
            forall|j: int| 0 <= j < k ==> marked_turn(#[trigger] state.completions@[j]).wf(),
        decreases state.completions.len() - k,
    {
        let c = &state.completions[k];
        if !turn_fits(Turn { year: c.iso_year, week: c.iso_week, shift: c.shift }) {
            assert(!marked_turn(state.completions@[k as int]).wf());
            return false;
        }
        k += 1;
    }
    true
}

/// Whether a day, and the week that tracking started in, can be represented.
pub fn is_known(state: &State, today: Date) -> (r: bool)
    ensures
        r == known(*state, today),
{
    if today.day < FIRST_TODAY || today.day > LAST_TODAY {
        return false;
    }
    match state.created_at {
        Some(t) => week_fits(t),
        None => true,
    }
}

/// Whether there is a number left for another request to swap.
pub fn swaps_fit(list: &Vec<SwapRequest>) -> (r: bool)
    ensures
        r == (next_swap_id(list@) <= u64::MAX),
{
    let mut i: usize = 0;
    assert(list@.take(0) =~= Seq::<SwapRequest>::empty());
    while i < list.len()
        invariant
            i <= list.len(),
            next_swap_id(list@.take(i as int)) <= u64::MAX,
        decreases list.len() - i,
    {
        proof {
            assert(list@.take(i + 1).drop_last() =~= list@.take(i as int));
            assert(list@.take(i + 1).last() == list@[i as int]);
            crate::journal::lemma_next_swap_id(list@, i + 1);
        }
        if list[i].id == u64::MAX {
            return false;
        }
        i += 1;
    }
    assert(list@.take(i as int) =~= list@);
    true
}

// ── Joining ──────────────────────────────────────────────────────────────────

/// The week that holds a day.
pub open spec fn this_week(today: Date) -> (i32, u32) {
    let week = week_at(today.week_no());
    (week.0 as i32, week.1 as u32)
}

/// Whether a group is due in the week that holds a day.
pub open spec fn due_now(state: State, group: CleaningGroup, today: Date) -> bool {
    let week = this_week(today);
    state.due(group, today, week.0 as int, week.1 as int)
}

/// Whether a group is due in the week that holds a day.
pub fn is_due_now(state: &State, group: &CleaningGroup, today: Date) -> (r: bool)
    requires
        state.wf(),
        today.in_week(),
    ensures
        r == due_now(*state, *group, today),
{
    let (year, week) = week_of(today);
    proof {
        lemma_whole_week(today.day as int, year as int, week as int);
    }
    state.is_due_week(group, today, year, week)
}

/// Whether a state became another by freezing the current week of a group, where it is due.
pub open spec fn froze_week(
    pre: State,
    post: State,
    group: CleaningGroup,
    today: Date,
    now: Timestamp,
) -> bool {
    if due_now(pre, group, today) {
        exists|events: Seq<DomainEvent>| #[trigger]
            carries_out(events, group.id@, group_plan(pre, group, today, 1)) && ran(
                pre,
                post,
                events,
                now,
            )
    } else {
        post == pre
    }
}

/// Whether an event freezes nobody where a pick was drawn.
pub open spec fn frees(events: Seq<DomainEvent>, group_id: Seq<char>, picks: Seq<
    crate::resolver::Pick,
>) -> bool {
    &&& events.len() == picks.len()
    &&& forall|i: int|
        0 <= i < events.len() ==> freezes(
            #[trigger] events[i],
            group_id,
            (crate::resolver::Pick { person: None, ..picks[i] }),
        )
}

/// Whether a state became another by leaving the current week of a group to nobody, where it is
/// due and not frozen.
pub open spec fn left_free(
    pre: State,
    post: State,
    group: CleaningGroup,
    today: Date,
    now: Timestamp,
) -> bool {
    if due_now(pre, group, today) {
        exists|events: Seq<DomainEvent>| #[trigger]
            frees(events, group.id@, group_plan(pre, group, today, 1).picks) && ran(
                pre,
                post,
                events,
                now,
            )
    } else {
        post == pre
    }
}

/// Events that freeze turns of a group that were not frozen and can be represented.
pub open spec fn fresh(events: Seq<DomainEvent>, state: State, group: CleaningGroup, today: Date) -> bool {
    forall|i: int|
        0 <= i < events.len() ==> plans(#[trigger] events[i]) && planned_group(events[i])
            == group.id@ && fresh_event(events[i], state, group, today)
}

/// An event that freezes turns of the first due week that were not frozen and can be represented.
pub open spec fn fresh_event(e: DomainEvent, state: State, group: CleaningGroup, today: Date) -> bool {
    forall|g: Seq<char>, slot: int, turn: Turn| #[trigger]
        freezes_at(e, g, slot, turn) ==> state.assignment(g, slot, turn) is None && turn.wf()
            && (turn.year, turn.week) == first_due(state, group, today)
}

/// What is drawn for one due week is drawn for turns of that week.
proof fn lemma_first_week(state: State, group: CleaningGroup, today: Date, i: int)
    requires
        0 <= i < group_plan(state, group, today, 1).picks.len(),
        today.in_week(),
    ensures
        ({
            let p = group_plan(state, group, today, 1).picks[i];
            p.turn.wf() && !frozen(state, group, p.slot, p.turn) && (p.turn.year, p.turn.week)
                == first_due(state, group, today)
        }),
{
    crate::rotation::lemma_picks(state, group, today, 1);
    crate::rotation::lemma_in_weeks(state, group, today, 1);
    let plan = crate::resolver::plan_for(state, group, today, 1);
    assert(crate::rotation::in_weeks(state, group, today, plan, 1));
    let pick = plan.picks[i];
    let k = choose|k: int|
        0 <= k < 1 && crate::resolver::due_fits(state, group, today, k)
            && crate::resolver::due_week(state, group, today, k).0 as i32 == pick.turn.year && (#[trigger] crate::resolver::due_week(
            state,
            group,
            today,
            k,
        )).1 as u32 == pick.turn.week;
    assert(k == 0);
    assert(0 * group.rhythm.interval() == 0);
}

/// The events that freeze a week of a group are fresh.
proof fn lemma_fresh_plan(state: State, group: CleaningGroup, today: Date, events: Seq<DomainEvent>)
    requires
        carries_out(events, group.id@, group_plan(state, group, today, 1)),
        today.in_week(),
    ensures
        fresh(events, state, group, today),
{
    let plan = group_plan(state, group, today, 1);
    assert forall|i: int| 0 <= i < events.len() implies plans(#[trigger] events[i])
        && planned_group(events[i]) == group.id@ && fresh_event(
        events[i],
        state,
        group,
        today,
    ) by {
        lemma_plan_event(state, group, events, today, 1, i);
        if i < plan.picks.len() {
            lemma_first_week(state, group, today, i);
            assert(freezes(events[i], group.id@, plan.picks[i]));
        } else {
            assert(events.last() == events[i]);
        }
    }
}

/// The events that leave a week of a group to nobody are fresh.
proof fn lemma_fresh_free(state: State, group: CleaningGroup, today: Date, events: Seq<DomainEvent>)
    requires
        frees(events, group.id@, group_plan(state, group, today, 1).picks),
        today.in_week(),
    ensures
        fresh(events, state, group, today),
{
    let picks = group_plan(state, group, today, 1).picks;
    assert forall|i: int| 0 <= i < events.len() implies plans(#[trigger] events[i])
        && planned_group(events[i]) == group.id@ && fresh_event(
        events[i],
        state,
        group,
        today,
    ) by {
        lemma_first_week(state, group, today, i);
        assert(freezes(
            events[i],
            group.id@,
            (crate::resolver::Pick { person: None, ..picks[i] }),
        ));
    }
}

/// What fresh events do: they change nothing but the plan, and nobody who is assigned.
proof fn lemma_fresh_ran(
    pre: State,
    post: State,
    events: Seq<DomainEvent>,
    group: CleaningGroup,
    today: Date,
    now: Timestamp,
)
    requires
        ran(pre, post, events, now),
        fresh(events, pre, group, today),
    ensures
        only_plan(pre, post),
        keeps_dates(pre, post),
        forall|g: Seq<char>, slot: int, turn: Turn|
            pre.assignment(g, slot, turn) is Some ==> #[trigger] post.assignment(g, slot, turn)
                == pre.assignment(g, slot, turn),
{
    assert forall|i: int, g: Seq<char>, slot: int, turn: Turn|
        0 <= i < events.len() && #[trigger] freezes_at(
            events[i],
            g,
            slot,
            turn,
        ) implies turn.wf() && pre.assignment(g, slot, turn) is None by {
        assert(fresh_event(events[i], pre, group, today));
    }
    lemma_ran_dated(pre, post, events, now);
    lemma_ran_planning(pre, post, events, now);
}

/// Freezes the current week of a group with the turn order as it is, where the group is due and
/// the week is not frozen: nobody's current task changes because somebody joins.
pub fn freeze_schedule_before_join(
    state: &mut State,
    group_id: &str,
    today: Date,
    now: Timestamp,
) -> (r: Result<(), StateError>)
    requires
        known(*old(state), today),
    ensures
        r is Ok,
        old(state).group(group_id@) is None ==> *final(state) == *old(state),
        old(state).group(group_id@) is Some ==> froze_week(
            *old(state),
            *final(state),
            old(state).group(group_id@)->0,
            today,
            now,
        ),
        only_plan(*old(state), *final(state)),
        keeps_dates(*old(state), *final(state)),
{
    proof {
        lemma_known(*old(state), today);
        lemma_first_index_is(old(state).cleaning_groups@, group_with_id(group_id@));
    }
    let events = match state.group_by_id(group_id) {
        Some(group) => if is_due_now(state, group, today) {
            let events = materialize_group_at(state, group, 1, today);
            proof {
                lemma_fresh_plan(*state, *group, today, events@);
                assert(group.id@ == group_id@);
            }
            events
        } else {
            return Ok(());
        },
        None => {
            return Ok(());
        },
    };
    let ghost all = events@;
    let ghost g = old(state).group(group_id@)->0;
    assert forall|i: int| 0 <= i < all.len() implies plans(#[trigger] all[i]) && old(state).group(
        planned_group(all[i]),
    ) is Some by {
        assert(planned_group(all[i]) == g.id@);
    }
    let r = state.apply_plan(events, now);
    proof {
        lemma_fresh_ran(*old(state), *state, all, g, today, now);
    }
    r
}

/// Leaves the current week of a group to nobody, where the group is due and the week is not
/// frozen: the first member of a group starts in the week after. The turn order stays.
pub fn keep_active_week_unassigned_for_first_member(
    state: &mut State,
    group_id: &str,
    today: Date,
    now: Timestamp,
) -> (r: Result<(), StateError>)
    requires
        known(*old(state), today),
    ensures
        r is Ok,
        old(state).group(group_id@) is None ==> *final(state) == *old(state),
        old(state).group(group_id@) is Some ==> left_free(
            *old(state),
            *final(state),
            old(state).group(group_id@)->0,
            today,
            now,
        ),
        only_plan(*old(state), *final(state)),
        keeps_dates(*old(state), *final(state)),
{
    proof {
        lemma_known(*old(state), today);
        lemma_first_index_is(old(state).cleaning_groups@, group_with_id(group_id@));
    }
    let mut events: Vec<DomainEvent> = Vec::new();
    match state.group_by_id(group_id) {
        Some(group) => {
            if !is_due_now(state, group, today) {
                return Ok(());
            }
            let drawn = materialize_group_at(state, group, 1, today);
            let ghost plan = group_plan(*state, *group, today, 1);
            let mut i: usize = 0;
            while i < drawn.len()
                invariant
                    i <= drawn.len(),
                    carries_out(drawn@, group.id@, plan),
                    events@.len() == if i <= plan.picks.len() {
                        i as int
                    } else {
                        plan.picks.len() as int
                    },
                    forall|k: int|
                        0 <= k < events@.len() ==> freezes(
                            #[trigger] events@[k],
                            group.id@,
                            (crate::resolver::Pick { person: None, ..plan.picks[k] }),
                        ),
                decreases drawn.len() - i,
            {
                proof {
                    if i < plan.picks.len() {
                        assert(freezes(drawn@[i as int], group.id@, plan.picks[i as int]));
                    } else {
                        assert(drawn@.last() == drawn@[i as int]);
                    }
                }
                match &drawn[i] {
                    DomainEvent::SlotAssigned {
                        group_id: g,
                        slot_index,
                        iso_year,
                        iso_week,
                        shift,
                        person_id: _,
                        source,
                        actor_id: _,
                        previous_person_id: _,
                    } => {
                        events.push(
                            DomainEvent::SlotAssigned {
                                group_id: g.clone(),
                                slot_index: *slot_index,
                                iso_year: *iso_year,
                                iso_week: *iso_week,
                                shift: *shift,
                                person_id: None,
                                source: *source,
                                actor_id: None,
                                previous_person_id: None,
                            },
                        );
                    },
                    _ => {},
                }
                i += 1;
            }
            proof {
                lemma_fresh_free(*state, *group, today, events@);
            }
        },
        None => {
            return Ok(());
        },
    }
    let ghost all = events@;
    let ghost g = old(state).group(group_id@)->0;
    assert forall|i: int| 0 <= i < all.len() implies plans(#[trigger] all[i]) && old(state).group(
        planned_group(all[i]),
    ) is Some by {
        assert(planned_group(all[i]) == g.id@);
    }
    assert(frees(all, g.id@, group_plan(*old(state), g, today, 1).picks));
    assert(due_now(*old(state), g, today));
    let r = state.apply_plan(events, now);
    proof {
        assert(ran(*old(state), *state, all, now));
        lemma_fresh_ran(*old(state), *state, all, g, today, now);
    }
    r
}

/// An assignment of somebody in a group.
pub open spec fn turn_for(group_id: Seq<char>, person_id: Seq<char>) -> spec_fn(SlotAssignment) -> bool {
    |a: SlotAssignment|
        a.group_id@ == group_id && a.person_id is Some && a.person_id->0@ == person_id
}

/// Whether somebody has had a turn in a group, or has one ahead.
pub open spec fn had_turn(state: State, group_id: Seq<char>) -> spec_fn(String) -> bool {
    |id: String| some(state.slot_assignments@, turn_for(group_id, id@))
}

/// The place after the last one for whom `p` fails.
pub open spec fn after_last(s: Seq<String>, p: spec_fn(String) -> bool) -> int
    decreases s.len(),
{
    if s.len() == 0 {
        0
    } else if !p(s.last()) {
        s.len() as int
    } else {
        after_last(s.drop_last(), p)
    }
}

/// The turn order of a group with a newcomer: after everybody who still waits for a first turn,
/// and before those who had one.
pub open spec fn order_with(state: State, group: CleaningGroup, person: String) -> Seq<String> {
    let queue = turn_order(state, group).filter(crate::journal::other_id(person@));
    queue.insert(after_last(queue, had_turn(state, group.id@)), person)
}

/// Whether somebody has had a turn in a group, or has one ahead.
fn has_had_a_turn(state: &State, group_id: &str, person_id: &str) -> (r: bool)
    ensures
        r == some(state.slot_assignments@, turn_for(group_id@, person_id@)),
{
    let ghost p = turn_for(group_id@, person_id@);
    let mut i: usize = 0;
    while i < state.slot_assignments.len()
        invariant
            i <= state.slot_assignments.len(),
            p == turn_for(group_id@, person_id@),
            forall|k: int| 0 <= k < i ==> !p(#[trigger] state.slot_assignments@[k]),
        decreases state.slot_assignments.len() - i,
    {
        let a = &state.slot_assignments[i];
        if option_is(&a.person_id, person_id) && same_text(a.group_id.as_str(), group_id) {
            proof {
                lemma_first_index(state.slot_assignments@, p, i as int);
            }
            return true;
        }
        i += 1;
    }
    proof {
        lemma_first_index(state.slot_assignments@, p, i as int);
    }
    false
}

/// The turn order of a group with a newcomer.
fn queue_with(state: &State, group: &CleaningGroup, person_id: &PersonId) -> (r: Vec<PersonId>)
    ensures
        r@ == order_with(*state, *group, *person_id),
{
    let mut queue = reconcile_queue(state, group);
    let other = |id: &String| -> (b: bool)
        ensures
            b == (id@ != person_id@),
        { !same_text(id.as_str(), person_id.as_str()) };
    retain(&mut queue, other, Ghost(crate::journal::other_id(person_id@)));
    let ghost p = had_turn(*state, group.id@);
    let mut n: usize = queue.len();
    assert(queue@.take(n as int) =~= queue@);
    while n > 0 && has_had_a_turn(state, group.id.as_str(), queue[n - 1].as_str())
        invariant
            n <= queue.len(),
            p == had_turn(*state, group.id@),
            after_last(queue@, p) == after_last(queue@.take(n as int), p),
        decreases n,
    {
        proof {
            assert(queue@.take(n as int).last() == queue@[n - 1]);
            assert(queue@.take(n as int).drop_last() =~= queue@.take(n - 1));
            assert(p(queue@[n - 1]));
        }
        n -= 1;
    }
    proof {
        if n > 0 {
            assert(queue@.take(n as int).last() == queue@[n - 1]);
            assert(!p(queue@[n - 1]));
        }
    }
    queue.insert(n, person_id.clone());
    queue
}

/// How many due weeks are planned when somebody joins: one more than so far, but no more than
/// the usual number, unless more are planned already.
pub open spec fn join_cycles(state: State, group: CleaningGroup, today: Date, usual: int) -> int {
    let h = horizon_of(state, group, today);
    let most = if usual > h {
        usual
    } else {
        h
    };
    if h + 1 < most {
        h + 1
    } else {
        most
    }
}

/// Whether a state became another by a new turn order of a group.
pub open spec fn queue_set(pre: State, post: State, group_id: Seq<char>, queue: Seq<String>, now: Timestamp) -> bool {
    exists|e: DomainEvent| #[trigger] stores_queue(e, group_id, queue) && step(pre, post, e, now)
}

/// Whether a state became another by somebody joining a group.
pub open spec fn member_added(pre: State, post: State, group_id: Seq<char>, person_id: Seq<char>, now: Timestamp) -> bool {
    exists|e: DomainEvent| #[trigger] adds_member(e, group_id, person_id) && step(pre, post, e, now)
}

/// Whether an event makes somebody a member of a group.
pub open spec fn adds_member(e: DomainEvent, group_id: Seq<char>, person: Seq<char>) -> bool {
    match e {
        DomainEvent::PersonJoinedGroup { person_id, group_id: g } => person_id@ == person && g@
            == group_id,
        _ => false,
    }
}

/// Whether states lead from one to another when somebody joins a group: the current week is
/// frozen (`a`), the newcomer gets a place in the turn order (`b`) and becomes a member (`c`),
/// the first member of a group is spared the current week (`d`), and the plan goes on.
pub open spec fn joins_by(
    pre: State,
    a: State,
    b: State,
    c: State,
    d: State,
    post: State,
    group: CleaningGroup,
    person: String,
    today: Date,
    usual: int,
    now: Timestamp,
) -> bool {
    &&& froze_week(pre, a, group, today, now)
    &&& queue_set(a, b, group.id@, order_with(a, a.group(group.id@)->0, person), now)
    &&& member_added(b, c, group.id@, person@, now)
    &&& if group.member_ids@.len() == 0 {
        left_free(c, d, c.group(group.id@)->0, today, now)
    } else {
        d == c
    }
    &&& planned_ahead(
        d,
        post,
        today,
        join_cycles(d, d.group(group.id@)->0, today, usual),
        now,
    )
}

/// Whether a state became another by somebody joining a group.
pub open spec fn joined(
    pre: State,
    post: State,
    group: CleaningGroup,
    person: String,
    today: Date,
    usual: int,
    now: Timestamp,
) -> bool {
    exists|a: State, b: State, c: State, d: State| #[trigger]
        joins_by(pre, a, b, c, d, post, group, person, today, usual, now)
}

/// What becoming a member changes.
proof fn lemma_member_added(pre: State, post: State, group_id: Seq<char>, person_id: Seq<char>, now: Timestamp)
    requires
        member_added(pre, post, group_id, person_id, now),
    ensures
        post.slot_assignments == pre.slot_assignments,
        post.created_at == pre.created_at,
        pre.group(group_id) is Some,
        post.group(group_id) is Some,
        post.group(group_id)->0 == (CleaningGroup {
            member_ids: post.group(group_id)->0.member_ids,
            ..pre.group(group_id)->0
        }),
        says(post.group(group_id)->0.member_ids@, person_id),
        forall|today: Date| #[trigger] known(pre, today) ==> known(post, today),
        keeps_dates(pre, post),
{
    lemma_same_dates(pre, post);
    let e = choose|e: DomainEvent| #[trigger]
        adds_member(e, group_id, person_id) && step(pre, post, e, now);
    let p = group_with_id(group_id);
    let a = pre.cleaning_groups@;
    let b = post.cleaning_groups@;
    lemma_first_index_is(a, p);
    let i = first_index(a, p);
    assert(p(a[i]));
    assert forall|k: int| 0 <= k < i implies !p(#[trigger] b[k]) by {
        assert(!p(a[k]));
    }
    assert(p(b[i]));
    lemma_first_index(b, p, i);
    let before = a[i].member_ids@;
    let members = b[i].member_ids@;
    if !says(before, person_id) {
        assert(members[before.len() as int]@ == person_id);
    }
}

/// What a new turn order changes.
pub proof fn lemma_queue_set(pre: State, post: State, group_id: Seq<char>, queue: Seq<String>, now: Timestamp)
    requires
        queue_set(pre, post, group_id, queue, now),
    ensures
        only_plan(pre, post),
        post.slot_assignments == pre.slot_assignments,
        pre.group(group_id) is Some,
        post.group(group_id) is Some,
        post.group(group_id)->0.rotation_queue@ == queue,
        keeps_dates(pre, post),
{
    let e = choose|e: DomainEvent| #[trigger]
        stores_queue(e, group_id, queue) && step(pre, post, e, now);
    lemma_planning_step(pre, post, e, now);
    lemma_same_dates(pre, post);
    lemma_only_plan(pre, post, group_id);
    lemma_first_index_is(pre.cleaning_groups@, group_with_id(group_id));
}

/// What freezing the current week of a group changes.
pub proof fn lemma_froze_week(pre: State, post: State, group: CleaningGroup, today: Date, now: Timestamp)
    requires
        froze_week(pre, post, group, today, now),
        today.in_week(),
    ensures
        only_plan(pre, post),
        keeps_dates(pre, post),
        forall|g: Seq<char>, slot: int, turn: Turn|
            pre.assignment(g, slot, turn) is Some ==> #[trigger] post.assignment(g, slot, turn)
                == pre.assignment(g, slot, turn),
{
    if due_now(pre, group, today) {
        let events = choose|events: Seq<DomainEvent>| #[trigger]
            carries_out(events, group.id@, group_plan(pre, group, today, 1)) && ran(
                pre,
                post,
                events,
                now,
            );
        lemma_fresh_plan(pre, group, today, events);
        lemma_fresh_ran(pre, post, events, group, today, now);
    }
}

/// What leaving the current week of a group to nobody changes.
pub proof fn lemma_left_free(pre: State, post: State, group: CleaningGroup, today: Date, now: Timestamp)
    requires
        left_free(pre, post, group, today, now),
        today.in_week(),
    ensures
        only_plan(pre, post),
        keeps_dates(pre, post),
        forall|g: Seq<char>, slot: int, turn: Turn|
            pre.assignment(g, slot, turn) is Some ==> #[trigger] post.assignment(g, slot, turn)
                == pre.assignment(g, slot, turn),
{
    if due_now(pre, group, today) {
        let events = choose|events: Seq<DomainEvent>| #[trigger]
            frees(events, group.id@, group_plan(pre, group, today, 1).picks) && ran(
                pre,
                post,
                events,
                now,
            );
        lemma_fresh_free(pre, group, today, events);
        lemma_fresh_ran(pre, post, events, group, today, now);
    }
}

/// Makes a person a member of a group. The current week is frozen first, with the turn order as
/// it is; the newcomer stands after everybody who still waits for a first turn and before those
/// who had one; the first member of a group starts in the week after; and one more due week is
/// planned than before, up to the usual number.
pub fn apply_group_join(
    state: &mut State,
    group_id: &GroupId,
    person_id: &PersonId,
    today: Date,
    usual: u32,
    now: Timestamp,
) -> (r: Result<(), StateError>)
    requires
        old(state).group(group_id@) is Some ==> known(*old(state), today),
    ensures
        match old(state).group(group_id@) {
            None => r == Err::<(), StateError>(StateError::UnknownGroup) && *final(state) == *old(
                state,
            ),
            Some(g) => r is Ok && joined(
                *old(state),
                *final(state),
                g,
                *person_id,
                today,
                usual as int,
                now,
            ) && known(*final(state), today) && keeps_dates(*old(state), *final(state)),
        },
{
    let ghost pre = *state;
    let rotation_was_empty = match state.group_by_id(group_id.as_str()) {
        Some(g) => g.member_ids.len() == 0,
        None => {
            return Err(StateError::UnknownGroup);
        },
    };
    let ghost g = pre.group(group_id@)->0;
    proof {
        lemma_known(pre, today);
        lemma_first_index_is(pre.cleaning_groups@, group_with_id(group_id@));
        assert(g.id@ == group_id@);
    }
    let frozen = freeze_schedule_before_join(state, group_id.as_str(), today, now);
    let ghost a = *state;
    proof {
        lemma_froze_week(pre, a, g, today, now);
        lemma_still_known(pre, a, today);
        lemma_only_plan(pre, a, group_id@);
    }
    let queue = match state.group_by_id(group_id.as_str()) {
        Some(group) => queue_with(state, group, person_id),
        None => Vec::new(),
    };
    let e = DomainEvent::RotationQueueSet { group_id: group_id.clone(), queue };
    assert(stores_queue(e, group_id@, order_with(a, a.group(group_id@)->0, *person_id)));
    let queued = state.apply_event_at(e, now);
    let ghost b = *state;
    proof {
        assert(queue_set(
            a,
            b,
            g.id@,
            order_with(a, a.group(group_id@)->0, *person_id),
            now,
        ));
        lemma_queue_set(a, b, g.id@, order_with(a, a.group(group_id@)->0, *person_id), now);
        lemma_still_known(a, b, today);
        lemma_only_plan(a, b, group_id@);
    }
    let e = DomainEvent::PersonJoinedGroup {
        person_id: person_id.clone(),
        group_id: group_id.clone(),
    };
    assert(adds_member(e, g.id@, person_id@));
    let added = state.apply_event_at(e, now);
    let ghost c = *state;
    proof {
        assert(member_added(b, c, g.id@, person_id@, now));
        lemma_member_added(b, c, g.id@, person_id@, now);
        assert(known(c, today));
        lemma_known(c, today);
        lemma_first_index_is(c.cleaning_groups@, group_with_id(group_id@));
    }
    if rotation_was_empty {
        let kept = keep_active_week_unassigned_for_first_member(
            state,
            group_id.as_str(),
            today,
            now,
        );
        proof {
            lemma_left_free(c, *state, c.group(group_id@)->0, today, now);
            lemma_still_known(c, *state, today);
            lemma_only_plan(c, *state, group_id@);
        }
    }
    let ghost d = *state;
    let ghost dg = d.group(group_id@)->0;
    proof {
        lemma_known(d, today);
        lemma_first_index_is(d.cleaning_groups@, group_with_id(group_id@));
    }
    let cycles: usize = match state.group_by_id(group_id.as_str()) {
        Some(group) => {
            let h = group_horizon_weeks_ahead(state, group, today);
            let most: usize = if usual as usize > h {
                usual as usize
            } else {
                h
            };
            if h + 1 < most {
                h + 1
            } else {
                most
            }
        },
        None => 0,
    };
    let r = materialize_and_apply(state, cycles, today, now);
    proof {
        lemma_still_known(d, *state, today);
    }
    assert(joins_by(pre, a, b, c, d, *state, g, *person_id, today, usual as int, now));
    r
}

/// Joining a group never changes who is assigned to a turn already, in any group.
pub proof fn law_joining_keeps_assignments(
    pre: State,
    post: State,
    group: CleaningGroup,
    person: String,
    today: Date,
    usual: int,
    now: Timestamp,
    g: Seq<char>,
    slot: int,
    turn: Turn,
)
    requires
        joined(pre, post, group, person, today, usual, now),
        pre.group(group.id@) == Some(group),
        usual >= 0,
        known(pre, today),
        pre.assignment(g, slot, turn) is Some,
    ensures
        post.assignment(g, slot, turn) == pre.assignment(g, slot, turn),
{
    let (a, b, c, d) = choose|a: State, b: State, c: State, d: State| #[trigger]
        joins_by(pre, a, b, c, d, post, group, person, today, usual, now);
    let id = group.id@;
    lemma_known(pre, today);
    lemma_first_index_is(pre.cleaning_groups@, group_with_id(id));
    lemma_froze_week(pre, a, group, today, now);
    lemma_still_known(pre, a, today);
    lemma_only_plan(pre, a, id);
    lemma_queue_set(a, b, id, order_with(a, a.group(id)->0, person), now);
    lemma_still_known(a, b, today);
    lemma_only_plan(a, b, id);
    lemma_member_added(b, c, id, person@, now);
    assert(known(c, today));
    lemma_known(c, today);
    lemma_first_index_is(c.cleaning_groups@, group_with_id(id));
    if group.member_ids@.len() == 0 {
        lemma_left_free(c, d, c.group(id)->0, today, now);
        lemma_still_known(c, d, today);
        lemma_only_plan(c, d, id);
    }
    assert(a.assignment(g, slot, turn) == pre.assignment(g, slot, turn));
    assert(c.assignment(g, slot, turn) == a.assignment(g, slot, turn));
    assert(d.assignment(g, slot, turn) == c.assignment(g, slot, turn));
    let dg = d.group(id)->0;
    let cycles = join_cycles(d, dg, today, usual);
    assert(0 <= horizon_of(d, dg, today)) by {
        lemma_horizon_positive(d, dg, today);
    }
    lemma_known(d, today);
    crate::course::law_planning_keeps_assignments(d, post, today, cycles, now, g, slot, turn);
}

/// A horizon is never negative.
proof fn lemma_horizon_positive(state: State, group: CleaningGroup, today: Date)
    ensures
        horizon_of(state, group, today) >= 0,
{
    reveal(horizon_of);
    let d = furthest(first_due(state, group, today), state.slot_assignments@, group.id@);
    if d >= 0 {
        assert(d / group.rhythm.interval() >= 0) by (nonlinear_arith)
            requires
                d >= 0,
                group.rhythm.interval() >= 1,
        ;
    }
}

/// Everybody who still waits for a first turn stands before the newcomer, everybody behind the
/// newcomer had one, and the others keep their order.
pub proof fn law_newcomers_wait_for_those_who_wait(state: State, group: CleaningGroup, person: String, i: int)
    requires
        0 <= i < order_with(state, group, person).len(),
    ensures
        ({
            let order = order_with(state, group, person);
            let others = turn_order(state, group).filter(crate::journal::other_id(person@));
            let at = after_last(others, had_turn(state, group.id@));
            &&& 0 <= at < order.len()
            &&& order[at] == person
            &&& order.remove(at) == others
            &&& i != at && !had_turn(state, group.id@)(order[i]) ==> i < at
        }),
{
    let others = turn_order(state, group).filter(crate::journal::other_id(person@));
    let p = had_turn(state, group.id@);
    lemma_after_last(others, p);
    let at = after_last(others, p);
    let order = order_with(state, group, person);
    assert(order.remove(at) =~= others);
    if i > at {
        assert(order[i] == others[i - 1]);
    }
}

/// Where the last one stands for whom `p` fails.
proof fn lemma_after_last(s: Seq<String>, p: spec_fn(String) -> bool)
    ensures
        0 <= after_last(s, p) <= s.len(),
        forall|i: int| after_last(s, p) <= i < s.len() ==> p(#[trigger] s[i]),
        after_last(s, p) > 0 ==> !p(s[after_last(s, p) - 1]),
    decreases s.len(),
{
    if s.len() > 0 && p(s.last()) {
        lemma_after_last(s.drop_last(), p);
        assert forall|i: int| after_last(s, p) <= i < s.len() implies p(#[trigger] s[i]) by {
            if i < s.len() - 1 {
                assert(s.drop_last()[i] == s[i]);
            }
        }
    }
}

// ── Leaving, and starting over ───────────────────────────────────────────────

/// Whether a week comes after another.
pub open spec fn later_week(year: i32, week: u32, than: (i32, u32)) -> bool {
    !(year < than.0 || (year == than.0 && week <= than.1))
}

/// An assignment that is not of somebody in a group in a week after a given one.
pub open spec fn not_future_of(person_id: Seq<char>, group_id: Seq<char>, week: (i32, u32)) -> spec_fn(
    SlotAssignment,
) -> bool {
    |a: SlotAssignment|
        a.group_id@ != group_id || !(a.person_id is Some && a.person_id->0@ == person_id)
            || !later_week(a.iso_year, a.iso_week, week)
}

/// An assignment that is not of a group in a week after a given one.
pub open spec fn not_future_in(group_id: Seq<char>, week: (i32, u32)) -> spec_fn(SlotAssignment) -> bool {
    |a: SlotAssignment| a.group_id@ != group_id || !later_week(a.iso_year, a.iso_week, week)
}

/// Takes back what somebody is assigned to in a group in the weeks after the current one.
pub fn remove_future_assignments_for_person(
    state: &mut State,
    person_id: &str,
    group_id: &str,
    today: Date,
) -> (r: usize)
    requires
        today.wf(),
    ensures
        *final(state) == (State { slot_assignments: final(state).slot_assignments, ..*old(state) }),
        final(state).slot_assignments@ == old(state).slot_assignments@.filter(
            not_future_of(person_id@, group_id@, this_week(today)),
        ),
        r == old(state).slot_assignments@.len() - final(state).slot_assignments@.len(),
{
    let (year, week) = week_of(today);
    let before = state.slot_assignments.len();
    let keep = |a: &SlotAssignment| -> (b: bool)
        ensures
            b == (a.group_id@ != group_id@ || !(a.person_id is Some && a.person_id->0@
                == person_id@) || !later_week(a.iso_year, a.iso_week, (year, week))),
        {
            !same_text(a.group_id.as_str(), group_id) || !option_is(&a.person_id, person_id)
                || a.iso_year < year || (a.iso_year == year && a.iso_week <= week)
        };
    let ghost p = not_future_of(person_id@, group_id@, this_week(today));
    proof {
        crate::lists::lemma_filter(state.slot_assignments@, p);
    }
    retain(&mut state.slot_assignments, keep, Ghost(p));
    before - state.slot_assignments.len()
}

/// Fewer assignments are still of days that can be represented.
pub proof fn lemma_fewer(pre: State, post: State, p: spec_fn(SlotAssignment) -> bool)
    requires
        post == (State { slot_assignments: post.slot_assignments, ..pre }),
        post.slot_assignments@ == pre.slot_assignments@.filter(p),
    ensures
        forall|today: Date| #[trigger] known(pre, today) ==> known(post, today),
        keeps_dates(pre, post),
{
    let a = pre.slot_assignments@;
    let b = post.slot_assignments@;
    crate::lists::lemma_filter(a, p);
    assert forall|id: Seq<char>| #[trigger] dated_in(pre, id) implies dated_in(post, id) by {
        reveal(dated_in);
        assert forall|i: int| 0 <= i < b.len() && b[i].group_id@ == id implies turn_of(
            #[trigger] b[i],
        ).wf() by {
            assert(a.contains(b[i]));
            let k = choose|k: int| 0 <= k < a.len() && a[k] == b[i];
            assert(turn_of(a[k]).wf());
        }
    }
}

/// Whether states lead from one to another when somebody has left a group: their future
/// assignments are taken back (`a`), they leave the turn order (`b`), and the gaps are filled as
/// far as the group was planned.
pub open spec fn departs_by(
    pre: State,
    a: State,
    b: State,
    post: State,
    group: CleaningGroup,
    person_id: Seq<char>,
    today: Date,
    now: Timestamp,
) -> bool {
    &&& a == (State { slot_assignments: a.slot_assignments, ..pre })
    &&& a.slot_assignments@ == pre.slot_assignments@.filter(
        not_future_of(person_id, group.id@, this_week(today)),
    )
    &&& queue_set(a, b, group.id@, turn_order(a, group), now)
    &&& planned_ahead(b, post, today, horizon_of(b, b.group(group.id@)->0, today), now)
}

/// Whether a state became another when somebody has left a group.
pub open spec fn departed(
    pre: State,
    post: State,
    group: CleaningGroup,
    person_id: Seq<char>,
    today: Date,
    now: Timestamp,
) -> bool {
    exists|a: State, b: State| #[trigger]
        departs_by(pre, a, b, post, group, person_id, today, now)
}

/// The number of assignments of somebody in a group in the weeks after the current one.
pub open spec fn future_count(state: State, person_id: Seq<char>, group_id: Seq<char>, today: Date) -> int {
    state.slot_assignments@.len() - state.slot_assignments@.filter(
        not_future_of(person_id, group_id, this_week(today)),
    ).len()
}

/// Clears up after somebody who is no longer a member of a group: takes back their assignments
/// after the current week, takes them out of the turn order, and fills the gaps from it. Returns
/// how many assignments were taken back.
pub fn apply_group_departure(
    state: &mut State,
    person_id: &str,
    group_id: &GroupId,
    today: Date,
    now: Timestamp,
) -> (r: Result<usize, StateError>)
    requires
        old(state).group(group_id@) is Some ==> known(*old(state), today),
    ensures
        match old(state).group(group_id@) {
            None => r == Err::<usize, StateError>(StateError::UnknownGroup) && *final(state)
                == *old(state),
            Some(g) => {
                &&& r is Ok
                &&& r->Ok_0 == future_count(*old(state), person_id@, group_id@, today)
                &&& departed(*old(state), *final(state), g, person_id@, today, now)
                &&& known(*final(state), today)
                &&& keeps_dates(*old(state), *final(state))
            },
        },
{
    let ghost pre = *state;
    match state.group_by_id(group_id.as_str()) {
        Some(_) => {},
        None => {
            return Err(StateError::UnknownGroup);
        },
    }
    let ghost g = pre.group(group_id@)->0;
    proof {
        lemma_known(pre, today);
        lemma_today(today.day as int);
        lemma_first_index_is(pre.cleaning_groups@, group_with_id(group_id@));
        assert(g.id@ == group_id@);
    }
    let removed = remove_future_assignments_for_person(state, person_id, group_id.as_str(), today);
    let ghost a = *state;
    proof {
        lemma_fewer(pre, a, not_future_of(person_id@, group_id@, this_week(today)));
        assert(known(pre, today));
        assert(known(a, today));
    }
    let queue = match state.group_by_id(group_id.as_str()) {
        Some(group) => reconcile_queue(state, group),
        None => Vec::new(),
    };
    let e = DomainEvent::RotationQueueSet { group_id: group_id.clone(), queue };
    assert(stores_queue(e, group_id@, turn_order(a, g)));
    let queued = state.apply_event_at(e, now);
    let ghost b = *state;
    proof {
        assert(queue_set(a, b, g.id@, turn_order(a, g), now));
        lemma_queue_set(a, b, g.id@, turn_order(a, g), now);
        lemma_still_known(a, b, today);
        lemma_only_plan(a, b, group_id@);
        lemma_known(b, today);
        lemma_first_index_is(b.cleaning_groups@, group_with_id(group_id@));
    }
    let cycles: usize = match state.group_by_id(group_id.as_str()) {
        Some(group) => group_horizon_weeks_ahead(state, group, today),
        None => 0,
    };
    let done = materialize_and_apply(state, cycles, today, now);
    proof {
        lemma_still_known(b, *state, today);
    }
    assert(departs_by(pre, a, b, *state, g, person_id@, today, now));
    Ok(removed)
}

/// Whether an event takes somebody out of a group.
pub open spec fn removes_member(e: DomainEvent, group_id: Seq<char>, person: Seq<char>) -> bool {
    match e {
        DomainEvent::PersonLeftGroup { person_id, group_id: g } => person_id@ == person && g@
            == group_id,
        _ => false,
    }
}

/// Whether a state became another by somebody leaving a group.
pub open spec fn member_removed(pre: State, post: State, group_id: Seq<char>, person_id: Seq<char>, now: Timestamp) -> bool {
    exists|e: DomainEvent| #[trigger]
        removes_member(e, group_id, person_id) && step(pre, post, e, now)
}

/// What ceasing to be a member changes.
pub proof fn lemma_member_removed(pre: State, post: State, group_id: Seq<char>, person_id: Seq<char>, now: Timestamp)
    requires
        member_removed(pre, post, group_id, person_id, now),
    ensures
        post.slot_assignments == pre.slot_assignments,
        pre.group(group_id) is Some,
        post.group(group_id) is Some,
        post.group(group_id)->0 == (CleaningGroup {
            member_ids: post.group(group_id)->0.member_ids,
            ..pre.group(group_id)->0
        }),
        forall|today: Date| #[trigger] known(pre, today) ==> known(post, today),
        keeps_dates(pre, post),
{
    lemma_same_dates(pre, post);
    let e = choose|e: DomainEvent| #[trigger]
        removes_member(e, group_id, person_id) && step(pre, post, e, now);
    let p = group_with_id(group_id);
    let a = pre.cleaning_groups@;
    let b = post.cleaning_groups@;
    lemma_first_index_is(a, p);
    let i = first_index(a, p);
    assert(p(a[i]));
    assert forall|k: int| 0 <= k < i implies !p(#[trigger] b[k]) by {
        assert(!p(a[k]));
    }
    assert(p(b[i]));
    lemma_first_index(b, p, i);
}

/// Whether a state became another by somebody leaving a group, and the gaps being filled.
pub open spec fn left(
    pre: State,
    post: State,
    group: CleaningGroup,
    person_id: Seq<char>,
    today: Date,
    now: Timestamp,
) -> bool {
    exists|mid: State| #[trigger]
        member_removed(pre, mid, group.id@, person_id, now) && departed(
            mid,
            post,
            mid.group(group.id@)->0,
            person_id,
            today,
            now,
        )
}

/// Takes somebody out of a group and fills the gaps that this leaves in the plan. Returns how many
/// assignments were taken back.
pub fn leave_group(
    state: &mut State,
    person_id: &PersonId,
    group_id: &GroupId,
    today: Date,
    now: Timestamp,
) -> (r: Result<usize, StateError>)
    requires
        old(state).group(group_id@) is Some ==> known(*old(state), today),
    ensures
        match old(state).group(group_id@) {
            None => r == Err::<usize, StateError>(StateError::UnknownGroup) && *final(state)
                == *old(state),
            Some(g) => {
                &&& r is Ok
                &&& r->Ok_0 == future_count(*old(state), person_id@, group_id@, today)
                &&& left(*old(state), *final(state), g, person_id@, today, now)
                &&& known(*final(state), today)
                &&& keeps_dates(*old(state), *final(state))
            },
        },
{
    let ghost pre = *state;
    match state.group_by_id(group_id.as_str()) {
        Some(_) => {},
        None => {
            return Err(StateError::UnknownGroup);
        },
    }
    let ghost g = pre.group(group_id@)->0;
    proof {
        lemma_first_index_is(pre.cleaning_groups@, group_with_id(group_id@));
    }
    let e = DomainEvent::PersonLeftGroup {
        person_id: person_id.clone(),
        group_id: group_id.clone(),
    };
    assert(removes_member(e, g.id@, person_id@));
    match state.apply_event_at(e, now) {
        Ok(_) => {},
        Err(e) => {
            return Err(e);
        },
    }
    let ghost mid = *state;
    proof {
        assert(member_removed(pre, mid, g.id@, person_id@, now));
        lemma_member_removed(pre, mid, g.id@, person_id@, now);
    }
    apply_group_departure(state, person_id.as_str(), group_id, today, now)
}

/// When somebody leaves a group, nobody else's assignments change, nor those of the current week
/// and before: whatever is not taken back stays.
pub proof fn law_leaving_keeps_other_assignments(
    pre: State,
    post: State,
    group: CleaningGroup,
    person_id: Seq<char>,
    today: Date,
    now: Timestamp,
    g: Seq<char>,
    slot: int,
    turn: Turn,
)
    requires
        departed(pre, post, group, person_id, today, now),
        pre.group(group.id@) == Some(group),
        known(pre, today),
        ({
            let p = not_future_of(person_id, group.id@, this_week(today));
            find(pre.slot_assignments@.filter(p), assignment_of(g, slot, turn)) is Some
        }),
    ensures
        ({
            let p = not_future_of(person_id, group.id@, this_week(today));
            post.assignment(g, slot, turn) == find(
                pre.slot_assignments@.filter(p),
                assignment_of(g, slot, turn),
            )
        }),
{
    let (a, b) = choose|a: State, b: State| #[trigger]
        departs_by(pre, a, b, post, group, person_id, today, now);
    let p = not_future_of(person_id, group.id@, this_week(today));
    let id = group.id@;
    lemma_fewer(pre, a, p);
    assert(known(a, today));
    lemma_queue_set(a, b, id, turn_order(a, group), now);
    lemma_still_known(a, b, today);
    lemma_only_plan(a, b, id);
    let cycles = horizon_of(b, b.group(id)->0, today);
    lemma_horizon_positive(b, b.group(id)->0, today);
    lemma_known(b, today);
    assert(b.assignment(g, slot, turn) == a.assignment(g, slot, turn));
    crate::course::law_planning_keeps_assignments(b, post, today, cycles, now, g, slot, turn);
}

/// Whether states lead from one to another when the plan of a group is started over: its
/// assignments after the current week are taken back (`a`), the turn order becomes that of the
/// members (`b`), and the plan is made as far as usual.
pub open spec fn resets_by(
    pre: State,
    a: State,
    b: State,
    post: State,
    group: CleaningGroup,
    today: Date,
    usual: int,
    now: Timestamp,
) -> bool {
    &&& a == (State { slot_assignments: a.slot_assignments, ..pre })
    &&& a.slot_assignments@ == pre.slot_assignments@.filter(
        not_future_in(group.id@, this_week(today)),
    )
    &&& queue_set(a, b, group.id@, group.member_ids@, now)
    &&& planned_ahead(b, post, today, usual, now)
}

/// Whether a state became another by starting the plan of a group over.
pub open spec fn reset(pre: State, post: State, group: CleaningGroup, today: Date, usual: int, now: Timestamp) -> bool {
    exists|a: State, b: State| #[trigger] resets_by(pre, a, b, post, group, today, usual, now)
}

/// Starts the plan of a group over after the current week, in the order of its members. Returns
/// how many assignments were taken back.
pub fn reset_and_rematerialize(
    state: &mut State,
    group_id: &GroupId,
    today: Date,
    usual: u32,
    now: Timestamp,
) -> (r: Result<usize, StateError>)
    requires
        known(*old(state), today),
    ensures
        match old(state).group(group_id@) {
            None => r == Err::<usize, StateError>(StateError::UnknownGroup) && *final(state)
                == *old(state),
            Some(g) => {
                &&& r is Ok
                &&& r->Ok_0 == old(state).slot_assignments@.len() - old(
                    state,
                ).slot_assignments@.filter(not_future_in(group_id@, this_week(today))).len()
                &&& reset(*old(state), *final(state), g, today, usual as int, now)
                &&& known(*final(state), today)
                &&& keeps_dates(*old(state), *final(state))
                &&& final(state).group(group_id@) is Some
            },
        },
{
    let ghost pre = *state;
    let queue = match state.group_by_id(group_id.as_str()) {
        Some(group) => copy_texts(&group.member_ids),
        None => {
            return Err(StateError::UnknownGroup);
        },
    };
    let ghost g = pre.group(group_id@)->0;
    proof {
        lemma_today(today.day as int);
        lemma_first_index_is(pre.cleaning_groups@, group_with_id(group_id@));
        assert(g.id@ == group_id@);
    }
    let (year, week) = week_of(today);
    let before = state.slot_assignments.len();
    let keep = |a: &SlotAssignment| -> (b: bool)
        ensures
            b == (a.group_id@ != group_id@ || !later_week(a.iso_year, a.iso_week, (year, week))),
        {
            !same_text(a.group_id.as_str(), group_id.as_str()) || a.iso_year < year || (a.iso_year
                == year && a.iso_week <= week)
        };
    let ghost p = not_future_in(group_id@, this_week(today));
    proof {
        crate::lists::lemma_filter(state.slot_assignments@, p);
    }
    retain(&mut state.slot_assignments, keep, Ghost(p));
    let removed = before - state.slot_assignments.len();
    let ghost a = *state;
    proof {
        lemma_fewer(pre, a, p);
        assert(known(a, today));
    }
    let e = DomainEvent::RotationQueueSet { group_id: group_id.clone(), queue };
    assert(stores_queue(e, group_id@, g.member_ids@));
    let queued = state.apply_event_at(e, now);
    let ghost b = *state;
    proof {
        assert(queue_set(a, b, g.id@, g.member_ids@, now));
        lemma_queue_set(a, b, g.id@, g.member_ids@, now);
        lemma_still_known(a, b, today);
    }
    let done = materialize_and_apply(state, usual as usize, today, now);
    proof {
        lemma_only_plan(b, *state, group_id@);
        lemma_still_known(b, *state, today);
    }
    assert(resets_by(pre, a, b, *state, g, today, usual as int, now));
    Ok(removed)
}

/// Starting the plan of a group over leaves everything alone but that group's turns after the
/// current week: whoever was assigned elsewhere or earlier still is.
pub proof fn law_reset_keeps_what_is_not_ahead(
    pre: State,
    post: State,
    group: CleaningGroup,
    today: Date,
    usual: int,
    now: Timestamp,
    g: Seq<char>,
    slot: int,
    turn: Turn,
)
    requires
        reset(pre, post, group, today, usual, now),
        pre.group(group.id@) == Some(group),
        usual >= 0,
        known(pre, today),
        pre.assignment(g, slot, turn) is Some,
        g != group.id@ || !later_week(turn.year, turn.week, this_week(today)),
    ensures
        post.assignment(g, slot, turn) == pre.assignment(g, slot, turn),
{
    let (a, b) = choose|a: State, b: State| #[trigger]
        resets_by(pre, a, b, post, group, today, usual, now);
    let p = not_future_in(group.id@, this_week(today));
    lemma_find_kept(pre.slot_assignments@, p, assignment_of(g, slot, turn));
    lemma_fewer(pre, a, p);
    assert(a.assignment(g, slot, turn) == pre.assignment(g, slot, turn));
    lemma_queue_set(a, b, group.id@, group.member_ids@, now);
    lemma_still_known(a, b, today);
    lemma_known(b, today);
    assert(b.assignment(g, slot, turn) == a.assignment(g, slot, turn));
    crate::course::law_planning_keeps_assignments(b, post, today, usual, now, g, slot, turn);
}

// ── Groups without an interval ───────────────────────────────────────────────

/// A group that is due every so many weeks, unless it has an interval of its own.
pub open spec fn with_interval(g: CleaningGroup, interval_weeks: u32) -> CleaningGroup {
    match g.rhythm.every_weeks {
        Some(_) => g,
        None => CleaningGroup {
            rhythm: Rhythm { every_weeks: Some(interval_weeks), ..g.rhythm },
            ..g
        },
    }
}

/// Gives each group without an interval the given one.
pub fn fill_intervals(state: &mut State, interval_weeks: u32)
    ensures
        *final(state) == (State { cleaning_groups: final(state).cleaning_groups, ..*old(state) }),
        final(state).cleaning_groups@ == old(state).cleaning_groups@.map_values(
            |g: CleaningGroup| with_interval(g, interval_weeks),
        ),
{
    let ghost pre = state.cleaning_groups@;
    let ghost all = pre.map_values(|g: CleaningGroup| with_interval(g, interval_weeks));
    let mut i: usize = 0;
    while i < state.cleaning_groups.len()
        invariant
            i <= state.cleaning_groups@.len(),
            pre == old(state).cleaning_groups@,
            all == pre.map_values(|g: CleaningGroup| with_interval(g, interval_weeks)),
            *state == (State { cleaning_groups: state.cleaning_groups, ..*old(state) }),
            state.cleaning_groups@.len() == pre.len(),
            forall|k: int| 0 <= k < i ==> (#[trigger] state.cleaning_groups@[k]) == all[k],
            forall|k: int|
                i <= k < pre.len() ==> (#[trigger] state.cleaning_groups@[k]) == pre[k],
        decreases state.cleaning_groups@.len() - i,
    {
        if state.cleaning_groups[i].rhythm.every_weeks.is_none() {
            state.cleaning_groups[i].rhythm.every_weeks = Some(interval_weeks);
        }
        i += 1;
    }
    assert(state.cleaning_groups@ =~= all);
}

/// Afterwards every group has an interval, and filling again changes nothing.
pub proof fn law_intervals_are_filled_once(g: CleaningGroup, first: u32, second: u32)
    ensures
        with_interval(g, first).rhythm.every_weeks is Some,
        with_interval(with_interval(g, first), second) == with_interval(g, first),
        g.rhythm.every_weeks is Some ==> with_interval(g, first) == g,
{
}

} // verus!
