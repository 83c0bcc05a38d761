//! What joining, leaving and starting over do to the turns of a group.

use vstd::prelude::*;

use crate::analytics::DomainEvent;
use crate::calendar::{Date, Timestamp};
use crate::commands::base::Request;
use crate::commands::rhythms::{changes_by, rhythm_changed, sets_rhythm};
use crate::course::{
    lemma_plan_events, lemma_ran_planning, lemma_ran_pop, planned_ahead, plans, ran, step,
};
use crate::domain::{AssignmentSource, CleaningGroup, SlotAssignment};
use crate::draw_laws::{
    freezing, has_a_turn, law_a_week_draws_nobody_twice, law_draws_are_of_free_people,
    law_every_slot_ahead_is_planned, lies_ahead, picks_in,
};
use crate::event_laws::{law_assigning_replaces_one_assignment, law_one_group_changes, loses};
use crate::lists::{count, lemma_filter, lemma_some};
use crate::plain::{assigns, is_assigned, places};
use crate::planning::{
    after_last, departed, departs_by, had_turn, horizon_of, known, left, lemma_known,
    member_removed, not_future_in, not_future_of, order_with, queue_set, removes_member, reset,
    resets_by, this_week,
};
use crate::resolver::{carries_out, carries_out_all, events_before, group_plan, turn_order};
use crate::rhythm::Turn;
use crate::state::{assignment_of, group_with_id, State};
use crate::text::says;

verus! {

/// Whether an assignment is of a week after the current one.
pub open spec fn is_ahead(a: SlotAssignment, today: Date) -> bool {
    let now = this_week(today);
    a.iso_year > now.0 || (a.iso_year == now.0 && a.iso_week > now.1)
}

/// Whether an assignment was drawn for a member of a group, or for nobody.
pub open spec fn is_drawn(state: State, a: SlotAssignment) -> bool {
    &&& a.source == AssignmentSource::RoundRobin
    &&& exists|k: int|
        0 <= k < state.cleaning_groups@.len() && (#[trigger] state.cleaning_groups@[k]).id@
            == a.group_id@ && (a.person_id is None || says(
            state.cleaning_groups@[k].member_ids@,
            a.person_id->0@,
        ))
}

/// The assignment that an event makes.
spec fn made_by(e: DomainEvent, a: SlotAssignment) -> bool {
    &&& e is SlotAssigned
    &&& e->SlotAssigned_group_id == a.group_id
    &&& e->SlotAssigned_slot_index == a.slot_index
    &&& e->SlotAssigned_iso_year == a.iso_year
    &&& e->SlotAssigned_iso_week == a.iso_week
    &&& e->SlotAssigned_shift == a.shift
    &&& e->SlotAssigned_person_id == a.person_id
    &&& e->source == a.source
}

/// One planning event makes at most one assignment, and takes away only that of the same slot.
proof fn lemma_step_assignments(pre: State, post: State, e: DomainEvent, now: Timestamp, a: SlotAssignment)
    requires
        step(pre, post, e, now),
        plans(e),
    ensures
        post.slot_assignments@.contains(a) ==> pre.slot_assignments@.contains(a) || made_by(e, a),
        pre.slot_assignments@.contains(a) && !crate::course::freezes_at(
            e,
            a.group_id@,
            a.slot_index as int,
            Turn { year: a.iso_year, week: a.iso_week, shift: a.shift },
        ) ==> post.slot_assignments@.contains(a),
{
    match e {
        DomainEvent::SlotAssigned {
            group_id,
            slot_index,
            iso_year,
            iso_week,
            shift,
            person_id,
            source,
            actor_id,
            previous_person_id,
        } => {
            let b = SlotAssignment {
                group_id,
                slot_index,
                iso_year,
                iso_week,
                shift,
                person_id,
                source,
            };
            law_assigning_replaces_one_assignment(
                pre,
                post,
                b,
                actor_id,
                previous_person_id,
                now,
            );
            let s = pre.slot_assignments@;
            let t = post.slot_assignments@;
            let turn = Turn { year: iso_year, week: iso_week, shift };
            let gone = |x: SlotAssignment| assigns(x, group_id@, slot_index as int, turn);
            let front = t.drop_last();
            if t.contains(a) {
                let i = choose|i: int| 0 <= i < t.len() && t[i] == a;
                if i < front.len() {
                    assert(front[i] == a);
                    assert(s.contains(front[i]));
                }
            }
            if s.contains(a) && !gone(a) {
                let i = choose|i: int| 0 <= i < s.len() && s[i] == a;
                assert(front.contains(s[i]));
                let k = choose|k: int| 0 <= k < front.len() && front[k] == a;
                assert(t[k] == a);
            }
        },
        _ => {},
    }
}

proof fn lemma_ran_assignments(
    pre: State,
    post: State,
    events: Seq<DomainEvent>,
    now: Timestamp,
    a: SlotAssignment,
)
    requires
        ran(pre, post, events, now),
        forall|i: int| 0 <= i < events.len() ==> plans(#[trigger] events[i]),
    ensures
        post.slot_assignments@.contains(a) ==> pre.slot_assignments@.contains(a) || exists|j: int|
            0 <= j < events.len() && made_by(#[trigger] events[j], a),
        pre.slot_assignments@.contains(a) && (forall|j: int|
            0 <= j < events.len() ==> !crate::course::freezes_at(
                #[trigger] events[j],
                a.group_id@,
                a.slot_index as int,
                Turn { year: a.iso_year, week: a.iso_week, shift: a.shift },
            )) ==> post.slot_assignments@.contains(a),
    decreases events.len(),
{
    if events.len() == 0 {
        let h = choose|h: Seq<State>| #[trigger]
            crate::course::history(h, events, now) && h[0] == pre && h.last() == post;
    } else {
        let front = events.drop_last();
        let n = events.len() - 1;
        let mid = lemma_ran_pop(pre, post, events, now);
        assert forall|i: int| 0 <= i < front.len() implies plans(#[trigger] front[i]) by {
            assert(front[i] == events[i]);
        }
        lemma_ran_assignments(pre, mid, front, now, a);
        assert(plans(events[n]));
        lemma_step_assignments(mid, post, events[n], now, a);
        if exists|j: int| 0 <= j < front.len() && made_by(#[trigger] front[j], a) {
            let j = choose|j: int| 0 <= j < front.len() && made_by(#[trigger] front[j], a);
            assert(events[j] == front[j]);
        }
        let turn = Turn { year: a.iso_year, week: a.iso_week, shift: a.shift };
        if forall|j: int|
            0 <= j < events.len() ==> !crate::course::freezes_at(
                #[trigger] events[j],
                a.group_id@,
                a.slot_index as int,
                turn,
            ) {
            assert forall|j: int| 0 <= j < front.len() implies !crate::course::freezes_at(
                #[trigger] front[j],
                a.group_id@,
                a.slot_index as int,
                turn,
            ) by {
                assert(front[j] == events[j]);
            }
        }
    }
}

/// The group whose plan an event belongs to.
proof fn lemma_event_group(state: State, today: Date, cycles: int, i: int, n: int) -> (k: int)
    requires
        0 <= i < events_before(state, today, cycles, n),
        0 <= n,
    ensures
        0 <= k < n,
        events_before(state, today, cycles, k) <= i < events_before(state, today, cycles, k + 1),
    decreases n,
{
    if i >= events_before(state, today, cycles, n - 1) {
        n - 1
    } else {
        lemma_event_group(state, today, cycles, i, n - 1)
    }
}

/// Planning ahead keeps the assignments there are, and adds only such as are drawn for members.
pub proof fn law_planning_assigns_members(
    pre: State,
    post: State,
    today: Date,
    cycles: int,
    now: Timestamp,
    a: SlotAssignment,
)
    requires
        planned_ahead(pre, post, today, cycles, now),
        cycles >= 0,
        today.in_week(),
    ensures
        pre.slot_assignments@.contains(a) ==> post.slot_assignments@.contains(a),
        post.slot_assignments@.contains(a) ==> pre.slot_assignments@.contains(a) || is_drawn(pre, a),
{
    let n = pre.cleaning_groups@.len() as int;
    let events = choose|events: Seq<DomainEvent>| #[trigger]
        carries_out_all(events, pre, today, cycles, n) && ran(pre, post, events, now);
    assert forall|i: int| 0 <= i < events.len() implies plans(#[trigger] events[i]) by {
        lemma_plan_events(pre, events, today, cycles, i);
    }
    lemma_ran_assignments(pre, post, events, now, a);
    let turn = Turn { year: a.iso_year, week: a.iso_week, shift: a.shift };
    if pre.slot_assignments@.contains(a) {
        let s = pre.slot_assignments@;
        let q = assignment_of(a.group_id@, a.slot_index as int, turn);
        let i = choose|i: int| 0 <= i < s.len() && s[i] == a;
        assert(q(s[i]));
        lemma_some(s, q);
        assert(pre.assignment(a.group_id@, a.slot_index as int, turn) is Some);
        assert forall|j: int| 0 <= j < events.len() implies !crate::course::freezes_at(
            #[trigger] events[j],
            a.group_id@,
            a.slot_index as int,
            turn,
        ) by {
            lemma_plan_events(pre, events, today, cycles, j);
        }
    } else if post.slot_assignments@.contains(a) {
        let j = choose|j: int| 0 <= j < events.len() && made_by(#[trigger] events[j], a);
        let k = lemma_event_group(pre, today, cycles, j, n);
        let g = pre.cleaning_groups@[k];
        let from = events_before(pre, today, cycles, k) as int;
        let to = events_before(pre, today, cycles, k + 1) as int;
        crate::resolver::lemma_events_grow(pre, today, cycles, k + 1, n);
        let part = events.subrange(from, to);
        assert(carries_out(part, pre.cleaning_groups@[k].id@, group_plan(pre, g, today, cycles)));
        assert(part[j - from] == events[j]);
        if j - from < freezing(part) {
            law_draws_are_of_free_people(pre, g, today, cycles, part, j - from);
            assert(picks_in(part)[j - from].person == a.person_id);
            assert(pre.cleaning_groups@[k].id@ == a.group_id@);
        } else {
            assert(part.last() == events[j]);
        }
    }
}

/// The part of the events that a group's plan takes.
spec fn part_of(events: Seq<DomainEvent>, state: State, today: Date, cycles: int, k: int) -> Seq<
    DomainEvent,
> {
    events.subrange(
        events_before(state, today, cycles, k) as int,
        events_before(state, today, cycles, k + 1) as int,
    )
}

/// The events of a group's plan among those of all plans.
proof fn lemma_part(events: Seq<DomainEvent>, state: State, today: Date, cycles: int, k: int)
    requires
        carries_out_all(events, state, today, cycles, state.cleaning_groups@.len() as int),
        0 <= k < state.cleaning_groups@.len(),
    ensures
        0 <= events_before(state, today, cycles, k) <= events_before(state, today, cycles, k + 1)
            <= events.len(),
        carries_out(
            part_of(events, state, today, cycles, k),
            state.cleaning_groups@[k].id@,
            group_plan(state, state.cleaning_groups@[k], today, cycles),
        ),
{
    let n = state.cleaning_groups@.len() as int;
    crate::resolver::lemma_events_grow(state, today, cycles, k + 1, n);
    crate::resolver::lemma_events_grow(state, today, cycles, k, k + 1);
    let g = state.cleaning_groups@[k];
}

/// Planning ahead changes no mark and no member.
pub proof fn lemma_planned_keeps(pre: State, post: State, today: Date, cycles: int, now: Timestamp)
    requires
        planned_ahead(pre, post, today, cycles, now),
        cycles >= 0,
        today.in_week(),
    ensures
        post.completions == pre.completions,
        post.persons == pre.persons,
        post.cleaning_groups@.len() == pre.cleaning_groups@.len(),
        forall|i: int|
            0 <= i < pre.cleaning_groups@.len() ==> (#[trigger] post.cleaning_groups@[i]).member_ids
                == pre.cleaning_groups@[i].member_ids,
{
    let events = choose|events: Seq<DomainEvent>| #[trigger]
        carries_out_all(events, pre, today, cycles, pre.cleaning_groups@.len() as int) && ran(
            pre,
            post,
            events,
            now,
        );
    assert forall|i: int| 0 <= i < events.len() implies plans(#[trigger] events[i]) by {
        lemma_plan_events(pre, events, today, cycles, i);
    }
    lemma_ran_planning(pre, post, events, now);
}

/// A slot that is assigned, or that an event assigns, is assigned in the end.
proof fn lemma_ran_assigned(
    pre: State,
    post: State,
    events: Seq<DomainEvent>,
    now: Timestamp,
    group: Seq<char>,
    slot: int,
    turn: Turn,
)
    requires
        ran(pre, post, events, now),
        forall|i: int| 0 <= i < events.len() ==> plans(#[trigger] events[i]),
        is_assigned(pre, group, slot, turn) || exists|j: int|
            0 <= j < events.len() && crate::course::freezes_at(
                #[trigger] events[j],
                group,
                slot,
                turn,
            ),
    ensures
        is_assigned(post, group, slot, turn),
    decreases events.len(),
{
    if events.len() == 0 {
        let h = choose|h: Seq<State>| #[trigger]
            crate::course::history(h, events, now) && h[0] == pre && h.last() == post;
    } else {
        let front = events.drop_last();
        let n = events.len() - 1;
        let e = events[n];
        let mid = lemma_ran_pop(pre, post, events, now);
        assert forall|i: int| 0 <= i < front.len() implies plans(#[trigger] front[i]) by {
            assert(front[i] == events[i]);
        }
        assert(plans(events[n]));
        let t = post.slot_assignments@;
        if crate::course::freezes_at(e, group, slot, turn) {
            assert(assigns(t[t.len() - 1], group, slot, turn));
        } else {
            if !is_assigned(pre, group, slot, turn) {
                let j = choose|j: int|
                    0 <= j < events.len() && crate::course::freezes_at(
                        #[trigger] events[j],
                        group,
                        slot,
                        turn,
                    );
                assert(front[j] == events[j]);
            }
            lemma_ran_assigned(pre, mid, front, now, group, slot, turn);
            let s = mid.slot_assignments@;
            let i = choose|i: int|
                0 <= i < s.len() && assigns(#[trigger] s[i], group, slot, turn);
            assert(s.contains(s[i]));
            lemma_step_assignments(mid, post, e, now, s[i]);
            assert(t.contains(s[i]));
            let k = choose|k: int| 0 <= k < t.len() && t[k] == s[i];
            assert(assigns(t[k], group, slot, turn));
        }
    }
}

/// After planning ahead every slot of every turn of the due weeks ahead is assigned, in every group
/// that has members.
pub proof fn law_planning_fills_every_slot(
    pre: State,
    post: State,
    today: Date,
    cycles: int,
    now: Timestamp,
    k: int,
    turn: Turn,
    slot: int,
)
    requires
        planned_ahead(pre, post, today, cycles, now),
        cycles >= 0,
        today.in_week(),
        0 <= k < pre.cleaning_groups@.len(),
        pre.cleaning_groups@[k].member_ids@.len() > 0,
        lies_ahead(pre, pre.cleaning_groups@[k], today, cycles, turn),
        0 <= slot < places(pre.cleaning_groups@[k]),
    ensures
        is_assigned(post, pre.cleaning_groups@[k].id@, slot, turn),
{
    let n = pre.cleaning_groups@.len() as int;
    let events = choose|events: Seq<DomainEvent>| #[trigger]
        carries_out_all(events, pre, today, cycles, n) && ran(pre, post, events, now);
    assert forall|i: int| 0 <= i < events.len() implies plans(#[trigger] events[i]) by {
        lemma_plan_events(pre, events, today, cycles, i);
    }
    lemma_slot_is_planned(pre, today, cycles, events, k, turn, slot);
    lemma_ran_assigned(pre, post, events, now, pre.cleaning_groups@[k].id@, slot, turn);
}

/// A slot ahead is assigned already, or an event assigns it.
proof fn lemma_slot_is_planned(
    state: State,
    today: Date,
    cycles: int,
    events: Seq<DomainEvent>,
    k: int,
    turn: Turn,
    slot: int,
)
    requires
        carries_out_all(events, state, today, cycles, state.cleaning_groups@.len() as int),
        cycles >= 0,
        today.in_week(),
        0 <= k < state.cleaning_groups@.len(),
        state.cleaning_groups@[k].member_ids@.len() > 0,
        lies_ahead(state, state.cleaning_groups@[k], today, cycles, turn),
        0 <= slot < places(state.cleaning_groups@[k]),
    ensures
        is_assigned(state, state.cleaning_groups@[k].id@, slot, turn) || exists|j: int|
            0 <= j < events.len() && crate::course::freezes_at(
                #[trigger] events[j],
                state.cleaning_groups@[k].id@,
                slot,
                turn,
            ),
{
    let g = state.cleaning_groups@[k];
    lemma_part(events, state, today, cycles, k);
    let from = events_before(state, today, cycles, k) as int;
    let part = part_of(events, state, today, cycles, k);
    law_every_slot_ahead_is_planned(state, g, today, cycles, part, turn, slot);
    if !is_assigned(state, g.id@, slot, turn) {
        let i = choose|i: int|
            0 <= i < freezing(part) && (#[trigger] picks_in(part)[i]).turn == turn && picks_in(
                part,
            )[i].slot == slot;
        law_draws_are_of_free_people(state, g, today, cycles, part, i);
        assert(part[i] == events[from + i]);
        assert(crate::course::freezes_at(events[from + i], g.id@, slot, turn));
    }
}

/// Planning ahead gives nobody two turns of a group in one week: of two assignments of one person in
/// a group and week both were there before.
pub proof fn law_planning_gives_nobody_two_turns_in_a_week(
    pre: State,
    post: State,
    today: Date,
    cycles: int,
    now: Timestamp,
    a: SlotAssignment,
    b: SlotAssignment,
)
    requires
        planned_ahead(pre, post, today, cycles, now),
        cycles >= 0,
        today.in_week(),
        groups_differ(pre),
        post.slot_assignments@.contains(a),
        post.slot_assignments@.contains(b),
        a.group_id@ == b.group_id@,
        a.iso_year == b.iso_year,
        a.iso_week == b.iso_week,
        a.person_id is Some,
        b.person_id is Some,
        a.person_id->0@ == b.person_id->0@,
        a.slot_index != b.slot_index || a.shift != b.shift,
    ensures
        pre.slot_assignments@.contains(a),
        pre.slot_assignments@.contains(b),
{
    if !pre.slot_assignments@.contains(a) {
        lemma_two_turns(pre, post, today, cycles, now, a, b);
    } else if !pre.slot_assignments@.contains(b) {
        lemma_two_turns(pre, post, today, cycles, now, b, a);
    }
}

/// Somebody who is drawn has no other turn of the group in the week.
proof fn lemma_two_turns(
    pre: State,
    post: State,
    today: Date,
    cycles: int,
    now: Timestamp,
    a: SlotAssignment,
    b: SlotAssignment,
)
    requires
        planned_ahead(pre, post, today, cycles, now),
        cycles >= 0,
        today.in_week(),
        groups_differ(pre),
        post.slot_assignments@.contains(a),
        post.slot_assignments@.contains(b),
        !pre.slot_assignments@.contains(a),
        a.group_id@ == b.group_id@,
        a.iso_year == b.iso_year,
        a.iso_week == b.iso_week,
        a.person_id is Some,
        b.person_id is Some,
        a.person_id->0@ == b.person_id->0@,
    ensures
        a.slot_index == b.slot_index && a.shift == b.shift,
{
    let n = pre.cleaning_groups@.len() as int;
    let events = choose|events: Seq<DomainEvent>| #[trigger]
        carries_out_all(events, pre, today, cycles, n) && ran(pre, post, events, now);
    assert forall|i: int| 0 <= i < events.len() implies plans(#[trigger] events[i]) by {
        lemma_plan_events(pre, events, today, cycles, i);
    }
    lemma_ran_assignments(pre, post, events, now, a);
    lemma_ran_assignments(pre, post, events, now, b);
    let i = choose|i: int| 0 <= i < events.len() && made_by(#[trigger] events[i], a);
    let (k, x) = lemma_pick_of(pre, today, cycles, events, i, a);
    let g = pre.cleaning_groups@[k];
    let part = part_of(events, pre, today, cycles, k);
    law_draws_are_of_free_people(pre, g, today, cycles, part, x);
    if pre.slot_assignments@.contains(b) {
        let s = pre.slot_assignments@;
        let q = choose|q: int| 0 <= q < s.len() && s[q] == b;
        assert(s[q].person_id->0@ == a.person_id->0@);
        assert(has_a_turn(pre, g.id@, a.person_id->0@, a.iso_year, a.iso_week));
    } else {
        let j = choose|j: int| 0 <= j < events.len() && made_by(#[trigger] events[j], b);
        let (m, y) = lemma_pick_of(pre, today, cycles, events, j, b);
        if m < k {
            assert(pre.cleaning_groups@[m].id@ != pre.cleaning_groups@[k].id@);
        } else if k < m {
            assert(pre.cleaning_groups@[k].id@ != pre.cleaning_groups@[m].id@);
        }
        if x < y {
            law_a_week_draws_nobody_twice(pre, g, today, cycles, part, x, y);
        } else if y < x {
            law_a_week_draws_nobody_twice(pre, g, today, cycles, part, y, x);
        }
    }
}

/// The pick that made an assignment.
proof fn lemma_pick_of(
    state: State,
    today: Date,
    cycles: int,
    events: Seq<DomainEvent>,
    j: int,
    a: SlotAssignment,
) -> (r: (int, int))
    requires
        carries_out_all(events, state, today, cycles, state.cleaning_groups@.len() as int),
        cycles >= 0,
        today.in_week(),
        0 <= j < events.len(),
        made_by(events[j], a),
    ensures
        0 <= r.0 < state.cleaning_groups@.len(),
        state.cleaning_groups@[r.0].id@ == a.group_id@,
        carries_out(
            part_of(events, state, today, cycles, r.0),
            state.cleaning_groups@[r.0].id@,
            group_plan(state, state.cleaning_groups@[r.0], today, cycles),
        ),
        0 <= r.1 < freezing(part_of(events, state, today, cycles, r.0)),
        ({
            let p = picks_in(part_of(events, state, today, cycles, r.0))[r.1];
            &&& p.turn == (Turn { year: a.iso_year, week: a.iso_week, shift: a.shift })
            &&& p.slot == a.slot_index
            &&& p.person == a.person_id
        }),
{
    let n = state.cleaning_groups@.len() as int;
    let k = lemma_event_group(state, today, cycles, j, n);
    let g = state.cleaning_groups@[k];
    let from = events_before(state, today, cycles, k) as int;
    crate::resolver::lemma_events_grow(state, today, cycles, k + 1, n);
    let part = part_of(events, state, today, cycles, k);
    assert(carries_out(part, state.cleaning_groups@[k].id@, group_plan(state, g, today, cycles)));
    assert(part[j - from] == events[j]);
    if j - from >= freezing(part) {
        assert(part.last() == events[j]);
    }
    law_draws_are_of_free_people(state, g, today, cycles, part, j - from);
    (k, j - from)
}

// ── Leaving ──────────────────────────────────────────────────────────────────

/// Whether no two groups share an id.
pub open spec fn groups_differ(state: State) -> bool {
    forall|i: int, j: int|
        0 <= i < j < state.cleaning_groups@.len() ==> (#[trigger] state.cleaning_groups@[i]).id@ != (
        #[trigger] state.cleaning_groups@[j]).id@
}

/// Setting a turn order leaves assignments and members alone.
proof fn lemma_queue_only(a: State, b: State, id: Seq<char>, queue: Seq<String>, now: Timestamp, k: int)
    requires
        queue_set(a, b, id, queue, now),
        0 <= k < a.cleaning_groups@.len(),
        a.cleaning_groups@[k].id@ == id,
        groups_differ(a),
    ensures
        b.slot_assignments == a.slot_assignments,
        b.cleaning_groups@.len() == a.cleaning_groups@.len(),
        forall|i: int|
            0 <= i < a.cleaning_groups@.len() ==> (#[trigger] b.cleaning_groups@[i]).id@
                == a.cleaning_groups@[i].id@ && b.cleaning_groups@[i].member_ids
                == a.cleaning_groups@[i].member_ids,
{
    let e = choose|e: DomainEvent| #[trigger]
        crate::resolver::stores_queue(e, id, queue) && step(a, b, e, now);
    assert forall|i: int| 0 <= i < k implies (#[trigger] a.cleaning_groups@[i]).id@ != id by {
        assert(a.cleaning_groups@[i].id@ != a.cleaning_groups@[k].id@);
    }
    law_one_group_changes(a, b, e, id, now, k);
    assert forall|i: int| 0 <= i < a.cleaning_groups@.len() implies (
    #[trigger] b.cleaning_groups@[i]).id@ == a.cleaning_groups@[i].id@
        && b.cleaning_groups@[i].member_ids == a.cleaning_groups@[i].member_ids by {
        if i != k {
            assert(b.cleaning_groups@[i] == a.cleaning_groups@[i]);
        }
    }
}

/// Whoever left a group is no member of it and has no turn of it after the current week, by whatever
/// way they had one; the turns up to the current week, those of others and those of other groups
/// stay as they are.
pub proof fn law_whoever_left_has_no_turn_ahead(
    pre: State,
    post: State,
    group: CleaningGroup,
    person_id: Seq<char>,
    today: Date,
    now: Timestamp,
    a: SlotAssignment,
    k: int,
)
    requires
        left(pre, post, group, person_id, today, now),
        known(pre, today),
        groups_differ(pre),
        0 <= k < pre.cleaning_groups@.len(),
        pre.cleaning_groups@[k] == group,
    ensures
        post.cleaning_groups@.len() == pre.cleaning_groups@.len(),
        !says(post.cleaning_groups@[k].member_ids@, person_id),
        post.slot_assignments@.contains(a) && a.group_id@ == group.id@ && is_ahead(a, today)
            ==> !(a.person_id is Some && a.person_id->0@ == person_id),
        pre.slot_assignments@.contains(a) && (a.group_id@ != group.id@ || !is_ahead(a, today) || !(
        a.person_id is Some && a.person_id->0@ == person_id)) ==> post.slot_assignments@.contains(a),
{
    let id = group.id@;
    let mid = choose|mid: State| #[trigger]
        member_removed(pre, mid, id, person_id, now) && departed(
            mid,
            post,
            mid.group(id)->0,
            person_id,
            today,
            now,
        );
    let e = choose|e: DomainEvent| #[trigger]
        removes_member(e, id, person_id) && step(pre, mid, e, now);
    assert forall|i: int| 0 <= i < k implies (#[trigger] pre.cleaning_groups@[i]).id@ != id by {
        assert(pre.cleaning_groups@[i].id@ != pre.cleaning_groups@[k].id@);
    }
    law_one_group_changes(pre, mid, e, id, now, k);
    assert(says(mid.cleaning_groups@[k].member_ids@, person_id) == (says(
        pre.cleaning_groups@[k].member_ids@,
        person_id,
    ) && person_id != person_id));
    assert forall|i: int, j: int| 0 <= i < j < mid.cleaning_groups@.len() implies (
    #[trigger] mid.cleaning_groups@[i]).id@ != (#[trigger] mid.cleaning_groups@[j]).id@ by {
        assert(mid.cleaning_groups@[i].id@ == pre.cleaning_groups@[i].id@);
        assert(mid.cleaning_groups@[j].id@ == pre.cleaning_groups@[j].id@);
        assert(pre.cleaning_groups@[i].id@ != pre.cleaning_groups@[j].id@);
    }
    let q = group_with_id(id);
    assert forall|i: int| 0 <= i < k implies !q(#[trigger] mid.cleaning_groups@[i]) by {
        assert(mid.cleaning_groups@[i].id@ != mid.cleaning_groups@[k].id@);
    }
    crate::lists::lemma_first_index(mid.cleaning_groups@, q, k);
    let g = mid.group(id)->0;
    assert(g == mid.cleaning_groups@[k]);
    let (s, b) = choose|s: State, b: State| #[trigger]
        departs_by(mid, s, b, post, g, person_id, today, now);
    let keep = not_future_of(person_id, id, this_week(today));
    lemma_filter(mid.slot_assignments@, keep);
    lemma_queue_only(s, b, id, crate::resolver::turn_order(s, g), now, k);
    lemma_known(pre, today);
    let cycles = horizon_of(b, b.group(id)->0, today);
    lemma_horizon(b, b.group(id)->0, today);
    law_planning_assigns_members(b, post, today, cycles, now, a);
    let events = choose|events: Seq<DomainEvent>| #[trigger]
        carries_out_all(events, b, today, cycles, b.cleaning_groups@.len() as int) && ran(
            b,
            post,
            events,
            now,
        );
    assert forall|i: int| 0 <= i < events.len() implies plans(#[trigger] events[i]) by {
        lemma_plan_events(b, events, today, cycles, i);
    }
    lemma_ran_planning(b, post, events, now);
    assert(post.cleaning_groups@[k].member_ids == b.cleaning_groups@[k].member_ids);
    if pre.slot_assignments@.contains(a) && (a.group_id@ != id || !is_ahead(a, today) || !(
    a.person_id is Some && a.person_id->0@ == person_id)) {
        let i = choose|i: int| 0 <= i < mid.slot_assignments@.len() && mid.slot_assignments@[i] == a;
        assert(keep(mid.slot_assignments@[i]));
        assert(s.slot_assignments@.contains(a));
    }
    if post.slot_assignments@.contains(a) && a.group_id@ == id && is_ahead(a, today) {
        if b.slot_assignments@.contains(a) {
            let i = choose|i: int| 0 <= i < s.slot_assignments@.len() && s.slot_assignments@[i] == a;
            assert(keep(s.slot_assignments@[i]));
        } else {
            let j = choose|j: int|
                0 <= j < b.cleaning_groups@.len() && (#[trigger] b.cleaning_groups@[j]).id@
                    == a.group_id@ && (a.person_id is None || says(
                    b.cleaning_groups@[j].member_ids@,
                    a.person_id->0@,
                ));
            assert(b.cleaning_groups@[j].id@ == mid.cleaning_groups@[j].id@);
            assert(b.cleaning_groups@[k].id@ == mid.cleaning_groups@[k].id@);
            if j < k {
                assert(mid.cleaning_groups@[j].id@ != mid.cleaning_groups@[k].id@);
            } else if k < j {
                assert(mid.cleaning_groups@[k].id@ != mid.cleaning_groups@[j].id@);
            }
            assert(j == k);
        }
    }
}

pub proof fn lemma_horizon(state: State, group: CleaningGroup, today: Date)
    ensures
        horizon_of(state, group, today) >= 0,
{
    reveal(horizon_of);
    let d = crate::planning::furthest(
        crate::planning::first_due(state, group, today),
        state.slot_assignments@,
        group.id@,
    );
    let n = group.rhythm.interval() as int;
    assert(n >= 1);
    if d >= 0 {
        vstd::arithmetic::div_mod::lemma_div_pos_is_pos(d, n);
    }
}

/// Starting a group over draws all its turns after the current week anew: those that are not drawn
/// are gone; the turns up to the current week and those of other groups stay.
pub proof fn law_starting_over_draws_what_is_ahead(
    pre: State,
    post: State,
    group: CleaningGroup,
    today: Date,
    usual: int,
    now: Timestamp,
    a: SlotAssignment,
    k: int,
)
    requires
        reset(pre, post, group, today, usual, now),
        known(pre, today),
        groups_differ(pre),
        usual >= 0,
        0 <= k < pre.cleaning_groups@.len(),
        pre.cleaning_groups@[k] == group,
    ensures
        post.slot_assignments@.contains(a) && a.group_id@ == group.id@ && is_ahead(a, today)
            ==> a.source == AssignmentSource::RoundRobin && (a.person_id is None || says(
            group.member_ids@,
            a.person_id->0@,
        )),
        pre.slot_assignments@.contains(a) && (a.group_id@ != group.id@ || !is_ahead(a, today))
            ==> post.slot_assignments@.contains(a),
{
    let id = group.id@;
    let (s, b) = choose|s: State, b: State| #[trigger]
        resets_by(pre, s, b, post, group, today, usual, now);
    let keep = not_future_in(id, this_week(today));
    lemma_filter(pre.slot_assignments@, keep);
    lemma_queue_only(s, b, id, group.member_ids@, now, k);
    lemma_known(pre, today);
    law_planning_assigns_members(b, post, today, usual, now, a);
    if pre.slot_assignments@.contains(a) && (a.group_id@ != id || !is_ahead(a, today)) {
        let i = choose|i: int| 0 <= i < pre.slot_assignments@.len() && pre.slot_assignments@[i] == a;
        assert(keep(pre.slot_assignments@[i]));
        assert(s.slot_assignments@.contains(a));
    }
    if post.slot_assignments@.contains(a) && a.group_id@ == id && is_ahead(a, today) {
        if b.slot_assignments@.contains(a) {
            let i = choose|i: int| 0 <= i < s.slot_assignments@.len() && s.slot_assignments@[i] == a;
            assert(keep(s.slot_assignments@[i]));
        } else {
            let j = choose|j: int|
                0 <= j < b.cleaning_groups@.len() && (#[trigger] b.cleaning_groups@[j]).id@
                    == a.group_id@ && (a.person_id is None || says(
                    b.cleaning_groups@[j].member_ids@,
                    a.person_id->0@,
                ));
            assert(b.cleaning_groups@[j].id@ == pre.cleaning_groups@[j].id@);
            if j < k {
                assert(pre.cleaning_groups@[j].id@ != pre.cleaning_groups@[k].id@);
            } else if k < j {
                assert(pre.cleaning_groups@[k].id@ != pre.cleaning_groups@[j].id@);
            }
            assert(j == k);
            assert(b.cleaning_groups@[k].member_ids == pre.cleaning_groups@[k].member_ids);
        }
    }
}

/// Setting a rhythm leaves assignments, marks, ids and members alone.
proof fn lemma_rhythm_only(
    pre: State,
    x: State,
    id: Seq<char>,
    every: Option<u32>,
    starts: Seq<u8>,
    now: Timestamp,
    k: int,
)
    requires
        crate::commands::rhythms::rhythm_set(pre, x, id, every, starts, now),
        0 <= k < pre.cleaning_groups@.len(),
        pre.cleaning_groups@[k].id@ == id,
        groups_differ(pre),
    ensures
        x.slot_assignments == pre.slot_assignments,
        x.completions == pre.completions,
        x.cleaning_groups@.len() == pre.cleaning_groups@.len(),
        groups_differ(x),
        forall|i: int|
            0 <= i < pre.cleaning_groups@.len() ==> (#[trigger] x.cleaning_groups@[i]).id@
                == pre.cleaning_groups@[i].id@ && x.cleaning_groups@[i].member_ids
                == pre.cleaning_groups@[i].member_ids,
{
    let e = choose|e: DomainEvent| #[trigger]
        sets_rhythm(e, id, every, starts) && step(pre, x, e, now);
    assert forall|i: int| 0 <= i < k implies (#[trigger] pre.cleaning_groups@[i]).id@ != id by {
        assert(pre.cleaning_groups@[i].id@ != pre.cleaning_groups@[k].id@);
    }
    law_one_group_changes(pre, x, e, id, now, k);
    assert forall|i: int| 0 <= i < x.cleaning_groups@.len() implies (
    #[trigger] x.cleaning_groups@[i]).id@ == pre.cleaning_groups@[i].id@
        && x.cleaning_groups@[i].member_ids == pre.cleaning_groups@[i].member_ids by {
        if i != k {
            assert(x.cleaning_groups@[i] == pre.cleaning_groups@[i]);
        }
    }
    assert forall|i: int, j: int| 0 <= i < j < x.cleaning_groups@.len() implies (
    #[trigger] x.cleaning_groups@[i]).id@ != (#[trigger] x.cleaning_groups@[j]).id@ by {
        assert(x.cleaning_groups@[i].id@ == pre.cleaning_groups@[i].id@);
        assert(x.cleaning_groups@[j].id@ == pre.cleaning_groups@[j].id@);
        assert(pre.cleaning_groups@[i].id@ != pre.cleaning_groups@[j].id@);
    }
}

/// Another rhythm draws all turns of a group after the current week anew, and only those: what is
/// ahead of it is drawn for members, the turns up to the current week and those of other groups
/// stay, and so do all marks.
pub proof fn law_a_new_rhythm_draws_what_is_ahead(
    pre: State,
    post: State,
    every: Option<u32>,
    starts: Seq<u8>,
    req: Request,
    a: SlotAssignment,
    k: int,
)
    requires
        rhythm_changed(pre, post, pre.cleaning_groups@[k].id@, every, starts, req),
        known(pre, req.today),
        groups_differ(pre),
        0 <= k < pre.cleaning_groups@.len(),
    ensures
        post.slot_assignments@.contains(a) && a.group_id@ == pre.cleaning_groups@[k].id@ && is_ahead(
            a,
            req.today,
        ) ==> a.source == AssignmentSource::RoundRobin && (a.person_id is None || says(
            pre.cleaning_groups@[k].member_ids@,
            a.person_id->0@,
        )),
        pre.slot_assignments@.contains(a) && (a.group_id@ != pre.cleaning_groups@[k].id@
            || !is_ahead(a, req.today)) ==> post.slot_assignments@.contains(a),
        post.completions == pre.completions,
{
    let today = req.today;
    let id = pre.cleaning_groups@[k].id@;
    let (x, s, b) = choose|x: State, s: State, b: State| #[trigger]
        changes_by(pre, x, s, b, post, id, every, starts, req);
    lemma_rhythm_only(pre, x, id, every, starts, req.now, k);
    assert(groups_differ(s));
    let keep = not_future_in(id, this_week(today));
    lemma_filter(x.slot_assignments@, keep);
    lemma_queue_only(
        s,
        b,
        id,
        crate::resolver::rewound(
            turn_order(x, x.group(id)->0),
            x.slot_assignments@.filter(
                crate::commands::rhythms::future_in(id, this_week(today)),
            ),
        ),
        req.now,
        k,
    );
    lemma_known(pre, today);
    law_planning_assigns_members(b, post, today, req.usual as int, req.now, a);
    lemma_planned_keeps(b, post, today, req.usual as int, req.now);
    if pre.slot_assignments@.contains(a) && (a.group_id@ != id || !is_ahead(a, today)) {
        let i = choose|i: int| 0 <= i < x.slot_assignments@.len() && x.slot_assignments@[i] == a;
        assert(keep(x.slot_assignments@[i]));
        assert(s.slot_assignments@.contains(a));
    }
    if post.slot_assignments@.contains(a) && a.group_id@ == id && is_ahead(a, today) {
        if b.slot_assignments@.contains(a) {
            let i = choose|i: int| 0 <= i < s.slot_assignments@.len() && s.slot_assignments@[i] == a;
            assert(keep(s.slot_assignments@[i]));
        } else {
            let j = choose|j: int|
                0 <= j < b.cleaning_groups@.len() && (#[trigger] b.cleaning_groups@[j]).id@
                    == a.group_id@ && (a.person_id is None || says(
                    b.cleaning_groups@[j].member_ids@,
                    a.person_id->0@,
                ));
            assert(b.cleaning_groups@[j].id@ == x.cleaning_groups@[j].id@);
            assert(x.cleaning_groups@[j].id@ == pre.cleaning_groups@[j].id@);
            if j < k {
                assert(pre.cleaning_groups@[j].id@ != pre.cleaning_groups@[k].id@);
            } else if k < j {
                assert(pre.cleaning_groups@[k].id@ != pre.cleaning_groups@[j].id@);
            }
            assert(j == k);
            assert(b.cleaning_groups@[k].member_ids == x.cleaning_groups@[k].member_ids);
        }
    }
}

// ── Turn orders ──────────────────────────────────────────────────────────────

/// Whether somebody had a turn of a group.
pub open spec fn has_had_turn(state: State, group_id: Seq<char>, person: Seq<char>) -> bool {
    exists|i: int|
        0 <= i < state.slot_assignments@.len() && (#[trigger] state.slot_assignments@[i]).group_id@
            == group_id && state.slot_assignments@[i].person_id is Some
            && state.slot_assignments@[i].person_id->0@ == person
}

/// Where nobody in the stored turn order is a member any more, the order starts where the members'
/// order has come to: as many places on as there are assignments of the group to somebody.
pub proof fn law_order_without_a_queue_goes_on_among_the_members(
    state: State,
    group: CleaningGroup,
    i: int,
)
    requires
        0 <= i < group.member_ids@.len(),
        forall|k: int|
            0 <= k < group.rotation_queue@.len() ==> !says(
                group.member_ids@,
                (#[trigger] group.rotation_queue@[k])@,
            ),
    ensures
        turn_order(state, group).len() == group.member_ids@.len(),
        turn_order(state, group)[i] == group.member_ids@[(i + count(
            state.slot_assignments@,
            |a: SlotAssignment| a.group_id@ == group.id@ && a.person_id is Some,
        )) % (group.member_ids@.len() as int)],
{
    let ids = group.member_ids@;
    let n = ids.len() as int;
    let p = crate::resolver::among(ids);
    let kept = group.rotation_queue@.filter(p);
    lemma_filter(group.rotation_queue@, p);
    if kept.len() > 0 {
        assert(p(kept[0]) && group.rotation_queue@.contains(kept[0]));
        let k = choose|k: int|
            0 <= k < group.rotation_queue@.len() && group.rotation_queue@[k] == kept[0];
        assert(!says(ids, group.rotation_queue@[k]@));
    }
    let q = crate::resolver::assigned_in(group.id@);
    assert(q =~= (|a: SlotAssignment| a.group_id@ == group.id@ && a.person_id is Some));
    let c = count(state.slot_assignments@, q) as int;
    let m = c % n;
    vstd::arithmetic::div_mod::lemma_mod_bound(c, n);
    let order = crate::resolver::rotated(ids, m);
    assert(order == turn_order(state, group));
    vstd::arithmetic::div_mod::lemma_add_mod_noop_right(i, c, n);
    assert((i + c) % n == (i + m) % n);
    if i < n - m {
        vstd::arithmetic::div_mod::lemma_small_mod((i + m) as nat, n as nat);
        assert(order[i] == ids[i + m]);
    } else {
        vstd::arithmetic::div_mod::lemma_mod_add_multiples_vanish(i + m - n, n);
        vstd::arithmetic::div_mod::lemma_small_mod((i + m - n) as nat, n as nat);
        assert(order[i] == ids[i + m - n]);
    }
}

/// Whoever joins a group takes the place right behind the last one in the order who had no turn yet:
/// everybody behind them had one, and the others keep their order.
pub proof fn law_newcomers_stand_behind_who_had_no_turn(
    state: State,
    group: CleaningGroup,
    person: String,
) -> (at: int)
    ensures
        0 <= at < order_with(state, group, person).len(),
        order_with(state, group, person)[at] == person,
        at > 0 ==> !has_had_turn(
            state,
            group.id@,
            order_with(state, group, person)[at - 1]@,
        ),
        forall|i: int|
            at < i < order_with(state, group, person).len() ==> has_had_turn(
                state,
                group.id@,
                (#[trigger] order_with(state, group, person)[i])@,
            ),
        loses(
            turn_order(state, group),
            order_with(state, group, person).remove(at),
            |id: String| id@ == person@,
        ),
{
    let keep = crate::journal::other_id(person@);
    let queue = turn_order(state, group).filter(keep);
    let p = had_turn(state, group.id@);
    let at = after_last(queue, p);
    let order = order_with(state, group, person);
    lemma_after(queue, p);
    assert forall|x: String| #[trigger] p(x) == has_had_turn(state, group.id@, x@) by {
        let s = state.slot_assignments@;
        let q = crate::planning::turn_for(group.id@, x@);
        lemma_some(s, q);
        assert forall|k: int| 0 <= k < s.len() implies q(#[trigger] s[k]) == (s[k].group_id@
            == group.id@ && s[k].person_id is Some && s[k].person_id->0@ == x@) by {}
    }
    if at > 0 {
        assert(order[at - 1] == queue[at - 1]);
        assert(!p(queue[at - 1]));
    }
    assert forall|i: int| at < i < order.len() implies has_had_turn(
        state,
        group.id@,
        (#[trigger] order[i])@,
    ) by {
        assert(order[i] == queue[i - 1]);
        assert(p(queue[i - 1]));
    }
    assert(order.remove(at) =~= queue);
    crate::event_laws::lemma_loses(
        turn_order(state, group),
        keep,
        |id: String| id@ == person@,
    );
    at
}

proof fn lemma_after(s: Seq<String>, p: spec_fn(String) -> bool)
    ensures
        0 <= after_last(s, p) <= s.len(),
        after_last(s, p) > 0 ==> !p(s[after_last(s, p) - 1]),
        forall|i: int| after_last(s, p) <= i < s.len() ==> p(#[trigger] s[i]),
    decreases s.len(),
{
    if s.len() > 0 && p(s.last()) {
        let u = s.drop_last();
        lemma_after(u, p);
        let at = after_last(s, p);
        if at > 0 {
            assert(u[at - 1] == s[at - 1]);
        }
        assert forall|i: int| at <= i < s.len() implies p(#[trigger] s[i]) by {
            if i < u.len() {
                assert(u[i] == s[i]);
            }
        }
    }
}

} // verus!
