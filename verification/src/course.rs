//! Events one after another, and what planning leaves alone.

use vstd::prelude::*;

use crate::analytics::{turn_of, DomainEvent};
use crate::calendar::{Date, Timestamp};
use crate::domain::{CleaningGroup, GroupId, SlotAssignment};
use crate::journal::{assignment_beside, effect, logged, only_completions, refusal, StateError};
use crate::lists::{
    first_index, lemma_filter, lemma_find_kept, lemma_find_push, lemma_first_index,
    lemma_first_index_is, some,
};
use crate::resolver::{
    carries_out, carries_out_all, event_count, events_before, freezes, frozen, group_plan,
    plan_for, stores_queue,
};
use crate::rhythm::Turn;
use crate::rotation::lemma_picks;
use crate::state::{assignment_of, completion_of, group_with_id, State};

verus! {

/// Whether a state became another by an event.
pub open spec fn step(pre: State, post: State, e: DomainEvent, now: Timestamp) -> bool {
    &&& refusal(pre, e) is None
    &&& logged(pre, post, e, now)
    &&& effect(pre, post, e, now)
}

/// Whether states follow each other by events.
pub open spec fn history(h: Seq<State>, events: Seq<DomainEvent>, now: Timestamp) -> bool {
    &&& h.len() == events.len() + 1
    &&& forall|i: int| 0 <= i < events.len() ==> step(h[i], h[i + 1], #[trigger] events[i], now)
}

/// Whether a state became another by events, one after another.
pub open spec fn ran(pre: State, post: State, events: Seq<DomainEvent>, now: Timestamp) -> bool {
    exists|h: Seq<State>| #[trigger] history(h, events, now) && h[0] == pre && h.last() == post
}

/// No events change nothing.
pub proof fn lemma_ran_nothing(state: State, now: Timestamp)
    ensures
        ran(state, state, Seq::empty(), now),
{
    assert(history(seq![state], Seq::<DomainEvent>::empty(), now));
}

/// One more event.
pub proof fn lemma_ran_push(
    pre: State,
    mid: State,
    post: State,
    events: Seq<DomainEvent>,
    e: DomainEvent,
    now: Timestamp,
)
    requires
        ran(pre, mid, events, now),
        step(mid, post, e, now),
    ensures
        ran(pre, post, events.push(e), now),
{
    let h = choose|h: Seq<State>| #[trigger]
        history(h, events, now) && h[0] == pre && h.last() == mid;
    let g = h.push(post);
    let es = events.push(e);
    assert forall|i: int| 0 <= i < es.len() implies step(g[i], g[i + 1], #[trigger] es[i], now) by {
        if i < events.len() {
            assert(es[i] == events[i]);
            assert(step(h[i], h[i + 1], events[i], now));
        }
    }
    assert(history(g, es, now));
}

/// The last event, and the state before it.
pub proof fn lemma_ran_pop(pre: State, post: State, events: Seq<DomainEvent>, now: Timestamp) -> (mid:
    State)
    requires
        ran(pre, post, events, now),
        events.len() > 0,
    ensures
        ran(pre, mid, events.drop_last(), now),
        step(mid, post, events.last(), now),
{
    let h = choose|h: Seq<State>| #[trigger]
        history(h, events, now) && h[0] == pre && h.last() == post;
    let g = h.drop_last();
    let es = events.drop_last();
    assert forall|i: int| 0 <= i < es.len() implies step(g[i], g[i + 1], #[trigger] es[i], now) by {
        assert(es[i] == events[i]);
        assert(step(h[i], h[i + 1], events[i], now));
    }
    assert(history(g, es, now));
    assert(step(h[events.len() - 1], h[events.len() as int], events[events.len() - 1], now));
    g.last()
}

/// Whether an event plans: it freezes a turn or stores a turn order.
pub open spec fn plans(e: DomainEvent) -> bool {
    e is SlotAssigned || e is RotationQueueSet
}

/// The group that a planning event is about.
pub open spec fn planned_group(e: DomainEvent) -> Seq<char> {
    match e {
        DomainEvent::SlotAssigned {
            group_id,
            slot_index,
            iso_year,
            iso_week,
            shift,
            person_id,
            source,
            actor_id,
            previous_person_id,
        } => group_id@,
        DomainEvent::RotationQueueSet { group_id, queue } => group_id@,
        _ => Seq::empty(),
    }
}

/// Whether an event freezes one slot of a turn.
pub open spec fn freezes_at(e: DomainEvent, group: Seq<char>, slot: int, turn: Turn) -> bool {
    match e {
        DomainEvent::SlotAssigned {
            group_id,
            slot_index,
            iso_year,
            iso_week,
            shift,
            person_id,
            source,
            actor_id,
            previous_person_id,
        } => group_id@ == group && slot_index == slot && iso_year == turn.year && iso_week
            == turn.week && shift == turn.shift,
        _ => false,
    }
}

/// Whether two states differ by nothing but assignments, turn orders and the log.
pub open spec fn only_plan(pre: State, post: State) -> bool {
    &&& post == (State {
        cleaning_groups: post.cleaning_groups,
        slot_assignments: post.slot_assignments,
        event_log: post.event_log,
        last_modified: post.last_modified,
        ..pre
    })
    &&& post.cleaning_groups@.len() == pre.cleaning_groups@.len()
    &&& forall|k: int|
        0 <= k < post.cleaning_groups@.len() ==> #[trigger] post.cleaning_groups@[k] == (
        CleaningGroup {
            rotation_queue: post.cleaning_groups@[k].rotation_queue,
            ..pre.cleaning_groups@[k]
        })
}

/// The groups are found at the same places.
pub proof fn lemma_only_plan(pre: State, post: State, id: Seq<char>)
    requires
        only_plan(pre, post),
    ensures
        first_index(post.cleaning_groups@, group_with_id(id)) == first_index(
            pre.cleaning_groups@,
            group_with_id(id),
        ),
        (post.group(id) is Some) == (pre.group(id) is Some),
        post.group(id) is Some ==> post.group(id)->0 == (CleaningGroup {
            rotation_queue: post.group(id)->0.rotation_queue,
            ..pre.group(id)->0
        }),
        pre.wf() ==> post.wf(),
{
    let p = group_with_id(id);
    let a = pre.cleaning_groups@;
    let b = post.cleaning_groups@;
    lemma_first_index_is(a, p);
    let i = first_index(a, p);
    assert forall|k: int| 0 <= k < i implies !p(#[trigger] b[k]) by {
        assert(!p(a[k]));
    }
    lemma_first_index(b, p, i);
}

/// What a planning event changes.
pub proof fn lemma_planning_step(pre: State, post: State, e: DomainEvent, now: Timestamp)
    requires
        step(pre, post, e, now),
        plans(e),
    ensures
        only_plan(pre, post),
{
    crate::lists::lemma_first_index_is(pre.cleaning_groups@, group_with_id(planned_group(e)));
}

/// Changes of plans add up.
pub proof fn lemma_only_plan_chain(a: State, b: State, c: State)
    requires
        only_plan(a, b),
        only_plan(b, c),
    ensures
        only_plan(a, c),
{
    assert forall|k: int| 0 <= k < c.cleaning_groups@.len() implies #[trigger] c.cleaning_groups@[k]
        == (CleaningGroup {
        rotation_queue: c.cleaning_groups@[k].rotation_queue,
        ..a.cleaning_groups@[k]
    }) by {
        assert(b.cleaning_groups@[k] == (CleaningGroup {
            rotation_queue: b.cleaning_groups@[k].rotation_queue,
            ..a.cleaning_groups@[k]
        }));
    }
}

/// An event that freezes something else leaves an assignment as it is.
proof fn lemma_other_assignment(
    pre: State,
    post: State,
    e: DomainEvent,
    now: Timestamp,
    group: Seq<char>,
    slot: int,
    turn: Turn,
)
    requires
        step(pre, post, e, now),
        plans(e),
        !freezes_at(e, group, slot, turn),
    ensures
        post.assignment(group, slot, turn) == pre.assignment(group, slot, turn),
{
    let p = assignment_of(group, slot, turn);
    let a = pre.slot_assignments@;
    match e {
        DomainEvent::SlotAssigned {
            group_id,
            slot_index,
            iso_year,
            iso_week,
            shift,
            person_id,
            source,
            actor_id,
            previous_person_id,
        } => {
            let t = Turn { year: iso_year, week: iso_week, shift };
            let q = assignment_beside(group_id@, slot_index as int, t);
            lemma_find_kept(a, q, p);
            lemma_find_push(a.filter(q), post.slot_assignments@.last(), p);
            assert(post.slot_assignments@ =~= a.filter(q).push(post.slot_assignments@.last()));
        },
        _ => {},
    }
}

/// Planning events leave an assignment as it is unless one of them freezes just it.
pub proof fn lemma_ran_planning(pre: State, post: State, events: Seq<DomainEvent>, now: Timestamp)
    requires
        ran(pre, post, events, now),
        forall|i: int| 0 <= i < events.len() ==> plans(#[trigger] events[i]),
    ensures
        only_plan(pre, post),
        forall|group: Seq<char>, slot: int, turn: Turn|
            (forall|i: int|
                0 <= i < events.len() ==> !freezes_at(#[trigger] events[i], group, slot, turn))
                ==> #[trigger] post.assignment(group, slot, turn) == pre.assignment(
                group,
                slot,
                turn,
            ),
    decreases events.len(),
{
    if events.len() == 0 {
        let h = choose|h: Seq<State>| #[trigger]
            history(h, events, now) && h[0] == pre && h.last() == post;
    } else {
        let front = events.drop_last();
        let mid = lemma_ran_pop(pre, post, events, now);
        assert forall|i: int| 0 <= i < front.len() implies plans(#[trigger] front[i]) by {
            assert(front[i] == events[i]);
        }
        lemma_ran_planning(pre, mid, front, now);
        lemma_planning_step(mid, post, events.last(), now);
        lemma_only_plan_chain(pre, mid, post);
        assert forall|group: Seq<char>, slot: int, turn: Turn|
            (forall|i: int|
                0 <= i < events.len() ==> !freezes_at(
                    #[trigger] events[i],
                    group,
                    slot,
                    turn,
                )) implies #[trigger] post.assignment(group, slot, turn) == pre.assignment(
            group,
            slot,
            turn,
        ) by {
            assert forall|i: int| 0 <= i < front.len() implies !freezes_at(
                #[trigger] front[i],
                group,
                slot,
                turn,
            ) by {
                assert(front[i] == events[i]);
            }
            assert(!freezes_at(events[events.len() - 1], group, slot, turn));
            lemma_other_assignment(mid, post, events.last(), now, group, slot, turn);
        }
    }
}

impl State {
    /// Applies planning events about groups of the state, one after another.
    pub fn apply_plan(&mut self, events: Vec<DomainEvent>, now: Timestamp) -> (r: Result<
        (),
        StateError,
    >)
        requires
            forall|i: int|
                0 <= i < events@.len() ==> plans(#[trigger] events@[i]) && old(self).group(
                    planned_group(events@[i]),
                ) is Some,
        ensures
            r is Ok,
            ran(*old(self), *final(self), events@, now),
            only_plan(*old(self), *final(self)),
    {
        let ghost all = events@;
        let mut events = events;
        let ghost mut n: int = 0;
        proof {
            assert(all.take(0) =~= Seq::<DomainEvent>::empty());
            assert(all.skip(0) =~= all);
            lemma_ran_nothing(*self, now);
        }
        while events.len() > 0
            invariant
                0 <= n <= all.len(),
                events@ == all.skip(n),
                forall|i: int|
                    0 <= i < all.len() ==> plans(#[trigger] all[i]) && old(self).group(
                        planned_group(all[i]),
                    ) is Some,
                ran(*old(self), *self, all.take(n), now),
                only_plan(*old(self), *self),
            decreases events@.len(),
        {
            let e = events.remove(0);
            let ghost mid = *self;
            proof {
                assert(e == all[n]);
                assert(plans(all[n]));
                lemma_only_plan(*old(self), *self, planned_group(e));
                assert(refusal(*self, e) is None);
            }
            let done = self.apply_event_at(e, now);
            proof {
                assert(done is Ok);
                lemma_planning_step(mid, *self, e, now);
                lemma_only_plan_chain(*old(self), mid, *self);
                lemma_ran_push(*old(self), mid, *self, all.take(n), e, now);
                assert(all.take(n + 1) =~= all.take(n).push(e));
                n = n + 1;
                assert(events@ =~= all.skip(n));
            }
        }
        assert(all.take(n) =~= all);
        Ok(())
    }
}

/// Whether an event changes marks, of a group that there is where it needs one.
pub open spec fn marks_only(state: State, e: DomainEvent) -> bool {
    (e is CleaningCompleted || e is CleaningSkipped || e is CleaningUndone) && refusal(state, e) is None
}

impl State {
    /// Applies events that change marks, one after another.
    pub fn apply_marks(&mut self, events: Vec<DomainEvent>, now: Timestamp) -> (r: Result<
        (),
        StateError,
    >)
        requires
            forall|i: int| 0 <= i < events@.len() ==> marks_only(*old(self), #[trigger] events@[i]),
        ensures
            r is Ok,
            ran(*old(self), *final(self), events@, now),
            only_completions(*old(self), *final(self)),
    {
        let ghost all = events@;
        let mut events = events;
        let ghost mut n: int = 0;
        proof {
            assert(all.take(0) =~= Seq::<DomainEvent>::empty());
            assert(all.skip(0) =~= all);
            lemma_ran_nothing(*self, now);
        }
        while events.len() > 0
            invariant
                0 <= n <= all.len(),
                events@ == all.skip(n),
                forall|i: int| 0 <= i < all.len() ==> marks_only(*old(self), #[trigger] all[i]),
                ran(*old(self), *self, all.take(n), now),
                only_completions(*old(self), *self),
            decreases events@.len(),
        {
            let e = events.remove(0);
            let ghost mid = *self;
            proof {
                assert(e == all[n]);
                assert(marks_only(*old(self), all[n]));
                assert(refusal(*self, e) is None);
            }
            let done = self.apply_event_at(e, now);
            proof {
                assert(done is Ok);
                lemma_ran_push(*old(self), mid, *self, all.take(n), e, now);
                assert(all.take(n + 1) =~= all.take(n).push(e));
                n = n + 1;
                assert(events@ =~= all.skip(n));
            }
        }
        assert(all.take(n) =~= all);
        Ok(())
    }
}

impl State {
    /// Applies events that record absences, one after another.
    pub fn apply_absences(&mut self, events: Vec<DomainEvent>, now: Timestamp) -> (r: Result<
        (),
        StateError,
    >)
        requires
            forall|i: int| 0 <= i < events@.len() ==> #[trigger] events@[i] is AbsenceRecorded,
        ensures
            r is Ok,
            ran(*old(self), *final(self), events@, now),
    {
        let ghost all = events@;
        let mut events = events;
        let ghost mut n: int = 0;
        proof {
            assert(all.take(0) =~= Seq::<DomainEvent>::empty());
            assert(all.skip(0) =~= all);
            lemma_ran_nothing(*self, now);
        }
        while events.len() > 0
            invariant
                0 <= n <= all.len(),
                events@ == all.skip(n),
                forall|i: int| 0 <= i < all.len() ==> #[trigger] all[i] is AbsenceRecorded,
                ran(*old(self), *self, all.take(n), now),
            decreases events@.len(),
        {
            let e = events.remove(0);
            let ghost mid = *self;
            proof {
                assert(e == all[n]);
                assert(refusal(*self, e) is None);
            }
            let done = self.apply_event_at(e, now);
            proof {
                assert(done is Ok);
                lemma_ran_push(*old(self), mid, *self, all.take(n), e, now);
                assert(all.take(n + 1) =~= all.take(n).push(e));
                n = n + 1;
                assert(events@ =~= all.skip(n));
            }
        }
        assert(all.take(n) =~= all);
        Ok(())
    }
}

/// An event of a plan of a group is a planning event about that group, for a turn that can be
/// represented and was not frozen.
pub proof fn lemma_plan_event(
    state: State,
    g: CleaningGroup,
    part: Seq<DomainEvent>,
    today: Date,
    cycles: int,
    i: int,
)
    requires
        carries_out(part, g.id@, group_plan(state, g, today, cycles)),
        0 <= i < part.len(),
        cycles >= 0,
        today.in_week(),
    ensures
        plans(part[i]),
        planned_group(part[i]) == g.id@,
        forall|group: Seq<char>, slot: int, turn: Turn| #[trigger]
            freezes_at(part[i], group, slot, turn) ==> state.assignment(group, slot, turn) is None
                && turn.wf(),
{
    let plan = group_plan(state, g, today, cycles);
    if i < plan.picks.len() {
        let pick = plan.picks[i];
        assert(freezes(part[i], g.id@, pick));
        lemma_picks(state, g, today, cycles as nat);
        assert(plan == plan_for(state, g, today, cycles as nat) || plan.picks.len() == 0);
        assert(pick.turn.wf() && !frozen(state, g, pick.slot, pick.turn));
    } else {
        assert(part.last() == part[i]);
        assert(stores_queue(part.last(), g.id@, plan.queue));
    }
}

/// The events of a plan are planning events about groups of the state, for turns that can be
/// represented and were not frozen.
pub proof fn lemma_plan_events(state: State, events: Seq<DomainEvent>, today: Date, cycles: int, i: int)
    requires
        carries_out_all(events, state, today, cycles, state.cleaning_groups@.len() as int),
        0 <= i < events.len(),
        cycles >= 0,
        today.in_week(),
    ensures
        plans(events[i]),
        state.group(planned_group(events[i])) is Some,
        forall|group: Seq<char>, slot: int, turn: Turn| #[trigger]
            freezes_at(events[i], group, slot, turn) ==> state.assignment(group, slot, turn) is None
                && turn.wf(),
{
    let n = state.cleaning_groups@.len() as int;
    let k = lemma_event_place(state, today, cycles, i, n);
    let g = state.cleaning_groups@[k];
    let from = events_before(state, today, cycles, k) as int;
    let to = events_before(state, today, cycles, k + 1) as int;
    crate::resolver::lemma_events_grow(state, today, cycles, k + 1, n);
    let part = events.subrange(from, to);
    assert(part[i - from] == events[i]);
    lemma_plan_event(state, g, part, today, cycles, i - from);
    assert(group_with_id(g.id@)(g));
    crate::lists::lemma_some(state.cleaning_groups@, group_with_id(g.id@));
}

/// The group whose plan an event belongs to.
proof fn lemma_event_place(state: State, today: Date, cycles: int, i: int, n: int) -> (k: int)
    requires
        0 <= i < events_before(state, today, cycles, n),
        0 <= n <= state.cleaning_groups@.len(),
    ensures
        0 <= k < n,
        events_before(state, today, cycles, k) <= i < events_before(state, today, cycles, k + 1),
    decreases n,
{
    if i >= events_before(state, today, cycles, n - 1) {
        n - 1
    } else {
        lemma_event_place(state, today, cycles, i, n - 1)
    }
}

/// Whether a state became another by planning some due weeks of every group ahead.
pub open spec fn planned_ahead(pre: State, post: State, today: Date, cycles: int, now: Timestamp) -> bool {
    exists|events: Seq<DomainEvent>| #[trigger]
        carries_out_all(events, pre, today, cycles, pre.cleaning_groups@.len() as int) && ran(
            pre,
            post,
            events,
            now,
        )
}

/// Planning ahead never changes who is assigned already.
pub proof fn law_planning_keeps_assignments(
    pre: State,
    post: State,
    today: Date,
    cycles: int,
    now: Timestamp,
    group: Seq<char>,
    slot: int,
    turn: Turn,
)
    requires
        planned_ahead(pre, post, today, cycles, now),
        cycles >= 0,
        today.in_week(),
        pre.assignment(group, slot, turn) is Some,
    ensures
        post.assignment(group, slot, turn) == pre.assignment(group, slot, turn),
{
    let events = choose|events: Seq<DomainEvent>| #[trigger]
        carries_out_all(events, pre, today, cycles, pre.cleaning_groups@.len() as int) && ran(
            pre,
            post,
            events,
            now,
        );
    assert forall|i: int| 0 <= i < events.len() implies plans(#[trigger] events[i]) && !freezes_at(
        events[i],
        group,
        slot,
        turn,
    ) by {
        lemma_plan_events(pre, events, today, cycles, i);
    }
    lemma_ran_planning(pre, post, events, now);
}

/// A planning event takes no assignment away, and the turn that it freezes has one.
proof fn lemma_step_assigns(
    pre: State,
    post: State,
    e: DomainEvent,
    now: Timestamp,
    group: Seq<char>,
    slot: int,
    turn: Turn,
)
    requires
        step(pre, post, e, now),
        plans(e),
        freezes_at(e, group, slot, turn) || pre.assignment(group, slot, turn) is Some,
    ensures
        post.assignment(group, slot, turn) is Some,
{
    let p = assignment_of(group, slot, turn);
    if !freezes_at(e, group, slot, turn) {
        lemma_other_assignment(pre, post, e, now, group, slot, turn);
    } else {
        let b = post.slot_assignments@;
        assert(p(b[b.len() - 1]));
        crate::lists::lemma_some(b, p);
    }
}

/// Whatever planning events freeze is assigned after them.
pub proof fn lemma_ran_assigns(
    pre: State,
    post: State,
    events: Seq<DomainEvent>,
    now: Timestamp,
    group: Seq<char>,
    slot: int,
    turn: Turn,
)
    requires
        ran(pre, post, events, now),
        forall|i: int| 0 <= i < events.len() ==> plans(#[trigger] events[i]),
        pre.assignment(group, slot, turn) is Some || exists|i: int|
            0 <= i < events.len() && freezes_at(#[trigger] events[i], group, slot, turn),
    ensures
        post.assignment(group, slot, turn) is Some,
    decreases events.len(),
{
    if events.len() == 0 {
        let h = choose|h: Seq<State>| #[trigger]
            history(h, events, now) && h[0] == pre && h.last() == post;
    } else {
        let front = events.drop_last();
        let mid = lemma_ran_pop(pre, post, events, now);
        assert forall|i: int| 0 <= i < front.len() implies plans(#[trigger] front[i]) by {
            assert(front[i] == events[i]);
        }
        assert(plans(events[events.len() - 1]));
        if !freezes_at(events.last(), group, slot, turn) {
            if !(pre.assignment(group, slot, turn) is Some) {
                let i = choose|i: int|
                    0 <= i < events.len() && freezes_at(#[trigger] events[i], group, slot, turn);
                assert(freezes_at(front[i], group, slot, turn));
            }
            lemma_ran_assigns(pre, mid, front, now, group, slot, turn);
        }
        lemma_step_assigns(mid, post, events.last(), now, group, slot, turn);
    }
}

/// A turn that was frozen before planning, or that the plan of its group draws, is frozen after.
proof fn lemma_plan_freezes(
    pre: State,
    post: State,
    events: Seq<DomainEvent>,
    today: Date,
    cycles: int,
    now: Timestamp,
    k: int,
    slot: int,
    turn: Turn,
)
    requires
        carries_out_all(events, pre, today, cycles, pre.cleaning_groups@.len() as int),
        ran(pre, post, events, now),
        cycles >= 0,
        forall|i: int| 0 <= i < events.len() ==> plans(#[trigger] events[i]),
        0 <= k < pre.cleaning_groups@.len(),
        frozen(pre, pre.cleaning_groups@[k], slot, turn) || crate::rotation::planned(
            group_plan(pre, pre.cleaning_groups@[k], today, cycles),
            slot,
            turn,
        ),
    ensures
        post.assignment(pre.cleaning_groups@[k].id@, slot, turn) is Some,
{
    let n = pre.cleaning_groups@.len() as int;
    let g = pre.cleaning_groups@[k];
    let plan = group_plan(pre, g, today, cycles);
    if !frozen(pre, g, slot, turn) {
        let from = events_before(pre, today, cycles, k) as int;
        let to = events_before(pre, today, cycles, k + 1) as int;
        crate::resolver::lemma_events_grow(pre, today, cycles, k + 1, n);
        let part = events.subrange(from, to);
        assert(carries_out(part, pre.cleaning_groups@[k].id@, plan));
        let i = choose|i: int|
            0 <= i < plan.picks.len() && (#[trigger] plan.picks[i]).turn == turn
                && plan.picks[i].slot == slot;
        assert(freezes(part[i], g.id@, plan.picks[i]));
        assert(part[i] == events[from + i]);
        assert(freezes_at(events[from + i], g.id@, slot, turn));
    }
    lemma_ran_assigns(pre, post, events, now, g.id@, slot, turn);
}

/// Planning the same weeks again after planning them freezes nothing and leaves the turn order of
/// a group alone.
pub proof fn law_planning_twice_is_planning_once(
    pre: State,
    post: State,
    today: Date,
    cycles: int,
    now: Timestamp,
    k: int,
)
    requires
        planned_ahead(pre, post, today, cycles, now),
        cycles >= 0,
        today.in_week(),
        0 <= k < pre.cleaning_groups@.len(),
    ensures
        event_count(group_plan(post, post.cleaning_groups@[k], today, cycles)) == 0,
{
    let n = pre.cleaning_groups@.len() as int;
    let events = choose|events: Seq<DomainEvent>| #[trigger]
        carries_out_all(events, pre, today, cycles, n) && ran(pre, post, events, now);
    assert forall|i: int| 0 <= i < events.len() implies plans(#[trigger] events[i]) by {
        lemma_plan_events(pre, events, today, cycles, i);
    }
    lemma_ran_planning(pre, post, events, now);
    let g = pre.cleaning_groups@[k];
    let h = post.cleaning_groups@[k];
    if g.member_ids@.len() > 0 {
        assert forall|slot: int, turn: Turn|
            (frozen(pre, g, slot, turn) || crate::rotation::planned(
                group_plan(pre, g, today, cycles),
                slot,
                turn,
            )) implies #[trigger] frozen(post, h, slot, turn) by {
            lemma_plan_freezes(pre, post, events, today, cycles, now, k, slot, turn);
        }
        crate::rotation::law_planning_again_does_nothing(pre, g, post, h, today, cycles as nat);
    }
}

// ── What single events leave behind ──────────────────────────────────────────

/// An assignment reads back as it was made, and no other one changes.
pub proof fn law_assignment_reads_back(
    pre: State,
    post: State,
    a: SlotAssignment,
    actor_id: Option<String>,
    previous_person_id: Option<String>,
    now: Timestamp,
    group: Seq<char>,
    slot: int,
    turn: Turn,
)
    requires
        step(
            pre,
            post,
            (DomainEvent::SlotAssigned {
                group_id: a.group_id,
                slot_index: a.slot_index,
                iso_year: a.iso_year,
                iso_week: a.iso_week,
                shift: a.shift,
                person_id: a.person_id,
                source: a.source,
                actor_id,
                previous_person_id,
            }),
            now,
        ),
    ensures
        post.assignment(a.group_id@, a.slot_index as int, turn_of(a)) == Some(a),
        (group, slot, turn) != (a.group_id@, a.slot_index as int, turn_of(a)) ==> post.assignment(
            group,
            slot,
            turn,
        ) == pre.assignment(group, slot, turn),
        post.cleaning_groups == pre.cleaning_groups,
        post.completions == pre.completions,
{
    let e = DomainEvent::SlotAssigned {
        group_id: a.group_id,
        slot_index: a.slot_index,
        iso_year: a.iso_year,
        iso_week: a.iso_week,
        shift: a.shift,
        person_id: a.person_id,
        source: a.source,
        actor_id,
        previous_person_id,
    };
    let p = assignment_of(a.group_id@, a.slot_index as int, turn_of(a));
    let s = pre.slot_assignments@;
    let q = assignment_beside(a.group_id@, a.slot_index as int, turn_of(a));
    let kept = s.filter(q);
    lemma_filter(s, q);
    assert forall|k: int| 0 <= k < kept.len() implies !p(#[trigger] kept[k]) by {
        assert(q(kept[k]));
    }
    lemma_first_index(kept, p, kept.len() as int);
    lemma_find_push(kept, a, p);
    if (group, slot, turn) != (a.group_id@, a.slot_index as int, turn_of(a)) {
        lemma_other_assignment(pre, post, e, now, group, slot, turn);
    }
}

/// A turn that was marked as cleaned is done, and marking changes neither the plan nor the turn
/// orders.
pub proof fn law_mark_reads_back(
    pre: State,
    post: State,
    group: CleaningGroup,
    slot: int,
    turn: Turn,
    group_id: GroupId,
    slot_id: Option<String>,
    person_id: String,
    responsible_person_ids: Vec<String>,
    now: Timestamp,
)
    requires
        step(
            pre,
            post,
            (DomainEvent::CleaningCompleted {
                group_id,
                slot_id,
                person_id,
                responsible_person_ids,
                iso_year: turn.year,
                iso_week: turn.week,
                shift: turn.shift,
            }),
            now,
        ),
        group.id@ == group_id@,
        group.slots@.len() > 0 ==> 0 <= slot < group.slots@.len() && slot_id is Some
            && slot_id->0@ == group.slots@[slot].id@,
    ensures
        post.slot_done(group, slot, turn),
        post.slot_assignments == pre.slot_assignments,
        post.cleaning_groups == pre.cleaning_groups,
{
    let p = completion_of(group, slot, turn);
    let m = crate::journal::mark_of(group_id@, slot_id, turn);
    let s = pre.completions@;
    let t = post.completions@;
    if some(s, m) {
        lemma_first_index_is(s, m);
        let i = first_index(s, m);
        assert(p(s[i]));
        crate::lists::lemma_some(s, p);
    } else {
        assert(p(t[t.len() - 1]));
        crate::lists::lemma_some(t, p);
    }
}

/// Taking back all marks of a group's week leaves none, and changes neither the plan nor the turn
/// orders.
pub proof fn law_undone_week_is_open(
    pre: State,
    post: State,
    group: CleaningGroup,
    slot: int,
    turn: Turn,
    group_id: GroupId,
    now: Timestamp,
)
    requires
        step(
            pre,
            post,
            (DomainEvent::CleaningUndone {
                group_id,
                iso_year: turn.year,
                iso_week: turn.week,
                shift: None,
                slot_id: None,
            }),
            now,
        ),
        group.id@ == group_id@,
    ensures
        !post.slot_done(group, slot, turn),
        post.slot_assignments == pre.slot_assignments,
        post.cleaning_groups == pre.cleaning_groups,
{
    let p = completion_of(group, slot, turn);
    let keep = crate::journal::not_undone(group_id@, turn.year, turn.week, None, None);
    let t = post.completions@;
    crate::lists::lemma_filter(pre.completions@, keep);
    crate::lists::lemma_some(t, p);
    if some(t, p) {
        let k = choose|k: int| 0 <= k < t.len() && p(#[trigger] t[k]);
        assert(keep(t[k]));
    }
}

/// An excused week is done, and excusing changes neither the plan nor the turn orders.
pub proof fn law_skipped_week_is_done(
    pre: State,
    post: State,
    shift: int,
    slot: int,
    group_id: GroupId,
    skipper_id: String,
    year: i32,
    week: u32,
    now: Timestamp,
)
    requires
        step(
            pre,
            post,
            (DomainEvent::CleaningSkipped {
                group_id,
                skipper_id,
                iso_year: year,
                iso_week: week,
                shift: None,
                slot_id: None,
            }),
            now,
        ),
        0 <= shift < pre.group(group_id@)->0.rhythm.week_shifts().len(),
        0 <= slot < pre.group(group_id@)->0.slot_count(),
    ensures
        post.slot_done(
            pre.group(group_id@)->0,
            slot,
            Turn { year, week, shift: shift as u8 },
        ),
        post.slot_assignments == pre.slot_assignments,
        post.cleaning_groups == pre.cleaning_groups,
{
    let g = crate::journal::former(pre, group_id@);
    crate::journal::lemma_excused(
        pre.completions@,
        post.completions@,
        g,
        year,
        week,
        None,
        None,
        skipper_id@,
        now,
        shift,
        slot,
    );
}

/// A deleted group leaves nothing behind: no group, assignment, mark, swap, absence or reminder
/// refers to it.
pub proof fn law_deleted_group_leaves_nothing(pre: State, post: State, group_id: GroupId, now: Timestamp)
    requires
        step(pre, post, DomainEvent::GroupDeleted { group_id }, now),
    ensures
        post.group(group_id@) is None,
        forall|i: int|
            0 <= i < post.slot_assignments@.len() ==> (
            #[trigger] post.slot_assignments@[i]).group_id@ != group_id@,
        forall|i: int|
            0 <= i < post.completions@.len() ==> (#[trigger] post.completions@[i]).group_id@
                != group_id@,
        forall|i: int|
            0 <= i < post.swap_requests@.len() ==> (#[trigger] post.swap_requests@[i]).group_id@
                != group_id@,
        forall|i: int|
            0 <= i < post.absences@.len() ==> (#[trigger] post.absences@[i]).group_id@
                != group_id@,
        forall|i: int|
            0 <= i < post.sent_reminders@.len() ==> (#[trigger] post.sent_reminders@[i]).group_id@
                != group_id@,
        forall|i: int|
            0 <= i < post.reaction_dones@.len() ==> (#[trigger] post.reaction_dones@[i]).group_id@
                != group_id@,
{
    let id = group_id@;
    crate::lists::lemma_filter(pre.cleaning_groups@, crate::journal::other_group(id));
    crate::lists::lemma_filter(pre.slot_assignments@, crate::journal::assignment_elsewhere(id));
    crate::lists::lemma_filter(pre.completions@, crate::journal::completion_elsewhere(id));
    crate::lists::lemma_filter(pre.swap_requests@, crate::journal::swap_elsewhere(id));
    crate::lists::lemma_filter(pre.absences@, crate::journal::absence_elsewhere(id));
    crate::lists::lemma_filter(pre.sent_reminders@, crate::journal::reminder_elsewhere(id));
    crate::lists::lemma_filter(pre.reaction_dones@, crate::journal::reaction_elsewhere(id));
    let p = group_with_id(id);
    let g = post.cleaning_groups@;
    crate::lists::lemma_some(g, p);
    if some(g, p) {
        let k = choose|k: int| 0 <= k < g.len() && p(#[trigger] g[k]);
        assert(crate::journal::other_group(id)(g[k]));
    }
}

} // verus!
