//! Who is drawn for which turn.
//!
//! The laws speak of the events that planning gives, and of the assignments, absences and members
//! that are there.

use vstd::prelude::*;

use crate::analytics::DomainEvent;
use crate::calendar::{has_monday, is_day, monday, week_at, week_number, Date};
use crate::domain::{AssignmentSource, CleaningGroup};
use crate::lists::{first_index, lemma_first_index_is, lemma_some};
use crate::plain::{
    is_assigned, is_away, is_due, lemma_assigned, lemma_away, lemma_due, lemma_turn_marked, places,
};
use crate::resolver::{
    busy, carries_out, due_fits, due_week, eligible, fill_slot, fill_slots, fill_turns,
    first_due_no, frozen, group_plan, holds_turn, lemma_fitting, plan_for, turn_order, Pick, Plan,
};
use crate::rhythm::{lemma_shift_count, Turn};
use crate::rotation::{
    law_every_turn_ahead_is_planned, law_nobody_is_drawn_twice_in_a_week,
    law_turn_order_holds_the_members, lemma_due_week, lemma_in_weeks, planned,
};
use crate::state::State;
use crate::text::says;

verus! {

// ── Words ────────────────────────────────────────────────────────────────────

/// Whether somebody has an assignment in a group in a week, of whatever slot, shift and source.
pub open spec fn has_a_turn(
    state: State,
    group_id: Seq<char>,
    person: Seq<char>,
    year: i32,
    week: u32,
) -> bool {
    exists|k: int|
        0 <= k < state.slot_assignments@.len() && (#[trigger] state.slot_assignments@[k]).group_id@
            == group_id && state.slot_assignments@[k].iso_year == year
            && state.slot_assignments@[k].iso_week == week
            && state.slot_assignments@[k].person_id is Some
            && state.slot_assignments@[k].person_id->0@ == person
}

/// The last of the first picks that drew somebody; -1 when none did.
pub open spec fn last_pick(picks: Seq<Pick>, who: Seq<char>) -> int
    decreases picks.len(),
{
    if picks.len() == 0 {
        -1
    } else if picks.last().person is Some && picks.last().person->0@ == who {
        picks.len() - 1
    } else {
        last_pick(picks.drop_last(), who)
    }
}

/// Whether somebody stands before somebody else in a list.
pub open spec fn stands_before(order: Seq<String>, a: Seq<char>, b: Seq<char>) -> bool {
    exists|x: int, y: int|
        0 <= x < y < order.len() && (#[trigger] order[x])@ == a && (#[trigger] order[y])@ == b
}

/// Whether nobody stands in a list twice.
pub open spec fn no_doubles(order: Seq<String>) -> bool {
    forall|x: int, y: int| 0 <= x < y < order.len() ==> (#[trigger] order[x])@ != (
    #[trigger] order[y])@
}

/// Whether somebody has waited longer than somebody else: they were drawn earlier, or not at all
/// while the other was, or neither was and they stand before them.
pub open spec fn waits_longer(order: Seq<String>, picks: Seq<Pick>, a: Seq<char>, b: Seq<char>) -> bool {
    last_pick(picks, a) < last_pick(picks, b) || (last_pick(picks, a) == -1 && last_pick(picks, b)
        == -1 && stands_before(order, a, b))
}

/// Whether somebody was drawn for a week by one of the first picks.
pub open spec fn drawn_in(picks: Seq<Pick>, who: Seq<char>, year: i32, week: u32) -> bool {
    exists|j: int|
        0 <= j < picks.len() && (#[trigger] picks[j]).person is Some && picks[j].person->0@ == who
            && picks[j].turn.year == year && picks[j].turn.week == week
}

/// Whether nobody was passed over by a pick: whoever has waited longer than who was drawn, and
/// everybody when nobody was, is away, has a turn in the week or was just drawn for it.
pub open spec fn passes_nobody_over(
    state: State,
    group: CleaningGroup,
    order: Seq<String>,
    picks: Seq<Pick>,
    i: int,
) -> bool {
    let p = picks[i];
    forall|m: Seq<char>| #[trigger]
        says(order, m) && (p.person is None || waits_longer(
            order,
            picks.take(i),
            m,
            p.person->0@,
        )) ==> is_away(state, m, group.id@, p.turn.year, p.turn.week) || has_a_turn(
            state,
            group.id@,
            m,
            p.turn.year,
            p.turn.week,
        ) || drawn_in(picks.take(i), m, p.turn.year, p.turn.week)
}

/// Whether a list is in the order in which people wait.
pub open spec fn in_line(order: Seq<String>, picks: Seq<Pick>, queue: Seq<String>) -> bool {
    forall|x: int, y: int|
        0 <= x < y < queue.len() ==> waits_longer(
            order,
            picks,
            (#[trigger] queue[x])@,
            (#[trigger] queue[y])@,
        )
}

// ── Lemmas ───────────────────────────────────────────────────────────────────

proof fn lemma_has_a_turn(state: State, group: CleaningGroup, person: Seq<char>, year: i32, week: u32)
    ensures
        busy(state, group, year, week).contains(person) == has_a_turn(
            state,
            group.id@,
            person,
            year,
            week,
        ),
{
    let s = state.slot_assignments@;
    let p = holds_turn(group.id@, year, week, person);
    lemma_some(s, p);
    if has_a_turn(state, group.id@, person, year, week) {
        let k = choose|k: int|
            0 <= k < s.len() && (#[trigger] s[k]).group_id@ == group.id@ && s[k].iso_year == year
                && s[k].iso_week == week && s[k].person_id is Some && s[k].person_id->0@ == person;
        assert(p(s[k]));
    }
    if exists|k: int| 0 <= k < s.len() && p(#[trigger] s[k]) {
        let k = choose|k: int| 0 <= k < s.len() && p(#[trigger] s[k]);
        assert(s[k].group_id@ == group.id@);
    }
}

proof fn lemma_last_pick(picks: Seq<Pick>, who: Seq<char>)
    ensures
        -1 <= last_pick(picks, who) < picks.len(),
        last_pick(picks, who) >= 0 ==> picks[last_pick(picks, who)].person is Some
            && picks[last_pick(picks, who)].person->0@ == who,
    decreases picks.len(),
{
    if picks.len() > 0 {
        lemma_last_pick(picks.drop_last(), who);
    }
}

/// Of two people at most one has waited longer.
proof fn lemma_waits(order: Seq<String>, picks: Seq<Pick>, a: Seq<char>, b: Seq<char>)
    requires
        no_doubles(order),
        waits_longer(order, picks, a, b),
    ensures
        !waits_longer(order, picks, b, a),
        a != b,
{
    lemma_last_pick(picks, a);
    lemma_last_pick(picks, b);
    if stands_before(order, a, b) && (stands_before(order, b, a) || a == b) {
        let (x, y) = choose|x: int, y: int|
            0 <= x < y < order.len() && (#[trigger] order[x])@ == a && (#[trigger] order[y])@ == b;
        if a == b {
            assert(order[x]@ != order[y]@);
        } else {
            let (u, v) = choose|u: int, v: int|
                0 <= u < v < order.len() && (#[trigger] order[u])@ == b && (
                #[trigger] order[v])@ == a;
            if x < v {
                assert(order[x]@ != order[v]@);
            } else if v < x {
                assert(order[v]@ != order[x]@);
            }
            if y < u {
                assert(order[y]@ != order[u]@);
            } else if u < y {
                assert(order[u]@ != order[y]@);
            }
        }
    }
}

/// Whether drawing has come so far that nobody was passed over, where `from` is the first pick of
/// the week that is drawn for.
spec fn just(
    state: State,
    group: CleaningGroup,
    order: Seq<String>,
    plan: Plan,
    from: int,
    year: i32,
    week: u32,
) -> bool {
    &&& 0 <= from <= plan.picks.len()
    &&& in_line(order, plan.picks, plan.queue)
    &&& forall|t: Seq<char>| #[trigger] says(order, t) ==> says(plan.queue, t)
    &&& forall|t: Seq<char>| #[trigger]
        plan.used.contains(t) ==> has_a_turn(state, group.id@, t, year, week) || drawn_in(
            plan.picks,
            t,
            year,
            week,
        )
    &&& forall|i: int|
        0 <= i < plan.picks.len() ==> #[trigger] passes_nobody_over(
            state,
            group,
            order,
            plan.picks,
            i,
        )
}

/// One pick more leaves the judgement of those before it alone.
proof fn lemma_pushed(
    state: State,
    group: CleaningGroup,
    order: Seq<String>,
    picks: Seq<Pick>,
    pick: Pick,
)
    requires
        forall|i: int|
            0 <= i < picks.len() ==> #[trigger] passes_nobody_over(state, group, order, picks, i),
    ensures
        forall|i: int|
            0 <= i < picks.len() ==> #[trigger] passes_nobody_over(
                state,
                group,
                order,
                picks.push(pick),
                i,
            ),
{
    let more = picks.push(pick);
    assert forall|i: int| 0 <= i < picks.len() implies #[trigger] passes_nobody_over(
        state,
        group,
        order,
        more,
        i,
    ) by {
        assert(more.take(i) =~= picks.take(i));
        assert(more[i] == picks[i]);
        assert(passes_nobody_over(state, group, order, picks, i));
    }
}

proof fn lemma_drawn_more(picks: Seq<Pick>, pick: Pick, who: Seq<char>, year: i32, week: u32)
    ensures
        drawn_in(picks, who, year, week) ==> drawn_in(picks.push(pick), who, year, week),
{
    let more = picks.push(pick);
    if drawn_in(picks, who, year, week) {
        let j = choose|j: int|
            0 <= j < picks.len() && (#[trigger] picks[j]).person is Some && picks[j].person->0@
                == who && picks[j].turn.year == year && picks[j].turn.week == week;
        assert(more[j] == picks[j]);
    }
}

proof fn lemma_slot_just(
    state: State,
    group: CleaningGroup,
    order: Seq<String>,
    plan: Plan,
    turn: Turn,
    slot: int,
    from: int,
)
    requires
        no_doubles(order),
        just(state, group, order, plan, from, turn.year, turn.week),
    ensures
        just(
            state,
            group,
            order,
            fill_slot(state, group, plan, turn, slot),
            from,
            turn.year,
            turn.week,
        ),
{
    let next = fill_slot(state, group, plan, turn, slot);
    if !frozen(state, group, slot, turn) {
        let can = eligible(state, group, plan.used, turn.year, turn.week);
        let at = first_index(plan.queue, can);
        let n = plan.picks.len() as int;
        lemma_first_index_is(plan.queue, can);
        let pick = next.picks.last();
        assert(next.picks =~= plan.picks.push(pick));
        assert(next.picks.drop_last() =~= plan.picks);
        assert(next.picks.take(n) =~= plan.picks);
        lemma_pushed(state, group, order, plan.picks, pick);
        // Nobody was passed over.
        assert forall|m: Seq<char>| #[trigger]
            says(order, m) && (pick.person is None || waits_longer(
                order,
                plan.picks,
                m,
                pick.person->0@,
            )) implies is_away(state, m, group.id@, turn.year, turn.week) || has_a_turn(
            state,
            group.id@,
            m,
            turn.year,
            turn.week,
        ) || drawn_in(plan.picks, m, turn.year, turn.week) by {
            assert(says(plan.queue, m));
            let x = choose|x: int| 0 <= x < plan.queue.len() && (#[trigger] plan.queue[x])@ == m;
            if pick.person is Some && x >= at {
                if x == at {
                    lemma_waits(order, plan.picks, m, m);
                } else {
                    assert(waits_longer(order, plan.picks, plan.queue[at]@, plan.queue[x]@));
                    lemma_waits(order, plan.picks, plan.queue[at]@, m);
                }
            }
            assert(!can(plan.queue[x]));
            lemma_away(state, m, group.id@, turn.year, turn.week);
        }
        assert(passes_nobody_over(state, group, order, next.picks, n));
        assert forall|i: int| 0 <= i < next.picks.len() implies #[trigger] passes_nobody_over(
            state,
            group,
            order,
            next.picks,
            i,
        ) by {
            if i < n {
                assert(passes_nobody_over(state, group, order, plan.picks.push(pick), i));
            }
        }
        // Whoever counts as having a turn has one.
        assert forall|t: Seq<char>| #[trigger] next.used.contains(t) implies has_a_turn(
            state,
            group.id@,
            t,
            turn.year,
            turn.week,
        ) || drawn_in(next.picks, t, turn.year, turn.week) by {
            lemma_drawn_more(plan.picks, pick, t, turn.year, turn.week);
            if !plan.used.contains(t) {
                assert(next.picks[n].person->0@ == t);
            }
        }
        // The queue stays in order.
        assert forall|x: int, y: int| 0 <= x < y < next.queue.len() implies waits_longer(
            order,
            next.picks,
            (#[trigger] next.queue[x])@,
            (#[trigger] next.queue[y])@,
        ) by {
            if at < plan.queue.len() {
                let id = plan.queue[at];
                let u = if x < at {
                    x
                } else {
                    x + 1
                };
                assert(next.queue[x] == plan.queue[u]);
                if u < at {
                    lemma_waits(order, plan.picks, plan.queue[u]@, id@);
                } else {
                    assert(waits_longer(order, plan.picks, id@, plan.queue[u]@));
                    lemma_waits(order, plan.picks, id@, plan.queue[u]@);
                }
                assert(last_pick(next.picks, next.queue[x]@) == last_pick(
                    plan.picks,
                    plan.queue[u]@,
                ));
                lemma_last_pick(plan.picks, plan.queue[u]@);
                if y < next.queue.len() - 1 {
                    let v = if y < at {
                        y
                    } else {
                        y + 1
                    };
                    assert(next.queue[y] == plan.queue[v]);
                    assert(waits_longer(order, plan.picks, plan.queue[u]@, plan.queue[v]@));
                    if v < at {
                        assert(waits_longer(order, plan.picks, plan.queue[v]@, id@));
                        lemma_waits(order, plan.picks, plan.queue[v]@, id@);
                    } else {
                        assert(waits_longer(order, plan.picks, id@, plan.queue[v]@));
                        lemma_waits(order, plan.picks, id@, plan.queue[v]@);
                    }
                    assert(last_pick(next.picks, next.queue[y]@) == last_pick(
                        plan.picks,
                        plan.queue[v]@,
                    ));
                } else {
                    assert(next.queue[y] == id);
                    assert(last_pick(next.picks, id@) == n);
                }
            } else {
                assert(waits_longer(order, plan.picks, plan.queue[x]@, plan.queue[y]@));
            }
        }
        assert forall|t: Seq<char>| #[trigger] says(order, t) implies says(next.queue, t) by {
            assert(says(plan.queue, t));
            let x = choose|x: int| 0 <= x < plan.queue.len() && (#[trigger] plan.queue[x])@ == t;
            if at < plan.queue.len() {
                if x < at {
                    assert(next.queue[x]@ == t);
                } else if x == at {
                    assert(next.queue[next.queue.len() - 1]@ == t);
                } else {
                    assert(next.queue[x - 1]@ == t);
                }
            }
        }
    }
}

proof fn lemma_slots_just(
    state: State,
    group: CleaningGroup,
    order: Seq<String>,
    plan: Plan,
    turn: Turn,
    n: nat,
    from: int,
)
    requires
        no_doubles(order),
        just(state, group, order, plan, from, turn.year, turn.week),
    ensures
        just(
            state,
            group,
            order,
            fill_slots(state, group, plan, turn, n),
            from,
            turn.year,
            turn.week,
        ),
    decreases n,
{
    if n > 0 {
        lemma_slots_just(state, group, order, plan, turn, (n - 1) as nat, from);
        lemma_slot_just(
            state,
            group,
            order,
            fill_slots(state, group, plan, turn, (n - 1) as nat),
            turn,
            n - 1,
            from,
        );
    }
}

proof fn lemma_turns_just(
    state: State,
    group: CleaningGroup,
    order: Seq<String>,
    plan: Plan,
    turns: Seq<Turn>,
    from: int,
    year: i32,
    week: u32,
)
    requires
        no_doubles(order),
        just(state, group, order, plan, from, year, week),
        forall|i: int|
            0 <= i < turns.len() ==> (#[trigger] turns[i]).year == year && turns[i].week == week,
    ensures
        just(state, group, order, fill_turns(state, group, plan, turns), from, year, week),
    decreases turns.len(),
{
    if turns.len() > 0 {
        let u = turns.drop_last();
        assert forall|i: int| 0 <= i < u.len() implies (#[trigger] u[i]).year == year && u[i].week
            == week by {
            assert(u[i] == turns[i]);
        }
        assert(turns[turns.len() - 1].year == year && turns[turns.len() - 1].week == week);
        lemma_turns_just(state, group, order, plan, u, from, year, week);
        lemma_slots_just(
            state,
            group,
            order,
            fill_turns(state, group, plan, u),
            turns.last(),
            group.slot_count(),
            from,
        );
    }
}

/// A plan passes nobody over, and leaves the turn order in the order in which people wait.
proof fn lemma_plan_just(state: State, group: CleaningGroup, today: Date, n: nat)
    requires
        no_doubles(turn_order(state, group)),
    ensures
        ({
            let order = turn_order(state, group);
            let plan = plan_for(state, group, today, n);
            &&& in_line(order, plan.picks, plan.queue)
            &&& forall|t: Seq<char>| #[trigger] says(order, t) ==> says(plan.queue, t)
            &&& forall|i: int|
                0 <= i < plan.picks.len() ==> #[trigger] passes_nobody_over(
                    state,
                    group,
                    order,
                    plan.picks,
                    i,
                )
        }),
    decreases n,
{
    let order = turn_order(state, group);
    if n > 0 {
        let m = (n - 1) as nat;
        lemma_plan_just(state, group, today, m);
        if due_fits(state, group, today, m as int) {
            let week = due_week(state, group, today, m as int);
            let (y, w) = (week.0 as i32, week.1 as u32);
            let before = plan_for(state, group, today, m);
            let fresh = Plan { used: busy(state, group, y, w), ..before };
            assert forall|t: Seq<char>| #[trigger] fresh.used.contains(t) implies has_a_turn(
                state,
                group.id@,
                t,
                y,
                w,
            ) || drawn_in(fresh.picks, t, y, w) by {
                lemma_has_a_turn(state, group, t, y, w);
            }
            let turns = state.week_turns(group, today, y, w);
            lemma_turns_just(
                state,
                group,
                order,
                fresh,
                turns,
                before.picks.len() as int,
                y,
                w,
            );
        }
    }
}

// ── Whether anybody was drawn ────────────────────────────────────────────────

/// Whether one of some picks drew somebody.
pub open spec fn anybody(picks: Seq<Pick>) -> bool {
    exists|i: int| 0 <= i < picks.len() && (#[trigger] picks[i]).person is Some
}

proof fn lemma_anybody_push(picks: Seq<Pick>, pick: Pick)
    ensures
        anybody(picks.push(pick)) == (anybody(picks) || pick.person is Some),
{
    let more = picks.push(pick);
    if anybody(picks) {
        let i = choose|i: int| 0 <= i < picks.len() && (#[trigger] picks[i]).person is Some;
        assert(more[i].person is Some);
    }
    if pick.person is Some {
        assert(more[picks.len() as int].person is Some);
    }
    if anybody(more) {
        let i = choose|i: int| 0 <= i < more.len() && (#[trigger] more[i]).person is Some;
        if i < picks.len() {
            assert(picks[i].person is Some);
        }
    }
}

proof fn lemma_slots_drawn(state: State, group: CleaningGroup, plan: Plan, turn: Turn, n: nat)
    requires
        plan.drawn == anybody(plan.picks),
    ensures
        fill_slots(state, group, plan, turn, n).drawn == anybody(
            fill_slots(state, group, plan, turn, n).picks,
        ),
    decreases n,
{
    if n > 0 {
        lemma_slots_drawn(state, group, plan, turn, (n - 1) as nat);
        let before = fill_slots(state, group, plan, turn, (n - 1) as nat);
        let next = fill_slot(state, group, before, turn, n - 1);
        if !frozen(state, group, n - 1, turn) {
            assert(next.picks =~= before.picks.push(next.picks.last()));
            lemma_anybody_push(before.picks, next.picks.last());
        }
    }
}

proof fn lemma_turns_drawn(state: State, group: CleaningGroup, plan: Plan, turns: Seq<Turn>)
    requires
        plan.drawn == anybody(plan.picks),
    ensures
        fill_turns(state, group, plan, turns).drawn == anybody(
            fill_turns(state, group, plan, turns).picks,
        ),
    decreases turns.len(),
{
    if turns.len() > 0 {
        lemma_turns_drawn(state, group, plan, turns.drop_last());
        lemma_slots_drawn(
            state,
            group,
            fill_turns(state, group, plan, turns.drop_last()),
            turns.last(),
            group.slot_count(),
        );
    }
}

proof fn lemma_plan_drawn(state: State, group: CleaningGroup, today: Date, n: nat)
    ensures
        plan_for(state, group, today, n).drawn == anybody(plan_for(state, group, today, n).picks),
    decreases n,
{
    if n > 0 {
        let m = (n - 1) as nat;
        lemma_plan_drawn(state, group, today, m);
        let week = due_week(state, group, today, m as int);
        let (y, w) = (week.0 as i32, week.1 as u32);
        let before = plan_for(state, group, today, m);
        let fresh = Plan { used: busy(state, group, y, w), ..before };
        lemma_turns_drawn(state, group, fresh, state.week_turns(group, today, y, w));
    }
}

// ── Where picks stand ────────────────────────────────────────────────────────

/// Whether a pick is of a slot and a shift of its week that the group has.
spec fn within(state: State, group: CleaningGroup, today: Date, p: Pick) -> bool {
    0 <= p.slot < group.slot_count() && state.week_turns(
        group,
        today,
        p.turn.year,
        p.turn.week,
    ).contains(p.turn)
}

proof fn lemma_slots_within(
    state: State,
    group: CleaningGroup,
    today: Date,
    plan: Plan,
    turn: Turn,
    n: nat,
)
    requires
        n <= group.slot_count(),
        state.week_turns(group, today, turn.year, turn.week).contains(turn),
        forall|i: int|
            0 <= i < plan.picks.len() ==> within(state, group, today, #[trigger] plan.picks[i]),
    ensures
        forall|i: int|
            0 <= i < fill_slots(state, group, plan, turn, n).picks.len() ==> within(
                state,
                group,
                today,
                #[trigger] fill_slots(state, group, plan, turn, n).picks[i],
            ),
    decreases n,
{
    if n > 0 {
        lemma_slots_within(state, group, today, plan, turn, (n - 1) as nat);
        let before = fill_slots(state, group, plan, turn, (n - 1) as nat);
        let next = fill_slots(state, group, plan, turn, n);
        assert forall|i: int| 0 <= i < next.picks.len() implies within(
            state,
            group,
            today,
            #[trigger] next.picks[i],
        ) by {
            if i < before.picks.len() {
                assert(next.picks[i] == before.picks[i]);
            }
        }
    }
}

proof fn lemma_turns_within(
    state: State,
    group: CleaningGroup,
    today: Date,
    plan: Plan,
    turns: Seq<Turn>,
)
    requires
        forall|i: int|
            0 <= i < turns.len() ==> state.week_turns(
                group,
                today,
                (#[trigger] turns[i]).year,
                turns[i].week,
            ).contains(turns[i]),
        forall|i: int|
            0 <= i < plan.picks.len() ==> within(state, group, today, #[trigger] plan.picks[i]),
    ensures
        forall|i: int|
            0 <= i < fill_turns(state, group, plan, turns).picks.len() ==> within(
                state,
                group,
                today,
                #[trigger] fill_turns(state, group, plan, turns).picks[i],
            ),
    decreases turns.len(),
{
    if turns.len() > 0 {
        let u = turns.drop_last();
        assert forall|i: int| 0 <= i < u.len() implies state.week_turns(
            group,
            today,
            (#[trigger] u[i]).year,
            u[i].week,
        ).contains(u[i]) by {
            assert(u[i] == turns[i]);
        }
        lemma_turns_within(state, group, today, plan, u);
        assert(state.week_turns(
            group,
            today,
            turns[turns.len() - 1].year,
            turns[turns.len() - 1].week,
        ).contains(turns[turns.len() - 1]));
        lemma_slots_within(
            state,
            group,
            today,
            fill_turns(state, group, plan, u),
            turns.last(),
            group.slot_count(),
        );
    }
}

proof fn lemma_plan_within(state: State, group: CleaningGroup, today: Date, n: nat)
    ensures
        forall|i: int|
            0 <= i < plan_for(state, group, today, n).picks.len() ==> within(
                state,
                group,
                today,
                #[trigger] plan_for(state, group, today, n).picks[i],
            ),
    decreases n,
{
    if n > 0 {
        let m = (n - 1) as nat;
        lemma_plan_within(state, group, today, m);
        let week = due_week(state, group, today, m as int);
        let (y, w) = (week.0 as i32, week.1 as u32);
        let before = plan_for(state, group, today, m);
        let fresh = Plan { used: busy(state, group, y, w), ..before };
        let turns = state.week_turns(group, today, y, w);
        assert forall|i: int| 0 <= i < turns.len() implies state.week_turns(
            group,
            today,
            (#[trigger] turns[i]).year,
            turns[i].week,
        ).contains(turns[i]) by {
            assert(turns[i].year == y && turns[i].week == w);
        }
        lemma_turns_within(state, group, today, fresh, turns);
    }
}

// ── What planning gives ──────────────────────────────────────────────────────

/// What an event that freezes a slot of a turn says.
pub open spec fn pick_in(e: DomainEvent) -> Pick {
    match e {
        DomainEvent::SlotAssigned { slot_index, iso_year, iso_week, shift, person_id, .. } => Pick {
            turn: Turn { year: iso_year, week: iso_week, shift },
            slot: slot_index as int,
            person: person_id,
        },
        _ => Pick { turn: Turn { year: 0, week: 0, shift: 0 }, slot: 0, person: None },
    }
}

/// How many events freeze a slot of a turn: all but a last one that stores the turn order.
pub open spec fn freezing(events: Seq<DomainEvent>) -> int {
    if events.len() > 0 && events.last() is RotationQueueSet {
        events.len() - 1
    } else {
        events.len() as int
    }
}

/// What the events that planning gives draw, in order.
pub open spec fn picks_in(events: Seq<DomainEvent>) -> Seq<Pick> {
    Seq::new(freezing(events) as nat, |i: int| pick_in(events[i]))
}

/// The number of weeks from one due week to the next.
pub open spec fn weeks_between_turns(group: CleaningGroup) -> int {
    match group.rhythm.every_weeks {
        Some(n) => if n == 0 {
            1
        } else {
            n as int
        },
        None => 1,
    }
}

/// Whether a turn is one that planning so many due weeks ahead is about: a shift of a due week
/// that can be represented, from the current week on.
pub open spec fn lies_ahead(state: State, group: CleaningGroup, today: Date, cycles: int, turn: Turn) -> bool {
    let (year, week) = (turn.year as int, turn.week as int);
    let no = (monday(year, week) - 1) / 7;
    &&& has_monday(year, week)
    &&& is_day(monday(year, week) + 6)
    &&& is_due(state, group, today, year, week)
    &&& (today.day - 1) / 7 <= no < (today.day - 1) / 7 + cycles * weeks_between_turns(group)
    &&& turn.shift < group.rhythm.week_shifts().len()
}

proof fn lemma_events(
    state: State,
    group: CleaningGroup,
    today: Date,
    cycles: int,
    events: Seq<DomainEvent>,
)
    requires
        cycles >= 0,
        carries_out(events, group.id@, group_plan(state, group, today, cycles)),
    ensures
        picks_in(events) == group_plan(state, group, today, cycles).picks,
        (events.len() > 0 && events.last() is RotationQueueSet) == group_plan(
            state,
            group,
            today,
            cycles,
        ).drawn,
{
    let plan = group_plan(state, group, today, cycles);
    let picks = plan.picks;
    if !plan.drawn && events.len() > 0 {
        assert(crate::resolver::freezes(events[events.len() - 1], group.id@, picks[picks.len() - 1]));
    }
    assert forall|i: int| 0 <= i < picks.len() implies pick_in(#[trigger] events[i]) == picks[i] by {
        assert(crate::resolver::freezes(events[i], group.id@, picks[i]));
    }
    assert(picks_in(events) =~= picks);
}

/// Whose turn a turn of the plan is, and when: the cycle of its week.
proof fn lemma_cycle(state: State, group: CleaningGroup, today: Date, cycles: int, turn: Turn)
    requires
        today.in_week(),
        cycles >= 0,
    ensures
        lies_ahead(state, group, today, cycles, turn) ==> exists|k: int|
            0 <= k < cycles && due_fits(state, group, today, k) && #[trigger] due_week(
                state,
                group,
                today,
                k,
            ) == (turn.year as int, turn.week as int),
{
    if lies_ahead(state, group, today, cycles, turn) {
        let (y, w) = (turn.year as int, turn.week as int);
        let every = group.rhythm.interval();
        let no = week_number(y, w);
        let start = state.start_no(today);
        let t = today.week_no();
        let first = first_due_no(state, group, today);
        crate::calendar::lemma_monday(y, w);
        assert((no - start) % every == 0);
        // The due weeks from the first one on are whole intervals apart.
        assert((first - start) % every == 0) by {
            lemma_next_multiple(t - start, every);
        }
        assert(first <= no) by {
            lemma_no_multiple_between(t - start, no - start, every);
        }
        let d = no - first;
        vstd::arithmetic::div_mod::lemma_fundamental_div_mod(no - start, every);
        vstd::arithmetic::div_mod::lemma_fundamental_div_mod(first - start, every);
        let (a, b) = ((no - start) / every, (first - start) / every);
        let k = a - b;
        assert(d == k * every) by (nonlinear_arith)
            requires
                d == every * a - every * b,
                k == a - b,
        ;
        assert(0 <= k < cycles) by (nonlinear_arith)
            requires
                d == k * every,
                0 <= d,
                d < cycles * every,
                every >= 1,
        ;
        assert(first + k * every == no);
        crate::calendar::lemma_week_of_day(7 * no + 1, y, w);
        assert(week_at(no) == (y, w));
        assert(due_fits(state, group, today, k));
        assert(due_week(state, group, today, k) == (y, w));
    }
}

/// The next multiple from a number on is one.
proof fn lemma_next_multiple(a: int, every: int)
    requires
        every >= 1,
    ensures
        a % every != 0 ==> (a + every - a % every) % every == 0,
{
    vstd::arithmetic::div_mod::lemma_fundamental_div_mod(a, every);
    let q = a / every;
    if a % every != 0 {
        assert(a + every - a % every == every * (q + 1)) by (nonlinear_arith)
            requires
                a == every * q + a % every,
        ;
        vstd::arithmetic::div_mod::lemma_mod_multiples_basic(q + 1, every);
        assert(every * (q + 1) == (q + 1) * every) by (nonlinear_arith);
    }
}

/// A multiple from a number on is not before the next one.
proof fn lemma_no_multiple_between(a: int, b: int, every: int)
    requires
        every >= 1,
        a <= b,
        b % every == 0,
    ensures
        b >= if a % every == 0 {
            a
        } else {
            a + every - a % every
        },
{
    vstd::arithmetic::div_mod::lemma_fundamental_div_mod(a, every);
    vstd::arithmetic::div_mod::lemma_fundamental_div_mod(b, every);
    vstd::arithmetic::div_mod::lemma_mod_bound(a, every);
    let q = a / every;
    let k = b / every;
    if a % every != 0 {
        assert(q < k) by (nonlinear_arith)
            requires
                every * q < every * k,
                every >= 1,
        ;
        assert(every * (q + 1) <= every * k) by (nonlinear_arith)
            requires
                q + 1 <= k,
                every >= 1,
        ;
        assert(every * (q + 1) == every * q + every) by (nonlinear_arith);
    }
}

/// Whoever planning draws is a member of the group who is not away in the week of the turn and has
/// no assignment in it, of whatever slot, shift and source; and what it draws for is a slot of a
/// turn that lies ahead and has no assignment.
pub proof fn law_draws_are_of_free_people(
    state: State,
    group: CleaningGroup,
    today: Date,
    cycles: int,
    events: Seq<DomainEvent>,
    i: int,
)
    requires
        today.in_week(),
        cycles >= 0,
        carries_out(events, group.id@, group_plan(state, group, today, cycles)),
        0 <= i < freezing(events),
    ensures
        events[i] is SlotAssigned,
        events[i]->SlotAssigned_group_id@ == group.id@,
        events[i]->source == AssignmentSource::RoundRobin,
        ({
            let p = picks_in(events)[i];
            &&& 0 <= p.slot < places(group)
            &&& lies_ahead(state, group, today, cycles, p.turn)
            &&& !is_assigned(state, group.id@, p.slot, p.turn)
            &&& p.person is Some ==> {
                &&& says(group.member_ids@, p.person->0@)
                &&& !is_away(state, p.person->0@, group.id@, p.turn.year, p.turn.week)
                &&& !has_a_turn(state, group.id@, p.person->0@, p.turn.year, p.turn.week)
            }
        }),
{
    lemma_events(state, group, today, cycles, events);
    let plan = group_plan(state, group, today, cycles);
    let n = cycles as nat;
    let p = plan.picks[i];
    assert(picks_in(events)[i] == p);
    assert(crate::resolver::freezes(events[i], group.id@, p));
    law_nobody_is_drawn_twice_in_a_week(state, group, today, n);
    lemma_assigned(state, group, p.slot, p.turn);
    lemma_turn_marked(state, group, p.turn);
    lemma_plan_within(state, group, today, n);
    assert(within(state, group, today, p));
    lemma_in_weeks(state, group, today, n);
    let k = choose|k: int|
        0 <= k < n && due_fits(state, group, today, k) && due_week(state, group, today, k).0 as i32
            == p.turn.year && (#[trigger] due_week(state, group, today, k)).1 as u32
            == p.turn.week;
    lemma_due_week(state, group, today, k + 1, k);
    let (y, w) = (p.turn.year as int, p.turn.week as int);
    let every = group.rhythm.interval();
    let no = first_due_no(state, group, today) + k * every;
    crate::calendar::lemma_monday(y, w);
    lemma_fitting(state, group, today, k);
    assert(7 * no + 1 == monday(y, w));
    assert(has_monday(y, w));
    let turns = state.week_turns(group, today, p.turn.year, p.turn.week);
    let j = choose|j: int| 0 <= j < turns.len() && turns[j] == p.turn;
    lemma_shift_count(group.rhythm);
    lemma_due(state, group, today, y, w);
    vstd::arithmetic::div_mod::lemma_mod_bound(today.week_no() - state.start_no(today), every);
    assert(k * every + every <= cycles * every && 0 <= k * every) by (nonlinear_arith)
        requires
            0 <= k,
            k + 1 <= cycles,
            every >= 1,
    ;
    if p.person is Some {
        let t = p.person->0@;
        lemma_away(state, t, group.id@, p.turn.year, p.turn.week);
        lemma_has_a_turn(state, group, t, p.turn.year, p.turn.week);
        lemma_drawn_member(state, group, today, n, i);
        law_turn_order_holds_the_members(state, group, t);
    }
}

/// Whoever is drawn stands in the turn order.
proof fn lemma_drawn_member(state: State, group: CleaningGroup, today: Date, n: nat, i: int)
    requires
        0 <= i < plan_for(state, group, today, n).picks.len(),
        plan_for(state, group, today, n).picks[i].person is Some,
    ensures
        says(turn_order(state, group), plan_for(state, group, today, n).picks[i].person->0@),
{
    let order = turn_order(state, group);
    lemma_plan_from(state, group, today, n);
    assert(from_order(order, plan_for(state, group, today, n)));
}

/// Whether everybody who waits or was drawn stands in a turn order.
spec fn from_order(order: Seq<String>, plan: Plan) -> bool {
    &&& forall|x: int| 0 <= x < plan.queue.len() ==> says(order, (#[trigger] plan.queue[x])@)
    &&& forall|x: int|
        0 <= x < plan.picks.len() && (#[trigger] plan.picks[x]).person is Some ==> says(
            order,
            plan.picks[x].person->0@,
        )
}

proof fn lemma_slots_from(
    order: Seq<String>,
    state: State,
    group: CleaningGroup,
    plan: Plan,
    turn: Turn,
    n: nat,
)
    requires
        from_order(order, plan),
    ensures
        from_order(order, fill_slots(state, group, plan, turn, n)),
    decreases n,
{
    if n > 0 {
        lemma_slots_from(order, state, group, plan, turn, (n - 1) as nat);
        let before = fill_slots(state, group, plan, turn, (n - 1) as nat);
        let next = fill_slots(state, group, plan, turn, n);
        let can = eligible(state, group, before.used, turn.year, turn.week);
        lemma_first_index_is(before.queue, can);
        let at = first_index(before.queue, can);
        assert forall|x: int| 0 <= x < next.queue.len() implies says(
            order,
            (#[trigger] next.queue[x])@,
        ) by {
            if next.queue.len() == before.queue.len() && at < before.queue.len() && !frozen(
                state,
                group,
                n - 1,
                turn,
            ) {
                if x < at {
                    assert(next.queue[x] == before.queue[x]);
                } else if x < next.queue.len() - 1 {
                    assert(next.queue[x] == before.queue[x + 1]);
                } else {
                    assert(next.queue[x] == before.queue[at]);
                }
            } else {
                assert(next.queue[x] == before.queue[x]);
            }
        }
        assert forall|x: int|
            0 <= x < next.picks.len() && (#[trigger] next.picks[x]).person is Some implies says(
            order,
            next.picks[x].person->0@,
        ) by {
            if x < before.picks.len() {
                assert(next.picks[x] == before.picks[x]);
            } else {
                assert(next.picks[x].person->0 == before.queue[at]);
            }
        }
    }
}

proof fn lemma_turns_from(
    order: Seq<String>,
    state: State,
    group: CleaningGroup,
    plan: Plan,
    turns: Seq<Turn>,
)
    requires
        from_order(order, plan),
    ensures
        from_order(order, fill_turns(state, group, plan, turns)),
    decreases turns.len(),
{
    if turns.len() > 0 {
        lemma_turns_from(order, state, group, plan, turns.drop_last());
        lemma_slots_from(
            order,
            state,
            group,
            fill_turns(state, group, plan, turns.drop_last()),
            turns.last(),
            group.slot_count(),
        );
    }
}

proof fn lemma_plan_from(state: State, group: CleaningGroup, today: Date, n: nat)
    ensures
        from_order(turn_order(state, group), plan_for(state, group, today, n)),
    decreases n,
{
    let order = turn_order(state, group);
    if n == 0 {
        assert forall|x: int| 0 <= x < order.len() implies says(order, (#[trigger] order[x])@) by {}
    } else {
        let m = (n - 1) as nat;
        lemma_plan_from(state, group, today, m);
        let week = due_week(state, group, today, m as int);
        let (y, w) = (week.0 as i32, week.1 as u32);
        let before = plan_for(state, group, today, m);
        let fresh = Plan { used: busy(state, group, y, w), ..before };
        lemma_turns_from(order, state, group, fresh, state.week_turns(group, today, y, w));
    }
}

/// Planning draws nobody twice for one week of a group.
pub proof fn law_a_week_draws_nobody_twice(
    state: State,
    group: CleaningGroup,
    today: Date,
    cycles: int,
    events: Seq<DomainEvent>,
    i: int,
    j: int,
)
    requires
        today.in_week(),
        cycles >= 0,
        carries_out(events, group.id@, group_plan(state, group, today, cycles)),
        0 <= i < j < freezing(events),
        picks_in(events)[i].turn.year == picks_in(events)[j].turn.year,
        picks_in(events)[i].turn.week == picks_in(events)[j].turn.week,
        picks_in(events)[i].person is Some,
        picks_in(events)[j].person is Some,
    ensures
        picks_in(events)[i].person->0@ != picks_in(events)[j].person->0@,
{
    lemma_events(state, group, today, cycles, events);
    law_nobody_is_drawn_twice_in_a_week(state, group, today, cycles as nat);
    let picks = group_plan(state, group, today, cycles).picks;
    assert(picks_in(events)[i] == picks[i] && picks_in(events)[j] == picks[j]);
}

/// Planning passes nobody over: whoever has waited longer than who is drawn is away in the week,
/// has an assignment in it or was drawn for it just before; and where nobody is drawn, that holds
/// of everybody.
pub proof fn law_nobody_is_passed_over(
    state: State,
    group: CleaningGroup,
    today: Date,
    cycles: int,
    events: Seq<DomainEvent>,
    i: int,
)
    requires
        cycles >= 0,
        carries_out(events, group.id@, group_plan(state, group, today, cycles)),
        no_doubles(turn_order(state, group)),
        0 <= i < freezing(events),
    ensures
        passes_nobody_over(state, group, turn_order(state, group), picks_in(events), i),
{
    lemma_events(state, group, today, cycles, events);
    lemma_plan_just(state, group, today, cycles as nat);
    lemma_plan_just(state, group, today, 0);
}

/// Planning leaves no slot of a turn that lies ahead without an assignment: it has one already, or
/// an event freezes it.
pub proof fn law_every_slot_ahead_is_planned(
    state: State,
    group: CleaningGroup,
    today: Date,
    cycles: int,
    events: Seq<DomainEvent>,
    turn: Turn,
    slot: int,
)
    requires
        today.in_week(),
        cycles >= 0,
        carries_out(events, group.id@, group_plan(state, group, today, cycles)),
        group.member_ids@.len() > 0,
        lies_ahead(state, group, today, cycles, turn),
        0 <= slot < places(group),
    ensures
        is_assigned(state, group.id@, slot, turn) || exists|i: int|
            0 <= i < freezing(events) && (#[trigger] picks_in(events)[i]).turn == turn && picks_in(
                events,
            )[i].slot == slot,
{
    lemma_events(state, group, today, cycles, events);
    lemma_cycle(state, group, today, cycles, turn);
    let k = choose|k: int|
        0 <= k < cycles && due_fits(state, group, today, k) && #[trigger] due_week(
            state,
            group,
            today,
            k,
        ) == (turn.year as int, turn.week as int);
    lemma_turn_marked(state, group, turn);
    lemma_assigned(state, group, slot, turn);
    lemma_due(state, group, today, turn.year as int, turn.week as int);
    let turns = state.week_turns(group, today, turn.year, turn.week);
    assert(turns[turn.shift as int] == turn);
    law_every_turn_ahead_is_planned(state, group, today, cycles as nat, k, turn, slot);
    let plan = plan_for(state, group, today, cycles as nat);
    if planned(plan, slot, turn) {
        let i = choose|i: int|
            0 <= i < plan.picks.len() && (#[trigger] plan.picks[i]).turn == turn
                && plan.picks[i].slot == slot;
        assert(picks_in(events)[i] == plan.picks[i]);
    }
}

/// When planning drew anybody, and only then, it stores a new turn order last: all members, in the
/// order in which they have waited since they were drawn.
pub proof fn law_the_stored_order_is_that_of_waiting(
    state: State,
    group: CleaningGroup,
    today: Date,
    cycles: int,
    events: Seq<DomainEvent>,
)
    requires
        cycles >= 0,
        carries_out(events, group.id@, group_plan(state, group, today, cycles)),
        no_doubles(turn_order(state, group)),
    ensures
        (freezing(events) < events.len()) == anybody(picks_in(events)),
        freezing(events) < events.len() ==> {
            let queue = events.last()->queue@;
            &&& events.last()->RotationQueueSet_group_id@ == group.id@
            &&& in_line(turn_order(state, group), picks_in(events), queue)
            &&& forall|t: Seq<char>| #[trigger] says(queue, t) <==> says(group.member_ids@, t)
        },
{
    lemma_events(state, group, today, cycles, events);
    let plan = group_plan(state, group, today, cycles);
    let order = turn_order(state, group);
    let n = if group.member_ids@.len() == 0 {
        0nat
    } else {
        cycles as nat
    };
    lemma_plan_drawn(state, group, today, n);
    lemma_plan_just(state, group, today, n);
    lemma_plan_from(state, group, today, n);
    assert forall|t: Seq<char>| #[trigger] says(plan.queue, t) <==> says(group.member_ids@, t) by {
        law_turn_order_holds_the_members(state, group, t);
        if says(plan.queue, t) {
            let x = choose|x: int| 0 <= x < plan.queue.len() && (#[trigger] plan.queue[x])@ == t;
            assert(says(order, plan.queue[x]@));
        }
        if says(group.member_ids@, t) {
            assert(says(order, t));
        }
    }
}

} // verus!
