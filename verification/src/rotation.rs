//! What holds of the rotation as a whole: who is drawn, who keeps their place, and that planning
//! again changes nothing.

use vstd::prelude::*;

use crate::calendar::{is_week, lemma_weeks_in, lemma_whole_week, week_number, week_start, Date};
use crate::domain::{CleaningGroup, SlotAssignment};
use crate::lists::{first_index, lemma_first_index_is};
use crate::resolver::{
    among, busy, due_week, eligible, fill_slot, fill_slots, fill_turns, first_due_no, frozen,
    due_fits, group_plan, horizon_ok, lemma_says_push, not_among, people, pick_of, plan_for, preview, rewound,
    rotated, turn_order, weeks_ahead, with_missing, Pick, Plan,
};
use crate::rhythm::Turn;
use crate::sorting::{in_order, lemma_sorted_already, sorted};
use crate::state::State;
use crate::text::says;

verus! {

/// Whether no two strings of a list say the same.
pub open spec fn distinct(s: Seq<String>) -> bool {
    forall|i: int, j: int|
        0 <= i < j < s.len() ==> (#[trigger] s[i])@ != (#[trigger] s[j])@
}

// ── The turn order ───────────────────────────────────────────────────────────

proof fn lemma_with_missing(queue: Seq<String>, ids: Seq<String>)
    ensures
        forall|t: Seq<char>|
            #[trigger] says(with_missing(queue, ids), t) <==> says(queue, t) || says(ids, t),
        with_missing(queue, ids).len() >= queue.len(),
        with_missing(queue, ids).take(queue.len() as int) == queue,
        distinct(queue) ==> distinct(with_missing(queue, ids)),
    decreases ids.len(),
{
    let r = with_missing(queue, ids);
    if ids.len() == 0 {
        assert(queue.take(queue.len() as int) =~= queue);
    } else {
        let u = ids.drop_last();
        let x = ids.last();
        lemma_with_missing(queue, u);
        let before = with_missing(queue, u);
        assert(u.push(x) =~= ids);
        assert forall|t: Seq<char>| #[trigger] says(r, t) <==> says(queue, t) || says(ids, t) by {
            lemma_says_push(u, x, t);
            lemma_says_push(before, x, t);
            assert(says(before, t) <==> says(queue, t) || says(u, t));
        }
        if !says(before, x@) {
            assert(r.take(queue.len() as int) =~= before.take(queue.len() as int));
            if distinct(queue) {
                assert forall|i: int, j: int| 0 <= i < j < r.len() implies (#[trigger] r[i])@ != (
                #[trigger] r[j])@ by {
                    if j == before.len() {
                        assert(before[i]@ != x@);
                    } else {
                        assert(before[i]@ != before[j]@);
                    }
                }
            }
        }
    }
}

proof fn lemma_distinct_filter(s: Seq<String>, p: spec_fn(String) -> bool)
    requires
        distinct(s),
    ensures
        distinct(s.filter(p)),
        forall|t: Seq<char>|
            #[trigger] says(s.filter(p), t) ==> says(s, t),
    decreases s.len(),
{
    reveal(Seq::filter);
    if s.len() > 0 {
        let u = s.drop_last();
        let x = s.last();
        assert forall|i: int, j: int| 0 <= i < j < u.len() implies (#[trigger] u[i])@ != (
        #[trigger] u[j])@ by {
            assert(s[i]@ != s[j]@);
        }
        lemma_distinct_filter(u, p);
        let f = u.filter(p);
        let r = s.filter(p);
        assert(u.push(x) =~= s);
        assert forall|t: Seq<char>| #[trigger] says(r, t) implies says(s, t) by {
            lemma_says_push(f, x, t);
            lemma_says_push(u, x, t);
            assert(says(f, t) ==> says(u, t));
        }
        if p(x) {
            assert forall|i: int, j: int| 0 <= i < j < r.len() implies (#[trigger] r[i])@ != (
            #[trigger] r[j])@ by {
                if j == f.len() {
                    assert(f[i]@ == f[i]@);
                    assert(says(f, f[i]@));
                    assert(says(u, f[i]@));
                    let k = choose|k: int| 0 <= k < u.len() && (#[trigger] u[k])@ == f[i]@;
                    assert(s[k]@ != s[s.len() - 1]@);
                } else {
                    assert(f[i]@ != f[j]@);
                }
            }
        }
    }
}

/// What a filtered list says is what the list says of those it keeps.
proof fn lemma_says_filter(s: Seq<String>, others: Seq<String>, within: bool, t: Seq<char>)
    ensures
        says(s.filter(among(others)), t) <==> says(s, t) && says(others, t),
        says(s.filter(not_among(others)), t) <==> says(s, t) && !says(others, t),
    decreases s.len(),
{
    reveal(Seq::filter);
    if s.len() > 0 {
        let u = s.drop_last();
        let x = s.last();
        lemma_says_filter(u, others, within, t);
        assert(u.push(x) =~= s);
        lemma_says_push(u, x, t);
        lemma_says_push(u.filter(among(others)), x, t);
        lemma_says_push(u.filter(not_among(others)), x, t);
    }
}

/// The turn order of a group holds exactly its members.
pub proof fn law_turn_order_holds_the_members(state: State, group: CleaningGroup, t: Seq<char>)
    ensures
        says(turn_order(state, group), t) <==> says(group.member_ids@, t),
{
    let ids = group.member_ids@;
    let kept = group.rotation_queue@.filter(among(ids));
    if kept.len() == 0 && ids.len() > 0 {
        let k = crate::lists::count(
            state.slot_assignments@,
            crate::resolver::assigned_in(group.id@),
        ) as int % ids.len() as int;
        lemma_says_rotated(ids, k, t);
    } else {
        lemma_with_missing(kept, ids);
        lemma_says_filter(group.rotation_queue@, ids, true, t);
    }
}

proof fn lemma_says_rotated(s: Seq<String>, k: int, t: Seq<char>)
    requires
        0 <= k <= s.len(),
    ensures
        says(rotated(s, k), t) <==> says(s, t),
{
    let r = rotated(s, k);
    let n = s.len() as int;
    if says(s, t) {
        let i = choose|i: int| 0 <= i < s.len() && (#[trigger] s[i])@ == t;
        if i < k {
            assert(r[n - k + i]@ == t);
        } else {
            assert(r[i - k]@ == t);
        }
    }
    if says(r, t) {
        let i = choose|i: int| 0 <= i < r.len() && (#[trigger] r[i])@ == t;
        if i < n - k {
            assert(s[i + k]@ == t);
        } else {
            assert(s[i - (n - k)]@ == t);
        }
    }
}

/// Everyone who is queued and still a member keeps their relative place, in front of the members
/// who were not queued yet; and nobody is in the turn order twice when nobody was before.
pub proof fn law_turn_order_keeps_places(state: State, group: CleaningGroup)
    ensures
        ({
            let kept = group.rotation_queue@.filter(among(group.member_ids@));
            &&& kept.len() > 0 ==> turn_order(state, group).take(kept.len() as int) == kept
            &&& distinct(group.rotation_queue@) && distinct(group.member_ids@) ==> distinct(
                turn_order(state, group),
            )
        }),
{
    let ids = group.member_ids@;
    let kept = group.rotation_queue@.filter(among(ids));
    if distinct(group.rotation_queue@) {
        lemma_distinct_filter(group.rotation_queue@, among(ids));
    }
    if kept.len() == 0 && ids.len() > 0 {
        let k = crate::lists::count(
            state.slot_assignments@,
            crate::resolver::assigned_in(group.id@),
        ) as int % ids.len() as int;
        let r = rotated(ids, k);
        if distinct(ids) {
            assert forall|i: int, j: int| 0 <= i < j < r.len() implies (#[trigger] r[i])@ != (
            #[trigger] r[j])@ by {
                let n = ids.len() as int;
                let a = if i < n - k {
                    i + k
                } else {
                    i - (n - k)
                };
                let b = if j < n - k {
                    j + k
                } else {
                    j - (n - k)
                };
                assert(r[i] == ids[a] && r[j] == ids[b]);
                if a < b {
                    assert(ids[a]@ != ids[b]@);
                } else {
                    assert(ids[b]@ != ids[a]@);
                }
            }
        }
    } else {
        lemma_with_missing(kept, ids);
    }
}

// ── Keeping the queue ────────────────────────────────────────────────────────

proof fn lemma_slot_permutes(state: State, group: CleaningGroup, plan: Plan, turn: Turn, slot: int)
    ensures
        fill_slot(state, group, plan, turn, slot).queue.to_multiset() == plan.queue.to_multiset(),
{
    broadcast use vstd::seq_lib::group_to_multiset_ensures;

    let can = eligible(state, group, plan.used, turn.year, turn.week);
    lemma_first_index_is(plan.queue, can);
    let at = first_index(plan.queue, can);
    if !frozen(state, group, slot, turn) && at < plan.queue.len() {
        let id = plan.queue[at];
        assert(plan.queue.contains(id));
        assert(plan.queue.remove(at).push(id).to_multiset() =~= plan.queue.to_multiset());
    }
}

proof fn lemma_slots_permute(state: State, group: CleaningGroup, plan: Plan, turn: Turn, n: nat)
    ensures
        fill_slots(state, group, plan, turn, n).queue.to_multiset() == plan.queue.to_multiset(),
    decreases n,
{
    if n > 0 {
        lemma_slots_permute(state, group, plan, turn, (n - 1) as nat);
        lemma_slot_permutes(
            state,
            group,
            fill_slots(state, group, plan, turn, (n - 1) as nat),
            turn,
            n - 1,
        );
    }
}

proof fn lemma_turns_permute(state: State, group: CleaningGroup, plan: Plan, turns: Seq<Turn>)
    ensures
        fill_turns(state, group, plan, turns).queue.to_multiset() == plan.queue.to_multiset(),
    decreases turns.len(),
{
    if turns.len() > 0 {
        lemma_turns_permute(state, group, plan, turns.drop_last());
        lemma_slots_permute(
            state,
            group,
            fill_turns(state, group, plan, turns.drop_last()),
            turns.last(),
            group.slot_count(),
        );
    }
}

/// Drawing only moves people within the turn order: nobody enters it, leaves it or is doubled.
pub proof fn law_drawing_permutes_the_queue(
    state: State,
    group: CleaningGroup,
    today: Date,
    n: nat,
)
    ensures
        plan_for(state, group, today, n).queue.to_multiset() == turn_order(
            state,
            group,
        ).to_multiset(),
    decreases n,
{
    if n > 0 {
        law_drawing_permutes_the_queue(state, group, today, (n - 1) as nat);
        let week = due_week(state, group, today, n - 1);
        let plan = plan_for(state, group, today, (n - 1) as nat);
        lemma_turns_permute(
            state,
            group,
            Plan { used: busy(state, group, week.0 as i32, week.1 as u32), ..plan },
            state.week_turns(group, today, week.0 as i32, week.1 as u32),
        );
    }
}

/// Whether nobody of `who` was drawn.
pub open spec fn spares(plan: Plan, who: spec_fn(String) -> bool) -> bool {
    forall|i: int|
        0 <= i < plan.picks.len() && (#[trigger] plan.picks[i]).person is Some ==> !who(
            plan.picks[i].person->0,
        )
}

proof fn lemma_filter_remove(s: Seq<String>, at: int, p: spec_fn(String) -> bool)
    requires
        0 <= at < s.len(),
        !p(s[at]),
    ensures
        s.remove(at).push(s[at]).filter(p) == s.filter(p),
    decreases s.len(),
{
    reveal(Seq::filter);
    let r = s.remove(at);
    assert(r.push(s[at]).drop_last() =~= r);
    if at == s.len() - 1 {
        assert(r =~= s.drop_last());
    } else {
        let u = s.drop_last();
        lemma_filter_remove(u, at, p);
        assert(u.remove(at).push(u[at]).drop_last() =~= u.remove(at));
        assert(r.drop_last() =~= u.remove(at));
        assert(r.last() == s.last());
        assert(u[at] == s[at]);
        assert(u.remove(at).push(u[at]).filter(p) == u.remove(at).filter(p));
        assert(r.filter(p) == if p(s.last()) {
            u.remove(at).filter(p).push(s.last())
        } else {
            u.remove(at).filter(p)
        });
        assert(r.push(s[at]).filter(p) == r.filter(p));
    }
}

proof fn lemma_slot_spares(
    state: State,
    group: CleaningGroup,
    plan: Plan,
    turn: Turn,
    slot: int,
    who: spec_fn(String) -> bool,
)
    requires
        spares(fill_slot(state, group, plan, turn, slot), who),
    ensures
        spares(plan, who),
        fill_slot(state, group, plan, turn, slot).queue.filter(who) == plan.queue.filter(who),
{
    let next = fill_slot(state, group, plan, turn, slot);
    let can = eligible(state, group, plan.used, turn.year, turn.week);
    lemma_first_index_is(plan.queue, can);
    let at = first_index(plan.queue, can);
    assert forall|i: int|
        0 <= i < plan.picks.len() && (#[trigger] plan.picks[i]).person is Some implies !who(
        plan.picks[i].person->0,
    ) by {
        assert(next.picks[i] == plan.picks[i]);
    }
    if !frozen(state, group, slot, turn) && at < plan.queue.len() {
        assert(next.picks[next.picks.len() - 1].person == Some(plan.queue[at]));
        lemma_filter_remove(plan.queue, at, who);
    }
}

proof fn lemma_slots_spare(
    state: State,
    group: CleaningGroup,
    plan: Plan,
    turn: Turn,
    n: nat,
    who: spec_fn(String) -> bool,
)
    requires
        spares(fill_slots(state, group, plan, turn, n), who),
    ensures
        spares(plan, who),
        fill_slots(state, group, plan, turn, n).queue.filter(who) == plan.queue.filter(who),
    decreases n,
{
    if n > 0 {
        let before = fill_slots(state, group, plan, turn, (n - 1) as nat);
        lemma_slot_spares(state, group, before, turn, n - 1, who);
        lemma_slots_spare(state, group, plan, turn, (n - 1) as nat, who);
    }
}

proof fn lemma_turns_spare(
    state: State,
    group: CleaningGroup,
    plan: Plan,
    turns: Seq<Turn>,
    who: spec_fn(String) -> bool,
)
    requires
        spares(fill_turns(state, group, plan, turns), who),
    ensures
        spares(plan, who),
        fill_turns(state, group, plan, turns).queue.filter(who) == plan.queue.filter(who),
    decreases turns.len(),
{
    if turns.len() > 0 {
        let before = fill_turns(state, group, plan, turns.drop_last());
        lemma_slots_spare(state, group, before, turns.last(), group.slot_count(), who);
        lemma_turns_spare(state, group, plan, turns.drop_last(), who);
    }
}

/// Those who are not drawn, because they are away or it is not their turn yet, keep their place
/// in line among each other.
pub proof fn law_who_is_not_drawn_keeps_their_place(
    state: State,
    group: CleaningGroup,
    today: Date,
    n: nat,
    who: spec_fn(String) -> bool,
)
    requires
        spares(plan_for(state, group, today, n), who),
    ensures
        plan_for(state, group, today, n).queue.filter(who) == turn_order(state, group).filter(who),
    decreases n,
{
    if n > 0 {
        if due_fits(state, group, today, n - 1) {
            let week = due_week(state, group, today, n - 1);
            let plan = plan_for(state, group, today, (n - 1) as nat);
            let fresh = Plan { used: busy(state, group, week.0 as i32, week.1 as u32), ..plan };
            lemma_turns_spare(
                state,
                group,
                fresh,
                state.week_turns(group, today, week.0 as i32, week.1 as u32),
                who,
            );
            assert(spares(plan, who)) by {
                assert forall|i: int|
                    0 <= i < plan.picks.len() && (#[trigger] plan.picks[i]).person is Some
                        implies !who(plan.picks[i].person->0) by {
                    assert(fresh.picks[i] == plan.picks[i]);
                }
            }
        }
        law_who_is_not_drawn_keeps_their_place(state, group, today, (n - 1) as nat, who);
    }
}

// ── Who is drawn ─────────────────────────────────────────────────────────────

/// Whether the picks from `from` on are sound draws for a week: of turns that were not frozen, of
/// people who are neither away nor have a turn in the week, and nobody twice.
pub open spec fn sound(
    state: State,
    group: CleaningGroup,
    plan: Plan,
    from: int,
    year: i32,
    week: u32,
) -> bool {
    &&& 0 <= from <= plan.picks.len()
    &&& forall|t: Seq<char>|
        #[trigger] busy(state, group, year, week).contains(t) ==> plan.used.contains(t)
    &&& forall|i: int|
        from <= i < plan.picks.len() ==> {
            let p = #[trigger] plan.picks[i];
            &&& p.turn.year == year
            &&& p.turn.week == week
            &&& !frozen(state, group, p.slot, p.turn)
            &&& p.person is Some ==> {
                &&& plan.used.contains(p.person->0@)
                &&& !busy(state, group, year, week).contains(p.person->0@)
                &&& !state.away(p.person->0@, group.id@, year, week)
            }
        }
    &&& forall|i: int, j: int|
        from <= i < j < plan.picks.len() && (#[trigger] plan.picks[i]).person is Some && (
        #[trigger] plan.picks[j]).person is Some ==> plan.picks[i].person->0@
            != plan.picks[j].person->0@
}

proof fn lemma_slot_sound(
    state: State,
    group: CleaningGroup,
    plan: Plan,
    turn: Turn,
    slot: int,
    from: int,
)
    requires
        sound(state, group, plan, from, turn.year, turn.week),
    ensures
        sound(
            state,
            group,
            fill_slot(state, group, plan, turn, slot),
            from,
            turn.year,
            turn.week,
        ),
        plan.picks.len() <= fill_slot(state, group, plan, turn, slot).picks.len(),
        fill_slot(state, group, plan, turn, slot).picks.take(plan.picks.len() as int)
            == plan.picks,
{
    let next = fill_slot(state, group, plan, turn, slot);
    let can = eligible(state, group, plan.used, turn.year, turn.week);
    lemma_first_index_is(plan.queue, can);
    assert(next.picks.take(plan.picks.len() as int) =~= plan.picks);
    assert forall|i: int| from <= i < next.picks.len() implies {
        let p = #[trigger] next.picks[i];
        &&& p.turn.year == turn.year
        &&& p.turn.week == turn.week
        &&& !frozen(state, group, p.slot, p.turn)
        &&& p.person is Some ==> {
            &&& next.used.contains(p.person->0@)
            &&& !busy(state, group, turn.year, turn.week).contains(p.person->0@)
            &&& !state.away(p.person->0@, group.id@, turn.year, turn.week)
        }
    } by {
        if i < plan.picks.len() {
            assert(next.picks[i] == plan.picks[i]);
        }
    }
    assert forall|i: int, j: int|
        from <= i < j < next.picks.len() && (#[trigger] next.picks[i]).person is Some && (
        #[trigger] next.picks[j]).person is Some implies next.picks[i].person->0@
        != next.picks[j].person->0@ by {
        assert(next.picks[i] == plan.picks[i]);
        if j < plan.picks.len() {
            assert(next.picks[j] == plan.picks[j]);
        } else {
            assert(plan.used.contains(plan.picks[i].person->0@));
        }
    }
}

proof fn lemma_slots_sound(
    state: State,
    group: CleaningGroup,
    plan: Plan,
    turn: Turn,
    n: nat,
    from: int,
)
    requires
        sound(state, group, plan, from, turn.year, turn.week),
    ensures
        sound(
            state,
            group,
            fill_slots(state, group, plan, turn, n),
            from,
            turn.year,
            turn.week,
        ),
        plan.picks.len() <= fill_slots(state, group, plan, turn, n).picks.len(),
        fill_slots(state, group, plan, turn, n).picks.take(plan.picks.len() as int) == plan.picks,
    decreases n,
{
    if n > 0 {
        let before = fill_slots(state, group, plan, turn, (n - 1) as nat);
        lemma_slots_sound(state, group, plan, turn, (n - 1) as nat, from);
        lemma_slot_sound(state, group, before, turn, n - 1, from);
        let next = fill_slot(state, group, before, turn, n - 1);
        assert(next.picks.take(plan.picks.len() as int) =~= next.picks.take(
            before.picks.len() as int,
        ).take(plan.picks.len() as int));
    } else {
        assert(plan.picks.take(plan.picks.len() as int) =~= plan.picks);
    }
}

proof fn lemma_turns_sound(
    state: State,
    group: CleaningGroup,
    plan: Plan,
    turns: Seq<Turn>,
    from: int,
    year: i32,
    week: u32,
)
    requires
        sound(state, group, plan, from, year, week),
        forall|i: int|
            0 <= i < turns.len() ==> (#[trigger] turns[i]).year == year && turns[i].week == week,
    ensures
        sound(state, group, fill_turns(state, group, plan, turns), from, year, week),
        plan.picks.len() <= fill_turns(state, group, plan, turns).picks.len(),
        fill_turns(state, group, plan, turns).picks.take(plan.picks.len() as int) == plan.picks,
    decreases turns.len(),
{
    if turns.len() > 0 {
        let u = turns.drop_last();
        let last = turns.last();
        assert forall|i: int| 0 <= i < u.len() implies (#[trigger] u[i]).year == year && u[i].week
            == week by {
            assert(u[i] == turns[i]);
        }
        assert(turns[turns.len() - 1].year == year && turns[turns.len() - 1].week == week);
        lemma_turns_sound(state, group, plan, u, from, year, week);
        let before = fill_turns(state, group, plan, u);
        lemma_slots_sound(state, group, before, last, group.slot_count(), from);
        let next = fill_slots(state, group, before, last, group.slot_count());
        assert(next.picks.take(plan.picks.len() as int) =~= next.picks.take(
            before.picks.len() as int,
        ).take(plan.picks.len() as int));
    } else {
        assert(plan.picks.take(plan.picks.len() as int) =~= plan.picks);
    }
}

/// The draws for one more week are sound, and leave those of the weeks before as they are.
proof fn lemma_week_sound(state: State, group: CleaningGroup, today: Date, n: nat)
    ensures
        ({
            let week = due_week(state, group, today, n as int);
            let before = plan_for(state, group, today, n);
            let next = plan_for(state, group, today, n + 1);
            &&& if due_fits(state, group, today, n as int) {
                sound(
                    state,
                    group,
                    next,
                    before.picks.len() as int,
                    week.0 as i32,
                    week.1 as u32,
                )
            } else {
                next == before
            }
            &&& before.picks.len() <= next.picks.len()
            &&& next.picks.take(before.picks.len() as int) == before.picks
        }),
{
    let week = due_week(state, group, today, n as int);
    let (y, w) = (week.0 as i32, week.1 as u32);
    let before = plan_for(state, group, today, n);
    let fresh = Plan { used: busy(state, group, y, w), ..before };
    assert(before.picks.take(before.picks.len() as int) =~= before.picks);
    lemma_turns_sound(
        state,
        group,
        fresh,
        state.week_turns(group, today, y, w),
        before.picks.len() as int,
        y,
        w,
    );
}

/// The due weeks of a horizon that can be represented differ from one another.
proof fn lemma_due_weeks_differ(state: State, group: CleaningGroup, today: Date, n: int, i: int, j: int)
    requires
        today.in_week(),
        0 <= i < j < n,
        horizon_ok(state, group, today, n),
    ensures
        ({
            let a = due_week(state, group, today, i);
            let b = due_week(state, group, today, j);
            &&& (a.0 as i32 != b.0 as i32 || a.1 as u32 != b.1 as u32)
            &&& week_number(a.0, a.1) < week_number(b.0, b.1)
        }),
{
    lemma_due_week(state, group, today, n, i);
    lemma_due_week(state, group, today, n, j);
    let every = group.rhythm.interval();
    assert(i * every < j * every) by (nonlinear_arith)
        requires
            i < j,
            every >= 1,
    ;
}

/// A due week within a horizon that can be represented.
pub proof fn lemma_due_week(state: State, group: CleaningGroup, today: Date, n: int, i: int)
    requires
        today.in_week(),
        0 <= i < n,
        horizon_ok(state, group, today, n),
    ensures
        ({
            let a = due_week(state, group, today, i);
            let no = first_due_no(state, group, today) + i * group.rhythm.interval();
            &&& is_week(a.0, a.1)
            &&& week_number(a.0, a.1) == no
            &&& a.0 as i32 == a.0
            &&& a.1 as u32 == a.1
            &&& crate::calendar::is_year(a.0)
            &&& week_start(a.0, a.1) == 7 * no + 1
        }),
{
    let no = first_due_no(state, group, today) + i * group.rhythm.interval();
    let a = due_week(state, group, today, i);
    crate::calendar::lemma_week_at(no);
    crate::resolver::lemma_horizon(state, group, today, n, i);
    lemma_whole_week(7 * no + 1, a.0, a.1);
    lemma_weeks_in(a.0);
}

/// Where the picks of a plan stand.
pub open spec fn in_weeks(state: State, group: CleaningGroup, today: Date, plan: Plan, n: int) -> bool {
    forall|i: int|
        0 <= i < plan.picks.len() ==> exists|k: int|
            0 <= k < n && due_fits(state, group, today, k) && due_week(
                state,
                group,
                today,
                k,
            ).0 as i32 == (#[trigger] plan.picks[i]).turn.year && (#[trigger] due_week(
                state,
                group,
                today,
                k,
            )).1 as u32 == plan.picks[i].turn.week
}

pub proof fn lemma_in_weeks(state: State, group: CleaningGroup, today: Date, n: nat)
    ensures
        in_weeks(state, group, today, plan_for(state, group, today, n), n as int),
    decreases n,
{
    if n > 0 {
        let m = (n - 1) as nat;
        lemma_in_weeks(state, group, today, m);
        lemma_week_sound(state, group, today, m);
        let before = plan_for(state, group, today, m);
        let next = plan_for(state, group, today, n);
        assert forall|i: int| 0 <= i < next.picks.len() implies exists|k: int|
            0 <= k < n && due_fits(state, group, today, k) && due_week(
                state,
                group,
                today,
                k,
            ).0 as i32 == (#[trigger] next.picks[i]).turn.year && (#[trigger] due_week(
                state,
                group,
                today,
                k,
            )).1 as u32 == next.picks[i].turn.week by {
            if i < before.picks.len() {
                assert(next.picks.take(before.picks.len() as int)[i] == next.picks[i]);
                assert(before.picks[i] == next.picks[i]);
            } else {
                let week = due_week(state, group, today, m as int);
                assert(next.picks[i].turn.year == week.0 as i32);
            }
        }
    }
}

/// Who is drawn for a turn is not away in its week and had no turn in that week before, the turn
/// was not frozen, and nobody is drawn twice within one week.
pub proof fn law_nobody_is_drawn_twice_in_a_week(
    state: State,
    group: CleaningGroup,
    today: Date,
    n: nat,
)
    requires
        today.in_week(),
    ensures
        ({
            let picks = plan_for(state, group, today, n).picks;
            &&& forall|i: int|
                0 <= i < picks.len() ==> {
                    let p = #[trigger] picks[i];
                    &&& !frozen(state, group, p.slot, p.turn)
                    &&& p.person is Some ==> !busy(
                        state,
                        group,
                        p.turn.year,
                        p.turn.week,
                    ).contains(p.person->0@) && !state.away(
                        p.person->0@,
                        group.id@,
                        p.turn.year,
                        p.turn.week,
                    )
                }
            &&& forall|i: int, j: int|
                0 <= i < j < picks.len() && (#[trigger] picks[i]).person is Some && (
                #[trigger] picks[j]).person is Some && picks[i].turn.year == picks[j].turn.year
                    && picks[i].turn.week == picks[j].turn.week ==> picks[i].person->0@
                    != picks[j].person->0@
        }),
    decreases n,
{
    if n > 0 {
        let m = (n - 1) as nat;
        law_nobody_is_drawn_twice_in_a_week(state, group, today, m);
        lemma_week_sound(state, group, today, m);
        lemma_in_weeks(state, group, today, m);
        let before = plan_for(state, group, today, m).picks;
        let picks = plan_for(state, group, today, n).picks;
        let week = due_week(state, group, today, m as int);
        assert forall|i: int| 0 <= i < before.len() implies #[trigger] picks[i] == before[i] by {
            assert(picks.take(before.len() as int)[i] == picks[i]);
        }
        assert forall|i: int, j: int|
            0 <= i < j < picks.len() && (#[trigger] picks[i]).person is Some && (
            #[trigger] picks[j]).person is Some && picks[i].turn.year == picks[j].turn.year
                && picks[i].turn.week == picks[j].turn.week implies picks[i].person->0@
            != picks[j].person->0@ by {
            if j < before.len() {
                assert(picks[i] == before[i] && picks[j] == before[j]);
            } else if i < before.len() {
                assert(picks[i] == before[i]);
                let k = choose|k: int|
                    0 <= k < m && due_fits(state, group, today, k) && due_week(
                        state,
                        group,
                        today,
                        k,
                    ).0 as i32 == before[i].turn.year
                        && (#[trigger] due_week(state, group, today, k)).1 as u32
                        == before[i].turn.week;
                lemma_due_weeks_differ(state, group, today, n as int, k, m as int);
                assert(picks[j].turn.year == week.0 as i32);
            }
        }
    }
}

/// The turns that are drawn for can be represented, and were not frozen.
pub proof fn lemma_picks(state: State, group: CleaningGroup, today: Date, n: nat)
    requires
        today.in_week(),
    ensures
        forall|i: int|
            0 <= i < plan_for(state, group, today, n).picks.len() ==> {
                let p = #[trigger] plan_for(state, group, today, n).picks[i];
                p.turn.wf() && !frozen(state, group, p.slot, p.turn)
            },
{
    law_nobody_is_drawn_twice_in_a_week(state, group, today, n);
    lemma_in_weeks(state, group, today, n);
    let picks = plan_for(state, group, today, n).picks;
    assert forall|i: int| 0 <= i < picks.len() implies (#[trigger] picks[i]).turn.wf() by {
        let k = choose|k: int|
            0 <= k < n && due_fits(state, group, today, k) && due_week(
                state,
                group,
                today,
                k,
            ).0 as i32 == picks[i].turn.year && (#[trigger] due_week(state, group, today, k)).1
                as u32 == picks[i].turn.week;
        lemma_due_week(state, group, today, k + 1, k);
        let no = first_due_no(state, group, today) + k * group.rhythm.interval();
        crate::resolver::lemma_horizon(state, group, today, k + 1, k);
        lemma_whole_week(
            7 * no + 1,
            picks[i].turn.year as int,
            picks[i].turn.week as int,
        );
    }
}

// ── Every turn is planned ────────────────────────────────────────────────────

/// Whether one slot of one turn is among the picks.
pub open spec fn planned(plan: Plan, slot: int, turn: Turn) -> bool {
    exists|i: int|
        0 <= i < plan.picks.len() && (#[trigger] plan.picks[i]).turn == turn && plan.picks[i].slot
            == slot
}

proof fn lemma_slot_plans(
    state: State,
    group: CleaningGroup,
    plan: Plan,
    turn: Turn,
    slot: int,
)
    ensures
        frozen(state, group, slot, turn) || planned(
            fill_slot(state, group, plan, turn, slot),
            slot,
            turn,
        ),
        forall|s: int, t: Turn|
            #[trigger] planned(plan, s, t) ==> planned(
                fill_slot(state, group, plan, turn, slot),
                s,
                t,
            ),
{
    let next = fill_slot(state, group, plan, turn, slot);
    if !frozen(state, group, slot, turn) {
        let i = next.picks.len() - 1;
        assert(next.picks[i].turn == turn && next.picks[i].slot == slot);
    }
    assert forall|s: int, t: Turn| #[trigger] planned(plan, s, t) implies planned(next, s, t) by {
        let i = choose|i: int|
            0 <= i < plan.picks.len() && (#[trigger] plan.picks[i]).turn == t
                && plan.picks[i].slot == s;
        assert(next.picks[i] == plan.picks[i]);
    }
}

proof fn lemma_slots_plan(state: State, group: CleaningGroup, plan: Plan, turn: Turn, n: nat)
    ensures
        forall|s: int|
            0 <= s < n ==> #[trigger] frozen(state, group, s, turn) || planned(
                fill_slots(state, group, plan, turn, n),
                s,
                turn,
            ),
        forall|s: int, t: Turn|
            #[trigger] planned(plan, s, t) ==> planned(
                fill_slots(state, group, plan, turn, n),
                s,
                t,
            ),
    decreases n,
{
    if n > 0 {
        let before = fill_slots(state, group, plan, turn, (n - 1) as nat);
        lemma_slots_plan(state, group, plan, turn, (n - 1) as nat);
        lemma_slot_plans(state, group, before, turn, n - 1);
        assert forall|s: int| 0 <= s < n implies #[trigger] frozen(state, group, s, turn)
            || planned(fill_slots(state, group, plan, turn, n), s, turn) by {
            if s < n - 1 && !frozen(state, group, s, turn) {
                assert(planned(before, s, turn));
            }
        }
    }
}

proof fn lemma_turns_plan(state: State, group: CleaningGroup, plan: Plan, turns: Seq<Turn>)
    ensures
        forall|k: int, s: int|
            0 <= k < turns.len() && 0 <= s < group.slot_count() ==> #[trigger] frozen(
                state,
                group,
                s,
                turns[k],
            ) || planned(fill_turns(state, group, plan, turns), s, turns[k]),
        forall|s: int, t: Turn|
            #[trigger] planned(plan, s, t) ==> planned(
                fill_turns(state, group, plan, turns),
                s,
                t,
            ),
    decreases turns.len(),
{
    if turns.len() > 0 {
        let u = turns.drop_last();
        let before = fill_turns(state, group, plan, u);
        lemma_turns_plan(state, group, plan, u);
        lemma_slots_plan(state, group, before, turns.last(), group.slot_count());
        assert forall|k: int, s: int|
            0 <= k < turns.len() && 0 <= s < group.slot_count() implies #[trigger] frozen(
            state,
            group,
            s,
            turns[k],
        ) || planned(fill_turns(state, group, plan, turns), s, turns[k]) by {
            if k < u.len() {
                assert(u[k] == turns[k]);
                if !frozen(state, group, s, turns[k]) {
                    assert(planned(before, s, u[k]));
                }
            }
        }
    }
}

/// Every slot of every turn of the due weeks ahead that can be represented is either frozen
/// already or drawn for.
pub proof fn law_every_turn_ahead_is_planned(
    state: State,
    group: CleaningGroup,
    today: Date,
    n: nat,
    cycle: int,
    turn: Turn,
    slot: int,
)
    requires
        0 <= cycle < n,
        due_fits(state, group, today, cycle),
        state.week_turns(
            group,
            today,
            due_week(state, group, today, cycle).0 as i32,
            due_week(state, group, today, cycle).1 as u32,
        ).contains(turn),
        0 <= slot < group.slot_count(),
    ensures
        frozen(state, group, slot, turn) || planned(
            plan_for(state, group, today, n),
            slot,
            turn,
        ),
    decreases n,
{
    let m = (n - 1) as nat;
    let week = due_week(state, group, today, m as int);
    let before = plan_for(state, group, today, m);
    let fresh = Plan { used: busy(state, group, week.0 as i32, week.1 as u32), ..before };
    let turns = state.week_turns(group, today, week.0 as i32, week.1 as u32);
    lemma_turns_plan(state, group, fresh, turns);
    if cycle < m {
        law_every_turn_ahead_is_planned(state, group, today, m, cycle, turn, slot);
        if planned(before, slot, turn) && due_fits(state, group, today, m as int) {
            let i = choose|i: int|
                0 <= i < before.picks.len() && (#[trigger] before.picks[i]).turn == turn
                    && before.picks[i].slot == slot;
            assert(fresh.picks[i] == before.picks[i]);
            assert(planned(fresh, slot, turn));
        }
    } else {
        let k = choose|k: int| 0 <= k < turns.len() && turns[k] == turn;
        assert(frozen(state, group, slot, turns[k]) || planned(
            fill_turns(state, group, fresh, turns),
            slot,
            turns[k],
        ));
    }
}

// ── Planning again ───────────────────────────────────────────────────────────

proof fn lemma_slots_idle(state: State, group: CleaningGroup, plan: Plan, turn: Turn, n: nat)
    requires
        forall|s: int| 0 <= s < n ==> #[trigger] frozen(state, group, s, turn),
    ensures
        fill_slots(state, group, plan, turn, n) == plan,
    decreases n,
{
    if n > 0 {
        lemma_slots_idle(state, group, plan, turn, (n - 1) as nat);
        assert(frozen(state, group, n - 1, turn));
    }
}

proof fn lemma_turns_idle(state: State, group: CleaningGroup, plan: Plan, turns: Seq<Turn>)
    requires
        forall|k: int, s: int|
            0 <= k < turns.len() && 0 <= s < group.slot_count() ==> #[trigger] frozen(
                state,
                group,
                s,
                turns[k],
            ),
    ensures
        fill_turns(state, group, plan, turns) == plan,
    decreases turns.len(),
{
    if turns.len() > 0 {
        let u = turns.drop_last();
        assert forall|k: int, s: int|
            0 <= k < u.len() && 0 <= s < group.slot_count() implies #[trigger] frozen(
            state,
            group,
            s,
            u[k],
        ) by {
            assert(u[k] == turns[k]);
        }
        lemma_turns_idle(state, group, plan, u);
        assert forall|s: int| 0 <= s < group.slot_count() implies #[trigger] frozen(
            state,
            group,
            s,
            turns.last(),
        ) by {
            assert(frozen(state, group, s, turns[turns.len() - 1]));
        }
        lemma_slots_idle(state, group, plan, turns.last(), group.slot_count());
    }
}

/// Whether every slot of every turn of a week is frozen.
pub open spec fn week_frozen(
    state: State,
    group: CleaningGroup,
    today: Date,
    year: i32,
    week: u32,
) -> bool {
    forall|turn: Turn, slot: int|
        state.week_turns(group, today, year, week).contains(turn) && 0 <= slot
            < group.slot_count() ==> #[trigger] frozen(state, group, slot, turn)
}

/// Whether everything that the due weeks ahead hold is frozen.
pub open spec fn all_frozen(state: State, group: CleaningGroup, today: Date, n: nat) -> bool {
    forall|cycle: int|
        0 <= cycle < n && due_fits(state, group, today, cycle) ==> week_frozen(
            state,
            group,
            today,
            (#[trigger] due_week(state, group, today, cycle)).0 as i32,
            due_week(state, group, today, cycle).1 as u32,
        )
}

/// Where every turn of the due weeks ahead is frozen, planning draws nobody and leaves the turn
/// order alone.
pub proof fn law_frozen_weeks_are_left_alone(
    state: State,
    group: CleaningGroup,
    today: Date,
    n: nat,
)
    requires
        all_frozen(state, group, today, n),
    ensures
        plan_for(state, group, today, n).picks.len() == 0,
        !plan_for(state, group, today, n).drawn,
        plan_for(state, group, today, n).queue == turn_order(state, group),
    decreases n,
{
    if n > 0 {
        let m = (n - 1) as nat;
        law_frozen_weeks_are_left_alone(state, group, today, m);
        let week = due_week(state, group, today, m as int);
        let plan = plan_for(state, group, today, m);
        let turns = state.week_turns(group, today, week.0 as i32, week.1 as u32);
        if due_fits(state, group, today, m as int) {
            assert forall|k: int, s: int|
                0 <= k < turns.len() && 0 <= s < group.slot_count() implies #[trigger] frozen(
                state,
                group,
                s,
                turns[k],
            ) by {
                assert(turns.contains(turns[k]));
                assert(week_frozen(state, group, today, week.0 as i32, week.1 as u32));
            }
            lemma_turns_idle(
                state,
                group,
                Plan { used: busy(state, group, week.0 as i32, week.1 as u32), ..plan },
                turns,
            );
        }
    }
}

/// Whether a later state has everything frozen that an earlier one had, and that its plan for a
/// group drew, with the group cleaned in the same rhythm and slots.
pub open spec fn follows_plan(
    state: State,
    group: CleaningGroup,
    later: State,
    later_group: CleaningGroup,
    today: Date,
    n: nat,
) -> bool {
    &&& later_group.rhythm.same_as(group.rhythm)
    &&& later_group.slot_count() == group.slot_count()
    &&& later.start_no(today) == state.start_no(today)
    &&& forall|slot: int, turn: Turn|
        (frozen(state, group, slot, turn) || planned(
            plan_for(state, group, today, n),
            slot,
            turn,
        )) ==> #[trigger] frozen(later, later_group, slot, turn)
}

/// Once a plan has been carried out, planning the same weeks again draws nobody and leaves the
/// turn order alone.
pub proof fn law_planning_again_does_nothing(
    state: State,
    group: CleaningGroup,
    later: State,
    later_group: CleaningGroup,
    today: Date,
    n: nat,
)
    requires
        follows_plan(state, group, later, later_group, today, n),
    ensures
        plan_for(later, later_group, today, n).picks.len() == 0,
        !plan_for(later, later_group, today, n).drawn,
        plan_for(later, later_group, today, n).queue == turn_order(later, later_group),
{
    assert forall|cycle: int|
        0 <= cycle < n && due_fits(later, later_group, today, cycle) implies week_frozen(
        later,
        later_group,
        today,
        (#[trigger] due_week(later, later_group, today, cycle)).0 as i32,
        due_week(later, later_group, today, cycle).1 as u32,
    ) by {
        let week = due_week(later, later_group, today, cycle);
        assert(week == due_week(state, group, today, cycle));
        let (y, w) = (week.0 as i32, week.1 as u32);
        assert(later.week_turns(later_group, today, y, w) =~= state.week_turns(
            group,
            today,
            y,
            w,
        ));
        assert forall|turn: Turn, slot: int|
            later.week_turns(later_group, today, y, w).contains(turn) && 0 <= slot
                < later_group.slot_count() implies #[trigger] frozen(
            later,
            later_group,
            slot,
            turn,
        ) by {
            law_every_turn_ahead_is_planned(state, group, today, n, cycle, turn, slot);
        }
    }
    law_frozen_weeks_are_left_alone(later, later_group, today, n);
}

// ── Preview ──────────────────────────────────────────────────────────────────

/// Whether a pick comes before another: by week, shift and slot.
pub open spec fn earlier(a: Pick, b: Pick) -> bool {
    let x = week_number(a.turn.year as int, a.turn.week as int);
    let y = week_number(b.turn.year as int, b.turn.week as int);
    x < y || (x == y && (a.turn.shift < b.turn.shift || (a.turn.shift == b.turn.shift && a.slot
        < b.slot)))
}

/// Whether picks come one after another.
pub open spec fn chronological(picks: Seq<Pick>) -> bool {
    forall|i: int, j: int|
        0 <= i < j < picks.len() ==> earlier(#[trigger] picks[i], #[trigger] picks[j])
}

/// Whether all picks come before one for this slot of this turn.
spec fn all_earlier(picks: Seq<Pick>, turn: Turn, slot: int) -> bool {
    forall|i: int|
        0 <= i < picks.len() ==> earlier(
            #[trigger] picks[i],
            Pick { turn, slot, person: None },
        )
}

proof fn lemma_slots_chronological(
    state: State,
    group: CleaningGroup,
    plan: Plan,
    turn: Turn,
    n: nat,
)
    requires
        chronological(plan.picks),
        all_earlier(plan.picks, turn, 0),
    ensures
        chronological(fill_slots(state, group, plan, turn, n).picks),
        all_earlier(fill_slots(state, group, plan, turn, n).picks, turn, n as int),
    decreases n,
{
    if n > 0 {
        let before = fill_slots(state, group, plan, turn, (n - 1) as nat);
        lemma_slots_chronological(state, group, plan, turn, (n - 1) as nat);
        let next = fill_slot(state, group, before, turn, n - 1);
        assert forall|i: int, j: int| 0 <= i < j < next.picks.len() implies earlier(
            #[trigger] next.picks[i],
            #[trigger] next.picks[j],
        ) by {
            assert(next.picks[i] == before.picks[i]);
            if j < before.picks.len() {
                assert(next.picks[j] == before.picks[j]);
            }
        }
        assert forall|i: int| 0 <= i < next.picks.len() implies earlier(
            #[trigger] next.picks[i],
            Pick { turn, slot: n as int, person: None },
        ) by {
            if i < before.picks.len() {
                assert(next.picks[i] == before.picks[i]);
            }
        }
    }
}

proof fn lemma_turns_chronological(
    state: State,
    group: CleaningGroup,
    plan: Plan,
    turns: Seq<Turn>,
    year: i32,
    week: u32,
)
    requires
        chronological(plan.picks),
        forall|i: int|
            0 <= i < plan.picks.len() ==> week_number(
                (#[trigger] plan.picks[i]).turn.year as int,
                plan.picks[i].turn.week as int,
            ) < week_number(year as int, week as int),
        turns.len() <= 7,
        forall|i: int|
            0 <= i < turns.len() ==> (#[trigger] turns[i]) == (Turn { year, week, shift: i as u8 }),
    ensures
        chronological(fill_turns(state, group, plan, turns).picks),
        forall|i: int|
            #![trigger fill_turns(state, group, plan, turns).picks[i]]
            0 <= i < fill_turns(state, group, plan, turns).picks.len() ==> {
                let a = fill_turns(state, group, plan, turns).picks[i];
                let x = week_number(a.turn.year as int, a.turn.week as int);
                let y = week_number(year as int, week as int);
                x < y || (x == y && a.turn.shift < turns.len())
            },
    decreases turns.len(),
{
    if turns.len() > 0 {
        let u = turns.drop_last();
        let last = turns.last();
        assert forall|i: int| 0 <= i < u.len() implies (#[trigger] u[i]) == (Turn {
            year,
            week,
            shift: i as u8,
        }) by {
            assert(u[i] == turns[i]);
        }
        assert(turns[turns.len() - 1] == (Turn { year, week, shift: (turns.len() - 1) as u8 }));
        lemma_turns_chronological(state, group, plan, u, year, week);
        let before = fill_turns(state, group, plan, u);
        lemma_slots_chronological(state, group, before, last, group.slot_count());
        let next = fill_slots(state, group, before, last, group.slot_count());
        assert forall|i: int|
            #![trigger next.picks[i]]
            0 <= i < next.picks.len() implies {
            let a = next.picks[i];
            let x = week_number(a.turn.year as int, a.turn.week as int);
            let y = week_number(year as int, week as int);
            x < y || (x == y && a.turn.shift < turns.len())
        } by {
            assert(earlier(
                next.picks[i],
                Pick { turn: last, slot: group.slot_count() as int, person: None },
            ));
        }
    }
}

/// Turns are planned in the order of their weeks, shifts and slots, each at most once.
pub proof fn law_planning_is_chronological(
    state: State,
    group: CleaningGroup,
    today: Date,
    n: nat,
)
    requires
        today.in_week(),
    ensures
        chronological(plan_for(state, group, today, n).picks),
        n > 0 ==> forall|i: int|
            #![trigger plan_for(state, group, today, n).picks[i]]
            0 <= i < plan_for(state, group, today, n).picks.len() ==> week_number(
                plan_for(state, group, today, n).picks[i].turn.year as int,
                plan_for(state, group, today, n).picks[i].turn.week as int,
            ) <= first_due_no(state, group, today) + (n - 1) * group.rhythm.interval(),
    decreases n,
{
    if n > 0 {
        let m = (n - 1) as nat;
        let every = group.rhythm.interval();
        law_planning_is_chronological(state, group, today, m);
        if due_fits(state, group, today, m as int) {
            lemma_due_week(state, group, today, n as int, m as int);
        }
        let week = due_week(state, group, today, m as int);
        let (y, w) = (week.0 as i32, week.1 as u32);
        let before = plan_for(state, group, today, m);
        let fresh = Plan { used: busy(state, group, y, w), ..before };
        let turns = state.week_turns(group, today, y, w);
        assert((m - 1) * every < m * every) by (nonlinear_arith)
            requires
                every >= 1,
        ;
        if due_fits(state, group, today, m as int) {
            assert forall|i: int| 0 <= i < fresh.picks.len() implies week_number(
                (#[trigger] fresh.picks[i]).turn.year as int,
                fresh.picks[i].turn.week as int,
            ) < week_number(y as int, w as int) by {
                assert(fresh.picks[i] == before.picks[i]);
            }
            assert(turns.len() <= 7) by {
                crate::rhythm::lemma_shift_count(group.rhythm);
            }
            lemma_turns_chronological(state, group, fresh, turns, y, w);
        }
    }
}

/// The picks of a plan for fewer weeks are the first ones of a plan for more.
pub proof fn law_planning_further_keeps_what_was_planned(
    state: State,
    group: CleaningGroup,
    today: Date,
    n: nat,
    more: nat,
)
    requires
        n <= more,
    ensures
        plan_for(state, group, today, n).picks.len() <= plan_for(
            state,
            group,
            today,
            more,
        ).picks.len(),
        plan_for(state, group, today, more).picks.take(
            plan_for(state, group, today, n).picks.len() as int,
        ) == plan_for(state, group, today, n).picks,
    decreases more - n,
{
    let a = plan_for(state, group, today, n).picks;
    if n == more {
        assert(a.take(a.len() as int) =~= a);
    } else {
        let m = (more - 1) as nat;
        law_planning_further_keeps_what_was_planned(state, group, today, n, m);
        lemma_week_sound(state, group, today, m);
        let b = plan_for(state, group, today, m).picks;
        let c = plan_for(state, group, today, more).picks;
        assert(c.take(a.len() as int) =~= c.take(b.len() as int).take(a.len() as int));
    }
}

/// Whoever is drawn for a turn is who the preview of that turn named.
pub proof fn law_preview_agrees_with_the_plan(
    state: State,
    group: CleaningGroup,
    today: Date,
    n: nat,
    i: int,
)
    requires
        today.in_week(),
        group.member_ids@.len() > 0,
        0 <= i < plan_for(state, group, today, n).picks.len(),
        plan_for(state, group, today, n).picks[i].person is Some,
    ensures
        preview(
            state,
            group,
            plan_for(state, group, today, n).picks[i].slot,
            plan_for(state, group, today, n).picks[i].turn,
            today,
        ) == plan_for(state, group, today, n).picks[i].person,
{
    let picks = plan_for(state, group, today, n).picks;
    let pick = picks[i];
    let every = group.rhythm.interval();
    let first = first_due_no(state, group, today);
    lemma_in_weeks(state, group, today, n);
    let k = choose|k: int|
        0 <= k < n && due_fits(state, group, today, k) && due_week(state, group, today, k).0 as i32
            == pick.turn.year && (#[trigger] due_week(state, group, today, k)).1 as u32
            == pick.turn.week;
    lemma_due_week(state, group, today, k + 1, k);
    let ahead = weeks_ahead(state, group, today, pick.turn);
    assert(0 <= k * every) by (nonlinear_arith)
        requires
            k >= 0,
            every >= 1,
    ;
    assert(ahead == k * every);
    vstd::arithmetic::div_mod::lemma_div_multiples_vanish(k, every);
    assert(k * every == every * k) by (nonlinear_arith);
    assert(ahead / every == k);
    let shorter = plan_for(state, group, today, (k + 1) as nat).picks;
    law_planning_further_keeps_what_was_planned(state, group, today, (k + 1) as nat, n);
    law_planning_is_chronological(state, group, today, n);
    // The pick lies within the weeks that the preview looks at.
    if i >= shorter.len() {
        lemma_later_picks(state, group, today, (k + 1) as nat, n, i);
        assert(false);
    }
    assert(shorter[i] == pick) by {
        assert(picks.take(shorter.len() as int)[i] == picks[i]);
    }
    let p = pick_of(pick.slot, pick.turn);
    lemma_first_index_is(shorter, p);
    let j = first_index(shorter, p);
    assert(p(shorter[i]));
    assert(j <= i);
    if j < i {
        assert(picks.take(shorter.len() as int)[j] == picks[j]);
        assert(earlier(picks[j], picks[i]));
        assert(false);
    }
    assert(group_plan(state, group, today, k + 1).picks == shorter);
}

/// The picks that a longer plan adds are for later weeks.
proof fn lemma_later_picks(state: State, group: CleaningGroup, today: Date, n: nat, more: nat, i: int)
    requires
        today.in_week(),
        0 < n <= more,
        plan_for(state, group, today, n).picks.len() <= i < plan_for(
            state,
            group,
            today,
            more,
        ).picks.len(),
    ensures
        week_number(
            plan_for(state, group, today, more).picks[i].turn.year as int,
            plan_for(state, group, today, more).picks[i].turn.week as int,
        ) > first_due_no(state, group, today) + (n - 1) * group.rhythm.interval(),
    decreases more - n,
{
    if n < more {
        let m = (more - 1) as nat;
        let every = group.rhythm.interval();
        lemma_week_sound(state, group, today, m);
        let b = plan_for(state, group, today, m).picks;
        let c = plan_for(state, group, today, more).picks;
        if i < b.len() {
            assert(c.take(b.len() as int)[i] == c[i]);
            lemma_later_picks(state, group, today, n, m, i);
        } else {
            assert(due_fits(state, group, today, m as int));
            lemma_due_week(state, group, today, more as int, m as int);
            let week = due_week(state, group, today, m as int);
            assert(c[i].turn.year == week.0 as i32 && c[i].turn.week == week.1 as u32);
            assert((n - 1) * every < m * every) by (nonlinear_arith)
                requires
                    n - 1 < m,
                    every >= 1,
            ;
        }
    }
}

// ── Rewinding ────────────────────────────────────────────────────────────────

proof fn lemma_people(s: Seq<SlotAssignment>)
    ensures
        distinct(people(s)),
    decreases s.len(),
{
    if s.len() > 0 {
        let u = s.drop_last();
        lemma_people(u);
        let r = people(u);
        match s.last().person_id {
            Some(id) => {
                if !says(r, id@) {
                    let n = r.push(id);
                    assert forall|i: int, j: int| 0 <= i < j < n.len() implies (
                    #[trigger] n[i])@ != (#[trigger] n[j])@ by {
                        if j == r.len() {
                            assert(r[i]@ != id@);
                        } else {
                            assert(r[i]@ != r[j]@);
                        }
                    }
                }
            },
            None => {},
        }
    }
}

/// Rewinding keeps exactly those who are in the turn order, each once when each was there once.
pub proof fn law_rewinding_keeps_the_members(queue: Seq<String>, dropped: Seq<SlotAssignment>)
    ensures
        forall|t: Seq<char>| #[trigger] says(rewound(queue, dropped), t) <==> says(queue, t),
        distinct(queue) ==> distinct(rewound(queue, dropped)),
{
    let front = people(sorted(dropped));
    let a = front.filter(among(queue));
    let b = queue.filter(not_among(front));
    let r = a + b;
    assert forall|t: Seq<char>| #[trigger] says(r, t) <==> says(queue, t) by {
        lemma_says_filter(front, queue, true, t);
        lemma_says_filter(queue, front, false, t);
        lemma_says_concat(a, b, t);
    }
    if distinct(queue) {
        lemma_people(sorted(dropped));
        lemma_distinct_filter(front, among(queue));
        lemma_distinct_filter(queue, not_among(front));
        assert forall|i: int, j: int| 0 <= i < j < r.len() implies (#[trigger] r[i])@ != (
        #[trigger] r[j])@ by {
            if j < a.len() {
                assert(a[i]@ != a[j]@);
            } else if i >= a.len() {
                assert(b[i - a.len()]@ != b[j - a.len()]@);
            } else {
                let t = a[i]@;
                assert(says(a, t));
                lemma_says_filter(front, queue, true, t);
                lemma_says_filter(queue, front, false, t);
                assert(says(b, b[j - a.len()]@));
            }
        }
    }
}

proof fn lemma_says_concat(a: Seq<String>, b: Seq<String>, t: Seq<char>)
    ensures
        says(a + b, t) <==> says(a, t) || says(b, t),
{
    let r = a + b;
    if says(a, t) {
        let i = choose|i: int| 0 <= i < a.len() && (#[trigger] a[i])@ == t;
        assert(r[i]@ == t);
    }
    if says(b, t) {
        let i = choose|i: int| 0 <= i < b.len() && (#[trigger] b[i])@ == t;
        assert(r[a.len() + i]@ == t);
    }
    if says(r, t) {
        let i = choose|i: int| 0 <= i < r.len() && (#[trigger] r[i])@ == t;
        if i < a.len() {
            assert(a[i]@ == t);
        } else {
            assert(b[i - a.len()]@ == t);
        }
    }
}

/// The people of assignments that go, in order, to the first ones of a list are those ones.
proof fn lemma_people_of(s: Seq<SlotAssignment>, queue: Seq<String>)
    requires
        distinct(queue),
        s.len() <= queue.len(),
        forall|i: int| 0 <= i < s.len() ==> (#[trigger] s[i]).person_id == Some(queue[i]),
    ensures
        people(s) == queue.take(s.len() as int),
    decreases s.len(),
{
    if s.len() == 0 {
        assert(queue.take(0) =~= Seq::<String>::empty());
    } else {
        let u = s.drop_last();
        let k = u.len() as int;
        assert forall|i: int| 0 <= i < u.len() implies (#[trigger] u[i]).person_id == Some(
            queue[i],
        ) by {
            assert(u[i] == s[i]);
        }
        lemma_people_of(u, queue);
        let r = people(u);
        assert(s[k].person_id == Some(queue[k]));
        if says(r, queue[k]@) {
            let i = choose|i: int| 0 <= i < r.len() && (#[trigger] r[i])@ == queue[k]@;
            assert(queue[i]@ != queue[k]@);
        }
        assert(queue.take(k + 1) =~= queue.take(k).push(queue[k]));
    }
}

proof fn lemma_filter_all(s: Seq<String>, p: spec_fn(String) -> bool)
    requires
        forall|i: int| 0 <= i < s.len() ==> p(#[trigger] s[i]),
    ensures
        s.filter(p) == s,
    decreases s.len(),
{
    reveal(Seq::filter);
    if s.len() > 0 {
        let u = s.drop_last();
        assert forall|i: int| 0 <= i < u.len() implies p(#[trigger] u[i]) by {
            assert(u[i] == s[i]);
        }
        lemma_filter_all(u, p);
        assert(p(s[s.len() - 1]));
        assert(u.push(s.last()) =~= s);
    }
}

proof fn lemma_filter_none(s: Seq<String>, p: spec_fn(String) -> bool)
    requires
        forall|i: int| 0 <= i < s.len() ==> !p(#[trigger] s[i]),
    ensures
        s.filter(p) == Seq::<String>::empty(),
    decreases s.len(),
{
    reveal(Seq::filter);
    if s.len() > 0 {
        let u = s.drop_last();
        assert forall|i: int| 0 <= i < u.len() implies !p(#[trigger] u[i]) by {
            assert(u[i] == s[i]);
        }
        lemma_filter_none(u, p);
        assert(!p(s[s.len() - 1]));
    }
}

proof fn lemma_filter_concat(a: Seq<String>, b: Seq<String>, p: spec_fn(String) -> bool)
    ensures
        (a + b).filter(p) == a.filter(p) + b.filter(p),
    decreases b.len(),
{
    reveal(Seq::filter);
    if b.len() == 0 {
        assert(a + b =~= a);
        assert(a.filter(p) + b.filter(p) =~= a.filter(p));
    } else {
        lemma_filter_concat(a, b.drop_last(), p);
        assert((a + b).drop_last() =~= a + b.drop_last());
        assert((a + b).filter(p) =~= a.filter(p) + b.filter(p));
    }
}

/// Rewinding undoes draws: when the first ones of a turn order were drawn one after another and
/// their assignments are dropped, the turn order is what it was.
pub proof fn law_rewinding_undoes_draws(queue: Seq<String>, dropped: Seq<SlotAssignment>)
    requires
        distinct(queue),
        dropped.len() <= queue.len(),
        in_order(dropped),
        forall|i: int| 0 <= i < dropped.len() ==> (#[trigger] dropped[i]).person_id == Some(queue[i]),
    ensures
        rewound(rotated(queue, dropped.len() as int), dropped) == queue,
{
    let k = dropped.len() as int;
    lemma_sorted_already(dropped);
    lemma_people_of(dropped, queue);
    let front = queue.take(k);
    let rest = queue.skip(k);
    let turned = rotated(queue, k);
    assert(people(sorted(dropped)) == front);
    assert forall|i: int| 0 <= i < front.len() implies among(turned)(#[trigger] front[i]) by {
        assert(turned[queue.len() - k + i] == front[i]);
    }
    lemma_filter_all(front, among(turned));
    assert forall|i: int| 0 <= i < rest.len() implies not_among(front)(#[trigger] rest[i]) by {
        if says(front, rest[i]@) {
            let j = choose|j: int| 0 <= j < front.len() && (#[trigger] front[j])@ == rest[i]@;
            assert(queue[j]@ != queue[k + i]@);
        }
    }
    lemma_filter_all(rest, not_among(front));
    assert forall|i: int| 0 <= i < front.len() implies !not_among(front)(#[trigger] front[i]) by {
        assert(front[i]@ == front[i]@);
    }
    lemma_filter_none(front, not_among(front));
    lemma_filter_concat(rest, front, not_among(front));
    assert(turned.filter(not_among(front)) =~= rest);
    assert(front + rest =~= queue);
}

} // verus!
