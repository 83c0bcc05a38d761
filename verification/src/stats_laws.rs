//! What the statistics count.

use vstd::prelude::*;

use crate::analytics::{
    counts, duties_of, is_stats_of, planned_duties, planned_duty, recorded_duty, same_duty, tally,
    with_recorded, Duty, PersonStats,
};
use crate::calendar::Date;
use crate::domain::{slot_with_id, SlotAssignment};
use crate::lists::{
    count, first_index, lemma_filter, lemma_filter_step, lemma_first_index_is, lemma_some, some,
};
use crate::plain::{first_mark, is_marked, lemma_marked};
use crate::state::{Completion, State};
use crate::text::says;

verus! {

// ── What became of a duty ────────────────────────────────────────────────────

/// A duty whose mark says that somebody cleaned it.
pub open spec fn cleaned_by_oneself(state: State, person_id: Seq<char>) -> spec_fn(Duty) -> bool {
    |d: Duty|
        exists|i: int| #[trigger]
            first_mark(state, state.group(d.group_id@)->0, d.slot_index as int, d.turn, i)
                && !state.completions@[i].skipped && state.completions@[i].completed_by_id@
                == person_id
}

/// A duty whose mark says that somebody else cleaned it.
pub open spec fn cleaned_by_another(state: State, person_id: Seq<char>) -> spec_fn(Duty) -> bool {
    |d: Duty|
        exists|i: int| #[trigger]
            first_mark(state, state.group(d.group_id@)->0, d.slot_index as int, d.turn, i)
                && !state.completions@[i].skipped && state.completions@[i].completed_by_id@
                != person_id
}

/// A duty whose mark is an excuse.
pub open spec fn was_excused(state: State) -> spec_fn(Duty) -> bool {
    |d: Duty|
        exists|i: int| #[trigger]
            first_mark(state, state.group(d.group_id@)->0, d.slot_index as int, d.turn, i)
                && state.completions@[i].skipped
}

/// A duty without a mark.
pub open spec fn was_missed(state: State) -> spec_fn(Duty) -> bool {
    |d: Duty| !is_marked(state, state.group(d.group_id@)->0, d.slot_index as int, d.turn)
}

/// What became of one duty is exactly one of the four things.
proof fn lemma_outcome(state: State, person_id: Seq<char>, d: Duty)
    ensures
        ({
            let g = state.group(d.group_id@)->0;
            match state.completion(g, d.slot_index as int, d.turn) {
                Some(c) => {
                    &&& was_excused(state)(d) == c.skipped
                    &&& cleaned_by_oneself(state, person_id)(d) == (!c.skipped
                        && c.completed_by_id@ == person_id)
                    &&& cleaned_by_another(state, person_id)(d) == (!c.skipped
                        && c.completed_by_id@ != person_id)
                    &&& !was_missed(state)(d)
                },
                None => {
                    &&& !was_excused(state)(d)
                    &&& !cleaned_by_oneself(state, person_id)(d)
                    &&& !cleaned_by_another(state, person_id)(d)
                    &&& was_missed(state)(d)
                },
            }
        }),
{
    let g = state.group(d.group_id@)->0;
    let k = d.slot_index as int;
    lemma_marked(state, g, k, d.turn);
    if is_marked(state, g, k, d.turn) {
        let n = choose|n: int| #[trigger] first_mark(state, g, k, d.turn, n);
        assert(state.completion(g, k, d.turn) == Some(state.completions@[n]));
    }
}

/// Counting in one element more.
proof fn lemma_count_last<A>(s: Seq<A>, p: spec_fn(A) -> bool)
    requires
        s.len() > 0,
    ensures
        count(s, p) == count(s.drop_last(), p) + if p(s.last()) {
            1nat
        } else {
            0nat
        },
{
    let n = s.len() - 1;
    lemma_filter_step(s, p, n);
    assert(s.take(n) =~= s.drop_last());
    assert(s.take(n + 1) =~= s);
}

proof fn lemma_count_none<A>(s: Seq<A>, p: spec_fn(A) -> bool)
    requires
        s.len() == 0,
    ensures
        count(s, p) == 0,
{
    reveal(Seq::filter);
}

/// The numbers of a tally are the numbers of duties with each outcome.
proof fn lemma_tally_counts(state: State, person_id: Seq<char>, ds: Seq<Duty>)
    ensures
        tally(state, person_id, ds).completed == count(ds, cleaned_by_oneself(state, person_id)),
        tally(state, person_id, ds).skipped == count(ds, was_excused(state)),
        tally(state, person_id, ds).missed == count(ds, was_missed(state)),
        count(ds, cleaned_by_oneself(state, person_id)) + count(
            ds,
            cleaned_by_another(state, person_id),
        ) + count(ds, was_excused(state)) + count(ds, was_missed(state)) == ds.len(),
    decreases ds.len(),
{
    let p = cleaned_by_oneself(state, person_id);
    let q = cleaned_by_another(state, person_id);
    if ds.len() == 0 {
        lemma_count_none(ds, p);
        lemma_count_none(ds, q);
        lemma_count_none(ds, was_excused(state));
        lemma_count_none(ds, was_missed(state));
    } else {
        lemma_tally_counts(state, person_id, ds.drop_last());
        lemma_outcome(state, person_id, ds.last());
        lemma_count_last(ds, p);
        lemma_count_last(ds, q);
        lemma_count_last(ds, was_excused(state));
        lemma_count_last(ds, was_missed(state));
    }
}

/// Somebody's numbers are the numbers of their duties by what the marks say: cleaned by themselves,
/// excused, or without a mark. Together with the duties that others cleaned they are all of them.
pub proof fn law_person_stats_count_the_marks(
    s: PersonStats,
    state: State,
    person_id: Seq<char>,
    today: Date,
)
    requires
        is_stats_of(s, state, person_id, today),
    ensures
        ({
            let ds = duties_of(state, person_id, today);
            &&& s.completed == count(ds, cleaned_by_oneself(state, person_id))
            &&& s.skipped == count(ds, was_excused(state))
            &&& s.missed == count(ds, was_missed(state))
            &&& s.completed + count(ds, cleaned_by_another(state, person_id)) + s.skipped + s.missed
                == ds.len()
            &&& s.due_weeks == s.completed + count(ds, cleaned_by_another(state, person_id))
                + s.missed
        }),
{
    lemma_tally_counts(state, person_id, duties_of(state, person_id, today));
}

/// Whether the last duties are a row from a place on: none of them was missed or cleaned by
/// somebody else, and the one before the row was.
pub open spec fn is_row(state: State, person_id: Seq<char>, ds: Seq<Duty>, from: int) -> bool {
    &&& 0 <= from <= ds.len()
    &&& forall|i: int|
        from <= i < ds.len() ==> !was_missed(state)(#[trigger] ds[i]) && !cleaned_by_another(
            state,
            person_id,
        )(ds[i])
    &&& from > 0 ==> was_missed(state)(ds[from - 1]) || cleaned_by_another(state, person_id)(
        ds[from - 1],
    )
}

proof fn lemma_row(state: State, person_id: Seq<char>, ds: Seq<Duty>) -> (from: int)
    ensures
        is_row(state, person_id, ds, from),
        tally(state, person_id, ds).streak == count(
            ds.skip(from),
            cleaned_by_oneself(state, person_id),
        ),
    decreases ds.len(),
{
    let p = cleaned_by_oneself(state, person_id);
    if ds.len() == 0 {
        lemma_count_none(ds.skip(0), p);
        0
    } else {
        let u = ds.drop_last();
        let d = ds.last();
        lemma_outcome(state, person_id, d);
        if was_missed(state)(d) || cleaned_by_another(state, person_id)(d) {
            lemma_count_none(ds.skip(ds.len() as int), p);
            ds.len() as int
        } else {
            let from = lemma_row(state, person_id, u);
            assert forall|i: int| from <= i < ds.len() implies !was_missed(state)(
                #[trigger] ds[i],
            ) && !cleaned_by_another(state, person_id)(ds[i]) by {
                if i < u.len() {
                    assert(u[i] == ds[i]);
                }
            }
            assert(ds.skip(from).drop_last() =~= u.skip(from));
            assert(ds.skip(from).last() == d);
            lemma_count_last(ds.skip(from), p);
            from
        }
    }
}

/// Somebody's streak is the number of duties that they cleaned themselves since the last one that
/// was missed or that somebody else cleaned.
pub proof fn law_streak_counts_since_the_last_gap(
    s: PersonStats,
    state: State,
    person_id: Seq<char>,
    today: Date,
    from: int,
)
    requires
        is_stats_of(s, state, person_id, today),
        is_row(state, person_id, duties_of(state, person_id, today), from),
    ensures
        s.streak == count(
            duties_of(state, person_id, today).skip(from),
            cleaned_by_oneself(state, person_id),
        ),
{
    let ds = duties_of(state, person_id, today);
    let n = lemma_row(state, person_id, ds);
    if n < from {
        assert(!was_missed(state)(ds[from - 1]));
    } else if from < n {
        assert(!was_missed(state)(ds[n - 1]));
    }
}

// ── Whose duties ─────────────────────────────────────────────────────────────

/// Whether a slot of a turn is somebody's by the plan: an assignment in an active group says so.
pub open spec fn is_planned_for(state: State, person_id: Seq<char>, d: Duty) -> bool {
    exists|i: int| 0 <= i < state.slot_assignments@.len() && plans_for(
        state,
        #[trigger] state.slot_assignments@[i],
        person_id,
        d,
    )
}

/// Whether an assignment plans a duty for somebody.
pub open spec fn plans_for(state: State, a: SlotAssignment, person_id: Seq<char>, d: Duty) -> bool {
    &&& a.person_id is Some
    &&& a.person_id->0@ == person_id
    &&& a.group_id@ == d.group_id@
    &&& a.slot_index == d.slot_index
    &&& a.iso_year == d.turn.year
    &&& a.iso_week == d.turn.week
    &&& a.shift == d.turn.shift
    &&& state.group(d.group_id@) is Some
    &&& state.group(d.group_id@)->0.is_active
    &&& state.group(d.group_id@)->0.slots@.len() > 0 ==> d.slot_index < state.group(
        d.group_id@,
    )->0.slots@.len()
}

/// Whether a slot of a turn is somebody's by a mark that names them as responsible.
pub open spec fn is_recorded_for(state: State, person_id: Seq<char>, d: Duty) -> bool {
    exists|i: int| 0 <= i < state.completions@.len() && records_for(
        state,
        #[trigger] state.completions@[i],
        person_id,
        d,
    )
}

/// Whether a mark records a duty for somebody.
pub open spec fn records_for(state: State, c: Completion, person_id: Seq<char>, d: Duty) -> bool {
    let slots = state.group(d.group_id@)->0.slots@;
    &&& exists|k: int|
        0 <= k < c.responsible_person_ids@.len() && (#[trigger] c.responsible_person_ids@[k])@
            == person_id
    &&& c.group_id@ == d.group_id@
    &&& c.iso_year == d.turn.year
    &&& c.iso_week == d.turn.week
    &&& c.shift == d.turn.shift
    &&& state.group(d.group_id@) is Some
    &&& state.group(d.group_id@)->0.is_active
    &&& c.slot_id is None ==> d.slot_index == 0
    &&& c.slot_id is Some ==> d.slot_index < slots.len() && slots[d.slot_index as int].id@
        == c.slot_id->0@ && forall|k: int|
        0 <= k < d.slot_index ==> (#[trigger] slots[k]).id@ != c.slot_id->0@
}

/// Whether a duty counts: its last day has passed, or it has a mark.
pub open spec fn has_come(state: State, d: Duty, today: Date) -> bool {
    let g = state.group(d.group_id@)->0;
    d.turn.last_day(g.rhythm) < today.day || is_marked(state, g, d.slot_index as int, d.turn)
}

/// Whether one of some duties is a slot of a turn.
pub open spec fn has_duty(ds: Seq<Duty>, d: Duty) -> bool {
    exists|i: int|
        0 <= i < ds.len() && (#[trigger] ds[i]).group_id@ == d.group_id@ && ds[i].slot_index
            == d.slot_index && ds[i].turn == d.turn
}

proof fn lemma_planned_duty(state: State, person_id: Seq<char>, a: SlotAssignment, d: Duty)
    ensures
        plans_for(state, a, person_id, d) == (planned_duty(state, person_id, a) is Some
            && same_duty(d)(planned_duty(state, person_id, a)->0)),
{
}

proof fn lemma_planned(state: State, person_id: Seq<char>, s: Seq<SlotAssignment>, d: Duty)
    ensures
        has_duty(planned_duties(state, person_id, s), d) == (exists|i: int|
            0 <= i < s.len() && plans_for(state, #[trigger] s[i], person_id, d)),
    decreases s.len(),
{
    if s.len() > 0 {
        let u = s.drop_last();
        let a = s.last();
        let r = planned_duties(state, person_id, u);
        let all = planned_duties(state, person_id, s);
        lemma_planned(state, person_id, u, d);
        lemma_planned_duty(state, person_id, a, d);
        if has_duty(r, d) {
            let i = choose|i: int| 0 <= i < u.len() && plans_for(state, #[trigger] u[i], person_id, d);
            assert(plans_for(state, s[i], person_id, d));
            lemma_has_more(r, all, d);
        }
        if plans_for(state, a, person_id, d) {
            assert(plans_for(state, s[s.len() - 1], person_id, d));
            assert(all[all.len() - 1] == planned_duty(state, person_id, a)->0);
        }
        if exists|i: int| 0 <= i < s.len() && plans_for(state, #[trigger] s[i], person_id, d) {
            let i = choose|i: int| 0 <= i < s.len() && plans_for(state, #[trigger] s[i], person_id, d);
            if i < u.len() {
                assert(plans_for(state, u[i], person_id, d));
            }
        }
        if has_duty(all, d) {
            let i = choose|i: int|
                0 <= i < all.len() && (#[trigger] all[i]).group_id@ == d.group_id@
                    && all[i].slot_index == d.slot_index && all[i].turn == d.turn;
            if i < r.len() {
                assert(r[i] == all[i]);
                assert(has_duty(r, d));
            }
        }
    }
}

/// A list has the duties of its first part.
proof fn lemma_has_more(a: Seq<Duty>, b: Seq<Duty>, d: Duty)
    requires
        has_duty(a, d),
        a.len() <= b.len(),
        b.take(a.len() as int) =~= a,
    ensures
        has_duty(b, d),
{
    let i = choose|i: int|
        0 <= i < a.len() && (#[trigger] a[i]).group_id@ == d.group_id@ && a[i].slot_index
            == d.slot_index && a[i].turn == d.turn;
    assert(b.take(a.len() as int)[i] == b[i]);
}

proof fn lemma_recorded_duty(state: State, person_id: Seq<char>, c: Completion, d: Duty)
    ensures
        records_for(state, c, person_id, d) == (recorded_duty(state, person_id, c) is Some
            && same_duty(d)(recorded_duty(state, person_id, c)->0)),
{
    let group = state.group(c.group_id@);
    let slots = group->0.slots@;
    if c.slot_id is Some && c.group_id@ == d.group_id@ && group is Some {
        let p = slot_with_id(c.slot_id->0@);
        lemma_first_index_is(slots, p);
        lemma_some(slots, p);
        let n = first_index(slots, p);
        assert(group->0.slots.len() == slots.len());
        assert(n as usize == n);
        if d.slot_index < slots.len() && slots[d.slot_index as int].id@ == c.slot_id->0@ && forall|
            k: int,
        |
            0 <= k < d.slot_index ==> (#[trigger] slots[k]).id@ != c.slot_id->0@ {
            crate::lists::lemma_first_index(slots, p, d.slot_index as int);
        }
        if n < slots.len() {
            assert(p(slots[n]));
            assert forall|k: int| 0 <= k < n implies (#[trigger] slots[k]).id@ != c.slot_id->0@ by {
                assert(!p(slots[k]));
            }
        }
    }
}

proof fn lemma_recorded(
    state: State,
    person_id: Seq<char>,
    duties: Seq<Duty>,
    s: Seq<Completion>,
    d: Duty,
)
    ensures
        has_duty(with_recorded(state, person_id, duties, s), d) == (has_duty(duties, d) || exists|
            i: int,
        |
            0 <= i < s.len() && records_for(state, #[trigger] s[i], person_id, d)),
    decreases s.len(),
{
    if s.len() > 0 {
        let u = s.drop_last();
        let c = s.last();
        let r = with_recorded(state, person_id, duties, u);
        let all = with_recorded(state, person_id, duties, s);
        lemma_recorded(state, person_id, duties, u, d);
        lemma_recorded_duty(state, person_id, c, d);
        if exists|i: int| 0 <= i < s.len() && records_for(state, #[trigger] s[i], person_id, d) {
            let i = choose|i: int|
                0 <= i < s.len() && records_for(state, #[trigger] s[i], person_id, d);
            if i < u.len() {
                assert(records_for(state, u[i], person_id, d));
            }
        }
        if exists|i: int| 0 <= i < u.len() && records_for(state, #[trigger] u[i], person_id, d) {
            let i = choose|i: int|
                0 <= i < u.len() && records_for(state, #[trigger] u[i], person_id, d);
            assert(records_for(state, s[i], person_id, d));
        }
        if has_duty(r, d) {
            lemma_has_more(r, all, d);
        }
        if records_for(state, c, person_id, d) {
            assert(records_for(state, s[s.len() - 1], person_id, d));
            let e = recorded_duty(state, person_id, c)->0;
            lemma_some(r, same_duty(e));
            if some(r, same_duty(e)) {
                let k = choose|k: int| 0 <= k < r.len() && same_duty(e)(#[trigger] r[k]);
                assert(all[k].group_id@ == d.group_id@ && all[k].slot_index == d.slot_index
                    && all[k].turn == d.turn);
            } else {
                assert(all[all.len() - 1] == e);
            }
        }
        if has_duty(all, d) && !has_duty(r, d) {
            let i = choose|i: int|
                0 <= i < all.len() && (#[trigger] all[i]).group_id@ == d.group_id@
                    && all[i].slot_index == d.slot_index && all[i].turn == d.turn;
            if i < r.len() {
                assert(r[i] == all[i]);
            }
        }
    }
}

/// What is in a list is in the list put in order, and the other way round.
proof fn lemma_sorted_duties(s: Seq<Duty>, d: Duty)
    ensures
        has_duty(crate::sorting::sorted(s), d) == has_duty(s, d),
{
    let t = crate::sorting::sorted(s);
    crate::sorting::lemma_sorted(s);
    if has_duty(s, d) {
        let i = choose|i: int|
            0 <= i < s.len() && (#[trigger] s[i]).group_id@ == d.group_id@ && s[i].slot_index
                == d.slot_index && s[i].turn == d.turn;
        vstd::seq_lib::to_multiset_contains(s, s[i]);
        vstd::seq_lib::to_multiset_contains(t, s[i]);
        assert(s.contains(s[i]));
        let k = choose|k: int| 0 <= k < t.len() && t[k] == s[i];
        assert(t[k].group_id@ == d.group_id@);
    }
    if has_duty(t, d) {
        let i = choose|i: int|
            0 <= i < t.len() && (#[trigger] t[i]).group_id@ == d.group_id@ && t[i].slot_index
                == d.slot_index && t[i].turn == d.turn;
        vstd::seq_lib::to_multiset_contains(t, t[i]);
        vstd::seq_lib::to_multiset_contains(s, t[i]);
        assert(t.contains(t[i]));
        let k = choose|k: int| 0 <= k < s.len() && s[k] == t[i];
        assert(s[k].group_id@ == d.group_id@);
    }
}

/// The duties that are counted for somebody are exactly the slots of turns of active groups that
/// they are assigned to, or that a mark names them as responsible for, and whose last day has
/// passed or that have a mark.
pub proof fn law_duties_are_the_turns_of_a_person(
    state: State,
    person_id: Seq<char>,
    today: Date,
    d: Duty,
)
    ensures
        has_duty(duties_of(state, person_id, today), d) == ((is_planned_for(state, person_id, d)
            || is_recorded_for(state, person_id, d)) && has_come(state, d, today)),
{
    let planned = planned_duties(state, person_id, state.slot_assignments@);
    let all = with_recorded(state, person_id, planned, state.completions@);
    let p = counts(state, today);
    let kept = all.filter(p);
    lemma_planned(state, person_id, state.slot_assignments@, d);
    lemma_recorded(state, person_id, planned, state.completions@, d);
    lemma_sorted_duties(kept, d);
    lemma_filter(all, p);
    lemma_marked(state, state.group(d.group_id@)->0, d.slot_index as int, d.turn);
    if has_duty(kept, d) {
        let i = choose|i: int|
            0 <= i < kept.len() && (#[trigger] kept[i]).group_id@ == d.group_id@
                && kept[i].slot_index == d.slot_index && kept[i].turn == d.turn;
        assert(p(kept[i]) && all.contains(kept[i]));
        let k = choose|k: int| 0 <= k < all.len() && all[k] == kept[i];
        assert(all[k].group_id@ == d.group_id@);
    }
    if has_duty(all, d) && has_come(state, d, today) {
        let i = choose|i: int|
            0 <= i < all.len() && (#[trigger] all[i]).group_id@ == d.group_id@ && all[i].slot_index
                == d.slot_index && all[i].turn == d.turn;
        assert(p(all[i]));
        assert(kept.contains(all[i]));
        let k = choose|k: int| 0 <= k < kept.len() && kept[k] == all[i];
        assert(kept[k].group_id@ == d.group_id@);
    }
}

} // verus!
