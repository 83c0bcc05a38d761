//! What holds of the order of a schedule.

use vstd::prelude::*;

use crate::calendar::Date;
use crate::lists::{first_index, lemma_filter, lemma_filter_step, lemma_first_index_is};
use crate::rhythm::Turn;
use crate::schedule::{
    groups_rows, is_entry, schedule_rows, shown_weeks, shows, turn_rows, turns_rows, AssignmentInstance, Row,
    ScheduleSnapshot,
};
use crate::sorting::{lemma_sorted, sorted, Ranked};
use crate::state::{group_with_id, State};

verus! {

/// Whether an entry stands before another or beside it: by first day, then by group.
pub open spec fn not_after(state: State, a: AssignmentInstance, b: AssignmentInstance) -> bool {
    a.start.day < b.start.day || (a.start.day == b.start.day && group_place(state, a)
        <= group_place(state, b))
}

/// The place of the group of an entry among the groups.
pub open spec fn group_place(state: State, a: AssignmentInstance) -> int {
    first_index(state.cleaning_groups@, group_with_id(a.group_id@))
}

/// Whether entries stand in the order of their first days.
pub open spec fn chronological(s: Seq<AssignmentInstance>) -> bool {
    forall|i: int, j: int|
        0 <= i < j < s.len() ==> (#[trigger] s[i]).start.day <= (#[trigger] s[j]).start.day
}

/// Whether a line is ordered by its own first day and the place of its own group.
spec fn keyed(state: State, row: Row) -> bool {
    let group = state.cleaning_groups@[row.group as int];
    &&& row.group < state.cleaning_groups@.len()
    &&& row.start == row.turn.first_day(group.rhythm) as i32
    &&& row.group_pos == first_index(state.cleaning_groups@, group_with_id(group.id@))
}

/// The lines of turns are.
proof fn lemma_turns_keyed(state: State, g: int, turns: Seq<Turn>)
    requires
        0 <= g < state.cleaning_groups@.len(),
    ensures
        forall|i: int|
            0 <= i < turns_rows(state, g, turns).len() ==> keyed(
                state,
                #[trigger] turns_rows(state, g, turns)[i],
            ),
    decreases turns.len(),
{
    if turns.len() > 0 {
        let u = turns_rows(state, g, turns.drop_last());
        let v = turn_rows(state, g, turns.last());
        lemma_turns_keyed(state, g, turns.drop_last());
        let group = state.cleaning_groups@[g];
        lemma_first_index_is(state.cleaning_groups@, group_with_id(group.id@));
        assert(state.cleaning_groups.len() <= usize::MAX);
        assert forall|i: int| 0 <= i < (u + v).len() implies keyed(state, #[trigger] (u + v)[i]) by {
            if i >= u.len() {
                assert((u + v)[i] == v[i - u.len()]);
            }
        }
    }
}

/// The lines of all groups are.
proof fn lemma_groups_keyed(state: State, today: Date, weeks: nat, n: int)
    requires
        n <= state.cleaning_groups@.len(),
    ensures
        forall|i: int|
            0 <= i < groups_rows(state, today, weeks, n).len() ==> keyed(
                state,
                #[trigger] groups_rows(state, today, weeks, n)[i],
            ),
    decreases n,
{
    if n > 0 {
        let u = groups_rows(state, today, weeks, n - 1);
        lemma_groups_keyed(state, today, weeks, n - 1);
        let group = state.cleaning_groups@[n - 1];
        let turns = state.turns_from(group, today, today.week_no(), weeks);
        lemma_turns_keyed(state, n - 1, turns);
        let v = turns_rows(state, n - 1, turns);
        assert forall|i: int| 0 <= i < (u + v).len() implies keyed(state, #[trigger] (u + v)[i]) by {
            if i >= u.len() {
                assert((u + v)[i] == v[i - u.len()]);
            }
        }
    }
}

/// A sorted sequence holds nothing new.
proof fn lemma_sorted_from(s: Seq<Row>, i: int)
    requires
        0 <= i < sorted(s).len(),
    ensures
        s.contains(sorted(s)[i]),
{
    broadcast use vstd::seq_lib::group_to_multiset_ensures;

    lemma_sorted(s);
    let x = sorted(s)[i];
    assert(sorted(s).contains(x));
    assert(sorted(s).to_multiset().count(x) > 0);
    assert(s.to_multiset().count(x) > 0);
}

/// The entries of a snapshot stand in the order of their first days, and those of the same day in
/// the order of their groups. Any choice of them, those of a person, a group or a week, stands in
/// the order of its first days too.
pub proof fn law_schedule_is_in_order(
    snapshot: ScheduleSnapshot,
    state: State,
    today: Date,
    weeks: int,
    chosen: spec_fn(AssignmentInstance) -> bool,
)
    requires
        shows(snapshot, state, today, weeks),
    ensures
        forall|i: int, j: int|
            0 <= i < j < snapshot.assignments@.len() ==> not_after(
                state,
                #[trigger] snapshot.assignments@[i],
                #[trigger] snapshot.assignments@[j],
            ),
        chronological(snapshot.assignments@.filter(chosen)),
{
    let s = snapshot.assignments@;
    let span = shown_weeks(today, weeks);
    let all = groups_rows(state, today, span, state.cleaning_groups@.len() as int);
    let rows = schedule_rows(state, today, weeks);
    lemma_groups_keyed(state, today, span, state.cleaning_groups@.len() as int);
    lemma_sorted(all);
    assert forall|i: int| 0 <= i < rows.len() implies keyed(state, #[trigger] rows[i]) by {
        lemma_sorted_from(all, i);
        let k = choose|k: int| 0 <= k < all.len() && all[k] == rows[i];
        assert(keyed(state, all[k]));
    }
    assert forall|i: int, j: int| 0 <= i < j < s.len() implies not_after(
        state,
        #[trigger] s[i],
        #[trigger] s[j],
    ) by {
        assert(is_entry(s[i], state, rows[i], today));
        assert(is_entry(s[j], state, rows[j], today));
        assert(keyed(state, rows[i]) && keyed(state, rows[j]));
        assert(!rows[j].before(rows[i]));
    }
    lemma_chosen_chronological(s, chosen, s.len() as int);
    assert(s.take(s.len() as int) =~= s);
}

/// A choice of entries in the order of their first days is in that order.
proof fn lemma_chosen_chronological(
    s: Seq<AssignmentInstance>,
    p: spec_fn(AssignmentInstance) -> bool,
    n: int,
)
    requires
        chronological(s),
        0 <= n <= s.len(),
    ensures
        chronological(s.take(n).filter(p)),
    decreases n,
{
    if n == 0 {
        reveal(Seq::filter);
    } else {
        lemma_chosen_chronological(s, p, n - 1);
        lemma_filter_step(s, p, n - 1);
        let u = s.take(n - 1).filter(p);
        let t = s.take(n).filter(p);
        lemma_filter(s.take(n - 1), p);
        assert forall|i: int, j: int| 0 <= i < j < t.len() implies (#[trigger] t[i]).start.day <= (
        #[trigger] t[j]).start.day by {
            if j == u.len() {
                assert(t[i] == u[i] && t[j] == s[n - 1]);
                let front = s.take(n - 1);
                let k = choose|k: int| 0 <= k < front.len() && front[k] == u[i];
                assert(s[k] == u[i]);
            } else {
                assert(t[i] == u[i] && t[j] == u[j]);
            }
        }
    }
}

} // verus!
