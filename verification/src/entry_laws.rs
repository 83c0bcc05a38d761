//! What a schedule shows: one entry for each slot of each turn.

use vstd::prelude::*;

use crate::calendar::{
    has_monday, is_day, is_week, lemma_monday, lemma_week_at, lemma_week_of_day, lemma_whole_week,
    monday, week_at, week_number, Date, LAST_WEEK,
};
use crate::domain::{uuid_v5, CleaningGroup, ASSIGNMENT_NS};
use crate::lists::{lemma_first_index_is, lemma_some};
use crate::plain::{
    assigns, first_mark, is_assigned, is_due, is_marked, lemma_due, lemma_marked,
    lemma_turn_marked, marks, places,
};
use crate::resolver::preview;
use crate::rhythm::{lemma_shift_count, Turn};
use crate::schedule::{
    groups_rows, is_entry, row_of, schedule_rows, shown_weeks, shows, turn_rows, turns_rows,
    AssignmentInstance, Row, ScheduleSnapshot,
};
use crate::sorting::{lemma_sorted, sorted};
use crate::state::{assignment_of, person_with_id, State};
use crate::text::{decimal, signed_decimal, two_digits};

verus! {

/// Whether a slot of a turn of the group at a place is one that a schedule of so many weeks from a
/// day on shows: the group is active, its week is due and one of those weeks, and the group has
/// that shift and that slot.
pub open spec fn is_shown(state: State, today: Date, weeks: int, g: int, turn: Turn, k: int) -> bool {
    let group = state.cleaning_groups@[g];
    let (year, week) = (turn.year as int, turn.week as int);
    let no = (monday(year, week) - 1) / 7;
    let first = (today.day - 1) / 7;
    &&& 0 <= g < state.cleaning_groups@.len()
    &&& group.is_active
    &&& has_monday(year, week)
    &&& is_day(monday(year, week) + 6)
    &&& is_due(state, group, today, year, week)
    &&& first <= no
    &&& no < first + weeks || no == first
    &&& turn.shift < group.rhythm.week_shifts().len()
    &&& 0 <= k < places(group)
}

/// Whether an entry is of a slot of a turn of a group.
pub open spec fn is_of(a: AssignmentInstance, group: CleaningGroup, turn: Turn, k: int) -> bool {
    &&& a.group_id@ == group.id@
    &&& a.iso_year == turn.year
    &&& a.iso_week == turn.week
    &&& a.shift == turn.shift
    &&& group.slots@.len() == 0 ==> a.slot_id is None
    &&& group.slots@.len() > 0 ==> a.slot_id is Some && 0 <= k < group.slots@.len()
        && a.slot_id->0@ == group.slots@[k].id@
}

/// Whether an entry names its group and slot, their rooms, and the days of its turn.
pub open spec fn is_described(a: AssignmentInstance, group: CleaningGroup, turn: Turn, k: int) -> bool {
    let start = monday(turn.year as int, turn.week as int);
    let shift = group.rhythm.week_shifts()[turn.shift as int];
    &&& a.group_name@ == group.name@
    &&& group.slots@.len() == 0 ==> a.slot_name is None && a.room_names@ == group.room_names@
    &&& group.slots@.len() > 0 ==> a.slot_name is Some && a.slot_name->0@ == group.slots@[k].name@
        && a.room_names@ == group.slots@[k].room_names@
    &&& a.start.day == start + shift.start
    &&& a.end.day == start + shift.end
    &&& (a.shift_label is Some) == (group.rhythm.week_shifts().len() > 1)
}

/// Whether an entry names who a slot of a turn is assigned to: the person that the first
/// assignment of it names, nobody where it names nobody or somebody who is not known; and where
/// there is no assignment, whoever would be drawn.
pub open spec fn names_holder(
    a: AssignmentInstance,
    state: State,
    group: CleaningGroup,
    turn: Turn,
    k: int,
    today: Date,
) -> bool {
    let s = state.slot_assignments@;
    &&& forall|n: int|
        0 <= n < s.len() && assigns(#[trigger] s[n], group.id@, k, turn) && (forall|m: int|
            0 <= m < n ==> !assigns(#[trigger] s[m], group.id@, k, turn)) ==> is_person(
            a,
            state,
            s[n].person_id,
        )
    &&& !is_assigned(state, group.id@, k, turn) ==> is_person(
        a,
        state,
        preview(state, group, k, turn, today),
    )
}

/// Whether an entry names the first person with an id, and nobody where there is none.
pub open spec fn is_person(a: AssignmentInstance, state: State, id: Option<String>) -> bool {
    let s = state.persons@;
    &&& id is None ==> a.assignee is None
    &&& id is Some ==> forall|n: int|
        0 <= n < s.len() && (#[trigger] s[n]).id@ == id->0@ && (forall|m: int|
            0 <= m < n ==> (#[trigger] s[m]).id@ != id->0@) ==> a.assignee is Some
            && a.assignee->0.id@ == s[n].id@ && a.assignee->0.name@ == s[n].display_name@
            && a.assignee->0.mxid == s[n].matrix_id
    &&& id is Some && (forall|n: int| 0 <= n < s.len() ==> (#[trigger] s[n]).id@ != id->0@)
        ==> a.assignee is None
}

/// Whether an entry says what the mark of a slot of a turn says, and nothing where there is none.
pub open spec fn tells_mark(
    a: AssignmentInstance,
    state: State,
    group: CleaningGroup,
    turn: Turn,
    k: int,
) -> bool {
    &&& a.is_completed == is_marked(state, group, k, turn)
    &&& !a.is_completed ==> !a.is_skipped && a.completed_by is None && a.completed_at is None
    &&& forall|i: int| #[trigger]
        first_mark(state, group, k, turn, i) ==> {
            let c = state.completions@[i];
            let day = 719163 + c.completed_at.secs as int / 86400;
            &&& a.is_skipped == c.skipped
            &&& is_called(a.completed_by, state, c.completed_by_id@)
            &&& (a.completed_at is Some) == (!c.skipped && is_day(day))
            &&& a.completed_at is Some ==> a.completed_at->0.day == day
        }
}

/// Whether a name is that of the first person with an id, and none where there is no such person.
pub open spec fn is_called(name: Option<String>, state: State, id: Seq<char>) -> bool {
    let s = state.persons@;
    &&& forall|n: int|
        0 <= n < s.len() && (#[trigger] s[n]).id@ == id && (forall|m: int|
            0 <= m < n ==> (#[trigger] s[m]).id@ != id) ==> name is Some && name->0@
            == s[n].display_name@
    &&& (forall|n: int| 0 <= n < s.len() ==> (#[trigger] s[n]).id@ != id) ==> name is None
}

/// Whether an entry has the id of its slot, turn and person: made of the ids of the group, the slot
/// and the person, of the week, and of the shift where it is not the first one.
pub open spec fn carries_id(a: AssignmentInstance, group: CleaningGroup, turn: Turn, k: int) -> bool {
    let person = match a.assignee {
        Some(p) => p.id@,
        None => "none"@,
    };
    let slot = if group.slots@.len() > 0 {
        group.slots@[k].id@
    } else {
        ""@
    };
    let place = if turn.shift > 0 {
        slot + "#"@ + decimal(turn.shift as nat)
    } else {
        slot
    };
    &&& turn.shift > 0 || group.slots@.len() > 0 ==> a.uid@ == uuid_v5(
        ASSIGNMENT_NS,
        group.id@ + ":"@ + place + ":"@ + signed_decimal(turn.year as int) + ":W"@ + two_digits(
            turn.week as nat,
        ) + ":"@ + person,
    )
    &&& turn.shift == 0 && group.slots@.len() == 0 ==> a.uid@ == uuid_v5(
        ASSIGNMENT_NS,
        group.id@ + ":"@ + signed_decimal(turn.year as int) + ":W"@ + two_digits(turn.week as nat)
            + ":"@ + person,
    )
}

// ── Turns of weeks ───────────────────────────────────────────────────────────

/// Weeks up to the last one can be told apart.
proof fn lemma_shown_week(today: Date, no: int)
    requires
        today.in_week(),
        today.week_no() <= no <= LAST_WEEK,
    ensures
        ({
            let week = week_at(no);
            &&& is_week(week.0, week.1)
            &&& week_number(week.0, week.1) == no
            &&& week.0 as i32 == week.0
            &&& week.1 as u32 == week.1
            &&& has_monday(week.0, week.1)
            &&& is_day(monday(week.0, week.1) + 6)
            &&& monday(week.0, week.1) == 7 * no + 1
        }),
{
    let week = week_at(no);
    lemma_week_at(no);
    lemma_monday(week.0, week.1);
    crate::calendar::lemma_weeks_in(week.0);
    reveal(crate::calendar::january_first);
    assert(crate::calendar::whole_week(7 * no + 1));
    lemma_whole_week(7 * no + 1, week.0, week.1);
}

/// The turns of a group in weeks from the current one on.
proof fn lemma_turns_from(state: State, group: CleaningGroup, today: Date, n: nat, turn: Turn)
    requires
        today.in_week(),
        today.week_no() + n - 1 <= LAST_WEEK,
    ensures
        ({
            let (y, w) = (turn.year as int, turn.week as int);
            let no = (monday(y, w) - 1) / 7;
            state.turns_from(group, today, today.week_no(), n).contains(turn) == (has_monday(y, w)
                && is_day(monday(y, w) + 6) && is_due(state, group, today, y, w)
                && today.week_no() <= no < today.week_no() + n && turn.shift
                < group.rhythm.week_shifts().len())
        }),
    decreases n,
{
    let (y, w) = (turn.year as int, turn.week as int);
    let from = today.week_no();
    let all = state.turns_from(group, today, from, n);
    lemma_monday(y, w);
    lemma_shift_count(group.rhythm);
    if n > 0 {
        let m = (n - 1) as nat;
        let r = state.turns_from(group, today, from, m);
        let no = from + n - 1;
        let week = week_at(no);
        let more = state.week_turns(group, today, week.0 as i32, week.1 as u32);
        lemma_turns_from(state, group, today, m, turn);
        lemma_shown_week(today, no);
        lemma_due(state, group, today, week.0, week.1);
        assert(all == r + more);
        if more.contains(turn) {
            let k = choose|k: int| 0 <= k < more.len() && more[k] == turn;
            assert(turn.shift == k && y == week.0 && w == week.1);
            assert(all[r.len() + k] == turn);
        }
        if r.contains(turn) {
            let k = choose|k: int| 0 <= k < r.len() && r[k] == turn;
            assert(all[k] == turn);
        }
        if all.contains(turn) {
            let k = choose|k: int| 0 <= k < all.len() && all[k] == turn;
            if k < r.len() {
                assert(r[k] == turn);
            } else {
                assert(more[k - r.len()] == turn);
            }
        }
        if has_monday(y, w) && is_due(state, group, today, y, w) && week_number(y, w) == no
            && turn.shift < group.rhythm.week_shifts().len() {
            lemma_week_of_day(7 * no + 1, y, w);
            assert(more[turn.shift as int] == turn);
        }
    }
}

/// Whether no two elements of a list are the same.
spec fn differ<A>(s: Seq<A>) -> bool {
    forall|i: int, j: int| 0 <= i < j < s.len() ==> #[trigger] s[i] != #[trigger] s[j]
}

proof fn lemma_turns_differ(state: State, group: CleaningGroup, today: Date, n: nat)
    requires
        today.in_week(),
        today.week_no() + n - 1 <= LAST_WEEK,
    ensures
        differ(state.turns_from(group, today, today.week_no(), n)),
    decreases n,
{
    let from = today.week_no();
    let all = state.turns_from(group, today, from, n);
    lemma_shift_count(group.rhythm);
    if n > 0 {
        let m = (n - 1) as nat;
        let r = state.turns_from(group, today, from, m);
        let no = from + n - 1;
        let week = week_at(no);
        let more = state.week_turns(group, today, week.0 as i32, week.1 as u32);
        lemma_turns_differ(state, group, today, m);
        lemma_shown_week(today, no);
        assert(all == r + more);
        assert forall|i: int, j: int| 0 <= i < j < all.len() implies #[trigger] all[i]
            != #[trigger] all[j] by {
            if j < r.len() {
                assert(all[i] == r[i] && all[j] == r[j]);
            } else {
                assert(all[j] == more[j - r.len()]);
                assert(all[j].shift == j - r.len());
                if i < r.len() {
                    assert(r.contains(r[i]));
                    lemma_turns_from(state, group, today, m, r[i]);
                } else {
                    assert(all[i] == more[i - r.len()]);
                    assert(all[i].shift == i - r.len());
                }
            }
        }
    }
}

// ── Lines ────────────────────────────────────────────────────────────────────

/// Whether a line is of a slot of a turn of the group at a place.
spec fn is_line(row: Row, g: int, turn: Turn, k: int) -> bool {
    row.group == g && row.turn == turn && row.slot == k
}

/// Whether no two lines are of the same slot of the same turn of the same group.
spec fn lines_differ(s: Seq<Row>) -> bool {
    forall|i: int, j: int|
        0 <= i < j < s.len() ==> (#[trigger] s[i]).group != (#[trigger] s[j]).group || s[i].turn
            != s[j].turn || s[i].slot != s[j].slot
}

proof fn lemma_turns_rows(state: State, g: int, turns: Seq<Turn>, turn: Turn, k: int)
    requires
        0 <= g < state.cleaning_groups@.len(),
    ensures
        (exists|i: int|
            0 <= i < turns_rows(state, g, turns).len() && is_line(
                #[trigger] turns_rows(state, g, turns)[i],
                g,
                turn,
                k,
            )) == (turns.contains(turn) && 0 <= k < state.cleaning_groups@[g].slot_count()),
        forall|i: int|
            0 <= i < turns_rows(state, g, turns).len() ==> (#[trigger] turns_rows(
                state,
                g,
                turns,
            )[i]).group == g,
        differ(turns) ==> lines_differ(turns_rows(state, g, turns)),
    decreases turns.len(),
{
    let group = state.cleaning_groups@[g];
    let all = turns_rows(state, g, turns);
    assert(state.cleaning_groups.len() == state.cleaning_groups@.len());
    assert(group.slots.len() == group.slots@.len());
    if turns.len() > 0 {
        let u = turns.drop_last();
        let t = turns.last();
        let r = turns_rows(state, g, u);
        let more = turn_rows(state, g, t);
        lemma_turns_rows(state, g, u, turn, k);
        assert(all == r + more);
        assert forall|i: int| 0 <= i < more.len() implies is_line(#[trigger] more[i], g, t, i) by {
            assert(more[i] == row_of(state, g, t, i));
        }
        if u.contains(turn) {
            let i = choose|i: int| 0 <= i < u.len() && u[i] == turn;
            assert(turns[i] == turn);
        }
        assert(turns[turns.len() - 1] == t);
        if turns.contains(turn) {
            let i = choose|i: int| 0 <= i < turns.len() && turns[i] == turn;
            if i < u.len() {
                assert(u[i] == turn);
            }
        }
        if exists|i: int| 0 <= i < r.len() && is_line(#[trigger] r[i], g, turn, k) {
            let i = choose|i: int| 0 <= i < r.len() && is_line(#[trigger] r[i], g, turn, k);
            assert(all[i] == r[i]);
        }
        if t == turn && 0 <= k < group.slot_count() {
            assert(all[r.len() + k] == more[k]);
            assert(is_line(all[r.len() + k], g, turn, k));
        }
        if exists|i: int| 0 <= i < all.len() && is_line(#[trigger] all[i], g, turn, k) {
            let i = choose|i: int| 0 <= i < all.len() && is_line(#[trigger] all[i], g, turn, k);
            if i < r.len() {
                assert(is_line(r[i], g, turn, k));
            } else {
                assert(is_line(more[i - r.len()], g, t, i - r.len()));
            }
        }
        assert forall|i: int| 0 <= i < all.len() implies (#[trigger] all[i]).group == g by {
            if i < r.len() {
                assert(all[i] == r[i]);
            } else {
                assert(is_line(more[i - r.len()], g, t, i - r.len()));
            }
        }
        if differ(turns) {
            assert(differ(u)) by {
                assert forall|i: int, j: int| 0 <= i < j < u.len() implies #[trigger] u[i]
                    != #[trigger] u[j] by {
                    assert(turns[i] != turns[j]);
                }
            }
            assert forall|i: int, j: int| 0 <= i < j < all.len() implies (#[trigger] all[i]).group
                != (#[trigger] all[j]).group || all[i].turn != all[j].turn || all[i].slot
                != all[j].slot by {
                if j < r.len() {
                    assert(all[i] == r[i] && all[j] == r[j]);
                } else {
                    assert(is_line(more[j - r.len()], g, t, j - r.len()));
                    if i < r.len() {
                        let x = r[i].turn;
                        lemma_turns_rows(state, g, u, x, r[i].slot as int);
                        assert(is_line(r[i], g, x, r[i].slot as int));
                        let n = choose|n: int| 0 <= n < u.len() && u[n] == x;
                        assert(turns[n] != turns[turns.len() - 1]);
                    } else {
                        assert(is_line(more[i - r.len()], g, t, i - r.len()));
                    }
                }
            }
        }
    }
}

proof fn lemma_groups_rows(state: State, today: Date, weeks: nat, n: int, g: int, turn: Turn, k: int)
    requires
        today.in_week(),
        today.week_no() + weeks - 1 <= LAST_WEEK,
        0 <= n <= state.cleaning_groups@.len(),
    ensures
        (exists|i: int|
            0 <= i < groups_rows(state, today, weeks, n).len() && is_line(
                #[trigger] groups_rows(state, today, weeks, n)[i],
                g,
                turn,
                k,
            )) == (0 <= g < n && state.cleaning_groups@[g].is_active && state.turns_from(
            state.cleaning_groups@[g],
            today,
            today.week_no(),
            weeks,
        ).contains(turn) && 0 <= k < state.cleaning_groups@[g].slot_count()),
        forall|i: int|
            0 <= i < groups_rows(state, today, weeks, n).len() ==> (#[trigger] groups_rows(
                state,
                today,
                weeks,
                n,
            )[i]).group < n,
        lines_differ(groups_rows(state, today, weeks, n)),
    decreases n,
{
    let all = groups_rows(state, today, weeks, n);
    if n > 0 {
        let r = groups_rows(state, today, weeks, n - 1);
        let group = state.cleaning_groups@[n - 1];
        lemma_groups_rows(state, today, weeks, n - 1, g, turn, k);
        if group.is_active {
            let turns = state.turns_from(group, today, today.week_no(), weeks);
            let more = turns_rows(state, n - 1, turns);
            lemma_turns_differ(state, group, today, weeks);
            lemma_turns_rows(state, n - 1, turns, turn, k);
            assert(all == r + more);
            assert forall|i: int| 0 <= i < all.len() implies (#[trigger] all[i]).group < n by {
                if i < r.len() {
                    assert(all[i] == r[i]);
                } else {
                    assert(all[i] == more[i - r.len()]);
                }
            }
            assert forall|i: int, j: int| 0 <= i < j < all.len() implies (#[trigger] all[i]).group
                != (#[trigger] all[j]).group || all[i].turn != all[j].turn || all[i].slot
                != all[j].slot by {
                if j < r.len() {
                    assert(all[i] == r[i] && all[j] == r[j]);
                } else if i < r.len() {
                    assert(all[i] == r[i] && all[j] == more[j - r.len()]);
                } else {
                    assert(all[i] == more[i - r.len()] && all[j] == more[j - r.len()]);
                }
            }
            if exists|i: int| 0 <= i < r.len() && is_line(#[trigger] r[i], g, turn, k) {
                let i = choose|i: int| 0 <= i < r.len() && is_line(#[trigger] r[i], g, turn, k);
                assert(all[i] == r[i]);
            }
            if g == n - 1 && (exists|i: int|
                0 <= i < more.len() && is_line(#[trigger] more[i], g, turn, k)) {
                let i = choose|i: int|
                    0 <= i < more.len() && is_line(#[trigger] more[i], g, turn, k);
                assert(all[r.len() + i] == more[i]);
            }
            if exists|i: int| 0 <= i < all.len() && is_line(#[trigger] all[i], g, turn, k) {
                let i = choose|i: int| 0 <= i < all.len() && is_line(#[trigger] all[i], g, turn, k);
                if i < r.len() {
                    assert(is_line(r[i], g, turn, k));
                } else {
                    assert(is_line(more[i - r.len()], g, turn, k));
                }
            }
        }
    }
}

/// What is in a list is in the list put in order, and nothing comes twice that did not.
proof fn lemma_rows_sorted(s: Seq<Row>, g: int, turn: Turn, k: int)
    requires
        lines_differ(s),
    ensures
        (exists|i: int|
            0 <= i < sorted(s).len() && is_line(#[trigger] sorted(s)[i], g, turn, k)) == (exists|
            i: int,
        |
            0 <= i < s.len() && is_line(#[trigger] s[i], g, turn, k)),
        lines_differ(sorted(s)),
{
    let t = sorted(s);
    lemma_sorted(s);
    if exists|i: int| 0 <= i < s.len() && is_line(#[trigger] s[i], g, turn, k) {
        let i = choose|i: int| 0 <= i < s.len() && is_line(#[trigger] s[i], g, turn, k);
        vstd::seq_lib::to_multiset_contains(s, s[i]);
        vstd::seq_lib::to_multiset_contains(t, s[i]);
        assert(s.contains(s[i]));
        let j = choose|j: int| 0 <= j < t.len() && t[j] == s[i];
        assert(is_line(t[j], g, turn, k));
    }
    if exists|i: int| 0 <= i < t.len() && is_line(#[trigger] t[i], g, turn, k) {
        let i = choose|i: int| 0 <= i < t.len() && is_line(#[trigger] t[i], g, turn, k);
        vstd::seq_lib::to_multiset_contains(t, t[i]);
        vstd::seq_lib::to_multiset_contains(s, t[i]);
        assert(t.contains(t[i]));
        let j = choose|j: int| 0 <= j < s.len() && s[j] == t[i];
        assert(is_line(s[j], g, turn, k));
    }
    assert forall|i: int, j: int| 0 <= i < j < t.len() implies (#[trigger] t[i]).group != (
    #[trigger] t[j]).group || t[i].turn != t[j].turn || t[i].slot != t[j].slot by {
        vstd::seq_lib::to_multiset_contains(t, t[i]);
        vstd::seq_lib::to_multiset_contains(s, t[i]);
        vstd::seq_lib::to_multiset_contains(t, t[j]);
        vstd::seq_lib::to_multiset_contains(s, t[j]);
        assert(t.contains(t[i]) && t.contains(t[j]));
        let a = choose|a: int| 0 <= a < s.len() && s[a] == t[i];
        let b = choose|b: int| 0 <= b < s.len() && s[b] == t[j];
        if a < b {
            assert(s[a].group != s[b].group || s[a].turn != s[b].turn || s[a].slot != s[b].slot);
        } else if b < a {
            assert(s[b].group != s[a].group || s[b].turn != s[a].turn || s[b].slot != s[a].slot);
        } else {
            lemma_once(s, a);
            lemma_twice(t, i, j);
        }
    }
}

/// What stands in two places of a list is there more than once.
proof fn lemma_twice<A>(s: Seq<A>, i: int, j: int)
    requires
        0 <= i < j < s.len(),
        s[i] == s[j],
    ensures
        s.to_multiset().count(s[i]) >= 2,
{
    broadcast use vstd::seq_lib::group_to_multiset_ensures;

    let x = s[i];
    let r = s.remove(j);
    assert(r[i] == x);
    vstd::seq_lib::to_multiset_remove(s, j);
    vstd::seq_lib::to_multiset_contains(r, x);
    assert(r.contains(x));
}

/// A line of lines that differ is there once.
proof fn lemma_once(s: Seq<Row>, i: int)
    requires
        lines_differ(s),
        0 <= i < s.len(),
    ensures
        s.to_multiset().count(s[i]) <= 1,
{
    broadcast use vstd::seq_lib::group_to_multiset_ensures;

    let x = s[i];
    let r = s.remove(i);
    vstd::seq_lib::to_multiset_remove(s, i);
    if r.contains(x) {
        let k = choose|k: int| 0 <= k < r.len() && r[k] == x;
        if k < i {
            assert(s[k] == x);
            assert(s[k].group != s[i].group || s[k].turn != s[i].turn || s[k].slot != s[i].slot);
        } else {
            assert(s[k + 1] == x);
            assert(s[i].group != s[k + 1].group || s[i].turn != s[k + 1].turn || s[i].slot
                != s[k + 1].slot);
        }
    }
    vstd::seq_lib::to_multiset_contains(r, x);
}

// ── Entries ──────────────────────────────────────────────────────────────────

/// The first person with an id.
proof fn lemma_person(a: AssignmentInstance, state: State, id: Option<String>)
    requires
        match id {
            Some(id) => match state.person(id@) {
                Some(p) => a.assignee is Some && a.assignee->0.id == p.id && a.assignee->0.name
                    == p.display_name && a.assignee->0.mxid == p.matrix_id,
                None => a.assignee is None,
            },
            None => a.assignee is None,
        },
    ensures
        is_person(a, state, id),
{
    if id is Some {
        let s = state.persons@;
        let p = person_with_id(id->0@);
        lemma_first_index_is(s, p);
        assert forall|n: int|
            0 <= n < s.len() && (#[trigger] s[n]).id@ == id->0@ && (forall|m: int|
                0 <= m < n ==> (#[trigger] s[m]).id@ != id->0@) implies a.assignee is Some
            && a.assignee->0.id@ == s[n].id@ && a.assignee->0.name@ == s[n].display_name@
            && a.assignee->0.mxid == s[n].matrix_id by {
            assert forall|m: int| 0 <= m < n implies !p(#[trigger] s[m]) by {
                assert(s[m].id@ != id->0@);
            }
            assert(p(s[n]));
            crate::lists::lemma_first_index(s, p, n);
        }
        if forall|n: int| 0 <= n < s.len() ==> (#[trigger] s[n]).id@ != id->0@ {
            let n = crate::lists::first_index(s, p);
            if n < s.len() {
                assert(p(s[n]));
                assert(s[n].id@ != id->0@);
            }
        }
    }
}

proof fn lemma_called(name: Option<String>, state: State, id: Seq<char>)
    requires
        match state.person(id) {
            Some(p) => name == Some(p.display_name),
            None => name is None,
        },
    ensures
        is_called(name, state, id),
{
    let s = state.persons@;
    let p = person_with_id(id);
    lemma_first_index_is(s, p);
    assert forall|n: int|
        0 <= n < s.len() && (#[trigger] s[n]).id@ == id && (forall|m: int|
            0 <= m < n ==> (#[trigger] s[m]).id@ != id) implies name is Some && name->0@
        == s[n].display_name@ by {
        assert forall|m: int| 0 <= m < n implies !p(#[trigger] s[m]) by {
            assert(s[m].id@ != id);
        }
        assert(p(s[n]));
        crate::lists::lemma_first_index(s, p, n);
    }
    if forall|n: int| 0 <= n < s.len() ==> (#[trigger] s[n]).id@ != id {
        let n = crate::lists::first_index(s, p);
        if n < s.len() {
            assert(p(s[n]));
            assert(s[n].id@ != id);
        }
    }
}

proof fn lemma_entry(
    a: AssignmentInstance,
    state: State,
    row: Row,
    today: Date,
    g: int,
    turn: Turn,
    k: int,
)
    requires
        is_entry(a, state, row, today),
        is_line(row, g, turn, k),
        has_monday(turn.year as int, turn.week as int),
        turn.shift < state.cleaning_groups@[g].rhythm.week_shifts().len(),
        0 <= k < state.cleaning_groups@[g].slot_count(),
    ensures
        ({
            let group = state.cleaning_groups@[g];
            &&& is_of(a, group, turn, k)
            &&& is_described(a, group, turn, k)
            &&& names_holder(a, state, group, turn, k, today)
            &&& tells_mark(a, state, group, turn, k)
            &&& carries_id(a, group, turn, k)
        }),
{
    let group = state.cleaning_groups@[g];
    lemma_marked(state, group, k, turn);
    if is_marked(state, group, k, turn) {
        let n = choose|n: int| #[trigger] first_mark(state, group, k, turn, n);
        assert(state.completion(group, k, turn) == Some(state.completions@[n]));
        lemma_called(a.completed_by, state, state.completions@[n].completed_by_id@);
        assert forall|i: int| #[trigger] first_mark(state, group, k, turn, i) implies i == n by {
            if i < n {
                assert(!marks(state.completions@[i], group, k, turn));
            } else if n < i {
                assert(!marks(state.completions@[n], group, k, turn));
            }
        }
    }
    let s = state.slot_assignments@;
    let p = assignment_of(group.id@, k, turn);
    lemma_some(s, p);
    lemma_first_index_is(s, p);
    assert forall|n: int|
        0 <= n < s.len() && assigns(#[trigger] s[n], group.id@, k, turn) && (forall|m: int|
            0 <= m < n ==> !assigns(#[trigger] s[m], group.id@, k, turn)) implies is_person(
        a,
        state,
        s[n].person_id,
    ) by {
        assert forall|m: int| 0 <= m < n implies !p(#[trigger] s[m]) by {
            assert(!assigns(s[m], group.id@, k, turn));
        }
        assert(p(s[n]));
        crate::lists::lemma_first_index(s, p, n);
        assert(state.assignment(group.id@, k, turn) == Some(s[n]));
        lemma_person(a, state, s[n].person_id);
    }
    if !is_assigned(state, group.id@, k, turn) {
        let n = crate::lists::first_index(s, p);
        if n < s.len() {
            assert(p(s[n]));
            assert(assigns(s[n], group.id@, k, turn));
        }
        assert(state.assignment(group.id@, k, turn) is None);
        lemma_person(a, state, preview(state, group, k, turn, today));
    }
}

/// The lines of a schedule are those of what is shown.
proof fn lemma_lines(state: State, today: Date, weeks: int, g: int, turn: Turn, k: int)
    requires
        today.in_week(),
    ensures
        (exists|i: int|
            0 <= i < schedule_rows(state, today, weeks).len() && is_line(
                #[trigger] schedule_rows(state, today, weeks)[i],
                g,
                turn,
                k,
            )) == is_shown(state, today, weeks, g, turn, k),
        lines_differ(schedule_rows(state, today, weeks)),
{
    let n = shown_weeks(today, weeks);
    let m = state.cleaning_groups@.len() as int;
    let rows = groups_rows(state, today, n, m);
    let (y, w) = (turn.year as int, turn.week as int);
    assert(today.week_no() <= LAST_WEEK && today.week_no() + n - 1 <= LAST_WEEK) by {
        reveal(crate::calendar::january_first);
    }
    lemma_groups_rows(state, today, n, m, g, turn, k);
    lemma_rows_sorted(rows, g, turn, k);
    assert(schedule_rows(state, today, weeks) == sorted(rows));
    let left = LAST_WEEK - today.week_no() + 1;
    assert(n == if weeks < 1 {
        1
    } else if weeks < left {
        weeks
    } else {
        left
    });
    if 0 <= g < m {
        let group = state.cleaning_groups@[g];
        lemma_turn_marked(state, group, turn);
        lemma_turns_from(state, group, today, n, turn);
        lemma_monday(y, w);
        if has_monday(y, w) && is_day(monday(y, w) + 6) {
            assert(week_number(y, w) <= LAST_WEEK) by {
                reveal(crate::calendar::january_first);
            }
        }
        assert((exists|i: int| 0 <= i < rows.len() && is_line(#[trigger] rows[i], g, turn, k))
            == is_shown(state, today, weeks, g, turn, k));
    }
}

/// A schedule has an entry for every slot of every turn that it is to show, which says whose turn
/// it is, when, and whether it is done.
pub proof fn law_schedule_shows_every_slot(
    snapshot: ScheduleSnapshot,
    state: State,
    today: Date,
    weeks: int,
    g: int,
    turn: Turn,
    k: int,
)
    requires
        shows(snapshot, state, today, weeks),
        today.in_week(),
        is_shown(state, today, weeks, g, turn, k),
    ensures
        exists|i: int|
            0 <= i < snapshot.assignments@.len() && is_of(
                #[trigger] snapshot.assignments@[i],
                state.cleaning_groups@[g],
                turn,
                k,
            ) && is_described(snapshot.assignments@[i], state.cleaning_groups@[g], turn, k)
                && names_holder(
                snapshot.assignments@[i],
                state,
                state.cleaning_groups@[g],
                turn,
                k,
                today,
            ) && tells_mark(snapshot.assignments@[i], state, state.cleaning_groups@[g], turn, k)
                && carries_id(snapshot.assignments@[i], state.cleaning_groups@[g], turn, k),
{
    let rows = schedule_rows(state, today, weeks);
    lemma_lines(state, today, weeks, g, turn, k);
    let i = choose|i: int| 0 <= i < rows.len() && is_line(#[trigger] rows[i], g, turn, k);
    assert(is_entry(snapshot.assignments@[i], state, rows[i], today));
    lemma_turn_marked(state, state.cleaning_groups@[g], turn);
    lemma_entry(snapshot.assignments@[i], state, rows[i], today, g, turn, k);
}

/// A schedule has no other entries: each is of a slot of a turn that it is to show.
pub proof fn law_schedule_shows_nothing_else(
    snapshot: ScheduleSnapshot,
    state: State,
    today: Date,
    weeks: int,
    i: int,
)
    requires
        shows(snapshot, state, today, weeks),
        today.in_week(),
        0 <= i < snapshot.assignments@.len(),
    ensures
        exists|g: int, turn: Turn, k: int| #[trigger]
            is_shown(state, today, weeks, g, turn, k) && is_of(
                snapshot.assignments@[i],
                state.cleaning_groups@[g],
                turn,
                k,
            ) && is_described(snapshot.assignments@[i], state.cleaning_groups@[g], turn, k)
                && names_holder(
                snapshot.assignments@[i],
                state,
                state.cleaning_groups@[g],
                turn,
                k,
                today,
            ) && tells_mark(snapshot.assignments@[i], state, state.cleaning_groups@[g], turn, k)
                && carries_id(snapshot.assignments@[i], state.cleaning_groups@[g], turn, k),
{
    let rows = schedule_rows(state, today, weeks);
    let (g, turn, k) = (rows[i].group as int, rows[i].turn, rows[i].slot as int);
    assert(is_line(rows[i], g, turn, k));
    lemma_lines(state, today, weeks, g, turn, k);
    assert(is_shown(state, today, weeks, g, turn, k));
    lemma_turn_marked(state, state.cleaning_groups@[g], turn);
    lemma_entry(snapshot.assignments@[i], state, rows[i], today, g, turn, k);
}

/// Whether groups, and the slots of each of them, have ids of their own.
pub open spec fn ids_differ(state: State) -> bool {
    let s = state.cleaning_groups@;
    &&& forall|i: int, j: int| 0 <= i < j < s.len() ==> (#[trigger] s[i]).id@ != (#[trigger] s[j]).id@
    &&& forall|i: int, x: int, y: int|
        0 <= i < s.len() && 0 <= x < y < s[i].slots@.len() ==> (#[trigger] s[i].slots@[x]).id@ != (
        #[trigger] s[i].slots@[y]).id@
}

/// A schedule shows no slot of a turn twice.
pub proof fn law_schedule_shows_no_slot_twice(
    snapshot: ScheduleSnapshot,
    state: State,
    today: Date,
    weeks: int,
    i: int,
    j: int,
)
    requires
        shows(snapshot, state, today, weeks),
        today.in_week(),
        ids_differ(state),
        0 <= i < j < snapshot.assignments@.len(),
    ensures
        ({
            let a = snapshot.assignments@[i];
            let b = snapshot.assignments@[j];
            !(a.group_id@ == b.group_id@ && a.iso_year == b.iso_year && a.iso_week == b.iso_week
                && a.shift == b.shift && (a.slot_id is None || b.slot_id is None || a.slot_id->0@
                == b.slot_id->0@))
        }),
{
    let rows = schedule_rows(state, today, weeks);
    let a = snapshot.assignments@[i];
    let b = snapshot.assignments@[j];
    let (g, t, k) = (rows[i].group as int, rows[i].turn, rows[i].slot as int);
    let (h, u, m) = (rows[j].group as int, rows[j].turn, rows[j].slot as int);
    assert(is_line(rows[i], g, t, k) && is_line(rows[j], h, u, m));
    lemma_lines(state, today, weeks, g, t, k);
    lemma_lines(state, today, weeks, h, u, m);
    assert(is_entry(a, state, rows[i], today) && is_entry(b, state, rows[j], today));
    assert(rows[i].group != rows[j].group || rows[i].turn != rows[j].turn || rows[i].slot
        != rows[j].slot);
    let groups = state.cleaning_groups@;
    lemma_turn_marked(state, groups[g], t);
    lemma_turn_marked(state, groups[h], u);
    if g < h {
        assert(groups[g].id@ != groups[h].id@);
    } else if h < g {
        assert(groups[h].id@ != groups[g].id@);
    } else if t == u && groups[g].slots@.len() > 0 {
        let slots = groups[g].slots@;
        if k < m {
            assert(groups[g].slots@[k].id@ != groups[g].slots@[m].id@);
        } else if m < k {
            assert(groups[g].slots@[m].id@ != groups[g].slots@[k].id@);
        }
    }
}

} // verus!
