//! Which turns are reminded of.

use vstd::prelude::*;

use crate::calendar::{has_monday, is_week, lemma_week_at, monday, week_at, weekday, Date};
use crate::domain::CleaningGroup;
use crate::lists::lemma_filter;
use crate::plain::{
    is_due, is_marked, lemma_due, lemma_marked, lemma_reminded, lemma_turn_marked, places,
    was_reminded,
};
use crate::rhythm::{lemma_shift_count, Turn};
use crate::scheduler::{
    deduped, due_groups, group_entries, is_plan, mention_list, mentions, plan_fits, plan_mentions,
    reminder_mentions, reminders, to_remind, turn_entries, turns_entries, Message,
};
use crate::sorting::{lemma_sorted, sorted};
use crate::state::{ReminderKind, State};
use crate::text::says;

verus! {

/// Whether a day is the one for a reminder of a turn: of a later shift on its first day, and the
/// last one on the last day of a shift, or on a weekday of choice where the week is not split.
pub open spec fn is_reminder_day(
    group: CleaningGroup,
    turn: Turn,
    kind: ReminderKind,
    final_weekday: u8,
    day: Date,
) -> bool {
    let shifts = group.rhythm.week_shifts();
    let since_monday = day.day - monday(turn.year as int, turn.week as int);
    &&& turn.shift < shifts.len()
    &&& kind == ReminderKind::Initial || kind == ReminderKind::Final
    &&& kind == ReminderKind::Initial ==> turn.shift > 0 && since_monday
        == shifts[turn.shift as int].start
    &&& kind == ReminderKind::Final && shifts.len() > 1 ==> since_monday
        == shifts[turn.shift as int].end
    &&& kind == ReminderKind::Final && shifts.len() == 1 ==> since_monday == final_weekday
}

/// Whether a turn of a group is to be reminded of, said by the marks and reminders themselves: the
/// group is active and due in the week of the day, the day is the one for it, a slot of the turn
/// has no mark, and no such reminder went out.
pub open spec fn owes_reminder(
    state: State,
    group: CleaningGroup,
    turn: Turn,
    kind: ReminderKind,
    final_weekday: u8,
    day: Date,
    today: Date,
) -> bool {
    &&& state.cleaning_groups@.contains(group)
    &&& group.is_active
    &&& is_week(turn.year as int, turn.week as int)
    &&& 0 <= day.day - monday(turn.year as int, turn.week as int) <= 6
    &&& is_due(state, group, today, turn.year as int, turn.week as int)
    &&& is_reminder_day(group, turn, kind, final_weekday, day)
    &&& exists|k: int| 0 <= k < places(group) && !#[trigger] is_marked(state, group, k, turn)
    &&& !was_reminded(state, group.id@, turn.year, turn.week, turn.shift, kind)
    &&& kind == ReminderKind::Final ==> !was_reminded(state, "*"@, turn.year, turn.week, 0, kind)
}

/// The turns that the reminders of some groups list.
proof fn lemma_reminders(
    state: State,
    groups: Seq<CleaningGroup>,
    day: Date,
    kind: ReminderKind,
    final_weekday: u8,
    today: Date,
    group: CleaningGroup,
    turn: Turn,
)
    ensures
        ({
            let week = week_at((day.day - 1) / 7);
            reminders(state, groups, day, kind, final_weekday, today).contains((group, turn)) == (
            groups.contains(group) && group.is_active && state.week_turns(
                group,
                today,
                week.0 as i32,
                week.1 as u32,
            ).contains(turn) && to_remind(
                state,
                group,
                kind,
                final_weekday,
                weekday(day.day as int),
            )(turn))
        }),
    decreases groups.len(),
{
    let week = week_at((day.day - 1) / 7);
    let all = reminders(state, groups, day, kind, final_weekday, today);
    if groups.len() > 0 {
        let u = groups.drop_last();
        let g = groups.last();
        let r = reminders(state, u, day, kind, final_weekday, today);
        lemma_reminders(state, u, day, kind, final_weekday, today, group, turn);
        let turns = state.week_turns(g, today, week.0 as i32, week.1 as u32);
        let p = to_remind(state, g, kind, final_weekday, weekday(day.day as int));
        let f = |t: Turn| (g, t);
        let kept = turns.filter(p);
        lemma_filter(turns, p);
        if groups.contains(group) {
            let i = choose|i: int| 0 <= i < groups.len() && groups[i] == group;
            if i < u.len() {
                assert(u[i] == group);
            }
        }
        if u.contains(group) {
            let i = choose|i: int| 0 <= i < u.len() && u[i] == group;
            assert(groups[i] == group);
        }
        assert(groups[groups.len() - 1] == g);
        if g.is_active {
            let more = kept.map_values(f);
            assert(all == r + more);
            if more.contains((group, turn)) {
                let j = choose|j: int| 0 <= j < more.len() && more[j] == (group, turn);
                assert(kept[j] == turn && g == group);
                assert(p(kept[j]) && turns.contains(kept[j]));
            }
            if g == group && turns.contains(turn) && p(turn) {
                let k = choose|k: int| 0 <= k < turns.len() && turns[k] == turn;
                assert(kept.contains(turns[k]));
                let j = choose|j: int| 0 <= j < kept.len() && kept[j] == turn;
                assert(more[j] == (group, turn));
                assert(all[r.len() + j] == (group, turn));
            }
            if r.contains((group, turn)) {
                let j = choose|j: int| 0 <= j < r.len() && r[j] == (group, turn);
                assert(all[j] == (group, turn));
            }
            if all.contains((group, turn)) {
                let j = choose|j: int| 0 <= j < all.len() && all[j] == (group, turn);
                if j < r.len() {
                    assert(r[j] == (group, turn));
                } else {
                    assert(more[j - r.len()] == (group, turn));
                }
            }
        }
    }
}

/// On a day exactly those turns are reminded of that have an open slot, had no such reminder, and
/// whose day it is: `list` is what `turns_to_remind_at` gives.
pub proof fn law_open_turns_are_reminded_of(
    state: State,
    list: Seq<(CleaningGroup, Turn)>,
    day: Date,
    kind: ReminderKind,
    final_weekday: u8,
    today: Date,
    group: CleaningGroup,
    turn: Turn,
)
    requires
        list == reminders(state, state.cleaning_groups@, day, kind, final_weekday, today),
        state.wf(),
        day.in_week(),
    ensures
        list.contains((group, turn)) == owes_reminder(
            state,
            group,
            turn,
            kind,
            final_weekday,
            day,
            today,
        ),
{
    let no = (day.day - 1) / 7;
    let week = week_at(no);
    lemma_week_at(no);
    crate::calendar::lemma_whole_week(day.day as int, week.0, week.1);
    crate::calendar::lemma_weeks_in(week.0);
    crate::calendar::lemma_monday(week.0, week.1);
    lemma_shift_count(group.rhythm);
    lemma_reminders(
        state,
        state.cleaning_groups@,
        day,
        kind,
        final_weekday,
        today,
        group,
        turn,
    );
    lemma_turn_marked(state, group, turn);
    lemma_reminded(state, group.id@, turn.year, turn.week, turn.shift, kind);
    lemma_reminded(state, "*"@, turn.year, turn.week, 0, kind);
    let turns = state.week_turns(group, today, week.0 as i32, week.1 as u32);
    let (y, w) = (turn.year as int, turn.week as int);
    assert(week.0 as i32 == week.0 && week.1 as u32 == week.1);
    if turns.contains(turn) {
        let k = choose|k: int| 0 <= k < turns.len() && turns[k] == turn;
        assert(turn.shift == k);
        assert(y == week.0 && w == week.1);
        assert(weekday(day.day as int) == day.day - monday(y, w));
        assert(has_monday(y, w));
        lemma_due(state, group, today, y, w);
    }
    if is_week(y, w) && 0 <= day.day - monday(y, w) <= 6 {
        crate::calendar::lemma_week_of_day(day.day as int, y, w);
        assert(y == week.0 && w == week.1);
        assert(weekday(day.day as int) == day.day - monday(y, w)) by {
            crate::calendar::lemma_monday(y, w);
        }
        assert(has_monday(y, w));
        lemma_due(state, group, today, y, w);
        if state.due(group, today, y, w) && turn.shift < group.rhythm.week_shifts().len() {
            assert(turns[turn.shift as int] == turn);
        }
    }
}

// ── Who is mentioned ─────────────────────────────────────────────────────────

/// Whether whoever a slot of a turn is assigned to has a Matrix id.
pub open spec fn falls_to(
    state: State,
    group: CleaningGroup,
    turn: Turn,
    k: int,
    today: Date,
    mxid: Seq<char>,
) -> bool {
    match state.assignee(group, k, turn, today) {
        Some(p) => p.matrix_id is Some && p.matrix_id->0@ == mxid,
        None => false,
    }
}

/// Sorting and leaving out repetitions leaves everybody in the list.
pub proof fn lemma_mention_list(s: Seq<String>, m: Seq<char>)
    ensures
        says(mention_list(s), m) == says(s, m),
{
    broadcast use vstd::seq_lib::group_to_multiset_ensures;

    let t = sorted(s);
    lemma_sorted(s);
    lemma_deduped_says(t, m);
    if says(s, m) {
        let i = choose|i: int| 0 <= i < s.len() && (#[trigger] s[i])@ == m;
        assert(s.contains(s[i]));
        assert(s.to_multiset().count(s[i]) > 0);
        assert(t.contains(s[i]));
        let k = choose|k: int| 0 <= k < t.len() && t[k] == s[i];
        assert(t[k]@ == m);
    }
    if says(t, m) {
        let i = choose|i: int| 0 <= i < t.len() && (#[trigger] t[i])@ == m;
        assert(t.contains(t[i]));
        assert(t.to_multiset().count(t[i]) > 0);
        assert(s.contains(t[i]));
        let k = choose|k: int| 0 <= k < s.len() && s[k] == t[i];
        assert(s[k]@ == m);
    }
}

proof fn lemma_deduped_says(s: Seq<String>, m: Seq<char>)
    ensures
        says(deduped(s), m) == says(s, m),
    decreases s.len(),
{
    if s.len() > 0 {
        let u = s.drop_last();
        lemma_deduped_says(u, m);
        let r = deduped(u);
        let d = deduped(s);
        if says(u, m) {
            let i = choose|i: int| 0 <= i < u.len() && (#[trigger] u[i])@ == m;
            assert(s[i] == u[i]);
        }
        if says(r, m) {
            let i = choose|i: int| 0 <= i < r.len() && (#[trigger] r[i])@ == m;
            assert(d[i] == r[i]);
        }
        if s.last()@ == m {
            assert(s[s.len() - 1]@ == m);
            assert(d[d.len() - 1]@ == m);
        }
        if says(s, m) {
            let i = choose|i: int| 0 <= i < s.len() && (#[trigger] s[i])@ == m;
            if i < u.len() {
                assert(u[i] == s[i]);
            }
        }
        if says(d, m) {
            let i = choose|i: int| 0 <= i < d.len() && (#[trigger] d[i])@ == m;
            if i < r.len() {
                assert(r[i] == d[i]);
            }
        }
    }
}

/// Whether one of the lines mentions somebody.
spec fn lines_mention(e: Seq<(Seq<char>, Option<String>)>, m: Seq<char>) -> bool {
    exists|i: int| 0 <= i < e.len() && (#[trigger] e[i]).1 is Some && e[i].1->0@ == m
}

proof fn lemma_lines_mention(e: Seq<(Seq<char>, Option<String>)>, m: Seq<char>)
    ensures
        says(mentions(e), m) == lines_mention(e, m),
    decreases e.len(),
{
    if e.len() > 0 {
        let u = e.drop_last();
        lemma_lines_mention(u, m);
        let r = mentions(u);
        let d = mentions(e);
        if says(r, m) {
            let i = choose|i: int| 0 <= i < r.len() && (#[trigger] r[i])@ == m;
            assert(d[i] == r[i]);
        }
        if says(d, m) {
            let i = choose|i: int| 0 <= i < d.len() && (#[trigger] d[i])@ == m;
            if i < r.len() {
                assert(r[i] == d[i]);
            } else {
                assert(e[e.len() - 1].1 is Some);
            }
        }
        if lines_mention(u, m) {
            let i = choose|i: int|
                0 <= i < u.len() && (#[trigger] u[i]).1 is Some && u[i].1->0@ == m;
            assert(e[i] == u[i]);
        }
        if lines_mention(e, m) {
            let i = choose|i: int|
                0 <= i < e.len() && (#[trigger] e[i]).1 is Some && e[i].1->0@ == m;
            if i < u.len() {
                assert(u[i] == e[i]);
            } else {
                assert(d[d.len() - 1]@ == m);
            }
        }
    }
}

/// Whether a turn has a slot, open where only those count, that falls to somebody.
pub open spec fn turn_falls_to(
    state: State,
    group: CleaningGroup,
    turn: Turn,
    today: Date,
    with_done: bool,
    mxid: Seq<char>,
) -> bool {
    exists|k: int|
        0 <= k < places(group) && #[trigger] falls_to(state, group, turn, k, today, mxid) && (
        with_done || !is_marked(state, group, k, turn))
}

proof fn lemma_turn_mentions(
    state: State,
    group: CleaningGroup,
    turn: Turn,
    today: Date,
    with_done: bool,
    n: nat,
    m: Seq<char>,
)
    ensures
        lines_mention(turn_entries(state, group, turn, today, with_done, n), m) == (exists|k: int|
            0 <= k < n && #[trigger] falls_to(state, group, turn, k, today, m) && (with_done
                || !is_marked(state, group, k, turn))),
    decreases n,
{
    if n > 0 {
        let k = n - 1;
        lemma_turn_mentions(state, group, turn, today, with_done, k as nat, m);
        lemma_marked(state, group, k, turn);
        let u = turn_entries(state, group, turn, today, with_done, k as nat);
        let e = turn_entries(state, group, turn, today, with_done, n);
        if lines_mention(u, m) {
            let i = choose|i: int|
                0 <= i < u.len() && (#[trigger] u[i]).1 is Some && u[i].1->0@ == m;
            assert(e[i] == u[i]);
        }
        if falls_to(state, group, turn, k, today, m) && (with_done || !is_marked(
            state,
            group,
            k,
            turn,
        )) {
            assert(e[e.len() - 1].1->0@ == m);
        }
        if lines_mention(e, m) {
            let i = choose|i: int|
                0 <= i < e.len() && (#[trigger] e[i]).1 is Some && e[i].1->0@ == m;
            if i < u.len() {
                assert(u[i] == e[i]);
            } else {
                assert(falls_to(state, group, turn, k, today, m));
            }
        }
    }
}

proof fn lemma_says_add(a: Seq<String>, b: Seq<String>, m: Seq<char>)
    ensures
        says(a + b, m) == (says(a, m) || says(b, m)),
{
    let c = a + b;
    if says(a, m) {
        let i = choose|i: int| 0 <= i < a.len() && (#[trigger] a[i])@ == m;
        assert(c[i] == a[i]);
    }
    if says(b, m) {
        let i = choose|i: int| 0 <= i < b.len() && (#[trigger] b[i])@ == m;
        assert(c[a.len() + i] == b[i]);
    }
    if says(c, m) {
        let i = choose|i: int| 0 <= i < c.len() && (#[trigger] c[i])@ == m;
        if i < a.len() {
            assert(a[i] == c[i]);
        } else {
            assert(b[i - a.len()] == c[i]);
        }
    }
}

proof fn lemma_reminder_mentions(
    state: State,
    turns: Seq<(CleaningGroup, Turn)>,
    today: Date,
    m: Seq<char>,
)
    ensures
        says(reminder_mentions(state, turns, today), m) == (exists|i: int|
            0 <= i < turns.len() && #[trigger] turn_falls_to(
                state,
                turns[i].0,
                turns[i].1,
                today,
                false,
                m,
            )),
    decreases turns.len(),
{
    if turns.len() > 0 {
        let u = turns.drop_last();
        let (g, t) = turns.last();
        lemma_reminder_mentions(state, u, today, m);
        let e = turn_entries(state, g, t, today, false, g.slot_count());
        lemma_says_add(reminder_mentions(state, u, today), mentions(e), m);
        lemma_lines_mention(e, m);
        lemma_turn_marked(state, g, t);
        lemma_turn_mentions(state, g, t, today, false, g.slot_count(), m);
        if exists|i: int|
            0 <= i < u.len() && #[trigger] turn_falls_to(state, u[i].0, u[i].1, today, false, m) {
            let i = choose|i: int|
                0 <= i < u.len() && #[trigger] turn_falls_to(state, u[i].0, u[i].1, today, false, m);
            assert(turns[i] == u[i]);
            assert(turn_falls_to(state, turns[i].0, turns[i].1, today, false, m));
        }
        let n = turns.len() - 1;
        if turn_falls_to(state, g, t, today, false, m) {
            assert(turn_falls_to(state, turns[n].0, turns[n].1, today, false, m));
        }
        if exists|i: int|
            0 <= i < turns.len() && #[trigger] turn_falls_to(
                state,
                turns[i].0,
                turns[i].1,
                today,
                false,
                m,
            ) {
            let i = choose|i: int|
                0 <= i < turns.len() && #[trigger] turn_falls_to(
                    state,
                    turns[i].0,
                    turns[i].1,
                    today,
                    false,
                    m,
                );
            if i < n {
                assert(u[i] == turns[i]);
                assert(turn_falls_to(state, u[i].0, u[i].1, today, false, m));
            }
        }
    }
}

/// A reminder mentions exactly those who have an open slot in one of the turns it is about, each
/// one of the slots counting: `mxids` is whom `build_turn_reminder` mentions.
pub proof fn law_reminders_mention_who_has_an_open_slot(
    state: State,
    turns: Seq<(CleaningGroup, Turn)>,
    today: Date,
    mxids: Seq<String>,
    m: Seq<char>,
)
    requires
        mxids == mention_list(reminder_mentions(state, turns, today)),
    ensures
        says(mxids, m) == (exists|i: int, k: int|
            0 <= i < turns.len() && 0 <= k < places(turns[i].0) && #[trigger] falls_to(
                state,
                turns[i].0,
                turns[i].1,
                k,
                today,
                m,
            ) && !is_marked(state, turns[i].0, k, turns[i].1)),
{
    lemma_mention_list(reminder_mentions(state, turns, today), m);
    lemma_reminder_mentions(state, turns, today, m);
    if says(mxids, m) {
        let i = choose|i: int|
            0 <= i < turns.len() && #[trigger] turn_falls_to(
                state,
                turns[i].0,
                turns[i].1,
                today,
                false,
                m,
            );
        let k = choose|k: int|
            0 <= k < places(turns[i].0) && #[trigger] falls_to(
                state,
                turns[i].0,
                turns[i].1,
                k,
                today,
                m,
            ) && !is_marked(state, turns[i].0, k, turns[i].1);
        assert(falls_to(state, turns[i].0, turns[i].1, k, today, m));
    }
    if exists|i: int, k: int|
        0 <= i < turns.len() && 0 <= k < places(turns[i].0) && #[trigger] falls_to(
            state,
            turns[i].0,
            turns[i].1,
            k,
            today,
            m,
        ) && !is_marked(state, turns[i].0, k, turns[i].1) {
        let (i, k) = choose|i: int, k: int|
            0 <= i < turns.len() && 0 <= k < places(turns[i].0) && #[trigger] falls_to(
                state,
                turns[i].0,
                turns[i].1,
                k,
                today,
                m,
            ) && !is_marked(state, turns[i].0, k, turns[i].1);
        assert(turn_falls_to(state, turns[i].0, turns[i].1, today, false, m));
    }
}

proof fn lemma_turns_mention(
    state: State,
    group: CleaningGroup,
    turns: Seq<Turn>,
    today: Date,
    m: Seq<char>,
)
    ensures
        says(mentions(turns_entries(state, group, turns, today, true)), m) == (exists|i: int|
            0 <= i < turns.len() && #[trigger] turn_falls_to(
                state,
                group,
                turns[i],
                today,
                true,
                m,
            )),
    decreases turns.len(),
{
    let all = turns_entries(state, group, turns, today, true);
    lemma_lines_mention(all, m);
    if turns.len() > 0 {
        let u = turns.drop_last();
        let t = turns.last();
        lemma_turns_mention(state, group, u, today, m);
        let a = turns_entries(state, group, u, today, true);
        let b = turn_entries(state, group, t, today, true, group.slot_count());
        lemma_lines_mention(a, m);
        lemma_turn_marked(state, group, t);
        lemma_turn_mentions(state, group, t, today, true, group.slot_count(), m);
        if lines_mention(a, m) {
            let i = choose|i: int|
                0 <= i < a.len() && (#[trigger] a[i]).1 is Some && a[i].1->0@ == m;
            assert(all[i] == a[i]);
        }
        if lines_mention(b, m) {
            let i = choose|i: int|
                0 <= i < b.len() && (#[trigger] b[i]).1 is Some && b[i].1->0@ == m;
            assert(all[a.len() + i] == b[i]);
        }
        if lines_mention(all, m) {
            let i = choose|i: int|
                0 <= i < all.len() && (#[trigger] all[i]).1 is Some && all[i].1->0@ == m;
            if i < a.len() {
                assert(a[i] == all[i]);
            } else {
                assert(b[i - a.len()] == all[i]);
            }
        }
        let n = turns.len() - 1;
        if exists|i: int|
            0 <= i < u.len() && #[trigger] turn_falls_to(state, group, u[i], today, true, m) {
            let i = choose|i: int|
                0 <= i < u.len() && #[trigger] turn_falls_to(state, group, u[i], today, true, m);
            assert(turns[i] == u[i]);
            assert(turn_falls_to(state, group, turns[i], today, true, m));
        }
        if turn_falls_to(state, group, t, today, true, m) {
            assert(turn_falls_to(state, group, turns[n], today, true, m));
        }
        if exists|i: int|
            0 <= i < turns.len() && #[trigger] turn_falls_to(
                state,
                group,
                turns[i],
                today,
                true,
                m,
            ) {
            let i = choose|i: int|
                0 <= i < turns.len() && #[trigger] turn_falls_to(
                    state,
                    group,
                    turns[i],
                    today,
                    true,
                    m,
                );
            if i < n {
                assert(u[i] == turns[i]);
                assert(turn_falls_to(state, group, u[i], today, true, m));
            }
        }
    }
}

/// Whether a turn of the week of one of the groups falls to somebody.
spec fn groups_call(
    state: State,
    groups: Seq<CleaningGroup>,
    year: i32,
    week: u32,
    today: Date,
    m: Seq<char>,
) -> bool {
    exists|g: CleaningGroup|
        groups.contains(g) && #[trigger] group_calls(state, g, year, week, today, m)
}

/// Whether a turn of the week of a group falls to somebody.
spec fn group_calls(
    state: State,
    group: CleaningGroup,
    year: i32,
    week: u32,
    today: Date,
    m: Seq<char>,
) -> bool {
    exists|i: int|
        0 <= i < state.week_turns(group, today, year, week).len() && #[trigger] turn_falls_to(
            state,
            group,
            state.week_turns(group, today, year, week)[i],
            today,
            true,
            m,
        )
}

proof fn lemma_plan_mentions(
    state: State,
    groups: Seq<CleaningGroup>,
    year: i32,
    week: u32,
    today: Date,
    m: Seq<char>,
)
    ensures
        says(plan_mentions(state, groups, year, week, today), m) == groups_call(
            state,
            groups,
            year,
            week,
            today,
            m,
        ),
    decreases groups.len(),
{
    if groups.len() > 0 {
        let u = groups.drop_last();
        let g = groups.last();
        lemma_plan_mentions(state, u, year, week, today, m);
        lemma_says_add(
            plan_mentions(state, u, year, week, today),
            mentions(group_entries(state, g, year, week, today)),
            m,
        );
        lemma_turns_mention(state, g, state.week_turns(g, today, year, week), today, m);
        assert(groups[groups.len() - 1] == g);
        assert(groups.contains(g));
        let turns = state.week_turns(g, today, year, week);
        assert(says(mentions(group_entries(state, g, year, week, today)), m) == group_calls(
            state,
            g,
            year,
            week,
            today,
            m,
        )) by {
            if group_calls(state, g, year, week, today, m) {
                let i = choose|i: int|
                    0 <= i < turns.len() && #[trigger] turn_falls_to(
                        state,
                        g,
                        turns[i],
                        today,
                        true,
                        m,
                    );
                assert(turn_falls_to(state, g, turns[i], today, true, m));
            }
        }
        if groups_call(state, u, year, week, today, m) {
            let h = choose|h: CleaningGroup|
                u.contains(h) && #[trigger] group_calls(state, h, year, week, today, m);
            let i = choose|i: int| 0 <= i < u.len() && u[i] == h;
            assert(groups[i] == h);
        }
        if groups_call(state, groups, year, week, today, m) {
            let h = choose|h: CleaningGroup|
                groups.contains(h) && #[trigger] group_calls(state, h, year, week, today, m);
            let i = choose|i: int| 0 <= i < groups.len() && groups[i] == h;
            if i < u.len() {
                assert(u[i] == h);
            }
        }
    }
}

/// The plan of a week mentions exactly those who have a slot in a turn of that week, done or not,
/// in one of the groups that clean in it: `message` is what `weekly_plan` gives.
pub proof fn law_plans_mention_who_has_a_slot(
    state: State,
    message: Message,
    year: i32,
    week: u32,
    today: Date,
    m: Seq<char>,
)
    requires
        is_plan(message, state, year, week, today),
        plan_fits(state, year, week, today),
        has_monday(year as int, week as int),
    ensures
        says(message.mxids@, m) == (exists|g: CleaningGroup, shift: int, k: int|
            state.cleaning_groups@.contains(g) && g.is_active && is_due(
                state,
                g,
                today,
                year as int,
                week as int,
            ) && 0 <= shift < g.rhythm.week_shifts().len() && 0 <= k < places(g)
                && #[trigger] falls_to(
                state,
                g,
                Turn { year, week, shift: shift as u8 },
                k,
                today,
                m,
            )),
{
    let all = state.cleaning_groups@;
    let p = |g: CleaningGroup| state.in_plan(g, today, year, week);
    let groups = due_groups(state, year, week, today);
    lemma_filter(all, p);
    lemma_mention_list(plan_mentions(state, groups, year, week, today), m);
    lemma_plan_mentions(state, groups, year, week, today, m);
    if says(message.mxids@, m) {
        let g = choose|g: CleaningGroup|
            groups.contains(g) && #[trigger] group_calls(state, g, year, week, today, m);
        let j = choose|j: int| 0 <= j < groups.len() && groups[j] == g;
        assert(p(groups[j]) && all.contains(groups[j]));
        lemma_due(state, g, today, year as int, week as int);
        let turns = state.week_turns(g, today, year, week);
        let i = choose|i: int|
            0 <= i < turns.len() && #[trigger] turn_falls_to(state, g, turns[i], today, true, m);
        let k = choose|k: int|
            0 <= k < places(g) && #[trigger] falls_to(state, g, turns[i], k, today, m);
        assert(falls_to(state, g, Turn { year, week, shift: i as u8 }, k, today, m));
    }
    if exists|g: CleaningGroup, shift: int, k: int|
        all.contains(g) && g.is_active && is_due(
            state,
            g,
            today,
            year as int,
            week as int,
        ) && 0 <= shift < g.rhythm.week_shifts().len() && 0 <= k < places(g) && #[trigger] falls_to(
            state,
            g,
            Turn { year, week, shift: shift as u8 },
            k,
            today,
            m,
        ) {
        let (g, shift, k) = choose|g: CleaningGroup, shift: int, k: int|
            all.contains(g) && g.is_active && is_due(
                state,
                g,
                today,
                year as int,
                week as int,
            ) && 0 <= shift < g.rhythm.week_shifts().len() && 0 <= k < places(g)
                && #[trigger] falls_to(
                state,
                g,
                Turn { year, week, shift: shift as u8 },
                k,
                today,
                m,
            );
        lemma_due(state, g, today, year as int, week as int);
        let turns = state.week_turns(g, today, year, week);
        assert(turns[shift] == (Turn { year, week, shift: shift as u8 }));
        assert(turn_falls_to(state, g, turns[shift], today, true, m));
        assert(group_calls(state, g, year, week, today, m));
        let j = choose|j: int| 0 <= j < all.len() && all[j] == g;
        assert(p(all[j]));
        assert(groups.contains(g));
    }
}

} // verus!
