//! What the statistics of groups, the ranking and the shares say.

use vstd::prelude::*;

use crate::analytics::{
    active_groups_of, cleaned, cleaned_by, cleaning_counts, duties_of, excused, helping,
    is_fairness, is_group_stats, is_leaderboard, is_stats_of, lists_stats, marks_duty,
    mxid_or_nothing, shown_counts, swap_from, swap_in, swap_to, Duty, FairnessCount, FairnessCounts,
    GroupStats, PersonStats,
};
use crate::calendar::{
    has_monday, lemma_monday, lemma_week_at, lemma_week_of_day, lemma_whole_week, monday, week_at,
    week_number, whole_week, Date,
};
use crate::domain::{CleaningGroup, Person};
use crate::lists::{count, lemma_filter, lemma_some};
use crate::plain::{
    first_mark, is_due, is_marked, lemma_due, lemma_marked, lemma_turn_marked, places,
};
use crate::rhythm::{lemma_shift_count, Turn};
use crate::sorting::{lemma_sorted, sorted};
use crate::state::{Absence, Completion, State, SwapRequest};
use crate::text::says;

verus! {

// ── Past turns ───────────────────────────────────────────────────────────────

/// Whether a turn of a group is one of those that are over: of a week since tracking started that
/// was due, with its last day before today.
pub open spec fn is_past_turn(state: State, group: CleaningGroup, today: Date, turn: Turn) -> bool {
    let (year, week) = (turn.year as int, turn.week as int);
    let start = match state.created_at {
        Some(t) => (719162 + t.secs as int / 86400) / 7,
        None => (today.day - 1) / 7,
    };
    &&& has_monday(year, week)
    &&& is_due(state, group, today, year, week)
    &&& turn.shift < group.rhythm.week_shifts().len()
    &&& start <= (monday(year, week) - 1) / 7
    &&& monday(year, week) + group.rhythm.week_shifts()[turn.shift as int].end < today.day
}

/// Weeks that can be represented can be told apart.
proof fn lemma_known_week(no: int)
    requires
        whole_week(7 * no + 1),
    ensures
        ({
            let week = week_at(no);
            &&& week_number(week.0, week.1) == no
            &&& week.0 as i32 == week.0
            &&& week.1 as u32 == week.1
            &&& has_monday(week.0, week.1)
            &&& monday(week.0, week.1) == 7 * no + 1
        }),
{
    let week = week_at(no);
    lemma_week_at(no);
    lemma_monday(week.0, week.1);
    crate::calendar::lemma_weeks_in(week.0);
    lemma_whole_week(7 * no + 1, week.0, week.1);
}

proof fn lemma_weeks_within(a: int, b: int, no: int)
    requires
        whole_week(7 * a + 1),
        whole_week(7 * b + 1),
        a <= no <= b,
    ensures
        whole_week(7 * no + 1),
{
}

/// The turns of a group in weeks from a given one on.
proof fn lemma_turns_in(state: State, group: CleaningGroup, today: Date, from: int, n: nat, turn: Turn)
    requires
        whole_week(7 * from + 1),
        n > 0 ==> whole_week(7 * (from + n - 1) + 1),
    ensures
        ({
            let (y, w) = (turn.year as int, turn.week as int);
            let no = (monday(y, w) - 1) / 7;
            state.turns_from(group, today, from, n).contains(turn) == (has_monday(y, w) && is_due(
                state,
                group,
                today,
                y,
                w,
            ) && from <= no < from + n && turn.shift < group.rhythm.week_shifts().len())
        }),
    decreases n,
{
    let (y, w) = (turn.year as int, turn.week as int);
    let all = state.turns_from(group, today, from, n);
    lemma_monday(y, w);
    lemma_shift_count(group.rhythm);
    if n > 0 {
        let m = (n - 1) as nat;
        let r = state.turns_from(group, today, from, m);
        let no = from + n - 1;
        let week = week_at(no);
        let more = state.week_turns(group, today, week.0 as i32, week.1 as u32);
        if m > 0 {
            lemma_weeks_within(from, no, no - 1);
        }
        lemma_turns_in(state, group, today, from, m, turn);
        lemma_known_week(no);
        lemma_due(state, group, today, week.0, week.1);
        assert(all == r + more);
        if more.contains(turn) {
            let k = choose|k: int| 0 <= k < more.len() && more[k] == turn;
            assert(turn.shift == k && y == week.0 && w == week.1);
            assert(all[r.len() + k] == turn);
        }
        if r.contains(turn) {
            let k = choose|k: int| 0 <= k < r.len() && r[k] == turn;
            assert(all[k] == turn);
        }
        if all.contains(turn) {
            let k = choose|k: int| 0 <= k < all.len() && all[k] == turn;
            if k < r.len() {
                assert(r[k] == turn);
            } else {
                assert(more[k - r.len()] == turn);
            }
        }
        if has_monday(y, w) && is_due(state, group, today, y, w) && week_number(y, w) == no
            && turn.shift < group.rhythm.week_shifts().len() {
            lemma_week_of_day(7 * no + 1, y, w);
            assert(more[turn.shift as int] == turn);
        }
    }
}

proof fn lemma_turns_apart(state: State, group: CleaningGroup, today: Date, from: int, n: nat)
    requires
        whole_week(7 * from + 1),
        n > 0 ==> whole_week(7 * (from + n - 1) + 1),
    ensures
        state.turns_from(group, today, from, n).no_duplicates(),
    decreases n,
{
    let all = state.turns_from(group, today, from, n);
    lemma_shift_count(group.rhythm);
    if n > 0 {
        let m = (n - 1) as nat;
        let r = state.turns_from(group, today, from, m);
        let no = from + n - 1;
        let week = week_at(no);
        let more = state.week_turns(group, today, week.0 as i32, week.1 as u32);
        if m > 0 {
            lemma_weeks_within(from, no, no - 1);
        }
        lemma_turns_apart(state, group, today, from, m);
        lemma_known_week(no);
        assert(all == r + more);
        assert forall|i: int, j: int| 0 <= i < j < all.len() implies #[trigger] all[i]
            != #[trigger] all[j] by {
            if j < r.len() {
                assert(all[i] == r[i] && all[j] == r[j]);
            } else {
                assert(all[j] == more[j - r.len()]);
                assert(all[j].shift == j - r.len());
                if i < r.len() {
                    assert(r.contains(r[i]));
                    lemma_turns_in(state, group, today, from, m, r[i]);
                } else {
                    assert(all[i] == more[i - r.len()]);
                    assert(all[i].shift == i - r.len());
                }
            }
        }
    }
}

proof fn lemma_filter_apart<A>(s: Seq<A>, p: spec_fn(A) -> bool)
    requires
        s.no_duplicates(),
    ensures
        s.filter(p).no_duplicates(),
    decreases s.len(),
{
    reveal(Seq::filter);
    if s.len() > 0 {
        let u = s.drop_last();
        assert(u.no_duplicates());
        lemma_filter_apart(u, p);
        lemma_filter(u, p);
        let f = u.filter(p);
        if p(s.last()) {
            assert forall|i: int| 0 <= i < f.len() implies #[trigger] f[i] != s.last() by {
                assert(u.contains(f[i]));
                let k = choose|k: int| 0 <= k < u.len() && u[k] == f[i];
                assert(s[k] == f[i]);
            }
        }
    }
}

/// The past turns of a group are those of the weeks since tracking started that were due and whose
/// last day has passed, each once.
pub proof fn law_past_turns_are_over(state: State, group: CleaningGroup, today: Date, turn: Turn)
    requires
        state.wf(),
        today.in_week(),
    ensures
        state.past_turns(group, today).contains(turn) == is_past_turn(state, group, today, turn),
        state.past_turns(group, today).no_duplicates(),
{
    let from = state.start_no(today);
    let n = state.tracked_weeks(today) as nat;
    let all = state.turns_from(group, today, from, n);
    let p = state.over(group, today);
    let past = state.past_turns(group, today);
    let (y, w) = (turn.year as int, turn.week as int);
    lemma_filter(all, p);
    lemma_monday(y, w);
    lemma_shift_count(group.rhythm);
    if n > 0 {
        assert(whole_week(7 * from + 1));
        assert(whole_week(7 * today.week_no() + 1));
        lemma_turns_in(state, group, today, from, n, turn);
        lemma_turns_apart(state, group, today, from, n);
        lemma_filter_apart(all, p);
    }
    if past.contains(turn) {
        let k = choose|k: int| 0 <= k < past.len() && past[k] == turn;
        assert(p(past[k]) && all.contains(past[k]));
    }
    if is_past_turn(state, group, today, turn) {
        assert(all.contains(turn));
        let k = choose|k: int| 0 <= k < all.len() && all[k] == turn;
        assert(p(all[k]));
    }
}

// ── Groups ───────────────────────────────────────────────────────────────────

/// A turn of a group with a mark at each slot, one of which somebody cleaned.
pub open spec fn was_cleaned(state: State, group: CleaningGroup) -> spec_fn(Turn) -> bool {
    |t: Turn|
        {
            &&& forall|k: int| 0 <= k < places(group) ==> #[trigger] is_marked(state, group, k, t)
            &&& exists|k: int, i: int|
                0 <= k < places(group) && #[trigger] first_mark(state, group, k, t, i)
                    && !state.completions@[i].skipped
        }
}

/// A turn of a group with a mark at each slot, all of them excuses.
pub open spec fn was_skipped(state: State, group: CleaningGroup) -> spec_fn(Turn) -> bool {
    |t: Turn|
        {
            &&& forall|k: int| 0 <= k < places(group) ==> #[trigger] is_marked(state, group, k, t)
            &&& forall|k: int, i: int|
                0 <= k < places(group) && #[trigger] first_mark(state, group, k, t, i)
                    ==> state.completions@[i].skipped
        }
}

/// A turn of a group with an open slot.
pub open spec fn was_left(state: State, group: CleaningGroup) -> spec_fn(Turn) -> bool {
    |t: Turn| exists|k: int| 0 <= k < places(group) && !#[trigger] is_marked(state, group, k, t)
}

proof fn lemma_same_count<A>(s: Seq<A>, p: spec_fn(A) -> bool, q: spec_fn(A) -> bool)
    requires
        forall|i: int| 0 <= i < s.len() ==> p(#[trigger] s[i]) == q(s[i]),
    ensures
        count(s, p) == count(s, q),
    decreases s.len(),
{
    reveal(Seq::filter);
    if s.len() > 0 {
        let u = s.drop_last();
        assert forall|i: int| 0 <= i < u.len() implies p(#[trigger] u[i]) == q(u[i]) by {
            assert(u[i] == s[i]);
        }
        lemma_same_count(u, p, q);
        assert(p(s[s.len() - 1]) == q(s[s.len() - 1]));
    }
}

proof fn lemma_outcome_of_turn(state: State, group: CleaningGroup, t: Turn)
    ensures
        cleaned(state, group)(t) == was_cleaned(state, group)(t),
        excused(state, group)(t) == was_skipped(state, group)(t),
        state.not_done(group)(t) == was_left(state, group)(t),
{
    lemma_turn_marked(state, group, t);
    if state.turn_done(group, t) {
        assert forall|k: int| 0 <= k < places(group) implies is_marked(state, group, k, t) by {}
        if state.turn_cleaned(group, t) {
            let k = choose|k: int|
                0 <= k < group.slot_count() && !(#[trigger] state.completion(group, k, t)->0).skipped;
            assert(is_marked(state, group, k, t));
            lemma_marked(state, group, k, t);
            let i = choose|i: int| #[trigger] first_mark(state, group, k, t, i);
            assert(first_mark(state, group, k, t, i) && !state.completions@[i].skipped);
        }
        if exists|k: int, i: int|
            0 <= k < places(group) && #[trigger] first_mark(state, group, k, t, i)
                && !state.completions@[i].skipped {
            let (k, i) = choose|k: int, i: int|
                0 <= k < places(group) && #[trigger] first_mark(state, group, k, t, i)
                    && !state.completions@[i].skipped;
            lemma_marked(state, group, k, t);
            assert(!(state.completion(group, k, t)->0).skipped);
        }
    }
}

/// The statistics of a group count its past turns by their marks: cleaned are those with a mark at
/// each slot that are not all excuses, skipped those with nothing but excuses, missed those with an
/// open slot.
pub proof fn law_group_stats_count_the_turns(
    s: GroupStats,
    state: State,
    group: CleaningGroup,
    today: Date,
)
    requires
        is_group_stats(s, state, group, today),
    ensures
        s.due_weeks == state.past_turns(group, today).len(),
        s.completed == count(state.past_turns(group, today), was_cleaned(state, group)),
        s.skipped == count(state.past_turns(group, today), was_skipped(state, group)),
        s.missed == count(state.past_turns(group, today), was_left(state, group)),
        s.member_count == group.member_ids@.len(),
        s.swap_count == count(
            state.swap_requests@,
            |r: SwapRequest| r.group_id@ == group.id@ && r.status is Accepted,
        ),
{
    let turns = state.past_turns(group, today);
    assert forall|i: int| 0 <= i < turns.len() implies cleaned(state, group)(#[trigger] turns[i])
        == was_cleaned(state, group)(turns[i]) && excused(state, group)(turns[i]) == was_skipped(
        state,
        group,
    )(turns[i]) && state.not_done(group)(turns[i]) == was_left(state, group)(turns[i]) by {
        lemma_outcome_of_turn(state, group, turns[i]);
    }
    lemma_same_count(turns, cleaned(state, group), was_cleaned(state, group));
    lemma_same_count(turns, excused(state, group), was_skipped(state, group));
    lemma_same_count(turns, state.not_done(group), was_left(state, group));
    lemma_same_count(
        state.swap_requests@,
        swap_in(group.id@),
        |r: SwapRequest| r.group_id@ == group.id@ && r.status is Accepted,
    );
}

/// Whether the last turns from a place on were all cleaned or excused, and the one before that
/// place was missed, or there is none.
pub open spec fn is_run(state: State, group: CleaningGroup, turns: Seq<Turn>, from: int) -> bool {
    &&& 0 <= from <= turns.len()
    &&& forall|j: int| from <= j < turns.len() ==> !was_left(state, group)(#[trigger] turns[j])
    &&& from > 0 ==> was_left(state, group)(turns[from - 1])
}

proof fn lemma_run(state: State, group: CleaningGroup, turns: Seq<Turn>) -> (from: int)
    ensures
        is_run(state, group, turns, from),
        state.streak(group, turns) == count(turns.skip(from), was_cleaned(state, group)),
    decreases turns.len(),
{
    let p = was_cleaned(state, group);
    if turns.len() == 0 {
        reveal(Seq::filter);
        assert(turns.skip(0) =~= turns);
        0
    } else {
        let u = turns.drop_last();
        let t = turns.last();
        let from = lemma_run(state, group, u);
        lemma_outcome_of_turn(state, group, t);
        if was_left(state, group)(t) {
            reveal(Seq::filter);
            let n = turns.len() as int;
            assert(turns.skip(n) =~= Seq::<Turn>::empty());
            n
        } else {
            assert forall|j: int| from <= j < turns.len() implies !was_left(state, group)(
                #[trigger] turns[j],
            ) by {
                if j < u.len() {
                    assert(u[j] == turns[j]);
                }
            }
            if from > 0 {
                assert(u[from - 1] == turns[from - 1]);
            }
            reveal(Seq::filter);
            assert(turns.skip(from).drop_last() =~= u.skip(from));
            assert(turns.skip(from).last() == t);
            from
        }
    }
}

/// The row of a group is the number of turns cleaned since the last one that was missed.
pub proof fn law_group_streak_counts_since_the_last_miss(
    s: GroupStats,
    state: State,
    group: CleaningGroup,
    today: Date,
)
    requires
        is_group_stats(s, state, group, today),
    ensures
        exists|from: int| #[trigger]
            is_run(state, group, state.past_turns(group, today), from) && s.current_streak == count(
                state.past_turns(group, today).skip(from),
                was_cleaned(state, group),
            ),
{
    let from = lemma_run(state, group, state.past_turns(group, today));
}

// ── Help and swaps ───────────────────────────────────────────────────────────

/// Whether a mark is of a duty: of its group and turn, and of its slot.
pub open spec fn is_of_duty(state: State, d: Duty, c: Completion) -> bool {
    let slots = state.group(d.group_id@)->0.slots@;
    &&& c.group_id@ == d.group_id@
    &&& c.iso_year == d.turn.year
    &&& c.iso_week == d.turn.week
    &&& c.shift == d.turn.shift
    &&& slots.len() > 0 && d.slot_index < slots.len() ==> c.slot_id is Some && c.slot_id->0@
        == slots[d.slot_index as int].id@
    &&& slots.len() > 0 && d.slot_index >= slots.len() ==> c.slot_id is None
}

/// A cleaning by a person that is of none of their duties.
pub open spec fn is_help(state: State, person_id: Seq<char>, ds: Seq<Duty>) -> spec_fn(
    Completion,
) -> bool {
    |c: Completion|
        {
            &&& c.completed_by_id@ == person_id
            &&& !c.skipped
            &&& forall|j: int| 0 <= j < ds.len() ==> !is_of_duty(state, #[trigger] ds[j], c)
        }
}

/// The statistics of a person count as help what they cleaned without its being a duty of theirs,
/// and the accepted swaps that they asked for and were asked for.
pub proof fn law_person_stats_count_help_and_swaps(
    s: PersonStats,
    state: State,
    person_id: Seq<char>,
    today: Date,
)
    requires
        is_stats_of(s, state, person_id, today),
    ensures
        s.helped == count(
            state.completions@,
            is_help(state, person_id, duties_of(state, person_id, today)),
        ),
        s.swaps_given == count(
            state.swap_requests@,
            |r: SwapRequest|
                r.status is Accepted && r.requester@ == mxid_or_nothing(state.person(person_id)->0),
        ),
        s.swaps_taken == count(
            state.swap_requests@,
            |r: SwapRequest|
                r.status is Accepted && r.target@ == mxid_or_nothing(state.person(person_id)->0),
        ),
{
    let ds = duties_of(state, person_id, today);
    let mxid = mxid_or_nothing(state.person(person_id)->0);
    let marks = state.completions@;
    let p = helping(state, person_id, ds);
    let q = is_help(state, person_id, ds);
    assert forall|i: int| 0 <= i < marks.len() implies p(#[trigger] marks[i]) == q(marks[i]) by {
        let c = marks[i];
        lemma_some(ds, marks_duty(state, c));
        assert forall|j: int| 0 <= j < ds.len() implies marks_duty(state, c)(#[trigger] ds[j])
            == is_of_duty(state, ds[j], c) by {}
    }
    lemma_same_count(marks, p, q);
    lemma_same_count(
        state.swap_requests@,
        swap_from(mxid),
        |r: SwapRequest| r.status is Accepted && r.requester@ == mxid,
    );
    lemma_same_count(
        state.swap_requests@,
        swap_to(mxid),
        |r: SwapRequest| r.status is Accepted && r.target@ == mxid,
    );
}

// ── Ranking ──────────────────────────────────────────────────────────────────

/// Whether somebody is a member of an active group.
pub open spec fn takes_part(state: State, person_id: Seq<char>) -> bool {
    exists|g: int|
        0 <= g < state.cleaning_groups@.len() && (#[trigger] state.cleaning_groups@[g]).is_active
            && says(state.cleaning_groups@[g].member_ids@, person_id)
}

proof fn lemma_takes_part(state: State, person_id: Seq<char>)
    ensures
        (active_groups_of(state, person_id).len() > 0) == takes_part(state, person_id),
{
    let all = state.cleaning_groups@;
    let p = crate::state::group_with_member(person_id);
    let q = |g: CleaningGroup| g.is_active;
    let mine = all.filter(p);
    let act = mine.filter(q);
    lemma_filter(all, p);
    lemma_filter(mine, q);
    assert(act == active_groups_of(state, person_id));
    if act.len() > 0 {
        assert(q(act[0]) && mine.contains(act[0]));
        let k = choose|k: int| 0 <= k < mine.len() && mine[k] == act[0];
        assert(p(mine[k]) && all.contains(mine[k]));
        let g = choose|g: int| 0 <= g < all.len() && all[g] == mine[k];
        assert(all[g].is_active && says(all[g].member_ids@, person_id));
    }
    if takes_part(state, person_id) {
        let g = choose|g: int|
            0 <= g < all.len() && (#[trigger] all[g]).is_active && says(
                all[g].member_ids@,
                person_id,
            );
        assert(p(all[g]));
        assert(mine.contains(all[g]));
        let k = choose|k: int| 0 <= k < mine.len() && mine[k] == all[g];
        assert(q(mine[k]));
        assert(act.contains(mine[k]));
    }
}

proof fn lemma_listed(
    list: Seq<PersonStats>,
    persons: Seq<Person>,
    state: State,
    today: Date,
    n: int,
)
    requires
        lists_stats(list, persons, state, today),
        0 <= n < persons.len(),
        takes_part(state, persons[n].id@),
    ensures
        exists|i: int|
            0 <= i < list.len() && is_stats_of(#[trigger] list[i], state, persons[n].id@, today),
    decreases persons.len(),
{
    let u = persons.drop_last();
    let id = persons.last().id@;
    lemma_takes_part(state, id);
    if n == persons.len() - 1 {
        assert(is_stats_of(list[list.len() - 1], state, id, today));
    } else {
        assert(u[n] == persons[n]);
        if active_groups_of(state, id).len() > 0 {
            let front = list.drop_last();
            lemma_listed(front, u, state, today, n);
            let i = choose|i: int|
                0 <= i < front.len() && is_stats_of(#[trigger] front[i], state, u[n].id@, today);
            assert(list[i] == front[i]);
        } else {
            lemma_listed(list, u, state, today, n);
        }
    }
}

proof fn lemma_listed_only(
    list: Seq<PersonStats>,
    persons: Seq<Person>,
    state: State,
    today: Date,
    i: int,
)
    requires
        lists_stats(list, persons, state, today),
        0 <= i < list.len(),
    ensures
        exists|n: int|
            0 <= n < persons.len() && takes_part(state, (#[trigger] persons[n]).id@) && is_stats_of(
                list[i],
                state,
                persons[n].id@,
                today,
            ),
    decreases persons.len(),
{
    let u = persons.drop_last();
    let id = persons.last().id@;
    lemma_takes_part(state, id);
    if active_groups_of(state, id).len() > 0 {
        if i == list.len() - 1 {
            assert(is_stats_of(list[i], state, persons[persons.len() - 1].id@, today));
        } else {
            let front = list.drop_last();
            assert(front[i] == list[i]);
            lemma_listed_only(front, u, state, today, i);
            let n = choose|n: int|
                0 <= n < u.len() && takes_part(state, (#[trigger] u[n]).id@) && is_stats_of(
                    front[i],
                    state,
                    u[n].id@,
                    today,
                );
            assert(persons[n] == u[n]);
        }
    } else {
        lemma_listed_only(list, u, state, today, i);
        let n = choose|n: int|
            0 <= n < u.len() && takes_part(state, (#[trigger] u[n]).id@) && is_stats_of(
                list[i],
                state,
                u[n].id@,
                today,
            );
        assert(persons[n] == u[n]);
    }
}

proof fn lemma_sorted_contains<T: crate::sorting::Ranked>(s: Seq<T>, x: T)
    ensures
        sorted(s).contains(x) == s.contains(x),
{
    broadcast use vstd::seq_lib::group_to_multiset_ensures;

    lemma_sorted(s);
    assert(s.contains(x) == (s.to_multiset().count(x) > 0));
    assert(sorted(s).contains(x) == (sorted(s).to_multiset().count(x) > 0));
}

/// Everybody who is a member of an active group is in the ranking, with their statistics, and
/// nobody else is.
pub proof fn law_ranking_lists_everybody(r: Seq<PersonStats>, state: State, today: Date)
    requires
        is_leaderboard(r, state, today),
    ensures
        forall|n: int|
            0 <= n < state.persons@.len() && takes_part(state, (#[trigger] state.persons@[n]).id@)
                ==> exists|i: int|
                0 <= i < r.len() && is_stats_of(
                    #[trigger] r[i],
                    state,
                    state.persons@[n].id@,
                    today,
                ),
        forall|i: int|
            0 <= i < r.len() ==> takes_part(state, (#[trigger] r[i]).person_id@) && is_stats_of(
                r[i],
                state,
                r[i].person_id@,
                today,
            ),
{
    let all = state.persons@;
    let list = choose|list: Seq<PersonStats>| #[trigger]
        lists_stats(list, all, state, today) && r == sorted(list);
    assert forall|n: int| 0 <= n < all.len() && takes_part(state, (#[trigger] all[n]).id@) implies exists|
        i: int,
    |
        0 <= i < r.len() && is_stats_of(#[trigger] r[i], state, all[n].id@, today) by {
        lemma_listed(list, all, state, today, n);
        let i = choose|i: int|
            0 <= i < list.len() && is_stats_of(#[trigger] list[i], state, all[n].id@, today);
        lemma_sorted_contains(list, list[i]);
        assert(list.contains(list[i]));
        let k = choose|k: int| 0 <= k < r.len() && r[k] == list[i];
        assert(is_stats_of(r[k], state, all[n].id@, today));
    }
    assert forall|i: int| 0 <= i < r.len() implies takes_part(state, (#[trigger] r[i]).person_id@)
        && is_stats_of(r[i], state, r[i].person_id@, today) by {
        lemma_sorted_contains(list, r[i]);
        assert(r.contains(r[i]));
        let k = choose|k: int| 0 <= k < list.len() && list[k] == r[i];
        lemma_listed_only(list, all, state, today, k);
    }
}

/// In the ranking those who had a turn come before those who had none; of two who had one, whoever
/// cleaned the greater share comes first, and of equal shares the longer row.
pub proof fn law_ranking_is_by_share_and_row(
    r: Seq<PersonStats>,
    state: State,
    today: Date,
    i: int,
    j: int,
)
    requires
        is_leaderboard(r, state, today),
        0 <= i < j < r.len(),
    ensures
        r[j].due_weeks > 0 ==> r[i].due_weeks > 0,
        r[j].due_weeks > 0 ==> r[i].completed * r[j].due_weeks >= r[j].completed * r[i].due_weeks,
        r[j].due_weeks > 0 && r[i].completed * r[j].due_weeks == r[j].completed * r[i].due_weeks
            ==> r[i].streak >= r[j].streak,
{
    let list = choose|list: Seq<PersonStats>| #[trigger]
        lists_stats(list, state.persons@, state, today) && r == sorted(list);
    lemma_sorted(list);
    assert(!crate::sorting::Ranked::before(r[j], r[i]));
}

// ── Shares ───────────────────────────────────────────────────────────────────

/// A mark of a group that says that somebody cleaned.
pub open spec fn is_cleaning(group_id: Seq<char>, person_id: Seq<char>) -> spec_fn(Completion) -> bool {
    |c: Completion| !c.skipped && c.group_id@ == group_id && c.completed_by_id@ == person_id
}

/// How cleaning was shared says of each member how often they cleaned in the group, excuses not
/// counting, and lists whoever cleaned most first.
pub proof fn law_shares_count_the_cleanings(
    r: FairnessCounts,
    state: State,
    group: CleaningGroup,
    today: Date,
)
    requires
        is_fairness(r, state, group, today),
    ensures
        forall|i: int, j: int|
            0 <= i < j < r.entries@.len() ==> (#[trigger] r.entries@[i]).actual >= (
            #[trigger] r.entries@[j]).actual,
        forall|m: int|
            0 <= m < group.member_ids@.len() && state.person((#[trigger] group.member_ids@[m])@) is Some
                ==> exists|i: int|
                0 <= i < r.entries@.len() && (#[trigger] r.entries@[i]).actual == count(
                    state.completions@,
                    is_cleaning(group.id@, group.member_ids@[m]@),
                ) && r.entries@[i].display_name@ == state.person(
                    group.member_ids@[m]@,
                )->0.display_name@,
        r.due_weeks == state.past_turns(group, today).len(),
        r.slots == places(group),
{
    let persons = state.persons_of(group.member_ids@);
    let wanted = cleaning_counts(state, group.id@, persons);
    let list = choose|list: Seq<FairnessCount>|
        r.entries@ == #[trigger] sorted(list) && shown_counts(list) == wanted;
    lemma_sorted(list);
    let e = r.entries@;
    assert forall|i: int, j: int| 0 <= i < j < e.len() implies (#[trigger] e[i]).actual >= (
    #[trigger] e[j]).actual by {
        assert(!crate::sorting::Ranked::before(e[j], e[i]));
    }
    let ids = group.member_ids@;
    assert forall|m: int| 0 <= m < ids.len() && state.person((#[trigger] ids[m])@) is Some implies exists|
        i: int,
    |
        0 <= i < e.len() && (#[trigger] e[i]).actual == count(
            state.completions@,
            is_cleaning(group.id@, ids[m]@),
        ) && e[i].display_name@ == state.person(ids[m]@)->0.display_name@ by {
        let n = lemma_persons_of(state, ids, m);
        let person = persons[n];
        assert(shown_counts(list).len() == list.len() && wanted.len() == persons.len());
        assert(shown_counts(list)[n] == wanted[n]);
        assert(list[n].actual == wanted[n].1);
        lemma_same_count(
            state.completions@,
            cleaned_by(group.id@, person.id@),
            is_cleaning(group.id@, ids[m]@),
        );
        lemma_sorted_contains(list, list[n]);
        assert(list.contains(list[n]));
        let i = choose|i: int| 0 <= i < e.len() && e[i] == list[n];
        assert(e[i].actual == wanted[n].1);
    }
}

/// The persons of ids hold everybody who is known.
proof fn lemma_persons_of(state: State, ids: Seq<String>, m: int) -> (n: int)
    requires
        0 <= m < ids.len(),
        state.person(ids[m]@) is Some,
    ensures
        0 <= n < state.persons_of(ids).len(),
        state.persons_of(ids)[n] == state.person(ids[m]@)->0,
        state.persons_of(ids)[n].id@ == ids[m]@,
    decreases ids.len(),
{
    crate::lists::lemma_first_index_is(state.persons@, crate::state::person_with_id(ids[m]@));
    let u = ids.drop_last();
    let r = state.persons_of(u);
    if m == ids.len() - 1 {
        r.len() as int
    } else {
        assert(u[m] == ids[m]);
        let n = lemma_persons_of(state, u, m);
        n
    }
}

// ── Absences and groups ──────────────────────────────────────────────────────

/// The statistics of two states that differ by one more absence differ by its weeks, where it is of
/// the person, and not at all where it is of somebody else; without absences nobody is away.
pub proof fn law_absent_weeks_add_up(
    s: PersonStats,
    t: PersonStats,
    before: State,
    after: State,
    person_id: Seq<char>,
    today: Date,
    later: Date,
    a: Absence,
)
    requires
        is_stats_of(s, before, person_id, today),
        is_stats_of(t, after, person_id, later),
        after.absences@ == before.absences@.push(a),
    ensures
        a.person_id@ == person_id ==> t.absent_weeks == s.absent_weeks + a.duration_weeks,
        a.person_id@ != person_id ==> t.absent_weeks == s.absent_weeks,
        before.absences@.len() == 0 ==> s.absent_weeks == 0,
{
    assert(after.absences@.drop_last() =~= before.absences@);
    assert(after.absences@.last() == a);
}

/// The statistics of a person name each active group that they are a member of.
pub proof fn law_stats_name_the_groups(
    s: PersonStats,
    state: State,
    person_id: Seq<char>,
    today: Date,
    k: int,
)
    requires
        is_stats_of(s, state, person_id, today),
        0 <= k < state.cleaning_groups@.len(),
        state.cleaning_groups@[k].is_active,
        says(state.cleaning_groups@[k].member_ids@, person_id),
    ensures
        crate::pdf_laws::holds(s.group_names@, state.cleaning_groups@[k].name@),
{
    let all = state.cleaning_groups@;
    let g = all[k];
    let p = crate::state::group_with_member(person_id);
    let q = |g: CleaningGroup| g.is_active;
    let mine = all.filter(p);
    let act = mine.filter(q);
    lemma_filter(all, p);
    lemma_filter(mine, q);
    assert(act == active_groups_of(state, person_id));
    assert(p(all[k]));
    assert(mine.contains(all[k]));
    let i = choose|i: int| 0 <= i < mine.len() && mine[i] == g;
    assert(q(mine[i]));
    assert(act.contains(mine[i]));
    let j = choose|j: int| 0 <= j < act.len() && act[j] == g;
    let names = crate::analytics::group_names(act);
    assert(names[j] == g.name@);
    let at = crate::pdf_laws::lemma_join_holds(names, ", "@, j);
    assert(crate::pdf_laws::holds_at(s.group_names@, g.name@, at));
}

} // verus!
