//! What is in a state, said entry by entry.
//!
//! The laws of what the bot does speak of the entries of a state themselves: of a mark, an
//! assignment, an absence that is there or not.

use vstd::prelude::*;

use crate::calendar::{
    has_monday, monday, week_number, week_start, weeks_apart, whole_weeks, Date,
};
use crate::domain::{CleaningGroup, SlotAssignment};
use crate::lists::{lemma_first_index_is, lemma_some};
use crate::rhythm::Turn;
use crate::state::{
    absence_in, assignment_of, completion_of, reminder_of, Absence, Completion, ReminderKind,
    SentReminder, State,
};

verus! {

/// How many people clean a turn: one for each slot, and one where there are no slots.
pub open spec fn places(group: CleaningGroup) -> int {
    if group.slots@.len() > 1 {
        group.slots@.len() as int
    } else {
        1
    }
}

/// Whether a mark is of a slot of a turn. Without slots any mark of the turn is.
pub open spec fn marks(c: Completion, group: CleaningGroup, slot: int, turn: Turn) -> bool {
    &&& c.group_id@ == group.id@
    &&& c.iso_year == turn.year
    &&& c.iso_week == turn.week
    &&& c.shift == turn.shift
    &&& group.slots@.len() > 0 ==> 0 <= slot < group.slots@.len() && c.slot_id is Some
        && c.slot_id->0@ == group.slots@[slot].id@
}

/// Whether a slot of a turn has a mark.
pub open spec fn is_marked(state: State, group: CleaningGroup, slot: int, turn: Turn) -> bool {
    exists|i: int|
        0 <= i < state.completions@.len() && marks(
            #[trigger] state.completions@[i],
            group,
            slot,
            turn,
        )
}

/// Whether the mark at a place is the first of a slot of a turn: the one that counts.
pub open spec fn first_mark(state: State, group: CleaningGroup, slot: int, turn: Turn, i: int) -> bool {
    &&& 0 <= i < state.completions@.len()
    &&& marks(state.completions@[i], group, slot, turn)
    &&& forall|k: int| 0 <= k < i ==> !marks(#[trigger] state.completions@[k], group, slot, turn)
}

/// Whether an assignment is of a slot of a turn.
pub open spec fn assigns(a: SlotAssignment, group_id: Seq<char>, slot: int, turn: Turn) -> bool {
    &&& a.group_id@ == group_id
    &&& a.slot_index == slot
    &&& a.iso_year == turn.year
    &&& a.iso_week == turn.week
    &&& a.shift == turn.shift
}

/// Whether a slot of a turn has an assignment.
pub open spec fn is_assigned(state: State, group_id: Seq<char>, slot: int, turn: Turn) -> bool {
    exists|i: int|
        0 <= i < state.slot_assignments@.len() && assigns(
            #[trigger] state.slot_assignments@[i],
            group_id,
            slot,
            turn,
        )
}

/// Whether somebody is away from a group in a week: an absence started in it or as many weeks
/// before it as the absence does not last.
pub open spec fn is_away(
    state: State,
    person: Seq<char>,
    group_id: Seq<char>,
    year: i32,
    week: u32,
) -> bool {
    exists|i: int|
        0 <= i < state.absences@.len() && covers(
            #[trigger] state.absences@[i],
            person,
            group_id,
            year,
            week,
        )
}

/// Whether an absence covers a week.
pub open spec fn covers(
    a: Absence,
    person: Seq<char>,
    group_id: Seq<char>,
    year: i32,
    week: u32,
) -> bool {
    &&& a.person_id@ == person
    &&& a.group_id@ == group_id
    &&& crate::calendar::is_year(a.from_year as int)
    &&& 0 <= weeks_apart((a.from_year, a.from_week), (year, week))
    &&& weeks_apart((a.from_year, a.from_week), (year, week)) < a.duration_weeks
}

/// Whether a reminder of a kind went out.
pub open spec fn was_reminded(
    state: State,
    group_id: Seq<char>,
    year: i32,
    week: u32,
    shift: u8,
    kind: ReminderKind,
) -> bool {
    exists|i: int|
        0 <= i < state.sent_reminders@.len() && reminds(
            #[trigger] state.sent_reminders@[i],
            group_id,
            year,
            week,
            shift,
            kind,
        )
}

/// Whether a reminder is of a kind and of a turn.
pub open spec fn reminds(
    r: SentReminder,
    group_id: Seq<char>,
    year: i32,
    week: u32,
    shift: u8,
    kind: ReminderKind,
) -> bool {
    r.group_id@ == group_id && r.iso_year == year && r.iso_week == week && r.shift == shift
        && r.kind == kind
}

/// Whether a group is due in a week: the week lies a whole number of its intervals from the one
/// that tracking started in, which is the current one where nothing is known of it.
pub open spec fn is_due(state: State, group: CleaningGroup, today: Date, year: int, week: int) -> bool {
    let start = match state.created_at {
        Some(t) => (719162 + t.secs as int / 86400) / 7,
        None => (today.day - 1) / 7,
    };
    let every = match group.rhythm.every_weeks {
        Some(n) => if n == 0 {
            1int
        } else {
            n as int
        },
        None => 1int,
    };
    ((monday(year, week) - 1) / 7 - start) % every == 0
}

/// A group is due in a week of a turn that can be represented when that week is one.
pub proof fn lemma_due(state: State, group: CleaningGroup, today: Date, year: int, week: int)
    requires
        has_monday(year, week),
    ensures
        state.due(group, today, year, week) == is_due(state, group, today, year, week),
{
    crate::calendar::lemma_monday(year, week);
    let no = week_number(year, week);
    let start = state.start_no(today);
    assert(week_start(year, week) - (7 * start + 1) == 7 * (no - start));
    assert(whole_weeks(7 * (no - start)) == no - start);
}

/// A slot of a turn is done when it has a mark, and the first mark is the one that counts.
pub proof fn lemma_marked(state: State, group: CleaningGroup, slot: int, turn: Turn)
    ensures
        state.slot_done(group, slot, turn) == is_marked(state, group, slot, turn),
        forall|i: int| #[trigger]
            first_mark(state, group, slot, turn, i) ==> state.completion(group, slot, turn) == Some(
                state.completions@[i],
            ),
        is_marked(state, group, slot, turn) ==> exists|i: int| #[trigger]
            first_mark(state, group, slot, turn, i),
{
    let s = state.completions@;
    let p = completion_of(group, slot, turn);
    lemma_first_index_is(s, p);
    lemma_some(s, p);
    assert forall|i: int| 0 <= i < s.len() implies p(#[trigger] s[i]) == marks(
        s[i],
        group,
        slot,
        turn,
    ) by {}
    let n = crate::lists::first_index(s, p);
    if n < s.len() {
        assert(marks(s[n], group, slot, turn));
        assert(first_mark(state, group, slot, turn, n));
    }
    assert forall|i: int| #[trigger]
        first_mark(state, group, slot, turn, i) implies state.completion(group, slot, turn) == Some(
        s[i],
    ) by {
        crate::lists::lemma_first_index(s, p, i);
    }
}

/// A turn is done when each of its slots has a mark.
pub proof fn lemma_turn_marked(state: State, group: CleaningGroup, turn: Turn)
    ensures
        group.slot_count() == places(group),
        state.turn_done(group, turn) == (forall|k: int|
            0 <= k < places(group) ==> #[trigger] is_marked(state, group, k, turn)),
{
    if state.turn_done(group, turn) {
        assert forall|k: int| 0 <= k < places(group) implies #[trigger] is_marked(
            state,
            group,
            k,
            turn,
        ) by {
            assert(state.slot_done(group, k, turn));
            lemma_marked(state, group, k, turn);
        }
    }
    if forall|k: int| 0 <= k < places(group) ==> #[trigger] is_marked(state, group, k, turn) {
        assert forall|k: int| 0 <= k < group.slot_count() implies #[trigger] state.slot_done(
            group,
            k,
            turn,
        ) by {
            assert(is_marked(state, group, k, turn));
            lemma_marked(state, group, k, turn);
        }
    }
}

/// A slot of a turn is frozen when it has an assignment.
pub proof fn lemma_assigned(state: State, group: CleaningGroup, slot: int, turn: Turn)
    ensures
        crate::resolver::frozen(state, group, slot, turn) == is_assigned(
            state,
            group.id@,
            slot,
            turn,
        ),
{
    let s = state.slot_assignments@;
    let p = assignment_of(group.id@, slot, turn);
    lemma_some(s, p);
    assert forall|i: int| 0 <= i < s.len() implies p(#[trigger] s[i]) == assigns(
        s[i],
        group.id@,
        slot,
        turn,
    ) by {}
}

/// Somebody is away when an absence covers the week.
pub proof fn lemma_away(state: State, person: Seq<char>, group_id: Seq<char>, year: i32, week: u32)
    ensures
        state.away(person, group_id, year, week) == is_away(state, person, group_id, year, week),
{
    let s = state.absences@;
    let p = absence_in(person, group_id, year, week);
    lemma_some(s, p);
    assert forall|i: int| 0 <= i < s.len() implies p(#[trigger] s[i]) == covers(
        s[i],
        person,
        group_id,
        year,
        week,
    ) by {}
}

/// A reminder went out when one of its kind is noted.
pub proof fn lemma_reminded(
    state: State,
    group_id: Seq<char>,
    year: i32,
    week: u32,
    shift: u8,
    kind: ReminderKind,
)
    ensures
        state.reminded(group_id, year, week, shift, kind) == was_reminded(
            state,
            group_id,
            year,
            week,
            shift,
            kind,
        ),
{
    let s = state.sent_reminders@;
    let p = reminder_of(group_id, year, week, shift, kind);
    lemma_some(s, p);
    assert forall|i: int| 0 <= i < s.len() implies p(#[trigger] s[i]) == reminds(
        s[i],
        group_id,
        year,
        week,
        shift,
        kind,
    ) by {}
}

} // verus!
