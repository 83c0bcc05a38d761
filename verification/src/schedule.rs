//! Schedule build pipeline — single source of truth for all exports.
//!
//! Given the same state, day and number of weeks, `build_schedule_at` always returns the same
//! snapshot.

use vstd::prelude::*;

use crate::calendar::{
    date_of_timestamp, is_day, is_today, lemma_whole_week, now, planning_day, week_no_of, week_number,
    week_of, week_start, Date, Timestamp, LAST_WEEK,
};
use crate::domain::{
    assignment_uid, assignment_uid_text, is_plain_id, slot_assignment_uid, slot_uid_text,
    CleaningGroup, GroupId, PersonId, SlotId,
};
use crate::lists::{first_index, lemma_filter_step};
use crate::rhythm::Turn;
use crate::sorting::{comes_before, lemma_sorted, lemma_text_before, sort, sorted, text_before, Ranked};
use crate::state::{group_with_id, State};
use crate::text::{copy_texts, decimal, same_text, show};

verus! {

/// Resolved person details, pre-fetched so export code needs no further lookups.
#[derive(Clone, Debug)]
pub struct PersonDetails {
    pub id: PersonId,
    pub name: String,
    pub mxid: Option<String>,
}

/// A single resolved assignment: one person responsible for one group (or slot) in one turn.
#[derive(Clone, Debug)]
pub struct AssignmentInstance {
    /// Identical for identical (group, slot, turn, assignee).
    pub uid: String,
    pub group_id: GroupId,
    pub group_name: String,
    /// `Some` for multi-slot groups; `None` for single-slot groups.
    pub slot_id: Option<SlotId>,
    pub slot_name: Option<String>,
    pub room_names: Vec<String>,
    pub iso_year: i32,
    pub iso_week: u32,
    /// Shift within the week.
    pub shift: u8,
    /// First and last day of the turn.
    pub start: Date,
    pub end: Date,
    /// "22 – 28 Sep", or "Thu–Sun 25 – 28 Sep" for a shift.
    pub period_label: String,
    /// "Mon–Wed" for a group split into shifts, else `None`.
    pub shift_label: Option<String>,
    /// The group's rhythm, e.g. "weekly" or "2× per week (Mon–Wed, Thu–Sun)".
    pub rhythm: String,
    /// `None` means the group/slot exists but has nobody assigned.
    pub assignee: Option<PersonDetails>,
    pub is_completed: bool,
    pub is_skipped: bool,
    /// Display name of whoever marked it done (may differ from assignee).
    pub completed_by: Option<String>,
    /// Date the cleaning was marked done.
    pub completed_at: Option<Date>,
}

/// Immutable, fully-resolved snapshot of the cleaning schedule over a time range.
#[derive(Clone, Debug)]
pub struct ScheduleSnapshot {
    /// When the state last changed (or was created).
    pub state_timestamp: Timestamp,
    pub assignments: Vec<AssignmentInstance>,
}

// ── Rows ─────────────────────────────────────────────────────────────────────

/// One line of the schedule: a slot of a turn of a group, with what it is ordered by.
#[derive(Clone, Debug)]
pub struct Row {
    pub start: i32,
    pub group_pos: usize,
    pub slot_name: Option<String>,
    pub group: usize,
    pub turn: Turn,
    pub slot: usize,
}

/// Whether an optional text comes before another: none before any.
pub open spec fn option_before(a: Option<String>, b: Option<String>) -> bool {
    match a {
        None => b is Some,
        Some(x) => match b {
            Some(y) => text_before(x@, y@),
            None => false,
        },
    }
}

impl Ranked for Row {
    /// By first day, group and name of the slot.
    open spec fn before(self, other: Self) -> bool {
        self.start < other.start || (self.start == other.start && (self.group_pos < other.group_pos
            || (self.group_pos == other.group_pos && option_before(
            self.slot_name,
            other.slot_name,
        ))))
    }

    proof fn ranks(a: Self, b: Self, c: Self) {
        let x = if a.slot_name is Some {
            a.slot_name->0@
        } else {
            Seq::empty()
        };
        let y = if b.slot_name is Some {
            b.slot_name->0@
        } else {
            Seq::empty()
        };
        let z = if c.slot_name is Some {
            c.slot_name->0@
        } else {
            Seq::empty()
        };
        lemma_text_before(x, y, z);
    }

    fn is_before(&self, other: &Self) -> (r: bool) {
        if self.start != other.start {
            self.start < other.start
        } else if self.group_pos != other.group_pos {
            self.group_pos < other.group_pos
        } else {
            match &self.slot_name {
                None => other.slot_name.is_some(),
                Some(x) => match &other.slot_name {
                    Some(y) => comes_before(x.as_str(), y.as_str()),
                    None => false,
                },
            }
        }
    }
}

/// The line of a slot of a turn of the group at place `g`.
pub open spec fn row_of(state: State, g: int, turn: Turn, k: int) -> Row {
    let group = state.cleaning_groups@[g];
    Row {
        start: turn.first_day(group.rhythm) as i32,
        group_pos: first_index(state.cleaning_groups@, group_with_id(group.id@)) as usize,
        slot_name: if k < group.slots@.len() {
            Some(group.slots@[k].name)
        } else {
            None
        },
        group: g as usize,
        turn,
        slot: k as usize,
    }
}

/// The lines of a turn.
pub open spec fn turn_rows(state: State, g: int, turn: Turn) -> Seq<Row> {
    Seq::new(state.cleaning_groups@[g].slot_count(), |k: int| row_of(state, g, turn, k))
}

/// The lines of turns.
pub open spec fn turns_rows(state: State, g: int, turns: Seq<Turn>) -> Seq<Row>
    decreases turns.len(),
{
    if turns.len() == 0 {
        Seq::empty()
    } else {
        turns_rows(state, g, turns.drop_last()) + turn_rows(state, g, turns.last())
    }
}

/// The lines of the active ones of the first `n` groups for `weeks` weeks.
pub open spec fn groups_rows(state: State, today: Date, weeks: nat, n: int) -> Seq<Row>
    decreases n,
{
    if n <= 0 {
        Seq::empty()
    } else {
        let before = groups_rows(state, today, weeks, n - 1);
        let group = state.cleaning_groups@[n - 1];
        if group.is_active {
            before + turns_rows(
                state,
                n - 1,
                state.turns_from(group, today, today.week_no(), weeks),
            )
        } else {
            before
        }
    }
}

/// How many weeks a schedule of `weeks` weeks from a day on shows: at least one, and no more than
/// can be represented.
pub open spec fn shown_weeks(today: Date, weeks: int) -> nat {
    let left = LAST_WEEK - today.week_no() + 1;
    (if weeks < 1 {
        1
    } else if weeks < left {
        weeks
    } else {
        left
    }) as nat
}

/// The lines of the schedule in order.
pub open spec fn schedule_rows(state: State, today: Date, weeks: int) -> Seq<Row> {
    sorted(
        groups_rows(
            state,
            today,
            shown_weeks(today, weeks),
            state.cleaning_groups@.len() as int,
        ),
    )
}

/// The id of the event for a slot of a turn. Turns that are the first of their week have an id
/// that does not name the shift.
pub open spec fn uid_text(group: CleaningGroup, turn: Turn, k: int, person: Seq<char>) -> Seq<char> {
    let slot_id = if k < group.slots@.len() {
        group.slots@[k].id@
    } else {
        ""@
    };
    if turn.shift == 0 && k < group.slots@.len() {
        slot_uid_text(group.id@, slot_id, turn.year as int, turn.week as int, person)
    } else if turn.shift == 0 {
        assignment_uid_text(group.id@, turn.year as int, turn.week as int, person)
    } else {
        slot_uid_text(
            group.id@,
            slot_id + "#"@ + decimal(turn.shift as nat),
            turn.year as int,
            turn.week as int,
            person,
        )
    }
}

/// Whether an entry shows who is responsible for a slot of a turn.
pub open spec fn shows_assignee(a: AssignmentInstance, state: State, row: Row, today: Date) -> bool {
    let group = state.cleaning_groups@[row.group as int];
    match state.assignee(group, row.slot as int, row.turn, today) {
        Some(p) => {
            &&& a.assignee is Some
            &&& a.assignee->0.id == p.id
            &&& a.assignee->0.name == p.display_name
            &&& a.assignee->0.mxid == p.matrix_id
            &&& a.uid@ == uid_text(group, row.turn, row.slot as int, p.id@)
        },
        None => {
            &&& a.assignee is None
            &&& a.uid@ == uid_text(group, row.turn, row.slot as int, "none"@)
        },
    }
}

/// Whether an entry shows whether a slot of a turn is done, and by whom and when.
pub open spec fn shows_completion(a: AssignmentInstance, state: State, row: Row) -> bool {
    let group = state.cleaning_groups@[row.group as int];
    match state.completion(group, row.slot as int, row.turn) {
        Some(c) => {
            &&& a.is_completed
            &&& a.is_skipped == c.skipped
            &&& match state.person(c.completed_by_id@) {
                Some(p) => a.completed_by == Some(p.display_name),
                None => a.completed_by is None,
            }
            &&& if !c.skipped && is_day(719163 + c.completed_at.secs as int / 86400) {
                a.completed_at is Some && a.completed_at->0.day == 719163
                    + c.completed_at.secs as int / 86400
            } else {
                a.completed_at is None
            }
        },
        None => {
            &&& !a.is_completed
            &&& !a.is_skipped
            &&& a.completed_by is None
            &&& a.completed_at is None
        },
    }
}

/// Whether an entry is the one of a line of the schedule.
pub open spec fn is_entry(a: AssignmentInstance, state: State, row: Row, today: Date) -> bool {
    let group = state.cleaning_groups@[row.group as int];
    let k = row.slot as int;
    &&& a.group_id == group.id
    &&& a.group_name == group.name
    &&& if k < group.slots@.len() {
        &&& a.slot_id == Some(group.slots@[k].id)
        &&& a.slot_name == Some(group.slots@[k].name)
        &&& a.room_names@ == group.slots@[k].room_names@
    } else {
        &&& a.slot_id is None
        &&& a.slot_name is None
        &&& a.room_names@ == group.room_names@
    }
    &&& a.iso_year == row.turn.year
    &&& a.iso_week == row.turn.week
    &&& a.shift == row.turn.shift
    &&& a.start.day == row.turn.first_day(group.rhythm)
    &&& a.end.day == row.turn.last_day(group.rhythm)
    &&& a.start.wf()
    &&& a.end.wf()
    &&& a.period_label@ == row.turn.period_text(group.rhythm)
    &&& (a.shift_label is Some) == (row.turn.shift_text(group.rhythm) is Some)
    &&& a.shift_label is Some ==> a.shift_label->0@ == row.turn.shift_text(group.rhythm)->0
    &&& a.rhythm@ == group.rhythm.description()
    &&& shows_assignee(a, state, row, today)
    &&& is_plain_id(a.uid@)
    &&& shows_completion(a, state, row)
}

// ── Build ────────────────────────────────────────────────────────────────────

/// The id of the event for a slot of a turn.
fn uid_of(group: &CleaningGroup, turn: Turn, k: usize, person: &str) -> (r: String)
    ensures
        r@ == uid_text(*group, turn, k as int, person@),
        is_plain_id(r@),
{
    if turn.shift == 0 {
        if k < group.slots.len() {
            slot_assignment_uid(
                group.id.as_str(),
                group.slots[k].id.as_str(),
                turn.year,
                turn.week,
                person,
            )
        } else {
            assignment_uid(group.id.as_str(), turn.year, turn.week, person)
        }
    } else {
        let slot_id: String = if k < group.slots.len() {
            group.slots[k].id.clone()
        } else {
            "".to_owned()
        };
        let named = slot_id.concat("#").concat(show(turn.shift as u64).as_str());
        slot_assignment_uid(group.id.as_str(), named.as_str(), turn.year, turn.week, person)
    }
}

/// The entry of a line of the schedule.
fn entry_of(state: &State, row: &Row, today: Date) -> (r: AssignmentInstance)
    requires
        state.wf(),
        today.in_week(),
        row.group < state.cleaning_groups@.len(),
        row.turn.wf(),
    ensures
        is_entry(r, *state, *row, today),
{
    let group = &state.cleaning_groups[row.group];
    let turn = row.turn;
    let (start, end) = turn.dates(&group.rhythm);
    let (assignee, uid): (Option<PersonDetails>, String) = match state.slot_assignee_at(
        group,
        row.slot,
        turn,
        today,
    ) {
        Some(p) => (
            Some(
                PersonDetails {
                    id: p.id.clone(),
                    name: p.display_name.clone(),
                    mxid: p.matrix_id.clone(),
                },
            ),
            uid_of(group, turn, row.slot, p.id.as_str()),
        ),
        None => (None, uid_of(group, turn, row.slot, "none")),
    };
    let mut is_completed = false;
    let mut is_skipped = false;
    let mut completed_by: Option<String> = None;
    let mut completed_at: Option<Date> = None;
    match state.completion_for(group, row.slot, turn) {
        Some(c) => {
            is_completed = true;
            is_skipped = c.skipped;
            match state.person_by_id(c.completed_by_id.as_str()) {
                Some(p) => {
                    completed_by = Some(p.display_name.clone());
                },
                None => {},
            }
            if !c.skipped {
                completed_at = date_of_timestamp(c.completed_at);
            }
        },
        None => {},
    }
    let (slot_id, slot_name, room_names): (Option<String>, Option<String>, Vec<String>) = if row.slot
        < group.slots.len() {
        let slot = &group.slots[row.slot];
        (Some(slot.id.clone()), Some(slot.name.clone()), copy_texts(&slot.room_names))
    } else {
        (None, None, copy_texts(&group.room_names))
    };
    AssignmentInstance {
        uid,
        group_id: group.id.clone(),
        group_name: group.name.clone(),
        slot_id,
        slot_name,
        room_names,
        iso_year: turn.year,
        iso_week: turn.week,
        shift: turn.shift,
        start,
        end,
        period_label: turn.period_label(&group.rhythm),
        shift_label: turn.shift_label(&group.rhythm),
        rhythm: group.rhythm.describe(),
        assignee,
        is_completed,
        is_skipped,
        completed_by,
        completed_at,
    }
}

/// Whether a line is of a group that is there and a turn that can be represented.
pub open spec fn row_ok(state: State, row: Row) -> bool {
    row.group < state.cleaning_groups@.len() && row.turn.wf()
}

/// Appends the lines of the turns of the group at place `g`.
fn add_rows(state: &State, g: usize, turns: &Vec<Turn>, rows: &mut Vec<Row>)
    requires
        g < state.cleaning_groups@.len(),
        forall|i: int| 0 <= i < turns@.len() ==> (#[trigger] turns@[i]).wf(),
        forall|i: int| 0 <= i < old(rows)@.len() ==> row_ok(*state, #[trigger] old(rows)@[i]),
    ensures
        final(rows)@ == old(rows)@ + turns_rows(*state, g as int, turns@),
        forall|i: int| 0 <= i < final(rows)@.len() ==> row_ok(*state, #[trigger] final(rows)@[i]),
{
    let group = &state.cleaning_groups[g];
    let ghost start = rows@;
    let pos: usize = match state.group_position(group.id.as_str()) {
        Some(p) => p,
        None => state.cleaning_groups.len(),
    };
    proof {
        crate::lists::lemma_first_index_is(state.cleaning_groups@, group_with_id(group.id@));
    }
    let n = group.people_per_turn();
    let mut i: usize = 0;
    assert(turns@.take(0) =~= Seq::<Turn>::empty());
    assert(rows@ =~= start + turns_rows(*state, g as int, turns@.take(0)));
    while i < turns.len()
        invariant
            i <= turns.len(),
            g < state.cleaning_groups@.len(),
            *group == state.cleaning_groups@[g as int],
            n == group.slot_count(),
            pos == first_index(state.cleaning_groups@, group_with_id(group.id@)),
            forall|k: int| 0 <= k < turns@.len() ==> (#[trigger] turns@[k]).wf(),
            rows@ == start + turns_rows(*state, g as int, turns@.take(i as int)),
            forall|k: int| 0 <= k < rows@.len() ==> row_ok(*state, #[trigger] rows@[k]),
        decreases turns.len() - i,
    {
        let turn = turns[i];
        let (first, _) = turn.dates(&group.rhythm);
        let ghost before = rows@;
        let ghost new = turn_rows(*state, g as int, turn);
        let mut k: usize = 0;
        assert(rows@ =~= before + new.take(0));
        while k < n
            invariant
                k <= n,
                g < state.cleaning_groups@.len(),
                *group == state.cleaning_groups@[g as int],
                n == group.slot_count(),
                pos == first_index(state.cleaning_groups@, group_with_id(group.id@)),
                turn.wf(),
                first.day == turn.first_day(group.rhythm),
                new == turn_rows(*state, g as int, turn),
                rows@ == before + new.take(k as int),
                forall|j: int| 0 <= j < rows@.len() ==> row_ok(*state, #[trigger] rows@[j]),
            decreases n - k,
        {
            let slot_name: Option<String> = if k < group.slots.len() {
                Some(group.slots[k].name.clone())
            } else {
                None
            };
            let row = Row { start: first.day, group_pos: pos, slot_name, group: g, turn, slot: k };
            proof {
                assert(row == row_of(*state, g as int, turn, k as int));
                assert(new[k as int] == row);
                assert(new.take(k + 1) =~= new.take(k as int).push(row));
                assert((before + new.take(k as int)).push(row) =~= before + new.take(k + 1));
            }
            rows.push(row);
            k += 1;
        }
        proof {
            assert(new.take(n as int) =~= new);
            let more = turns@.take(i + 1);
            assert(more.drop_last() =~= turns@.take(i as int));
            assert(more.last() == turn);
            assert(rows@ =~= start + turns_rows(*state, g as int, more));
        }
        i += 1;
    }
    assert(turns@.take(i as int) =~= turns@);
}

/// Whether the days of the weeks of entries can be represented.
pub open spec fn weeks_known(s: Seq<AssignmentInstance>) -> bool {
    forall|i: int|
        0 <= i < s.len() ==> (Turn {
            year: (#[trigger] s[i]).iso_year,
            week: s[i].iso_week,
            shift: 0,
        }).wf()
}

/// Build the snapshot of the next `weeks` calendar weeks from the one that holds a day on: every
/// turn of every active group in that range — each group in its own rhythm, one entry per slot of
/// each turn — ordered by turn start, then group, then slot. `now` stands in for the time of the
/// last change when that is not known.
pub fn build_schedule_at(state: &State, weeks: usize, today: Date, now: Timestamp) -> (r: ScheduleSnapshot)
    requires
        state.wf(),
        today.in_week(),
    ensures
        r.assignments@.len() == schedule_rows(*state, today, weeks as int).len(),
        forall|i: int|
            0 <= i < r.assignments@.len() ==> is_entry(
                #[trigger] r.assignments@[i],
                *state,
                schedule_rows(*state, today, weeks as int)[i],
                today,
            ),
        weeks_known(r.assignments@),
        r.state_timestamp == taken_at(*state, now),
{
    let left: u64 = (LAST_WEEK - week_no_of(today) + 1) as u64;
    let n: usize = if weeks < 1 {
        1
    } else if (weeks as u64) < left {
        weeks
    } else {
        left as usize
    };
    let first = week_of(today);
    proof {
        lemma_whole_week(today.day as int, first.0 as int, first.1 as int);
        reveal(crate::calendar::january_first);
    }
    assert(n == shown_weeks(today, weeks as int));
    let mut rows: Vec<Row> = Vec::new();
    let mut g: usize = 0;
    while g < state.cleaning_groups.len()
        invariant
            g <= state.cleaning_groups.len(),
            state.wf(),
            today.in_week(),
            n >= 1,
            crate::calendar::is_week(first.0 as int, first.1 as int),
            crate::calendar::is_year(first.0 as int),
            week_number(first.0 as int, first.1 as int) == today.week_no(),
            week_start(first.0 as int, first.1 as int) == 7 * today.week_no() + 1,
            is_day(7 * (today.week_no() + n - 1) + 7),
            rows@ == groups_rows(*state, today, n as nat, g as int),
            forall|i: int| 0 <= i < rows@.len() ==> row_ok(*state, #[trigger] rows@[i]),
        decreases state.cleaning_groups.len() - g,
    {
        if state.cleaning_groups[g].is_active {
            let turns = state.turns_in_weeks(&state.cleaning_groups[g], today, first, n);
            add_rows(state, g, &turns, &mut rows);
        }
        g += 1;
    }
    let ghost unsorted = rows@;
    let ordered = sort(rows);
    proof {
        lemma_sorted(unsorted);
        assert forall|i: int| 0 <= i < ordered@.len() implies row_ok(
            *state,
            #[trigger] ordered@[i],
        ) by {
            assert(ordered@.contains(ordered@[i]));
            vstd::seq_lib::to_multiset_contains(ordered@, ordered@[i]);
            vstd::seq_lib::to_multiset_contains(unsorted, ordered@[i]);
            let k = choose|k: int| 0 <= k < unsorted.len() && unsorted[k] == ordered@[i];
            assert(row_ok(*state, unsorted[k]));
        }
    }
    let mut assignments: Vec<AssignmentInstance> = Vec::new();
    let mut i: usize = 0;
    while i < ordered.len()
        invariant
            i <= ordered.len(),
            state.wf(),
            today.in_week(),
            forall|k: int| 0 <= k < ordered@.len() ==> row_ok(*state, #[trigger] ordered@[k]),
            assignments@.len() == i,
            weeks_known(assignments@),
            forall|k: int|
                0 <= k < i ==> is_entry(#[trigger] assignments@[k], *state, ordered@[k], today),
        decreases ordered.len() - i,
    {
        assert(row_ok(*state, ordered@[i as int]));
        assignments.push(entry_of(state, &ordered[i], today));
        i += 1;
    }
    let state_timestamp = match state.last_modified {
        Some(t) => t,
        None => match state.created_at {
            Some(t) => t,
            None => now,
        },
    };
    ScheduleSnapshot { state_timestamp, assignments }
}

/// The time that a snapshot of a state carries: of the last change, else of when the state was
/// made, else of when the snapshot is.
pub open spec fn taken_at(state: State, now: Timestamp) -> Timestamp {
    match state.last_modified {
        Some(t) => t,
        None => match state.created_at {
            Some(t) => t,
            None => now,
        },
    }
}

/// Whether the entries of a snapshot show the next `weeks` weeks from a day on.
pub open spec fn shows(snapshot: ScheduleSnapshot, state: State, today: Date, weeks: int) -> bool {
    &&& snapshot.assignments@.len() == schedule_rows(state, today, weeks).len()
    &&& forall|i: int|
        0 <= i < snapshot.assignments@.len() ==> is_entry(
            #[trigger] snapshot.assignments@[i],
            state,
            schedule_rows(state, today, weeks)[i],
            today,
        )
}

/// Build the snapshot of the next `weeks` calendar weeks from the current one on. The day is read
/// from the clock.
pub fn build_schedule(state: &State, weeks: usize) -> (r: ScheduleSnapshot)
    requires
        state.wf(),
    ensures
        exists|today: Date|
            is_today(today.day as int) && #[trigger] shows(r, *state, today, weeks as int),
        state.last_modified is Some ==> r.state_timestamp == state.last_modified->0,
        state.last_modified is None && state.created_at is Some ==> r.state_timestamp
            == state.created_at->0,
{
    let day = planning_day();
    let r = build_schedule_at(state, weeks, day, now());
    assert(shows(r, *state, day, weeks as int));
    r
}

// ── Queries ──────────────────────────────────────────────────────────────────

impl AssignmentInstance {
    /// The assignee display name, or "(nobody assigned)".
    pub open spec fn shown_name(self) -> Seq<char> {
        match self.assignee {
            Some(p) => p.name@,
            None => "(nobody assigned)"@,
        }
    }

    /// The assignee display name, or "(nobody assigned)".
    pub fn assignee_name(&self) -> (r: &str)
        ensures
            r@ == self.shown_name(),
    {
        match &self.assignee {
            Some(p) => p.name.as_str(),
            None => "(nobody assigned)",
        }
    }

    /// The MXID of the assignee if they have one, else `None`.
    pub fn assignee_mxid(&self) -> (r: Option<&str>)
        ensures
            (r is Some) == (self.assignee is Some && self.assignee->0.mxid is Some),
            r is Some ==> r->0@ == self.assignee->0.mxid->0@,
    {
        match &self.assignee {
            Some(p) => match &p.mxid {
                Some(m) => Some(m.as_str()),
                None => None,
            },
            None => None,
        }
    }
}

/// The entries of a person.
pub open spec fn entry_of_person(id: Seq<char>) -> spec_fn(AssignmentInstance) -> bool {
    |a: AssignmentInstance| a.assignee is Some && a.assignee->0.id@ == id
}

/// The entries of a group.
pub open spec fn entry_of_group(id: Seq<char>) -> spec_fn(AssignmentInstance) -> bool {
    |a: AssignmentInstance| a.group_id@ == id
}

/// The entries of a week.
pub open spec fn entry_of_week(year: i32, week: u32) -> spec_fn(AssignmentInstance) -> bool {
    |a: AssignmentInstance| a.iso_year == year && a.iso_week == week
}

/// The weeks of entries, each once, in the order in which they first occur.
pub open spec fn weeks_of(s: Seq<AssignmentInstance>) -> Seq<(i32, u32)>
    decreases s.len(),
{
    if s.len() == 0 {
        Seq::empty()
    } else {
        let r = weeks_of(s.drop_last());
        let w = (s.last().iso_year, s.last().iso_week);
        if r.contains(w) {
            r
        } else {
            r.push(w)
        }
    }
}

/// Whether references point at the elements of a sequence.
pub open spec fn refers_to(r: Seq<&AssignmentInstance>, s: Seq<AssignmentInstance>) -> bool {
    r.len() == s.len() && forall|i: int| 0 <= i < r.len() ==> *(#[trigger] r[i]) == s[i]
}

impl ScheduleSnapshot {
    /// All assignments where `person_id` is the assignee, in chronological order.
    pub fn for_person(&self, person_id: &str) -> (r: Vec<&AssignmentInstance>)
        ensures
            refers_to(r@, self.assignments@.filter(entry_of_person(person_id@))),
    {
        let ghost p = entry_of_person(person_id@);
        let mut r: Vec<&AssignmentInstance> = Vec::new();
        let mut i: usize = 0;
        assert(self.assignments@.take(0).filter(p) =~= Seq::<AssignmentInstance>::empty()) by {
            reveal(Seq::filter);
        }
        while i < self.assignments.len()
            invariant
                i <= self.assignments.len(),
                p == entry_of_person(person_id@),
                refers_to(r@, self.assignments@.take(i as int).filter(p)),
            decreases self.assignments.len() - i,
        {
            proof {
                lemma_filter_step(self.assignments@, p, i as int);
            }
            let mine = match &self.assignments[i].assignee {
                Some(d) => same_text(d.id.as_str(), person_id),
                None => false,
            };
            if mine {
                r.push(&self.assignments[i]);
            }
            i += 1;
        }
        assert(self.assignments@.take(i as int) =~= self.assignments@);
        r
    }

    /// All assignments for a specific group, in chronological order.
    pub fn for_group(&self, group_id: &str) -> (r: Vec<&AssignmentInstance>)
        ensures
            refers_to(r@, self.assignments@.filter(entry_of_group(group_id@))),
    {
        let ghost p = entry_of_group(group_id@);
        let mut r: Vec<&AssignmentInstance> = Vec::new();
        let mut i: usize = 0;
        assert(self.assignments@.take(0).filter(p) =~= Seq::<AssignmentInstance>::empty()) by {
            reveal(Seq::filter);
        }
        while i < self.assignments.len()
            invariant
                i <= self.assignments.len(),
                p == entry_of_group(group_id@),
                refers_to(r@, self.assignments@.take(i as int).filter(p)),
            decreases self.assignments.len() - i,
        {
            proof {
                lemma_filter_step(self.assignments@, p, i as int);
            }
            if same_text(self.assignments[i].group_id.as_str(), group_id) {
                r.push(&self.assignments[i]);
            }
            i += 1;
        }
        assert(self.assignments@.take(i as int) =~= self.assignments@);
        r
    }

    /// Whether there is no assignment.
    pub fn is_empty(&self) -> (r: bool)
        ensures
            r == (self.assignments@.len() == 0),
    {
        self.assignments.is_empty()
    }

    /// All assignments for a given (year, week) pair.
    pub fn for_group_in_week(&self, year: i32, week: u32) -> (r: Vec<&AssignmentInstance>)
        ensures
            refers_to(r@, self.assignments@.filter(entry_of_week(year, week))),
    {
        let ghost p = entry_of_week(year, week);
        let mut r: Vec<&AssignmentInstance> = Vec::new();
        let mut i: usize = 0;
        assert(self.assignments@.take(0).filter(p) =~= Seq::<AssignmentInstance>::empty()) by {
            reveal(Seq::filter);
        }
        while i < self.assignments.len()
            invariant
                i <= self.assignments.len(),
                p == entry_of_week(year, week),
                refers_to(r@, self.assignments@.take(i as int).filter(p)),
            decreases self.assignments.len() - i,
        {
            proof {
                lemma_filter_step(self.assignments@, p, i as int);
            }
            if self.assignments[i].iso_year == year && self.assignments[i].iso_week == week {
                r.push(&self.assignments[i]);
            }
            i += 1;
        }
        assert(self.assignments@.take(i as int) =~= self.assignments@);
        r
    }

    /// Unique (iso_year, iso_week) pairs in order.
    pub fn weeks(&self) -> (r: Vec<(i32, u32)>)
        ensures
            r@ == weeks_of(self.assignments@),
    {
        let mut r: Vec<(i32, u32)> = Vec::new();
        let mut i: usize = 0;
        assert(self.assignments@.take(0) =~= Seq::<AssignmentInstance>::empty());
        while i < self.assignments.len()
            invariant
                i <= self.assignments.len(),
                r@ == weeks_of(self.assignments@.take(i as int)),
            decreases self.assignments.len() - i,
        {
            proof {
                let more = self.assignments@.take(i + 1);
                assert(more.drop_last() =~= self.assignments@.take(i as int));
                assert(more.last() == self.assignments@[i as int]);
            }
            let w = (self.assignments[i].iso_year, self.assignments[i].iso_week);
            let mut k: usize = 0;
            let mut seen = false;
            while k < r.len()
                invariant
                    k <= r.len(),
                    seen == exists|j: int| 0 <= j < k && r@[j] == w,
                decreases r.len() - k,
            {
                if r[k].0 == w.0 && r[k].1 == w.1 {
                    assert(r@[k as int] == w);
                    seen = true;
                }
                k += 1;
            }
            assert(seen == r@.contains(w));
            if !seen {
                r.push(w);
            }
            i += 1;
        }
        assert(self.assignments@.take(i as int) =~= self.assignments@);
        r
    }
}

} // verus!
