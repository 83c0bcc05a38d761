//! The event model and statistics.

use vstd::prelude::*;

use crate::calendar::{is_today, planning_day, Date, Timestamp};
use crate::domain::{
    fresh_id, slot_with_id, AssignmentSource, CleaningGroup, GroupId, Person, PersonId,
    SlotAssignment, SlotId, Weight,
};
use crate::lists::{
    count, count_where, first_index, lemma_filter_step, lemma_first_index, lemma_some, some,
};
use crate::rhythm::{Rhythm, Turn};
use crate::roster::{after, is_after};
use crate::sorting::{comes_before, lemma_text_before, sort, sorted, text_before, Ranked};
use crate::state::{Absence, Completion, State, SwapRequest, SwapStatus};
use crate::text::{
    contains_text, copy_texts, join, join_texts, lemma_views_push, same_text, says, views,
};

verus! {

/// Every domain state change is recorded as a `DomainEvent`. Events are immutable once written —
/// never updated or deleted.
#[allow(inconsistent_fields)]
#[derive(Clone, Debug)]
pub enum DomainEvent {
    // ── Group management ──
    GroupCreated { group_id: GroupId, name: String },
    GroupDeleted { group_id: GroupId },
    GroupDisabled { group_id: GroupId },
    GroupEnabled { group_id: GroupId },
    SlotAdded { group_id: GroupId, slot_id: SlotId, slot_name: String },
    SlotRemoved { group_id: GroupId, slot_id: SlotId },
    /// Frozen assignment: one person (or nobody) for one slot of one turn. Re-applying for the
    /// same key replaces the previous assignment.
    ///
    /// `actor_id` and `previous_person_id` are history only: who triggered this change and who it
    /// replaced, when known.
    SlotAssigned {
        group_id: GroupId,
        slot_index: usize,
        iso_year: i32,
        iso_week: u32,
        shift: u8,
        person_id: Option<PersonId>,
        source: AssignmentSource,
        actor_id: Option<String>,
        previous_person_id: Option<PersonId>,
    },
    RoomAdded { group_id: GroupId, slot_id: Option<SlotId>, room_name: String },
    RoomRemoved { group_id: GroupId, slot_id: Option<SlotId>, room_name: String },
    // ── Person management ──
    PersonCreated { person_id: PersonId, display_name: String, matrix_id: Option<String> },
    PersonJoinedGroup { person_id: PersonId, group_id: GroupId },
    PersonLeftGroup { person_id: PersonId, group_id: GroupId },
    /// Full replacement of a group's turn order.
    RotationQueueSet { group_id: GroupId, queue: Vec<PersonId> },
    PersonMatrixLinked { person_id: PersonId, matrix_id: String },
    /// A group's cleaning rhythm changed (how often, how the week is split).
    RhythmSet { group_id: GroupId, rhythm: Rhythm },
    GroupWeightSet { group_id: GroupId, weight: Weight },
    /// `slot_id` is `None` for a room of a group without slots.
    RoomWeightSet {
        group_id: GroupId,
        slot_id: Option<SlotId>,
        room_name: String,
        weight: Weight,
    },
    // ── Cleaning operations ──
    /// `slot_id` is `Some` for multi-slot groups and `None` for single-slot groups.
    CleaningCompleted {
        group_id: GroupId,
        slot_id: Option<SlotId>,
        person_id: PersonId,
        responsible_person_ids: Vec<PersonId>,
        iso_year: i32,
        iso_week: u32,
        shift: u8,
    },
    /// `None` for `shift` or `slot_id` stands for every open one of the week.
    CleaningSkipped {
        group_id: GroupId,
        skipper_id: PersonId,
        iso_year: i32,
        iso_week: u32,
        shift: Option<u8>,
        slot_id: Option<SlotId>,
    },
    /// `None` for `shift` or `slot_id` stands for every one of the week.
    CleaningUndone {
        group_id: GroupId,
        iso_year: i32,
        iso_week: u32,
        shift: Option<u8>,
        slot_id: Option<SlotId>,
    },
    // ── Swaps ──
    SwapRequested {
        group_id: GroupId,
        requester_mxid: String,
        target_mxid: String,
        iso_year: i32,
        iso_week: u32,
        shift: u8,
        slot_index: usize,
    },
    SwapApproved {
        swap_id: u64,
        group_id: GroupId,
        requester_id: PersonId,
        replacement_id: PersonId,
        iso_year: i32,
        iso_week: u32,
        shift: u8,
    },
    SwapRejected { swap_id: u64 },
    // ── Absences ──
    AbsenceRecorded {
        person_id: PersonId,
        group_id: GroupId,
        from_year: i32,
        from_week: u32,
        duration_weeks: u32,
    },
    /// Cancels all absences of the person.
    AbsenceCancelled { person_id: PersonId },
}

/// An event with the time it happened at.
#[derive(Clone, Debug)]
pub struct LoggedEvent {
    pub id: String,
    pub timestamp: Timestamp,
    pub event: DomainEvent,
}

impl LoggedEvent {
    /// An event that happened at a given time, under a new id.
    pub fn at(timestamp: Timestamp, event: DomainEvent) -> (r: Self)
        ensures
            r.timestamp == timestamp,
            r.event == event,
            r.id@.len() == 36,
    {
        LoggedEvent { id: fresh_id(), timestamp, event }
    }

    /// An event that happens now, under a new id.
    pub fn now(event: DomainEvent) -> (r: Self)
        ensures
            r.event == event,
            r.id@.len() == 36,
    {
        LoggedEvent::at(crate::calendar::now(), event)
    }
}

// ── Turns of one person ──────────────────────────────────────────────────────

/// One slot of one turn.
#[derive(Clone, Debug)]
pub struct Duty {
    pub group_id: GroupId,
    pub slot_index: usize,
    pub turn: Turn,
}

impl Ranked for Duty {
    /// By the time of the turn.
    open spec fn before(self, other: Self) -> bool {
        self.turn.year < other.turn.year || (self.turn.year == other.turn.year && (self.turn.week
            < other.turn.week || (self.turn.week == other.turn.week && self.turn.shift
            < other.turn.shift)))
    }

    proof fn ranks(a: Self, b: Self, c: Self) {
    }

    fn is_before(&self, other: &Self) -> (r: bool) {
        self.turn.year < other.turn.year || (self.turn.year == other.turn.year && (self.turn.week
            < other.turn.week || (self.turn.week == other.turn.week && self.turn.shift
            < other.turn.shift)))
    }
}

/// The turn of an assignment.
pub open spec fn turn_of(a: SlotAssignment) -> Turn {
    Turn { year: a.iso_year, week: a.iso_week, shift: a.shift }
}

/// The turn that a mark is for.
pub open spec fn marked_turn(c: Completion) -> Turn {
    Turn { year: c.iso_year, week: c.iso_week, shift: c.shift }
}

/// The duty of a person that an assignment is, in an active group.
pub open spec fn planned_duty(state: State, person_id: Seq<char>, a: SlotAssignment) -> Option<Duty> {
    let group = state.group(a.group_id@);
    if a.person_id is Some && a.person_id->0@ == person_id && group is Some && group->0.is_active
        && !(group->0.slots@.len() > 0 && a.slot_index >= group->0.slots@.len()) {
        Some(Duty { group_id: a.group_id, slot_index: a.slot_index, turn: turn_of(a) })
    } else {
        None
    }
}

/// The duty of a person that a mark records, in an active group.
pub open spec fn recorded_duty(state: State, person_id: Seq<char>, c: Completion) -> Option<Duty> {
    let group = state.group(c.group_id@);
    if says(c.responsible_person_ids@, person_id) && group is Some && group->0.is_active {
        match c.slot_id {
            Some(id) => if some(group->0.slots@, slot_with_id(id@)) {
                Some(
                    Duty {
                        group_id: c.group_id,
                        slot_index: first_index(group->0.slots@, slot_with_id(id@)) as usize,
                        turn: marked_turn(c),
                    },
                )
            } else {
                None
            },
            None => Some(Duty { group_id: c.group_id, slot_index: 0, turn: marked_turn(c) }),
        }
    } else {
        None
    }
}

/// The same slot of the same turn.
pub open spec fn same_duty(d: Duty) -> spec_fn(Duty) -> bool {
    |e: Duty| e.group_id@ == d.group_id@ && e.slot_index == d.slot_index && e.turn == d.turn
}

/// The duties of a person among assignments.
pub open spec fn planned_duties(state: State, person_id: Seq<char>, s: Seq<SlotAssignment>) -> Seq<Duty>
    decreases s.len(),
{
    if s.len() == 0 {
        Seq::empty()
    } else {
        let r = planned_duties(state, person_id, s.drop_last());
        match planned_duty(state, person_id, s.last()) {
            Some(d) => r.push(d),
            None => r,
        }
    }
}

/// Duties, and those that marks record besides them.
pub open spec fn with_recorded(
    state: State,
    person_id: Seq<char>,
    duties: Seq<Duty>,
    s: Seq<Completion>,
) -> Seq<Duty>
    decreases s.len(),
{
    if s.len() == 0 {
        duties
    } else {
        let r = with_recorded(state, person_id, duties, s.drop_last());
        match recorded_duty(state, person_id, s.last()) {
            Some(d) => if some(r, same_duty(d)) {
                r
            } else {
                r.push(d)
            },
            None => r,
        }
    }
}

/// A duty that counts: its turn is over, or it is done.
pub open spec fn counts(state: State, today: Date) -> spec_fn(Duty) -> bool {
    |d: Duty|
        state.over(state.group(d.group_id@)->0, today)(d.turn) || state.slot_done(
            state.group(d.group_id@)->0,
            d.slot_index as int,
            d.turn,
        )
}

/// The duties of a person that count, in the order of their turns: one per slot of a turn that
/// the person is assigned to, or was recorded as responsible for.
pub open spec fn duties_of(state: State, person_id: Seq<char>, today: Date) -> Seq<Duty> {
    sorted(
        with_recorded(
            state,
            person_id,
            planned_duties(state, person_id, state.slot_assignments@),
            state.completions@,
        ).filter(counts(state, today)),
    )
}

impl State {
    /// Whether the days of all assignments and marks can be represented.
    pub open spec fn dated(self) -> bool {
        &&& forall|i: int|
            0 <= i < self.slot_assignments@.len() ==> turn_of(
                #[trigger] self.slot_assignments@[i],
            ).wf()
        &&& forall|i: int|
            0 <= i < self.completions@.len() ==> marked_turn(#[trigger] self.completions@[i]).wf()
    }
}

/// Whether duties belong to groups of the state and to days that can be represented.
pub open spec fn sound(state: State, duties: Seq<Duty>) -> bool {
    forall|i: int|
        0 <= i < duties.len() ==> state.group((#[trigger] duties[i]).group_id@) is Some
            && duties[i].turn.wf()
}

/// The duties of a person, whether they count or not.
fn all_duties(state: &State, person_id: &str) -> (r: Vec<Duty>)
    requires
        state.dated(),
    ensures
        r@ == with_recorded(
            *state,
            person_id@,
            planned_duties(*state, person_id@, state.slot_assignments@),
            state.completions@,
        ),
        sound(*state, r@),
{
    let mut r: Vec<Duty> = Vec::new();
    let ghost plan = state.slot_assignments@;
    let mut i: usize = 0;
    assert(plan.take(0) =~= Seq::<SlotAssignment>::empty());
    while i < state.slot_assignments.len()
        invariant
            i <= state.slot_assignments.len(),
            state.dated(),
            plan == state.slot_assignments@,
            r@ == planned_duties(*state, person_id@, plan.take(i as int)),
            sound(*state, r@),
        decreases state.slot_assignments.len() - i,
    {
        let a = &state.slot_assignments[i];
        proof {
            assert(plan.take(i + 1).drop_last() =~= plan.take(i as int));
            assert(plan.take(i + 1).last() == *a);
        }
        let theirs = match &a.person_id {
            Some(id) => same_text(id.as_str(), person_id),
            None => false,
        };
        if theirs {
            match state.group_by_id(a.group_id.as_str()) {
                Some(group) => {
                    if group.is_active && !(group.is_multi_slot() && a.slot_index
                        >= group.slots.len()) {
                        let ghost before = r@;
                        r.push(
                            Duty {
                                group_id: a.group_id.clone(),
                                slot_index: a.slot_index,
                                turn: Turn { year: a.iso_year, week: a.iso_week, shift: a.shift },
                            },
                        );
                        assert(turn_of(plan[i as int]).wf());
                    }
                },
                None => {},
            }
        }
        i += 1;
    }
    assert(plan.take(i as int) =~= plan);
    let ghost planned = r@;
    let ghost marks = state.completions@;
    let mut k: usize = 0;
    assert(marks.take(0) =~= Seq::<Completion>::empty());
    while k < state.completions.len()
        invariant
            k <= state.completions.len(),
            state.dated(),
            marks == state.completions@,
            r@ == with_recorded(*state, person_id@, planned, marks.take(k as int)),
            sound(*state, r@),
        decreases state.completions.len() - k,
    {
        let c = &state.completions[k];
        proof {
            assert(marks.take(k + 1).drop_last() =~= marks.take(k as int));
            assert(marks.take(k + 1).last() == *c);
            assert(marked_turn(marks[k as int]).wf());
        }
        if contains_text(&c.responsible_person_ids, person_id) {
            match state.group_by_id(c.group_id.as_str()) {
                Some(group) => {
                    if group.is_active {
                        let slot_index: Option<usize> = match &c.slot_id {
                            Some(id) => group.slot_position_by_id(id.as_str()),
                            None => Some(0),
                        };
                        match slot_index {
                            Some(slot_index) => {
                                let d = Duty {
                                    group_id: c.group_id.clone(),
                                    slot_index,
                                    turn: Turn {
                                        year: c.iso_year,
                                        week: c.iso_week,
                                        shift: c.shift,
                                    },
                                };
                                assert(recorded_duty(*state, person_id@, *c) == Some(d));
                                if !has_duty(&r, &d) {
                                    r.push(d);
                                }
                            },
                            None => {},
                        }
                    }
                },
                None => {},
            }
        }
        k += 1;
    }
    assert(marks.take(k as int) =~= marks);
    r
}

/// Whether a list holds a duty.
fn has_duty(list: &Vec<Duty>, d: &Duty) -> (r: bool)
    ensures
        r == some(list@, same_duty(*d)),
{
    let ghost p = same_duty(*d);
    let mut i: usize = 0;
    while i < list.len()
        invariant
            i <= list.len(),
            p == same_duty(*d),
            forall|k: int| 0 <= k < i ==> !p(#[trigger] list@[k]),
        decreases list.len() - i,
    {
        if list[i].slot_index == d.slot_index && list[i].turn == d.turn && same_text(
            list[i].group_id.as_str(),
            d.group_id.as_str(),
        ) {
            proof {
                lemma_first_index(list@, p, i as int);
            }
            return true;
        }
        i += 1;
    }
    proof {
        lemma_first_index(list@, p, i as int);
    }
    false
}

/// The duties of a person that count, in the order of their turns.
fn counted_duties(state: &State, person_id: &str, today: Date) -> (r: Vec<Duty>)
    requires
        state.dated(),
    ensures
        r@ == duties_of(*state, person_id@, today),
        sound(*state, r@),
        r@.len() <= usize::MAX,
{
    let mut list = all_duties(state, person_id);
    let ghost all = list@;
    let ghost p = counts(*state, today);
    let mut r: Vec<Duty> = Vec::new();
    let mut i: usize = 0;
    assert(all.take(0).filter(p) =~= Seq::<Duty>::empty()) by {
        reveal(Seq::filter);
    }
    while i < list.len()
        invariant
            i <= list.len(),
            list@ == all,
            sound(*state, all),
            p == counts(*state, today),
            r@ == all.take(i as int).filter(p),
            sound(*state, r@),
        decreases list.len() - i,
    {
        let d = &list[i];
        proof {
            lemma_filter_step(all, p, i as int);
            assert(state.group(all[i as int].group_id@) is Some);
        }
        match state.group_by_id(d.group_id.as_str()) {
            Some(group) => {
                if state.turn_over_at(group, d.turn, today) || state.is_turn_slot_done(
                    group,
                    d.slot_index,
                    d.turn,
                ) {
                    r.push(
                        Duty {
                            group_id: d.group_id.clone(),
                            slot_index: d.slot_index,
                            turn: d.turn,
                        },
                    );
                }
            },
            None => {},
        }
        i += 1;
    }
    assert(all.take(i as int) =~= all);
    let ghost unsorted = r@;
    let r = sort(r);
    proof {
        crate::sorting::lemma_sorted(unsorted);
        assert forall|k: int| 0 <= k < r@.len() implies state.group(
            (#[trigger] r@[k]).group_id@,
        ) is Some && r@[k].turn.wf() by {
            broadcast use vstd::seq_lib::group_to_multiset_ensures;
            assert(r@.to_multiset().count(r@[k]) > 0) by {
                assert(r@.contains(r@[k]));
            }
            assert(unsorted.to_multiset().count(r@[k]) > 0);
            assert(unsorted.contains(r@[k]));
            let m = choose|m: int| 0 <= m < unsorted.len() && unsorted[m] == r@[k];
            assert(state.group(unsorted[m].group_id@) is Some);
        }
    }
    r
}

/// How often duties were cleaned, excused or missed, and how many in a row were cleaned up to the
/// last one.
pub struct Tally {
    pub completed: nat,
    pub skipped: nat,
    pub missed: nat,
    pub streak: nat,
}

/// What became of a person's duties. One that somebody else cleaned ends a row.
pub open spec fn tally(state: State, person_id: Seq<char>, duties: Seq<Duty>) -> Tally
    decreases duties.len(),
{
    if duties.len() == 0 {
        Tally { completed: 0, skipped: 0, missed: 0, streak: 0 }
    } else {
        let t = tally(state, person_id, duties.drop_last());
        let d = duties.last();
        match state.completion(state.group(d.group_id@)->0, d.slot_index as int, d.turn) {
            Some(c) => if c.skipped {
                Tally { skipped: t.skipped + 1, ..t }
            } else if c.completed_by_id@ == person_id {
                Tally { completed: t.completed + 1, streak: t.streak + 1, ..t }
            } else {
                Tally { streak: 0, ..t }
            },
            None => Tally { missed: t.missed + 1, streak: 0, ..t },
        }
    }
}

/// The marks of a person's duties add up: whatever was neither excused nor cleaned by them was
/// cleaned by somebody else or missed.
proof fn lemma_tally(state: State, person_id: Seq<char>, duties: Seq<Duty>)
    ensures
        tally(state, person_id, duties).completed + tally(state, person_id, duties).skipped
            + tally(state, person_id, duties).missed <= duties.len(),
        tally(state, person_id, duties).streak <= tally(state, person_id, duties).completed,
    decreases duties.len(),
{
    if duties.len() > 0 {
        lemma_tally(state, person_id, duties.drop_last());
    }
}

// ── Statistics of a person ───────────────────────────────────────────────────

/// Statistics of one person.
#[derive(Clone, Debug)]
pub struct PersonStats {
    pub person_id: PersonId,
    pub display_name: String,
    /// Names of all active groups of the person, joined by commas.
    pub group_names: String,
    /// Their own past turns, without excused ones.
    pub due_weeks: usize,
    /// Own turns that they cleaned themselves.
    pub completed: usize,
    /// Own turns that were excused.
    pub skipped: usize,
    /// Own turns that nobody cleaned.
    pub missed: usize,
    /// Cleanings of somebody else's turn.
    pub helped: usize,
    /// Swaps by which they handed on a turn.
    pub swaps_given: usize,
    /// Swaps by which they took a turn.
    pub swaps_taken: usize,
    /// Weeks of absence, over all groups.
    pub absent_weeks: u128,
    /// Most recent own turns in a row that they cleaned themselves.
    pub streak: usize,
}

/// Whether a mark is for a duty.
pub open spec fn marks_duty(state: State, c: Completion) -> spec_fn(Duty) -> bool {
    |d: Duty|
        {
            let g = state.group(d.group_id@)->0;
            d.group_id@ == c.group_id@ && d.turn == marked_turn(c) && (g.slots@.len() == 0 || (
            d.slot_index < g.slots@.len() && c.slot_id is Some && g.slots@[d.slot_index as int].id@
                == c.slot_id->0@) || (d.slot_index >= g.slots@.len() && c.slot_id is None))
        }
}

/// A cleaning of a turn that is none of a person's duties.
pub open spec fn helping(state: State, person_id: Seq<char>, duties: Seq<Duty>) -> spec_fn(
    Completion,
) -> bool {
    |c: Completion|
        c.completed_by_id@ == person_id && !c.skipped && !some(duties, marks_duty(state, c))
}

/// An accepted swap that someone asked for.
pub open spec fn swap_from(mxid: Seq<char>) -> spec_fn(SwapRequest) -> bool {
    |s: SwapRequest| s.requester@ == mxid && s.status == SwapStatus::Accepted
}

/// An accepted swap that someone was asked for.
pub open spec fn swap_to(mxid: Seq<char>) -> spec_fn(SwapRequest) -> bool {
    |s: SwapRequest| s.target@ == mxid && s.status == SwapStatus::Accepted
}

/// The weeks that someone is away, over all absences.
pub open spec fn weeks_away(absences: Seq<Absence>, person_id: Seq<char>) -> nat
    decreases absences.len(),
{
    if absences.len() == 0 {
        0
    } else {
        weeks_away(absences.drop_last(), person_id) + if absences.last().person_id@ == person_id {
            absences.last().duration_weeks as nat
        } else {
            0
        }
    }
}

/// The active groups that someone is a member of.
pub open spec fn active_groups_of(state: State, person_id: Seq<char>) -> Seq<CleaningGroup> {
    state.groups_of(person_id).filter(|g: CleaningGroup| g.is_active)
}

/// The names of groups.
pub open spec fn group_names(groups: Seq<CleaningGroup>) -> Seq<Seq<char>> {
    groups.map_values(|g: CleaningGroup| g.name@)
}

/// The Matrix id of a person, or nothing.
pub open spec fn mxid_or_nothing(p: Person) -> Seq<char> {
    match p.matrix_id {
        Some(m) => m@,
        None => ""@,
    }
}

/// Whether these are the statistics of a person.
pub open spec fn is_stats_of(s: PersonStats, state: State, person_id: Seq<char>, today: Date) -> bool {
    let person = state.person(person_id)->0;
    let duties = duties_of(state, person_id, today);
    let t = tally(state, person_id, duties);
    let mxid = mxid_or_nothing(person);
    &&& s.person_id@ == person_id
    &&& s.display_name == person.display_name
    &&& s.group_names@ == join(group_names(active_groups_of(state, person_id)), ", "@)
    &&& s.due_weeks == duties.len() - t.skipped
    &&& s.completed == t.completed
    &&& s.skipped == t.skipped
    &&& s.missed == t.missed
    &&& s.streak == t.streak
    &&& s.helped == count(state.completions@, helping(state, person_id, duties))
    &&& s.swaps_given == count(state.swap_requests@, swap_from(mxid))
    &&& s.swaps_taken == count(state.swap_requests@, swap_to(mxid))
    &&& s.absent_weeks == weeks_away(state.absences@, person_id)
}

/// Whether a mark is for one of some duties.
fn marks_any(state: &State, c: &Completion, duties: &Vec<Duty>) -> (r: bool)
    requires
        sound(*state, duties@),
    ensures
        r == some(duties@, marks_duty(*state, *c)),
{
    let ghost p = marks_duty(*state, *c);
    let mut i: usize = 0;
    while i < duties.len()
        invariant
            i <= duties.len(),
            sound(*state, duties@),
            p == marks_duty(*state, *c),
            forall|k: int| 0 <= k < i ==> !p(#[trigger] duties@[k]),
        decreases duties.len() - i,
    {
        let d = &duties[i];
        let turn = Turn { year: c.iso_year, week: c.iso_week, shift: c.shift };
        assert(state.group(duties@[i as int].group_id@) is Some);
        if d.turn == turn && same_text(d.group_id.as_str(), c.group_id.as_str()) {
            let fits = match state.group_by_id(d.group_id.as_str()) {
                Some(g) => if g.slots.len() == 0 {
                    true
                } else if d.slot_index < g.slots.len() {
                    match &c.slot_id {
                        Some(id) => same_text(g.slots[d.slot_index].id.as_str(), id.as_str()),
                        None => false,
                    }
                } else {
                    c.slot_id.is_none()
                },
                None => false,
            };
            if fits {
                proof {
                    lemma_first_index(duties@, p, i as int);
                }
                return true;
            }
        }
        i += 1;
    }
    proof {
        lemma_first_index(duties@, p, i as int);
    }
    false
}

/// How often a person cleaned a turn that was none of their duties.
fn count_helped(state: &State, person_id: &str, duties: &Vec<Duty>) -> (r: usize)
    requires
        sound(*state, duties@),
    ensures
        r == count(state.completions@, helping(*state, person_id@, duties@)),
{
    let ghost p = helping(*state, person_id@, duties@);
    let ghost marks = state.completions@;
    let mut r: usize = 0;
    let mut i: usize = 0;
    assert(marks.take(0).filter(p) =~= Seq::<Completion>::empty()) by {
        reveal(Seq::filter);
    }
    while i < state.completions.len()
        invariant
            i <= state.completions.len(),
            r <= i,
            sound(*state, duties@),
            marks == state.completions@,
            p == helping(*state, person_id@, duties@),
            r == marks.take(i as int).filter(p).len(),
        decreases state.completions.len() - i,
    {
        let c = &state.completions[i];
        proof {
            lemma_filter_step(marks, p, i as int);
        }
        if !c.skipped && same_text(c.completed_by_id.as_str(), person_id) && !marks_any(
            state,
            c,
            duties,
        ) {
            r += 1;
        }
        i += 1;
    }
    assert(marks.take(i as int) =~= marks);
    r
}

/// The weeks that someone is away, over all absences.
fn count_weeks_away(absences: &Vec<Absence>, person_id: &str) -> (r: u128)
    ensures
        r == weeks_away(absences@, person_id@),
{
    let mut r: u128 = 0;
    let mut i: usize = 0;
    assert(absences@.take(0) =~= Seq::<Absence>::empty());
    while i < absences.len()
        invariant
            i <= absences.len(),
            r <= i * 0x1_0000_0000,
            r == weeks_away(absences@.take(i as int), person_id@),
        decreases absences.len() - i,
    {
        proof {
            assert(absences@.take(i + 1).drop_last() =~= absences@.take(i as int));
            assert(absences@.take(i + 1).last() == absences@[i as int]);
        }
        if same_text(absences[i].person_id.as_str(), person_id) {
            r += absences[i].duration_weeks as u128;
        }
        i += 1;
    }
    assert(absences@.take(i as int) =~= absences@);
    r
}

/// The names of the active groups that someone is a member of.
pub fn active_group_names(state: &State, person_id: &str) -> (r: Vec<String>)
    ensures
        views(r@) == group_names(active_groups_of(*state, person_id@)),
{
    let groups = state.groups_for_person(person_id);
    let ghost list = state.groups_of(person_id@);
    let ghost p = |g: CleaningGroup| g.is_active;
    let mut r: Vec<String> = Vec::new();
    let mut i: usize = 0;
    assert(list.take(0).filter(p) =~= Seq::<CleaningGroup>::empty()) by {
        reveal(Seq::filter);
    }
    assert(views(r@) =~= group_names(list.take(0).filter(p)));
    while i < groups.len()
        invariant
            i <= groups.len(),
            groups@.len() == list.len(),
            forall|k: int| 0 <= k < groups@.len() ==> *(#[trigger] groups@[k]) == list[k],
            p == (|g: CleaningGroup| g.is_active),
            views(r@) == group_names(list.take(i as int).filter(p)),
        decreases groups.len() - i,
    {
        proof {
            lemma_filter_step(list, p, i as int);
            assert(*groups@[i as int] == list[i as int]);
        }
        if groups[i].is_active {
            let name = groups[i].name.clone();
            proof {
                let kept = list.take(i as int).filter(p);
                lemma_views_push(r@, name);
                assert(group_names(kept.push(list[i as int])) =~= group_names(kept).push(name@));
            }
            r.push(name);
        }
        i += 1;
    }
    assert(list.take(i as int) =~= list);
    r
}

/// The statistics of one person across all their groups; nothing when the person is not known or
/// in no active group.
pub fn person_stats_at(state: &State, person_id: &str, today: Date) -> (r: Option<PersonStats>)
    requires
        state.dated(),
    ensures
        (r is Some) == (state.person(person_id@) is Some && active_groups_of(
            *state,
            person_id@,
        ).len() > 0),
        r is Some ==> is_stats_of(r->0, *state, person_id@, today),
        r is Some ==> r->0.completed <= r->0.due_weeks,
{
    let person = match state.person_by_id(person_id) {
        Some(p) => p,
        None => {
            return None;
        },
    };
    let names = active_group_names(state, person_id);
    assert(views(names@).len() == names@.len());
    assert(group_names(active_groups_of(*state, person_id@)).len() == active_groups_of(
        *state,
        person_id@,
    ).len());
    if names.len() == 0 {
        return None;
    }
    let duties = counted_duties(state, person_id, today);
    let mut completed: usize = 0;
    let mut skipped: usize = 0;
    let mut missed: usize = 0;
    let mut streak: usize = 0;
    let mut i: usize = 0;
    assert(duties@.take(0) =~= Seq::<Duty>::empty());
    while i < duties.len()
        invariant
            i <= duties.len(),
            sound(*state, duties@),
            completed == tally(*state, person_id@, duties@.take(i as int)).completed,
            skipped == tally(*state, person_id@, duties@.take(i as int)).skipped,
            missed == tally(*state, person_id@, duties@.take(i as int)).missed,
            streak == tally(*state, person_id@, duties@.take(i as int)).streak,
        decreases duties.len() - i,
    {
        let d = &duties[i];
        proof {
            lemma_tally(*state, person_id@, duties@.take(i as int));
            assert(duties@.take(i + 1).drop_last() =~= duties@.take(i as int));
            assert(duties@.take(i + 1).last() == *d);
            assert(state.group(duties@[i as int].group_id@) is Some);
        }
        match state.group_by_id(d.group_id.as_str()) {
            Some(group) => match state.completion_for(group, d.slot_index, d.turn) {
                Some(c) => {
                    if c.skipped {
                        skipped += 1;
                    } else if same_text(c.completed_by_id.as_str(), person_id) {
                        completed += 1;
                        streak += 1;
                    } else {
                        streak = 0;
                    }
                },
                None => {
                    missed += 1;
                    streak = 0;
                },
            },
            None => {},
        }
        i += 1;
    }
    proof {
        assert(duties@.take(i as int) =~= duties@);
        lemma_tally(*state, person_id@, duties@);
    }
    let mxid: &str = match &person.matrix_id {
        Some(m) => m.as_str(),
        None => "",
    };
    let from = |s: &SwapRequest| -> (b: bool)
        ensures
            b == (s.requester@ == mxid@ && s.status == SwapStatus::Accepted),
        { same_text(s.requester.as_str(), mxid) && s.status == SwapStatus::Accepted };
    let to = |s: &SwapRequest| -> (b: bool)
        ensures
            b == (s.target@ == mxid@ && s.status == SwapStatus::Accepted),
        { same_text(s.target.as_str(), mxid) && s.status == SwapStatus::Accepted };
    Some(
        PersonStats {
            person_id: person_id.to_owned(),
            display_name: person.display_name.clone(),
            group_names: join_texts(&names, ", "),
            due_weeks: duties.len() - skipped,
            completed,
            skipped,
            missed,
            helped: count_helped(state, person_id, &duties),
            swaps_given: count_where(&state.swap_requests, from, Ghost(swap_from(mxid@))),
            swaps_taken: count_where(&state.swap_requests, to, Ghost(swap_to(mxid@))),
            absent_weeks: count_weeks_away(&state.absences, person_id),
            streak,
        },
    )
}

/// The statistics of one person across all their groups. The day is read from the clock.
pub fn person_stats(state: &State, person_id: &str) -> (r: Option<PersonStats>)
    requires
        state.dated(),
    ensures
        (r is Some) == (state.person(person_id@) is Some && active_groups_of(
            *state,
            person_id@,
        ).len() > 0),
        r is Some ==> exists|today: Date|
            is_today(today.day as int) && #[trigger] is_stats_of(
                r->0,
                *state,
                person_id@,
                today,
            ),
{
    let day = planning_day();
    person_stats_at(state, person_id, day)
}

/// A turn of one's own is excused, cleaned by oneself, cleaned by somebody else or missed: the
/// numbers of a person never exceed their turns.
pub proof fn law_person_stats_add_up(s: PersonStats, state: State, person_id: Seq<char>, today: Date)
    requires
        is_stats_of(s, state, person_id, today),
    ensures
        s.completed + s.missed <= s.due_weeks,
        s.due_weeks + s.skipped == duties_of(state, person_id, today).len(),
        s.streak <= s.completed,
{
    lemma_tally(state, person_id, duties_of(state, person_id, today));
}

// ── Statistics of a group ────────────────────────────────────────────────────

/// Statistics of one group, counted in turns that are over.
#[derive(Clone, Debug)]
pub struct GroupStats {
    pub group_id: GroupId,
    pub group_name: String,
    pub member_count: usize,
    pub due_weeks: usize,
    pub completed: usize,
    pub skipped: usize,
    /// Turns that are neither cleaned nor excused.
    pub missed: usize,
    pub current_streak: usize,
    pub swap_count: usize,
}

/// A turn of a group that was cleaned.
pub open spec fn cleaned(state: State, group: CleaningGroup) -> spec_fn(Turn) -> bool {
    |t: Turn| state.turn_cleaned(group, t)
}

/// A turn of a group that was excused as a whole.
pub open spec fn excused(state: State, group: CleaningGroup) -> spec_fn(Turn) -> bool {
    |t: Turn| state.turn_done(group, t) && !state.turn_cleaned(group, t)
}

/// An accepted swap in a group.
pub open spec fn swap_in(group_id: Seq<char>) -> spec_fn(SwapRequest) -> bool {
    |s: SwapRequest| s.group_id@ == group_id && s.status == SwapStatus::Accepted
}

/// Whether these are the statistics of a group.
pub open spec fn is_group_stats(s: GroupStats, state: State, group: CleaningGroup, today: Date) -> bool {
    let turns = state.past_turns(group, today);
    &&& s.group_id@ == group.id@
    &&& s.group_name == group.name
    &&& s.member_count == group.member_ids@.len()
    &&& s.due_weeks == turns.len()
    &&& s.completed == count(turns, cleaned(state, group))
    &&& s.skipped == count(turns, excused(state, group))
    &&& s.missed == count(turns, state.not_done(group))
    &&& s.current_streak == state.streak(group, turns)
    &&& s.swap_count == count(state.swap_requests@, swap_in(group.id@))
}

/// Every turn is cleaned, excused or open.
proof fn lemma_turns_split(state: State, group: CleaningGroup, turns: Seq<Turn>)
    ensures
        count(turns, cleaned(state, group)) + count(turns, excused(state, group)) + count(
            turns,
            state.not_done(group),
        ) == turns.len(),
    decreases turns.len(),
{
    if turns.len() == 0 {
        reveal(Seq::filter);
    } else {
        let front = turns.drop_last();
        lemma_turns_split(state, group, front);
        let n = turns.len() - 1;
        assert(turns.take(n) =~= front);
        assert(turns.take(n + 1) =~= turns);
        lemma_filter_step(turns, cleaned(state, group), n);
        lemma_filter_step(turns, excused(state, group), n);
        lemma_filter_step(turns, state.not_done(group), n);
    }
}

/// The turns of a group that are over are the cleaned, the excused and the missed ones.
pub proof fn law_group_stats_add_up(s: GroupStats, state: State, group: CleaningGroup, today: Date)
    requires
        is_group_stats(s, state, group, today),
    ensures
        s.due_weeks == s.completed + s.skipped + s.missed,
{
    lemma_turns_split(state, group, state.past_turns(group, today));
}

/// The statistics of a group, seen from a day; nothing when the group is not known.
pub fn group_stats_at(state: &State, group_id: &str, today: Date) -> (r: Option<GroupStats>)
    requires
        state.wf(),
        today.in_week(),
    ensures
        (r is Some) == (state.group(group_id@) is Some),
        r is Some ==> is_group_stats(r->0, *state, state.group(group_id@)->0, today),
{
    let group = match state.group_by_id(group_id) {
        Some(g) => g,
        None => {
            return None;
        },
    };
    let closed = state.closed_turns_at(group, today);
    let done = |t: &Turn| -> (b: bool)
        ensures
            b == state.turn_cleaned(*group, *t),
        { state.is_turn_cleaned(group, *t) };
    let excuse = |t: &Turn| -> (b: bool)
        ensures
            b == (state.turn_done(*group, *t) && !state.turn_cleaned(*group, *t)),
        { state.is_turn_done(group, *t) && !state.is_turn_cleaned(group, *t) };
    let swapped = |s: &SwapRequest| -> (b: bool)
        ensures
            b == (s.group_id@ == group_id@ && s.status == SwapStatus::Accepted),
        { same_text(s.group_id.as_str(), group_id) && s.status == SwapStatus::Accepted };
    let completed = count_where(&closed, done, Ghost(cleaned(*state, *group)));
    let skipped = count_where(&closed, excuse, Ghost(excused(*state, *group)));
    proof {
        lemma_turns_split(*state, *group, closed@);
    }
    Some(
        GroupStats {
            group_id: group_id.to_owned(),
            group_name: group.name.clone(),
            member_count: group.member_ids.len(),
            due_weeks: closed.len(),
            completed,
            skipped,
            missed: closed.len() - skipped - completed,
            current_streak: state.streak_for(group, today),
            swap_count: count_where(&state.swap_requests, swapped, Ghost(swap_in(group_id@))),
        },
    )
}

/// The statistics of a group. The day is read from the clock.
pub fn group_stats(state: &State, group_id: &str) -> (r: Option<GroupStats>)
    requires
        state.wf(),
    ensures
        (r is Some) == (state.group(group_id@) is Some),
        r is Some ==> exists|today: Date|
            is_today(today.day as int) && #[trigger] is_group_stats(
                r->0,
                *state,
                state.group(group_id@)->0,
                today,
            ),
{
    let day = planning_day();
    group_stats_at(state, group_id, day)
}

// ── Ranking ──────────────────────────────────────────────────────────────────

/// Whether somebody cleaned a greater share of their turns than somebody else.
pub open spec fn better_rate(a: PersonStats, b: PersonStats) -> bool {
    a.completed * b.due_weeks > b.completed * a.due_weeks
}

impl Ranked for PersonStats {
    /// Those who had a turn yet come first; then by the share of turns that they cleaned, by the
    /// row that they cleaned last, and by name.
    open spec fn before(self, other: Self) -> bool {
        if (self.due_weeks > 0) != (other.due_weeks > 0) {
            self.due_weeks > 0
        } else if better_rate(self, other) || better_rate(other, self) {
            better_rate(self, other)
        } else if self.streak != other.streak {
            self.streak > other.streak
        } else {
            text_before(self.display_name@, other.display_name@)
        }
    }

    proof fn ranks(a: Self, b: Self, c: Self) {
        lemma_text_before(a.display_name@, b.display_name@, c.display_name@);
        lemma_rates(a, b, c);
        lemma_rates(c, b, a);
    }

    fn is_before(&self, other: &Self) -> (r: bool) {
        if (self.due_weeks > 0) != (other.due_weeks > 0) {
            return self.due_weeks > 0;
        }
        proof {
            lemma_product(self.completed, other.due_weeks);
            lemma_product(other.completed, self.due_weeks);
        }
        let x: u128 = self.completed as u128 * other.due_weeks as u128;
        let y: u128 = other.completed as u128 * self.due_weeks as u128;
        if x != y {
            x > y
        } else if self.streak != other.streak {
            self.streak > other.streak
        } else {
            comes_before(self.display_name.as_str(), other.display_name.as_str())
        }
    }
}

/// Products of two lengths fit.
proof fn lemma_product(a: usize, b: usize)
    ensures
        0 <= a * b <= u128::MAX,
{
    assert(0 <= a * b <= 0xffff_ffff_ffff_ffff * 0xffff_ffff_ffff_ffff) by (nonlinear_arith)
        requires
            0 <= a <= 0xffff_ffff_ffff_ffff,
            0 <= b <= 0xffff_ffff_ffff_ffff,
    ;
}

/// Shares can be compared across others.
proof fn lemma_rates(a: PersonStats, b: PersonStats, c: PersonStats)
    ensures
        a.due_weeks > 0 && b.due_weeks > 0 && c.due_weeks > 0 && !better_rate(b, a) && !better_rate(
            c,
            b,
        ) ==> !better_rate(c, a),
        a.due_weeks > 0 && b.due_weeks > 0 && c.due_weeks > 0 && !better_rate(b, a) && !better_rate(
            c,
            b,
        ) && (better_rate(a, b) || better_rate(b, c)) ==> better_rate(a, c),
        a.due_weeks == 0 && b.due_weeks == 0 ==> !better_rate(a, b),
        b.due_weeks == 0 && c.due_weeks == 0 ==> !better_rate(b, c),
        a.due_weeks == 0 && c.due_weeks == 0 ==> !better_rate(a, c),
{
    let (ca, da) = (a.completed as int, a.due_weeks as int);
    let (cb, db) = (b.completed as int, b.due_weeks as int);
    let (cc, dc) = (c.completed as int, c.due_weeks as int);
    if da > 0 && db > 0 && dc > 0 {
        if cb * da <= ca * db && cc * db <= cb * dc {
            assert(cc * da <= ca * dc) by (nonlinear_arith)
                requires
                    da > 0,
                    db > 0,
                    dc > 0,
                    cb * da <= ca * db,
                    cc * db <= cb * dc,
            {
                assert((cc * da) * db == (cc * db) * da);
                assert((cc * db) * da <= (cb * dc) * da);
                assert((cb * dc) * da == (cb * da) * dc);
                assert((cb * da) * dc <= (ca * db) * dc);
                assert((ca * db) * dc == (ca * dc) * db);
            }
            if cb * da < ca * db {
                assert(cc * da < ca * dc) by (nonlinear_arith)
                    requires
                        da > 0,
                        db > 0,
                        dc > 0,
                        cb * da < ca * db,
                        cc * db <= cb * dc,
                {
                    assert((cc * da) * db == (cc * db) * da);
                    assert((cc * db) * da <= (cb * dc) * da);
                    assert((cb * dc) * da == (cb * da) * dc);
                    assert((cb * da) * dc < (ca * db) * dc);
                    assert((ca * db) * dc == (ca * dc) * db);
                }
            }
            if cc * db < cb * dc {
                assert(cc * da < ca * dc) by (nonlinear_arith)
                    requires
                        da > 0,
                        db > 0,
                        dc > 0,
                        cb * da <= ca * db,
                        cc * db < cb * dc,
                {
                    assert((cc * da) * db == (cc * db) * da);
                    assert((cc * db) * da < (cb * dc) * da);
                    assert((cb * dc) * da == (cb * da) * dc);
                    assert((cb * da) * dc <= (ca * db) * dc);
                    assert((ca * db) * dc == (ca * dc) * db);
                }
            }
        }
    }
    assert(a.completed * 0 == 0 && b.completed * 0 == 0 && c.completed * 0 == 0);
}

/// Whether this is a list of the statistics of the persons who are in an active group, in the
/// order of the persons.
pub open spec fn lists_stats(list: Seq<PersonStats>, persons: Seq<Person>, state: State, today: Date) -> bool
    decreases persons.len(),
{
    if persons.len() == 0 {
        list.len() == 0
    } else {
        let id = persons.last().id@;
        if active_groups_of(state, id).len() > 0 {
            list.len() > 0 && is_stats_of(list.last(), state, id, today) && lists_stats(
                list.drop_last(),
                persons.drop_last(),
                state,
                today,
            )
        } else {
            lists_stats(list, persons.drop_last(), state, today)
        }
    }
}

/// Whether this is the ranking of everybody who is in an active group.
pub open spec fn is_leaderboard(r: Seq<PersonStats>, state: State, today: Date) -> bool {
    exists|list: Seq<PersonStats>| #[trigger]
        lists_stats(list, state.persons@, state, today) && r == sorted(list)
}

/// The statistics of everybody who is in an active group, best first.
pub fn global_leaderboard_at(state: &State, today: Date) -> (r: Vec<PersonStats>)
    requires
        state.dated(),
    ensures
        is_leaderboard(r@, *state, today),
{
    let mut list: Vec<PersonStats> = Vec::new();
    let ghost all = state.persons@;
    let mut i: usize = 0;
    assert(all.take(0) =~= Seq::<Person>::empty());
    while i < state.persons.len()
        invariant
            i <= state.persons.len(),
            state.dated(),
            all == state.persons@,
            lists_stats(list@, all.take(i as int), *state, today),
        decreases state.persons.len() - i,
    {
        let id = state.persons[i].id.as_str();
        let ghost before = list@;
        proof {
            assert(all.take(i + 1).drop_last() =~= all.take(i as int));
            assert(all.take(i + 1).last() == all[i as int]);
            lemma_some(all, crate::state::person_with_id(id@));
            assert(crate::state::person_with_id(id@)(all[i as int]));
        }
        match person_stats_at(state, id, today) {
            Some(s) => {
                list.push(s);
                assert(list@.drop_last() =~= before);
            },
            None => {},
        }
        i += 1;
    }
    assert(all.take(i as int) =~= all);
    sort(list)
}

/// The statistics of everybody who is in an active group, best first. The day is read from the
/// clock.
pub fn global_leaderboard(state: &State) -> (r: Vec<PersonStats>)
    requires
        state.dated(),
    ensures
        exists|today: Date|
            is_today(today.day as int) && #[trigger] is_leaderboard(r@, *state, today),
{
    let day = planning_day();
    global_leaderboard_at(state, day)
}

// ── How cleaning is shared ───────────────────────────────────────────────────

/// How often somebody cleaned in a group.
#[derive(Clone, Debug)]
pub struct FairnessCount {
    pub display_name: String,
    pub actual: usize,
}

impl Ranked for FairnessCount {
    /// Whoever cleaned most comes first.
    open spec fn before(self, other: Self) -> bool {
        self.actual > other.actual
    }

    proof fn ranks(a: Self, b: Self, c: Self) {
    }

    fn is_before(&self, other: &Self) -> (r: bool) {
        self.actual > other.actual
    }
}

/// How the duties of a group were shared: every slot of every past turn is one.
#[derive(Clone, Debug)]
pub struct FairnessCounts {
    pub group_name: String,
    /// Past turns.
    pub due_weeks: usize,
    pub slots: usize,
    pub members: usize,
    /// Whoever cleaned most comes first.
    pub entries: Vec<FairnessCount>,
}

/// A cleaning in a group by someone.
pub open spec fn cleaned_by(group_id: Seq<char>, person_id: Seq<char>) -> spec_fn(Completion) -> bool {
    |c: Completion| c.group_id@ == group_id && c.completed_by_id@ == person_id && !c.skipped
}

/// How often someone cleaned in a group.
pub fn count_cleaned(state: &State, group_id: &str, person_id: &str) -> (r: usize)
    ensures
        r == count(state.completions@, cleaned_by(group_id@, person_id@)),
{
    let test = |c: &Completion| -> (b: bool)
        ensures
            b == (c.group_id@ == group_id@ && c.completed_by_id@ == person_id@ && !c.skipped),
        {
            !c.skipped && same_text(c.group_id.as_str(), group_id) && same_text(
                c.completed_by_id.as_str(),
                person_id,
            )
        };
    count_where(&state.completions, test, Ghost(cleaned_by(group_id@, person_id@)))
}

/// How often each of some persons cleaned in a group.
pub open spec fn cleaning_counts(state: State, group_id: Seq<char>, persons: Seq<Person>) -> Seq<
    (Seq<char>, nat),
> {
    persons.map_values(
        |p: Person| (p.display_name@, count(state.completions@, cleaned_by(group_id, p.id@))),
    )
}

/// Counts as name and number.
pub open spec fn shown_counts(list: Seq<FairnessCount>) -> Seq<(Seq<char>, nat)> {
    list.map_values(|e: FairnessCount| (e.display_name@, e.actual as nat))
}

/// Whether these say how the duties of a group were shared among its members.
pub open spec fn is_fairness(r: FairnessCounts, state: State, group: CleaningGroup, today: Date) -> bool {
    &&& r.group_name == group.name
    &&& r.due_weeks == state.past_turns(group, today).len()
    &&& r.slots == group.slot_count()
    &&& r.members == group.member_ids@.len()
    &&& exists|list: Seq<FairnessCount>|
        r.entries@ == #[trigger] sorted(list) && shown_counts(list) == cleaning_counts(
            state,
            group.id@,
            state.persons_of(group.member_ids@),
        )
}

/// How the duties of a group were shared among its members, seen from a day; nothing when the
/// group is not known or has no members.
pub fn fairness_counts(state: &State, group_id: &str, today: Date) -> (r: Option<FairnessCounts>)
    requires
        state.wf(),
        today.in_week(),
    ensures
        (r is Some) == (state.group(group_id@) is Some && state.group(
            group_id@,
        )->0.member_ids@.len() > 0),
        r is Some ==> is_fairness(r->0, *state, state.group(group_id@)->0, today),
{
    let group = match state.group_by_id(group_id) {
        Some(g) => g,
        None => {
            return None;
        },
    };
    if group.member_ids.len() == 0 {
        return None;
    }
    let members = state.members_of(group);
    let ghost persons = state.persons_of(group.member_ids@);
    let ghost wanted = cleaning_counts(*state, group_id@, persons);
    let mut list: Vec<FairnessCount> = Vec::new();
    let mut i: usize = 0;
    assert(shown_counts(list@) =~= wanted.take(0));
    while i < members.len()
        invariant
            i <= members.len(),
            members@.len() == persons.len(),
            forall|k: int| 0 <= k < members@.len() ==> *(#[trigger] members@[k]) == persons[k],
            wanted == cleaning_counts(*state, group_id@, persons),
            shown_counts(list@) == wanted.take(i as int),
        decreases members.len() - i,
    {
        let p = members[i];
        assert(*members@[i as int] == persons[i as int]);
        let e = FairnessCount {
            display_name: p.display_name.clone(),
            actual: count_cleaned(state, group_id, p.id.as_str()),
        };
        proof {
            assert(shown_counts(list@.push(e)) =~= shown_counts(list@).push(
                (e.display_name@, e.actual as nat),
            ));
            assert(wanted.take(i + 1) =~= wanted.take(i as int).push(wanted[i as int]));
        }
        list.push(e);
        i += 1;
    }
    assert(wanted.take(i as int) =~= wanted);
    let closed = state.closed_turns_at(group, today);
    let ghost unsorted = list@;
    let entries = sort(list);
    assert(entries@ == sorted(unsorted));
    Some(
        FairnessCounts {
            group_name: group.name.clone(),
            due_weeks: closed.len(),
            slots: group.people_per_turn(),
            members: group.member_ids.len(),
            entries,
        },
    )
}

/// What one group asks of one of its members and what that member did in it.
#[derive(Clone, Debug)]
pub struct GroupShare {
    pub group_id: GroupId,
    /// Past turns of the group.
    pub turns: usize,
    pub slots: usize,
    /// Members to share the duties among; at least one.
    pub members: usize,
    /// How often the member cleaned.
    pub cleaned: usize,
}

/// What all groups ask of one person.
#[derive(Clone, Debug)]
pub struct PersonShare {
    pub display_name: String,
    pub group_names: Vec<String>,
    pub groups: Vec<GroupShare>,
}

/// Whether this is what a group asks of a person.
pub open spec fn is_share(s: GroupShare, state: State, group: CleaningGroup, person_id: Seq<char>, today: Date) -> bool {
    &&& s.group_id@ == group.id@
    &&& s.turns == state.past_turns(group, today).len()
    &&& s.slots == group.slot_count()
    &&& s.members == if group.member_ids@.len() == 0 {
        1
    } else {
        group.member_ids@.len()
    }
    &&& s.cleaned == count(state.completions@, cleaned_by(group.id@, person_id))
}

/// Whether this is what all groups ask of a person.
pub open spec fn is_person_share(r: PersonShare, state: State, person: Person, today: Date) -> bool {
    let groups = active_groups_of(state, person.id@);
    &&& r.display_name == person.display_name
    &&& views(r.group_names@) == group_names(groups)
    &&& r.groups@.len() == groups.len()
    &&& forall|i: int|
        0 <= i < groups.len() ==> is_share(
            #[trigger] r.groups@[i],
            state,
            groups[i],
            person.id@,
            today,
        )
}

/// Whether this lists what is asked of the persons who are in an active group, in the order of
/// the persons.
pub open spec fn lists_shares(list: Seq<PersonShare>, persons: Seq<Person>, state: State, today: Date) -> bool
    decreases persons.len(),
{
    if persons.len() == 0 {
        list.len() == 0
    } else {
        let p = persons.last();
        if active_groups_of(state, p.id@).len() > 0 {
            list.len() > 0 && is_person_share(list.last(), state, p, today) && lists_shares(
                list.drop_last(),
                persons.drop_last(),
                state,
                today,
            )
        } else {
            lists_shares(list, persons.drop_last(), state, today)
        }
    }
}

/// How many weeks are over since tracking started.
pub open spec fn finished_weeks(state: State, today: Date) -> int {
    if today.week_no() < state.start_no(today) {
        0
    } else {
        today.week_no() - state.start_no(today)
    }
}

/// What a person's active groups ask of them and what they did.
fn shares_of(state: &State, person_id: &str, today: Date) -> (r: Vec<GroupShare>)
    requires
        state.wf(),
        today.in_week(),
    ensures
        r@.len() == active_groups_of(*state, person_id@).len(),
        forall|i: int|
            0 <= i < r@.len() ==> is_share(
                #[trigger] r@[i],
                *state,
                active_groups_of(*state, person_id@)[i],
                person_id@,
                today,
            ),
{
    let groups = state.groups_for_person(person_id);
    let ghost list = state.groups_of(person_id@);
    let ghost p = |g: CleaningGroup| g.is_active;
    let mut r: Vec<GroupShare> = Vec::new();
    let mut i: usize = 0;
    assert(list.take(0).filter(p) =~= Seq::<CleaningGroup>::empty()) by {
        reveal(Seq::filter);
    }
    while i < groups.len()
        invariant
            i <= groups.len(),
            state.wf(),
            today.in_week(),
            groups@.len() == list.len(),
            forall|k: int| 0 <= k < groups@.len() ==> *(#[trigger] groups@[k]) == list[k],
            p == (|g: CleaningGroup| g.is_active),
            r@.len() == list.take(i as int).filter(p).len(),
            forall|k: int|
                0 <= k < r@.len() ==> is_share(
                    #[trigger] r@[k],
                    *state,
                    list.take(i as int).filter(p)[k],
                    person_id@,
                    today,
                ),
        decreases groups.len() - i,
    {
        let g = groups[i];
        proof {
            lemma_filter_step(list, p, i as int);
            assert(*groups@[i as int] == list[i as int]);
        }
        if g.is_active {
            let closed = state.closed_turns_at(g, today);
            let ghost before = r@;
            r.push(
                GroupShare {
                    group_id: g.id.clone(),
                    turns: closed.len(),
                    slots: g.people_per_turn(),
                    members: if g.member_ids.len() == 0 {
                        1
                    } else {
                        g.member_ids.len()
                    },
                    cleaned: count_cleaned(state, g.id.as_str(), person_id),
                },
            );
            assert(forall|k: int| 0 <= k < before.len() ==> r@[k] == before[k]);
        }
        i += 1;
    }
    assert(list.take(i as int) =~= list);
    r
}

/// What is asked of everybody who is in an active group, and what they did, seen from a day; with
/// the number of weeks that are over since tracking started.
pub fn workload_counts(state: &State, today: Date) -> (r: (u64, Vec<PersonShare>))
    requires
        state.wf(),
        today.in_week(),
    ensures
        r.0 == finished_weeks(*state, today),
        lists_shares(r.1@, state.persons@, *state, today),
{
    let start = state.tracking_start(today);
    let now = crate::calendar::week_of(today);
    proof {
        crate::calendar::lemma_whole_week(today.day as int, now.0 as int, now.1 as int);
    }
    let ahead = crate::calendar::weeks_between(start, now);
    let weeks: u64 = if ahead < 0 {
        0
    } else {
        ahead as u64
    };
    let mut list: Vec<PersonShare> = Vec::new();
    let ghost all = state.persons@;
    let mut i: usize = 0;
    assert(all.take(0) =~= Seq::<Person>::empty());
    while i < state.persons.len()
        invariant
            i <= state.persons.len(),
            state.wf(),
            today.in_week(),
            all == state.persons@,
            lists_shares(list@, all.take(i as int), *state, today),
        decreases state.persons.len() - i,
    {
        let p = &state.persons[i];
        let ghost before = list@;
        proof {
            assert(all.take(i + 1).drop_last() =~= all.take(i as int));
            assert(all.take(i + 1).last() == *p);
        }
        let groups = shares_of(state, p.id.as_str(), today);
        if groups.len() > 0 {
            list.push(
                PersonShare {
                    display_name: p.display_name.clone(),
                    group_names: active_group_names(state, p.id.as_str()),
                    groups,
                },
            );
            assert(list@.drop_last() =~= before);
        }
        i += 1;
    }
    assert(all.take(i as int) =~= all);
    (weeks, list)
}

// ── Events for a state without a log ─────────────────────────────────────────

impl Ranked for LoggedEvent {
    /// By time.
    open spec fn before(self, other: Self) -> bool {
        after(other.timestamp, self.timestamp)
    }

    proof fn ranks(a: Self, b: Self, c: Self) {
    }

    fn is_before(&self, other: &Self) -> (r: bool) {
        is_after(other.timestamp, self.timestamp)
    }
}

/// Whether an event tells of a mark.
pub open spec fn tells_of_mark(e: LoggedEvent, c: Completion) -> bool {
    &&& e.timestamp == c.completed_at
    &&& if c.skipped {
        e.event == (DomainEvent::CleaningSkipped {
            group_id: c.group_id,
            skipper_id: c.completed_by_id,
            iso_year: c.iso_year,
            iso_week: c.iso_week,
            shift: Some(c.shift),
            slot_id: c.slot_id,
        })
    } else {
        match e.event {
            DomainEvent::CleaningCompleted {
                group_id,
                slot_id,
                person_id,
                responsible_person_ids,
                iso_year,
                iso_week,
                shift,
            } => group_id == c.group_id && slot_id == c.slot_id && person_id == c.completed_by_id
                && responsible_person_ids@ == c.responsible_person_ids@ && iso_year == c.iso_year
                && iso_week == c.iso_week && shift == c.shift,
            _ => false,
        }
    }
}

/// The id of the person with a Matrix id, or the Matrix id itself when it is nobody's.
pub open spec fn id_or_mxid(state: State, mxid: String) -> String {
    match state.person_of(mxid@) {
        Some(p) => p.id,
        None => mxid,
    }
}

/// Whether an event tells of a swap.
pub open spec fn tells_of_swap(e: LoggedEvent, state: State, s: SwapRequest) -> bool {
    &&& e.timestamp == s.created_at
    &&& e.event == (DomainEvent::SwapApproved {
        swap_id: s.id,
        group_id: s.group_id,
        requester_id: id_or_mxid(state, s.requester),
        replacement_id: id_or_mxid(state, s.target),
        iso_year: s.iso_year,
        iso_week: s.iso_week,
        shift: s.shift,
    })
}

/// Whether an event tells of an absence.
pub open spec fn tells_of_absence(e: LoggedEvent, a: Absence) -> bool {
    e.event == (DomainEvent::AbsenceRecorded {
        person_id: a.person_id,
        group_id: a.group_id,
        from_year: a.from_year,
        from_week: a.from_week,
        duration_weeks: a.duration_weeks,
    })
}

/// A swap that was accepted.
pub open spec fn accepted() -> spec_fn(SwapRequest) -> bool {
    |s: SwapRequest| s.status == SwapStatus::Accepted
}

/// Whether events tell of all marks, then of all accepted swaps, then of all absences.
pub open spec fn tells_all(events: Seq<LoggedEvent>, state: State) -> bool {
    let marks = state.completions@;
    let swaps = state.swap_requests@.filter(accepted());
    let away = state.absences@;
    &&& events.len() == marks.len() + swaps.len() + away.len()
    &&& forall|i: int| 0 <= i < marks.len() ==> tells_of_mark(#[trigger] events[i], marks[i])
    &&& forall|i: int|
        marks.len() <= i < marks.len() + swaps.len() ==> tells_of_swap(
            #[trigger] events[i],
            state,
            swaps[i - marks.len()],
        )
    &&& forall|i: int|
        marks.len() + swaps.len() <= i < events.len() ==> tells_of_absence(
            #[trigger] events[i],
            away[i - marks.len() - swaps.len()],
        )
}

/// The event of a mark.
fn mark_event(c: &Completion) -> (r: LoggedEvent)
    ensures
        tells_of_mark(r, *c),
{
    let event = if c.skipped {
        DomainEvent::CleaningSkipped {
            group_id: c.group_id.clone(),
            skipper_id: c.completed_by_id.clone(),
            iso_year: c.iso_year,
            iso_week: c.iso_week,
            shift: Some(c.shift),
            slot_id: c.slot_id.clone(),
        }
    } else {
        DomainEvent::CleaningCompleted {
            group_id: c.group_id.clone(),
            slot_id: c.slot_id.clone(),
            person_id: c.completed_by_id.clone(),
            responsible_person_ids: copy_texts(&c.responsible_person_ids),
            iso_year: c.iso_year,
            iso_week: c.iso_week,
            shift: c.shift,
        }
    };
    LoggedEvent::at(c.completed_at, event)
}

/// The id of the person with a Matrix id, or the Matrix id itself when it is nobody's.
fn person_or_mxid(state: &State, mxid: &String) -> (r: String)
    ensures
        r == id_or_mxid(*state, *mxid),
{
    match state.person_by_matrix_id(mxid.as_str()) {
        Some(p) => p.id.clone(),
        None => mxid.clone(),
    }
}

/// Events that tell of everything a state remembers, in the order of time: of marks and accepted
/// swaps at their times, and of absences, whose times are not known, as of now. Who joined or left
/// when cannot be told.
pub fn backfill_events(state: &State) -> (r: Vec<LoggedEvent>)
    ensures
        exists|events: Seq<LoggedEvent>|
            r@ == #[trigger] sorted(events) && tells_all(events, *state),
{
    let ghost marks = state.completions@;
    let ghost away = state.absences@;
    let ghost swaps = state.swap_requests@;
    let ghost n = marks.len();
    let mut events: Vec<LoggedEvent> = Vec::new();
    let mut i: usize = 0;
    while i < state.completions.len()
        invariant
            i <= state.completions.len(),
            marks == state.completions@,
            events@.len() == i,
            forall|k: int| 0 <= k < i ==> tells_of_mark(#[trigger] events@[k], marks[k]),
        decreases state.completions.len() - i,
    {
        events.push(mark_event(&state.completions[i]));
        i += 1;
    }
    let mut k: usize = 0;
    assert(swaps.take(0).filter(accepted()) =~= Seq::<SwapRequest>::empty()) by {
        reveal(Seq::filter);
    }
    while k < state.swap_requests.len()
        invariant
            k <= state.swap_requests.len(),
            marks == state.completions@,
            swaps == state.swap_requests@,
            n == marks.len(),
            events@.len() == n + swaps.take(k as int).filter(accepted()).len(),
            forall|j: int| 0 <= j < n ==> tells_of_mark(#[trigger] events@[j], marks[j]),
            forall|j: int|
                n <= j < events@.len() ==> tells_of_swap(
                    #[trigger] events@[j],
                    *state,
                    swaps.take(k as int).filter(accepted())[j - n],
                ),
        decreases state.swap_requests.len() - k,
    {
        let s = &state.swap_requests[k];
        proof {
            lemma_filter_step(swaps, accepted(), k as int);
        }
        if s.status == SwapStatus::Accepted {
            let ghost before = events@;
            let event = DomainEvent::SwapApproved {
                swap_id: s.id,
                group_id: s.group_id.clone(),
                requester_id: person_or_mxid(state, &s.requester),
                replacement_id: person_or_mxid(state, &s.target),
                iso_year: s.iso_year,
                iso_week: s.iso_week,
                shift: s.shift,
            };
            events.push(LoggedEvent::at(s.created_at, event));
            assert(forall|j: int| 0 <= j < before.len() ==> events@[j] == before[j]);
        }
        k += 1;
    }
    assert(swaps.take(k as int) =~= swaps);
    let ghost m = n + swaps.filter(accepted()).len();
    let mut a: usize = 0;
    while a < state.absences.len()
        invariant
            a <= state.absences.len(),
            marks == state.completions@,
            swaps == state.swap_requests@,
            away == state.absences@,
            n == marks.len(),
            m == n + swaps.filter(accepted()).len(),
            events@.len() == m + a,
            forall|j: int| 0 <= j < n ==> tells_of_mark(#[trigger] events@[j], marks[j]),
            forall|j: int|
                n <= j < m ==> tells_of_swap(
                    #[trigger] events@[j],
                    *state,
                    swaps.filter(accepted())[j - n],
                ),
            forall|j: int|
                m <= j < m + a ==> tells_of_absence(#[trigger] events@[j], away[j - m]),
        decreases state.absences.len() - a,
    {
        let x = &state.absences[a];
        let ghost before = events@;
        events.push(
            LoggedEvent::now(
                DomainEvent::AbsenceRecorded {
                    person_id: x.person_id.clone(),
                    group_id: x.group_id.clone(),
                    from_year: x.from_year,
                    from_week: x.from_week,
                    duration_weeks: x.duration_weeks,
                },
            ),
        );
        assert(forall|j: int| 0 <= j < before.len() ==> events@[j] == before[j]);
        a += 1;
    }
    let ghost list = events@;
    assert(tells_all(list, *state));
    let r = sort(events);
    assert(r@ == sorted(list));
    r
}

} // verus!
