//! Everything the bot remembers, and what can be read from it.

use vstd::prelude::*;

use crate::analytics::LoggedEvent;
use crate::calendar::{
    add_weeks, date_of_timestamp, is_day, is_week, is_year, lemma_whole_week, week_at, week_number,
    week_of, week_start, weeks_apart, weeks_between, whole_week, year_fits, Date, Timestamp,
};
use crate::domain::{
    CalendarToken, CleaningGroup, GroupId, Person, PersonId, SlotAssignment, SlotId,
};
use crate::lists::{find, first_index, lemma_filter_step, lemma_first_index, some};
use crate::rhythm::Turn;
use crate::text::{contains_text, is_same_name, option_is, same_name, same_text, says};

verus! {

/// A mark that one slot of one turn has been cleaned, or excused.
#[derive(Clone, Debug)]
pub struct Completion {
    pub group_id: GroupId,
    /// `Some` for multi-slot groups; `None` for single-slot groups.
    pub slot_id: Option<SlotId>,
    pub completed_by_id: PersonId,
    pub responsible_person_ids: Vec<PersonId>,
    pub iso_year: i32,
    pub iso_week: u32,
    pub shift: u8,
    pub completed_at: Timestamp,
    pub skipped: bool,
}

/// Someone is away from a group for some weeks.
#[derive(Clone, Debug)]
pub struct Absence {
    pub person_id: PersonId,
    pub group_id: GroupId,
    pub from_year: i32,
    pub from_week: u32,
    pub duration_weeks: u32,
}

/// What became of a request to swap.
#[derive(Clone, Copy, Debug, PartialEq, Eq, Structural)]
pub enum SwapStatus {
    Pending,
    Accepted,
    Rejected,
    Cancelled,
}

/// A request to take over one slot of one turn.
#[derive(Clone, Debug)]
pub struct SwapRequest {
    pub id: u64,
    pub requester: String,
    pub target: String,
    pub group_id: GroupId,
    pub iso_year: i32,
    pub iso_week: u32,
    pub shift: u8,
    pub slot_index: usize,
    pub status: SwapStatus,
    pub created_at: Timestamp,
}

/// The kinds of reminders.
#[derive(Clone, Copy, Debug, PartialEq, Eq, Structural)]
pub enum ReminderKind {
    Initial,
    Final,
    WeeklySummary,
}

/// A reminder that went out, for a group or (`"*"`) for all of them.
#[derive(Clone, Debug)]
pub struct SentReminder {
    pub group_id: String,
    pub iso_year: i32,
    pub iso_week: u32,
    pub shift: u8,
    pub kind: ReminderKind,
}

/// The week that a posted plan message shows.
#[derive(Clone, Debug)]
pub struct PlanEvent {
    pub event_id: String,
    pub iso_year: i32,
    pub iso_week: u32,
}

/// A text kept under a key.
#[derive(Clone, Debug)]
pub struct Entry {
    pub key: String,
    pub value: String,
}

/// What a reaction on a plan message marked as done.
#[derive(Clone, Debug)]
pub struct ReactionDone {
    pub event_id: String,
    pub group_id: GroupId,
    pub completed_by_id: PersonId,
    pub iso_year: i32,
    pub iso_week: u32,
}

/// One of the reactions that answer a greeting.
#[derive(Clone, Debug)]
pub struct GreetingChoice {
    pub emoji: String,
    pub group_id: GroupId,
    pub group_name: String,
    pub person_id: Option<PersonId>,
}

/// A greeting that waits for an answer.
#[derive(Clone, Debug)]
pub struct GreetingInfo {
    pub event_id: String,
    pub for_user: String,
    pub choices: Vec<GreetingChoice>,
    pub is_linking: bool,
}

/// Everything the bot remembers.
#[derive(Clone, Debug)]
pub struct State {
    pub persons: Vec<Person>,
    pub cleaning_groups: Vec<CleaningGroup>,
    pub completions: Vec<Completion>,
    pub swap_requests: Vec<SwapRequest>,
    pub slot_assignments: Vec<SlotAssignment>,
    pub absences: Vec<Absence>,
    pub calendar_tokens: Vec<CalendarToken>,
    pub sent_reminders: Vec<SentReminder>,
    /// Which week each posted plan message shows.
    pub weekly_plan_event_ids: Vec<PlanEvent>,
    /// The one plan message of each week that is kept up to date.
    pub weekly_plan_canonical: Vec<Entry>,
    /// The text that the plan message of each week last showed.
    pub weekly_plan_rendered: Vec<Entry>,
    pub reaction_dones: Vec<ReactionDone>,
    pub greeting_event_ids: Vec<GreetingInfo>,
    pub greeted_users: Vec<String>,
    pub event_log: Vec<LoggedEvent>,
    pub created_at: Option<Timestamp>,
    pub last_modified: Option<Timestamp>,
}

impl Default for State {
    /// Nothing remembered yet.
    fn default() -> (r: Self)
        ensures
            r.persons@.len() == 0,
            r.cleaning_groups@.len() == 0,
            r.completions@.len() == 0,
            r.swap_requests@.len() == 0,
            r.slot_assignments@.len() == 0,
            r.absences@.len() == 0,
            r.calendar_tokens@.len() == 0,
            r.sent_reminders@.len() == 0,
            r.weekly_plan_event_ids@.len() == 0,
            r.weekly_plan_canonical@.len() == 0,
            r.weekly_plan_rendered@.len() == 0,
            r.reaction_dones@.len() == 0,
            r.greeting_event_ids@.len() == 0,
            r.greeted_users@.len() == 0,
            r.event_log@.len() == 0,
            r.created_at is None,
            r.last_modified is None,
    {
        State {
            persons: Vec::new(),
            cleaning_groups: Vec::new(),
            completions: Vec::new(),
            swap_requests: Vec::new(),
            slot_assignments: Vec::new(),
            absences: Vec::new(),
            calendar_tokens: Vec::new(),
            sent_reminders: Vec::new(),
            weekly_plan_event_ids: Vec::new(),
            weekly_plan_canonical: Vec::new(),
            weekly_plan_rendered: Vec::new(),
            reaction_dones: Vec::new(),
            greeting_event_ids: Vec::new(),
            greeted_users: Vec::new(),
            event_log: Vec::new(),
            created_at: None,
            last_modified: None,
        }
    }
}

// ── What is looked for ───────────────────────────────────────────────────────

/// The person with this id.
pub open spec fn person_with_id(id: Seq<char>) -> spec_fn(Person) -> bool {
    |p: Person| p.id@ == id
}

/// The person with this Matrix id.
pub open spec fn person_with_mxid(mxid: Seq<char>) -> spec_fn(Person) -> bool {
    |p: Person| p.matrix_id is Some && p.matrix_id->0@ == mxid
}

/// A person called this.
pub open spec fn person_called(s: Seq<char>) -> spec_fn(Person) -> bool {
    |p: Person| p.is_called(s)
}

/// The group with this id.
pub open spec fn group_with_id(id: Seq<char>) -> spec_fn(CleaningGroup) -> bool {
    |g: CleaningGroup| g.id@ == id
}

/// A group of this name, up to the case of letters.
pub open spec fn group_named(name: Seq<char>) -> spec_fn(CleaningGroup) -> bool {
    |g: CleaningGroup| same_name(g.name@, name)
}

/// A group that someone is a member of.
pub open spec fn group_with_member(id: Seq<char>) -> spec_fn(CleaningGroup) -> bool {
    |g: CleaningGroup| says(g.member_ids@, id)
}

/// The assignment of one slot of one turn.
pub open spec fn assignment_of(
    group_id: Seq<char>,
    slot_index: int,
    turn: Turn,
) -> spec_fn(SlotAssignment) -> bool {
    |a: SlotAssignment|
        a.group_id@ == group_id && a.slot_index == slot_index && a.iso_year == turn.year
            && a.iso_week == turn.week && a.shift == turn.shift
}

/// The mark of one slot of one turn: any of the turn for a group without slots.
pub open spec fn completion_of(group: CleaningGroup, slot_index: int, turn: Turn) -> spec_fn(
    Completion,
) -> bool {
    |c: Completion|
        c.group_id@ == group.id@ && c.iso_year == turn.year && c.iso_week == turn.week && c.shift
            == turn.shift && (group.slots@.len() == 0 || (0 <= slot_index < group.slots@.len()
            && c.slot_id is Some && c.slot_id->0@ == group.slots@[slot_index].id@))
}

/// A reminder of a kind for one turn of a group.
pub open spec fn reminder_of(
    group_id: Seq<char>,
    year: i32,
    week: u32,
    shift: u8,
    kind: ReminderKind,
) -> spec_fn(SentReminder) -> bool {
    |r: SentReminder|
        r.group_id@ == group_id && r.iso_year == year && r.iso_week == week && r.shift == shift
            && r.kind == kind
}

/// An absence that covers a week: from its first week on, for as many weeks as it lasts. One from
/// a year that cannot be represented covers none.
pub open spec fn absence_in(person_id: Seq<char>, group_id: Seq<char>, year: i32, week: u32) -> spec_fn(
    Absence,
) -> bool {
    |a: Absence|
        a.person_id@ == person_id && a.group_id@ == group_id && is_year(a.from_year as int) && 0
            <= weeks_apart((a.from_year, a.from_week), (year, week)) < a.duration_weeks
}

/// The entry under a key.
pub open spec fn entry_under(key: Seq<char>) -> spec_fn(Entry) -> bool {
    |e: Entry| e.key@ == key
}

/// The text under a key.
pub open spec fn value_under(entries: Seq<Entry>, key: Seq<char>) -> Option<Seq<char>> {
    match find(entries, entry_under(key)) {
        Some(e) => Some(e.value@),
        None => None,
    }
}

/// The text under a key.
pub fn lookup<'a>(entries: &'a Vec<Entry>, key: &str) -> (r: Option<&'a String>)
    ensures
        (r is Some) == (value_under(entries@, key@) is Some),
        r is Some ==> r->0@ == value_under(entries@, key@)->0,
{
    let mut i: usize = 0;
    while i < entries.len()
        invariant
            i <= entries.len(),
            forall|k: int| 0 <= k < i ==> !entry_under(key@)(#[trigger] entries@[k]),
        decreases entries.len() - i,
    {
        if same_text(entries[i].key.as_str(), key) {
            proof {
                lemma_first_index(entries@, entry_under(key@), i as int);
            }
            return Some(&entries[i].value);
        }
        i += 1;
    }
    proof {
        lemma_first_index(entries@, entry_under(key@), i as int);
    }
    None
}

// ── Lookups ──────────────────────────────────────────────────────────────────

impl State {
    /// The person with an id.
    pub open spec fn person(self, id: Seq<char>) -> Option<Person> {
        find(self.persons@, person_with_id(id))
    }

    /// The person with a Matrix id.
    pub open spec fn person_of(self, mxid: Seq<char>) -> Option<Person> {
        find(self.persons@, person_with_mxid(mxid))
    }

    /// The first person called this.
    pub open spec fn person_named(self, s: Seq<char>) -> Option<Person> {
        find(self.persons@, person_called(s))
    }

    /// The group with an id.
    pub open spec fn group(self, id: Seq<char>) -> Option<CleaningGroup> {
        find(self.cleaning_groups@, group_with_id(id))
    }

    /// The first group of a name.
    pub open spec fn group_of_name(self, name: Seq<char>) -> Option<CleaningGroup> {
        find(self.cleaning_groups@, group_named(name))
    }

    /// The groups that someone is a member of, in order.
    pub open spec fn groups_of(self, id: Seq<char>) -> Seq<CleaningGroup> {
        self.cleaning_groups@.filter(group_with_member(id))
    }

    /// Whether someone is away from a group in a week.
    pub open spec fn away(self, person_id: Seq<char>, group_id: Seq<char>, year: i32, week: u32) -> bool {
        some(self.absences@, absence_in(person_id, group_id, year, week))
    }

    /// Whether the week that tracking started in can be represented.
    pub open spec fn wf(self) -> bool {
        self.created_at is Some ==> whole_week(719163 + self.created_at->0.secs as int / 86400)
    }

    /// The person with an id.
    pub fn person_by_id(&self, id: &str) -> (r: Option<&Person>)
        ensures
            (r is Some) == (self.person(id@) is Some),
            r is Some ==> *r->0 == self.person(id@)->0 && r->0.id@ == id@,
    {
        let mut i: usize = 0;
        while i < self.persons.len()
            invariant
                i <= self.persons.len(),
                forall|k: int| 0 <= k < i ==> !person_with_id(id@)(#[trigger] self.persons@[k]),
            decreases self.persons.len() - i,
        {
            if same_text(self.persons[i].id.as_str(), id) {
                proof {
                    lemma_first_index(self.persons@, person_with_id(id@), i as int);
                }
                return Some(&self.persons[i]);
            }
            i += 1;
        }
        proof {
            lemma_first_index(self.persons@, person_with_id(id@), i as int);
        }
        None
    }

    /// The place of the person with a Matrix id.
    pub fn person_position(&self, mxid: &str) -> (r: Option<usize>)
        ensures
            (r is Some) == some(self.persons@, person_with_mxid(mxid@)),
            r is Some ==> r->0 == first_index(self.persons@, person_with_mxid(mxid@)) && r->0
                < self.persons@.len(),
    {
        let mut i: usize = 0;
        while i < self.persons.len()
            invariant
                i <= self.persons.len(),
                forall|k: int| 0 <= k < i ==> !person_with_mxid(mxid@)(#[trigger] self.persons@[k]),
            decreases self.persons.len() - i,
        {
            if option_is(&self.persons[i].matrix_id, mxid) {
                proof {
                    lemma_first_index(self.persons@, person_with_mxid(mxid@), i as int);
                }
                return Some(i);
            }
            i += 1;
        }
        proof {
            lemma_first_index(self.persons@, person_with_mxid(mxid@), i as int);
        }
        None
    }

    /// The person with a Matrix id.
    pub fn person_by_matrix_id(&self, mxid: &str) -> (r: Option<&Person>)
        ensures
            (r is Some) == (self.person_of(mxid@) is Some),
            r is Some ==> *r->0 == self.person_of(mxid@)->0,
    {
        match self.person_position(mxid) {
            Some(i) => Some(&self.persons[i]),
            None => None,
        }
    }

    /// The first person whose Matrix id, or name up to the case of letters, is `query`.
    pub fn find_person(&self, query: &str) -> (r: Option<&Person>)
        ensures
            (r is Some) == (self.person_named(query@) is Some),
            r is Some ==> *r->0 == self.person_named(query@)->0,
    {
        let mut i: usize = 0;
        while i < self.persons.len()
            invariant
                i <= self.persons.len(),
                forall|k: int| 0 <= k < i ==> !person_called(query@)(#[trigger] self.persons@[k]),
            decreases self.persons.len() - i,
        {
            if self.persons[i].matches(query) {
                proof {
                    lemma_first_index(self.persons@, person_called(query@), i as int);
                }
                return Some(&self.persons[i]);
            }
            i += 1;
        }
        proof {
            lemma_first_index(self.persons@, person_called(query@), i as int);
        }
        None
    }

    /// The place of the group with an id.
    pub fn group_position(&self, id: &str) -> (r: Option<usize>)
        ensures
            (r is Some) == some(self.cleaning_groups@, group_with_id(id@)),
            r is Some ==> r->0 == first_index(self.cleaning_groups@, group_with_id(id@)) && r->0
                < self.cleaning_groups@.len() && self.cleaning_groups@[r->0 as int].id@ == id@,
    {
        let mut i: usize = 0;
        while i < self.cleaning_groups.len()
            invariant
                i <= self.cleaning_groups.len(),
                forall|k: int|
                    0 <= k < i ==> !group_with_id(id@)(#[trigger] self.cleaning_groups@[k]),
            decreases self.cleaning_groups.len() - i,
        {
            if same_text(self.cleaning_groups[i].id.as_str(), id) {
                proof {
                    lemma_first_index(self.cleaning_groups@, group_with_id(id@), i as int);
                }
                return Some(i);
            }
            i += 1;
        }
        proof {
            lemma_first_index(self.cleaning_groups@, group_with_id(id@), i as int);
        }
        None
    }

    /// The group with an id.
    pub fn group_by_id(&self, id: &str) -> (r: Option<&CleaningGroup>)
        ensures
            (r is Some) == (self.group(id@) is Some),
            r is Some ==> *r->0 == self.group(id@)->0 && r->0.id@ == id@,
    {
        match self.group_position(id) {
            Some(i) => Some(&self.cleaning_groups[i]),
            None => None,
        }
    }

    /// The first group of a name, up to the case of letters.
    pub fn group_by_name(&self, name: &str) -> (r: Option<&CleaningGroup>)
        ensures
            (r is Some) == (self.group_of_name(name@) is Some),
            r is Some ==> *r->0 == self.group_of_name(name@)->0,
    {
        let mut i: usize = 0;
        while i < self.cleaning_groups.len()
            invariant
                i <= self.cleaning_groups.len(),
                forall|k: int|
                    0 <= k < i ==> !group_named(name@)(#[trigger] self.cleaning_groups@[k]),
            decreases self.cleaning_groups.len() - i,
        {
            if is_same_name(self.cleaning_groups[i].name.as_str(), name) {
                proof {
                    lemma_first_index(self.cleaning_groups@, group_named(name@), i as int);
                }
                return Some(&self.cleaning_groups[i]);
            }
            i += 1;
        }
        proof {
            lemma_first_index(self.cleaning_groups@, group_named(name@), i as int);
        }
        None
    }

    /// The groups that someone is a member of, in order.
    pub fn groups_for_person(&self, person_id: &str) -> (r: Vec<&CleaningGroup>)
        ensures
            r@.len() == self.groups_of(person_id@).len(),
            forall|i: int| 0 <= i < r@.len() ==> *(#[trigger] r@[i]) == self.groups_of(person_id@)[i],
    {
        let mut r: Vec<&CleaningGroup> = Vec::new();
        let ghost p = group_with_member(person_id@);
        let mut i: usize = 0;
        assert(self.cleaning_groups@.take(0).filter(p) =~= Seq::<CleaningGroup>::empty()) by {
            reveal(Seq::filter);
        }
        while i < self.cleaning_groups.len()
            invariant
                i <= self.cleaning_groups.len(),
                p == group_with_member(person_id@),
                r@.len() == self.cleaning_groups@.take(i as int).filter(p).len(),
                forall|k: int|
                    0 <= k < r@.len() ==> *(#[trigger] r@[k]) == self.cleaning_groups@.take(
                        i as int,
                    ).filter(p)[k],
            decreases self.cleaning_groups.len() - i,
        {
            proof {
                lemma_filter_step(self.cleaning_groups@, p, i as int);
            }
            if contains_text(&self.cleaning_groups[i].member_ids, person_id) {
                r.push(&self.cleaning_groups[i]);
            }
            i += 1;
        }
        assert(self.cleaning_groups@.take(i as int) =~= self.cleaning_groups@);
        r
    }

    /// Whether someone is away from a group in a week.
    pub fn is_absent(&self, person_id: &str, group_id: &str, year: i32, week: u32) -> (r: bool)
        requires
            is_year(year as int),
        ensures
            r == self.away(person_id@, group_id@, year, week),
    {
        let ghost p = absence_in(person_id@, group_id@, year, week);
        let mut i: usize = 0;
        while i < self.absences.len()
            invariant
                is_year(year as int),
                i <= self.absences.len(),
                p == absence_in(person_id@, group_id@, year, week),
                forall|k: int| 0 <= k < i ==> !p(#[trigger] self.absences@[k]),
            decreases self.absences.len() - i,
        {
            let a = &self.absences[i];
            if year_fits(a.from_year) && same_text(a.person_id.as_str(), person_id) && same_text(
                a.group_id.as_str(),
                group_id,
            ) {
                let d = weeks_between((a.from_year, a.from_week), (year, week));
                if 0 <= d && d < a.duration_weeks as i64 {
                    proof {
                        lemma_first_index(self.absences@, p, i as int);
                    }
                    return true;
                }
            }
            i += 1;
        }
        proof {
            lemma_first_index(self.absences@, p, i as int);
        }
        false
    }

    /// The frozen assignment of one slot of one turn.
    pub open spec fn assignment(self, group_id: Seq<char>, slot_index: int, turn: Turn) -> Option<
        SlotAssignment,
    > {
        find(self.slot_assignments@, assignment_of(group_id, slot_index, turn))
    }

    /// The place of the frozen assignment of one slot of one turn.
    pub fn assignment_position(&self, group_id: &str, slot_index: usize, turn: Turn) -> (r: Option<
        usize,
    >)
        ensures
            (r is Some) == some(
                self.slot_assignments@,
                assignment_of(group_id@, slot_index as int, turn),
            ),
            r is Some ==> r->0 == first_index(
                self.slot_assignments@,
                assignment_of(group_id@, slot_index as int, turn),
            ) && r->0 < self.slot_assignments@.len(),
    {
        let ghost p = assignment_of(group_id@, slot_index as int, turn);
        let mut i: usize = 0;
        while i < self.slot_assignments.len()
            invariant
                i <= self.slot_assignments.len(),
                p == assignment_of(group_id@, slot_index as int, turn),
                forall|k: int| 0 <= k < i ==> !p(#[trigger] self.slot_assignments@[k]),
            decreases self.slot_assignments.len() - i,
        {
            let a = &self.slot_assignments[i];
            if a.slot_index == slot_index && a.iso_year == turn.year && a.iso_week == turn.week
                && a.shift == turn.shift && same_text(a.group_id.as_str(), group_id) {
                proof {
                    lemma_first_index(self.slot_assignments@, p, i as int);
                }
                return Some(i);
            }
            i += 1;
        }
        proof {
            lemma_first_index(self.slot_assignments@, p, i as int);
        }
        None
    }

    /// The mark of one slot of one turn.
    pub open spec fn completion(self, group: CleaningGroup, slot_index: int, turn: Turn) -> Option<
        Completion,
    > {
        find(self.completions@, completion_of(group, slot_index, turn))
    }

    /// The mark of one slot of one turn, when it has been cleaned or excused.
    pub fn completion_for(&self, group: &CleaningGroup, slot_index: usize, turn: Turn) -> (r: Option<
        &Completion,
    >)
        ensures
            (r is Some) == (self.completion(*group, slot_index as int, turn) is Some),
            r is Some ==> *r->0 == self.completion(*group, slot_index as int, turn)->0,
    {
        let ghost p = completion_of(*group, slot_index as int, turn);
        let mut i: usize = 0;
        while i < self.completions.len()
            invariant
                i <= self.completions.len(),
                p == completion_of(*group, slot_index as int, turn),
                forall|k: int| 0 <= k < i ==> !p(#[trigger] self.completions@[k]),
            decreases self.completions.len() - i,
        {
            let c = &self.completions[i];
            if c.iso_year == turn.year && c.iso_week == turn.week && c.shift == turn.shift
                && same_text(c.group_id.as_str(), group.id.as_str()) {
                let fits = if group.slots.len() == 0 {
                    true
                } else if slot_index < group.slots.len() {
                    option_is(&c.slot_id, group.slots[slot_index].id.as_str())
                } else {
                    false
                };
                if fits {
                    proof {
                        lemma_first_index(self.completions@, p, i as int);
                    }
                    return Some(c);
                }
            }
            i += 1;
        }
        proof {
            lemma_first_index(self.completions@, p, i as int);
        }
        None
    }

    /// Whether one slot of a turn is done.
    pub open spec fn slot_done(self, group: CleaningGroup, slot_index: int, turn: Turn) -> bool {
        self.completion(group, slot_index, turn) is Some
    }

    /// Whether every slot of a turn is done.
    pub open spec fn turn_done(self, group: CleaningGroup, turn: Turn) -> bool {
        forall|i: int| 0 <= i < group.slot_count() ==> #[trigger] self.slot_done(group, i, turn)
    }

    /// Whether every slot of a turn is done and not all of them were excused.
    pub open spec fn turn_cleaned(self, group: CleaningGroup, turn: Turn) -> bool {
        self.turn_done(group, turn) && exists|i: int|
            0 <= i < group.slot_count() && !(#[trigger] self.completion(
                group,
                i,
                turn,
            )->0).skipped
    }

    /// Whether one slot of a turn has been cleaned or excused.
    pub fn is_turn_slot_done(&self, group: &CleaningGroup, slot_index: usize, turn: Turn) -> (r: bool)
        ensures
            r == self.slot_done(*group, slot_index as int, turn),
    {
        self.completion_for(group, slot_index, turn).is_some()
    }

    /// Whether every slot of a turn has been cleaned or excused.
    pub fn is_turn_done(&self, group: &CleaningGroup, turn: Turn) -> (r: bool)
        ensures
            r == self.turn_done(*group, turn),
    {
        let n = group.people_per_turn();
        let mut i: usize = 0;
        while i < n
            invariant
                i <= n,
                n == group.slot_count(),
                forall|k: int| 0 <= k < i ==> #[trigger] self.slot_done(*group, k, turn),
            decreases n - i,
        {
            if !self.is_turn_slot_done(group, i, turn) {
                assert(!self.slot_done(*group, i as int, turn));
                return false;
            }
            i += 1;
        }
        true
    }

    /// Whether every slot of a turn is done and not all of them were excused.
    pub fn is_turn_cleaned(&self, group: &CleaningGroup, turn: Turn) -> (r: bool)
        ensures
            r == self.turn_cleaned(*group, turn),
    {
        if !self.is_turn_done(group, turn) {
            return false;
        }
        let n = group.people_per_turn();
        let mut i: usize = 0;
        while i < n
            invariant
                i <= n,
                n == group.slot_count(),
                self.turn_done(*group, turn),
                forall|k: int|
                    0 <= k < i ==> (#[trigger] self.completion(*group, k, turn)->0).skipped,
            decreases n - i,
        {
            assert(self.slot_done(*group, i as int, turn));
            match self.completion_for(group, i, turn) {
                Some(c) => {
                    if !c.skipped {
                        assert(!self.completion(*group, i as int, turn)->0.skipped);
                        return true;
                    }
                },
                None => {},
            }
            i += 1;
        }
        false
    }

    /// Whether a reminder went out.
    pub open spec fn reminded(
        self,
        group_id: Seq<char>,
        year: i32,
        week: u32,
        shift: u8,
        kind: ReminderKind,
    ) -> bool {
        some(self.sent_reminders@, reminder_of(group_id, year, week, shift, kind))
    }

    /// Whether a reminder of a kind went out for one turn of a group.
    pub fn reminder_sent(
        &self,
        group_id: &str,
        year: i32,
        week: u32,
        shift: u8,
        kind: &ReminderKind,
    ) -> (r: bool)
        ensures
            r == self.reminded(group_id@, year, week, shift, *kind),
    {
        let ghost p = reminder_of(group_id@, year, week, shift, *kind);
        let mut i: usize = 0;
        while i < self.sent_reminders.len()
            invariant
                i <= self.sent_reminders.len(),
                p == reminder_of(group_id@, year, week, shift, *kind),
                forall|k: int| 0 <= k < i ==> !p(#[trigger] self.sent_reminders@[k]),
            decreases self.sent_reminders.len() - i,
        {
            let s = &self.sent_reminders[i];
            if s.iso_year == year && s.iso_week == week && s.shift == shift && s.kind == *kind
                && same_text(s.group_id.as_str(), group_id) {
                proof {
                    lemma_first_index(self.sent_reminders@, p, i as int);
                }
                return true;
            }
            i += 1;
        }
        proof {
            lemma_first_index(self.sent_reminders@, p, i as int);
        }
        false
    }

    /// Notes that a reminder went out.
    pub fn mark_reminder_sent(
        &mut self,
        group_id: &str,
        year: i32,
        week: u32,
        shift: u8,
        kind: ReminderKind,
    )
        ensures
            *final(self) == (State { sent_reminders: final(self).sent_reminders, ..*old(self) }),
            final(self).sent_reminders@.len() == old(self).sent_reminders@.len() + 1,
            final(self).sent_reminders@.drop_last() == old(self).sent_reminders@,
            reminder_of(group_id@, year, week, shift, kind)(final(self).sent_reminders@.last()),
    {
        self.sent_reminders.push(
            SentReminder {
                group_id: group_id.to_owned(),
                iso_year: year,
                iso_week: week,
                shift,
                kind,
            },
        );
        assert(self.sent_reminders@.drop_last() =~= old(self).sent_reminders@);
    }
}

// ── Due weeks ────────────────────────────────────────────────────────────────

impl State {
    /// The place of the week that tracking started in: the week the state was created in, or the
    /// current one when that is not known.
    pub open spec fn start_no(self, today: Date) -> int {
        match self.created_at {
            Some(t) => (719163 + t.secs as int / 86400 - 1) / 7,
            None => today.week_no(),
        }
    }

    /// The week that tracking started in.
    pub fn tracking_start(&self, today: Date) -> (r: (i32, u32))
        requires
            self.wf(),
            today.in_week(),
        ensures
            is_week(r.0 as int, r.1 as int),
            is_year(r.0 as int),
            week_number(r.0 as int, r.1 as int) == self.start_no(today),
            (r.0 as int, r.1 as int) == week_at(self.start_no(today)),
            week_start(r.0 as int, r.1 as int) == 7 * self.start_no(today) + 1,
            is_day(week_start(r.0 as int, r.1 as int) + 6),
    {
        let day = match self.created_at {
            Some(t) => match date_of_timestamp(t) {
                Some(d) => d,
                None => today,
            },
            None => today,
        };
        let r = week_of(day);
        proof {
            lemma_whole_week(day.day as int, r.0 as int, r.1 as int);
        }
        r
    }

    /// Whether a group is due in a week: the number of weeks since tracking started is a multiple
    /// of the group's rhythm.
    pub open spec fn due(self, group: CleaningGroup, today: Date, year: int, week: int) -> bool {
        crate::calendar::whole_weeks(week_start(year, week) - (7 * self.start_no(today) + 1))
            % group.rhythm.interval() == 0
    }

    /// Whether a group is due in a week.
    pub fn is_due_week(&self, group: &CleaningGroup, today: Date, year: i32, week: u32) -> (r: bool)
        requires
            self.wf(),
            today.in_week(),
            is_year(year as int),
        ensures
            r == self.due(*group, today, year as int, week as int),
    {
        let start = self.tracking_start(today);
        let d = weeks_between(start, (year, week));
        let every = group.rhythm.every_weeks() as i64;
        remainder(d, every) == 0
    }

    /// The turns of a group in a week: one for each shift of a due week.
    pub open spec fn week_turns(self, group: CleaningGroup, today: Date, year: i32, week: u32) -> Seq<
        Turn,
    > {
        if self.due(group, today, year as int, week as int) {
            Seq::new(
                group.rhythm.week_shifts().len(),
                |i: int| Turn { year, week, shift: i as u8 },
            )
        } else {
            Seq::empty()
        }
    }

    /// The turns of a group in a week, in order.
    pub fn turns_in_week(&self, group: &CleaningGroup, today: Date, year: i32, week: u32) -> (r: Vec<
        Turn,
    >)
        requires
            self.wf(),
            today.in_week(),
            is_year(year as int),
        ensures
            r@ == self.week_turns(*group, today, year, week),
            r@.len() <= 7,
    {
        let mut r: Vec<Turn> = Vec::new();
        if !self.is_due_week(group, today, year, week) {
            return r;
        }
        let n = group.rhythm.shift_count();
        let mut i: usize = 0;
        while i < n
            invariant
                i <= n <= 7,
                n == group.rhythm.week_shifts().len(),
                self.due(*group, today, year as int, week as int),
                r@ == self.week_turns(*group, today, year, week).take(i as int),
            decreases n - i,
        {
            assert(self.week_turns(*group, today, year, week).take(i + 1) =~= self.week_turns(
                *group,
                today,
                year,
                week,
            ).take(i as int).push(Turn { year, week, shift: i as u8 }));
            r.push(Turn { year, week, shift: i as u8 });
            i += 1;
        }
        assert(self.week_turns(*group, today, year, week).take(n as int) =~= self.week_turns(
            *group,
            today,
            year,
            week,
        ));
        r
    }

    /// The place of the first due week of a group from the one at `from` on.
    pub open spec fn next_due_no(self, group: CleaningGroup, today: Date, from: int) -> int {
        let late = (from - self.start_no(today)) % group.rhythm.interval();
        if late == 0 {
            from
        } else {
            from + group.rhythm.interval() - late
        }
    }

    /// The first due week of a group from a given week on.
    pub fn next_due_week(&self, group: &CleaningGroup, today: Date, from: (i32, u32)) -> (r: (
        i32,
        u32,
    ))
        requires
            self.wf(),
            today.in_week(),
            is_year(from.0 as int),
            is_week(from.0 as int, from.1 as int),
            week_start(from.0 as int, from.1 as int) == 7 * week_number(
                from.0 as int,
                from.1 as int,
            ) + 1,
            is_day(
                7 * self.next_due_no(
                    *group,
                    today,
                    week_number(from.0 as int, from.1 as int),
                ) + 1,
            ),
        ensures
            is_week(r.0 as int, r.1 as int),
            week_number(r.0 as int, r.1 as int) == self.next_due_no(
                *group,
                today,
                week_number(from.0 as int, from.1 as int),
            ),
    {
        let start = self.tracking_start(today);
        let d = weeks_between(start, from);
        let every = group.rhythm.every_weeks() as i64;
        let ghost no = week_number(from.0 as int, from.1 as int);
        assert(d == no - self.start_no(today));
        let late = remainder(d, every);
        if late == 0 {
            from
        } else {
            let r = add_weeks(from.0, from.1, every - late);
            r
        }
    }
}

/// The remainder of a division by a positive number, never negative.
pub fn remainder(d: i64, every: i64) -> (r: i64)
    requires
        -30000000 < d < 30000000,
        1 <= every <= u32::MAX,
    ensures
        r == d as int % every as int,
        0 <= r < every,
{
    if d >= 0 {
        (d as u64 % every as u64) as i64
    } else {
        let m: u64 = (0 - d) as u64 % every as u64;
        proof {
            lemma_negative_remainder(-(d as int), every as int);
        }
        if m == 0 {
            0
        } else {
            every - m as i64
        }
    }
}

/// The remainder of a negative number.
proof fn lemma_negative_remainder(a: int, n: int)
    requires
        a >= 0,
        n >= 1,
    ensures
        (-a) % n == if a % n == 0 {
            0
        } else {
            n - a % n
        },
{
    vstd::arithmetic::div_mod::lemma_fundamental_div_mod(a, n);
    let q = a / n;
    let m = a % n;
    if m == 0 {
        assert(-a == n * (-q)) by (nonlinear_arith)
            requires
                a == n * q,
        ;
        vstd::arithmetic::div_mod::lemma_fundamental_div_mod_converse(-a, n, -q, 0);
    } else {
        assert(-a == n * (-q - 1) + (n - m)) by (nonlinear_arith)
            requires
                a == n * q + m,
        ;
        vstd::arithmetic::div_mod::lemma_fundamental_div_mod_converse(-a, n, -q - 1, n - m);
    }
}

} // verus!
