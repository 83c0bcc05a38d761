//! A whole state in words, for whoever looks after it.

use vstd::prelude::*;

use crate::calendar::{is_today, lemma_today, week_of, Date, Timestamp};
use crate::commands::stats::{person_names, show_member_names};
use crate::domain::{CleaningGroup, CleaningSlot, Person, SlotAssignment};
use crate::greetings::{list_group_names, names_of_groups};
use crate::inspect::{state_errors, state_warnings, validate_state};
use crate::lists::{count, count_where, filter_map, lemma_filter_map_step};
use crate::planning::this_week;
use crate::roster::{after, is_after};
use crate::sorting::{lemma_sorted, sort, sorted, Ranked};
use crate::state::{Absence, Completion, State, SwapRequest, SwapStatus};
use crate::text::{
    chars_of, decimal, join, join_texts, put_text, put_texts, same_text, show, show_two,
    two_digits, views,
};

verus! {

// ── Columns ──────────────────────────────────────────────────────────────────

/// A text followed by blanks up to a width.
pub open spec fn filled(t: Seq<char>, width: nat) -> Seq<char> {
    t + Seq::new(
        if t.len() < width {
            (width - t.len()) as nat
        } else {
            0
        },
        |i: int| ' ',
    )
}

/// Writes a text followed by blanks up to a width.
fn fill(t: &str, width: usize) -> (r: String)
    ensures
        r@ == filled(t@, width as nat),
{
    let n = chars_of(t).len();
    let mut r = t.to_owned();
    let mut i: usize = n;
    proof {
        reveal_strlit(" ");
        assert(r@ =~= filled(t@, n as nat));
    }
    while i < width
        invariant
            n == t@.len(),
            n <= i,
            i <= width || i == n,
            r@ == filled(t@, i as nat),
        decreases width - i,
    {
        r = r.concat(" ");
        proof {
            reveal_strlit(" ");
            assert(r@ =~= filled(t@, (i + 1) as nat));
        }
        i += 1;
    }
    assert(r@ =~= filled(t@, width as nat));
    r
}

/// A number after zeros up to a width.
pub open spec fn zero_filled(n: nat, width: nat) -> Seq<char> {
    Seq::new(
        if decimal(n).len() < width {
            (width - decimal(n).len()) as nat
        } else {
            0
        },
        |i: int| '0',
    ) + decimal(n)
}

/// Writes a number after zeros up to a width.
fn fill_zeros(n: u64, width: usize) -> (r: String)
    ensures
        r@ == zero_filled(n as nat, width as nat),
{
    let digits = show(n);
    let len = chars_of(digits.as_str()).len();
    let mut zeros = String::new();
    let mut i: usize = len;
    proof {
        reveal_strlit("0");
        assert(zeros@ =~= Seq::new(0, |i: int| '0'));
    }
    while i < width
        invariant
            len <= i,
            i <= width || i == len,
            zeros@ == Seq::new((i - len) as nat, |i: int| '0'),
        decreases width - i,
    {
        zeros = zeros.concat("0");
        proof {
            reveal_strlit("0");
            assert(zeros@ =~= Seq::new((i + 1 - len) as nat, |i: int| '0'));
        }
        i += 1;
    }
    let r = zeros.concat(digits.as_str());
    assert(r@ =~= zero_filled(n as nat, width as nat));
    r
}

/// A week, "2025-W03".
pub open spec fn week_mark(year: int, week: int) -> Seq<char> {
    (if year < 0 {
        "-"@ + zero_filled((-year) as nat, 3)
    } else {
        zero_filled(year as nat, 4)
    }) + "-W"@ + two_digits(week as nat)
}

/// Writes a week.
fn show_mark(year: i32, week: u32) -> (r: String)
    ensures
        r@ == week_mark(year as int, week as int),
{
    let y = if year < 0 {
        "-".to_owned().concat(fill_zeros((-(year as i64)) as u64, 3).as_str())
    } else {
        fill_zeros(year as u64, 4)
    };
    y.concat("-W").concat(show_two(week as u64).as_str())
}

/// The name of a person, or a question mark.
pub open spec fn known_person(state: State, id: Seq<char>) -> Seq<char> {
    match state.person(id) {
        Some(p) => p.display_name@,
        None => "?"@,
    }
}

/// The name of a person, or a question mark.
fn show_person(state: &State, id: &str) -> (r: String)
    ensures
        r@ == known_person(*state, id@),
{
    match state.person_by_id(id) {
        Some(p) => p.display_name.clone(),
        None => "?".to_owned(),
    }
}

/// The name of a group, or a question mark.
pub open spec fn known_group(state: State, id: Seq<char>) -> Seq<char> {
    match state.group(id) {
        Some(g) => g.name@,
        None => "?"@,
    }
}

/// The name of a group, or a question mark.
fn show_group(state: &State, id: &str) -> (r: String)
    ensures
        r@ == known_group(*state, id@),
{
    match state.group_by_id(id) {
        Some(g) => g.name.clone(),
        None => "?".to_owned(),
    }
}

// ── Persons ──────────────────────────────────────────────────────────────────

/// The line about a person.
pub open spec fn person_row(state: State, p: Person) -> Seq<char> {
    let groups = names_of_groups(state, p.id@);
    "  "@ + filled(p.display_name@, 24) + "  "@ + filled(
        match p.matrix_id {
            Some(m) => m@,
            None => "(no matrix)"@,
        },
        36,
    ) + "  "@ + (if groups.len() == 0 {
        "⚠ no group"@
    } else {
        join(groups, ", "@)
    }) + (if p.active {
        ""@
    } else {
        "  [INACTIVE]"@
    })
}

/// The lines about all persons.
pub open spec fn person_rows(state: State) -> Seq<Seq<char>> {
    state.persons@.map_values(|p: Person| person_row(state, p))
}

/// Writes the line about a person.
fn show_person_row(state: &State, p: &Person) -> (r: String)
    ensures
        r@ == person_row(*state, *p),
{
    let groups = list_group_names(state, p.id.as_str());
    let mxid: &str = match &p.matrix_id {
        Some(m) => m.as_str(),
        None => "(no matrix)",
    };
    let places = if groups.len() == 0 {
        "⚠ no group".to_owned()
    } else {
        join_texts(&groups, ", ")
    };
    let tag: &str = if p.active {
        ""
    } else {
        "  [INACTIVE]"
    };
    "  ".to_owned().concat(fill(p.display_name.as_str(), 24).as_str()).concat("  ").concat(
        fill(mxid, 36).as_str(),
    ).concat("  ").concat(places.as_str()).concat(tag)
}

/// Writes the lines about all persons.
fn list_persons(state: &State) -> (r: Vec<String>)
    ensures
        views(r@) == person_rows(*state),
{
    let all = &state.persons;
    let ghost rows = person_rows(*state);
    let mut r: Vec<String> = Vec::new();
    let mut i: usize = 0;
    assert(views(r@) =~= rows.take(0));
    while i < all.len()
        invariant
            i <= all.len(),
            all == &state.persons,
            rows == person_rows(*state),
            views(r@) == rows.take(i as int),
        decreases all.len() - i,
    {
        let row = show_person_row(state, &all[i]);
        assert(rows.take(i + 1) =~= rows.take(i as int).push(row@));
        put_text(&mut r, row);
        i += 1;
    }
    assert(rows.take(i as int) =~= rows);
    r
}

// ── Groups ───────────────────────────────────────────────────────────────────

/// The line about a slot.
pub open spec fn slot_row(s: CleaningSlot) -> Seq<char> {
    "    slot «"@ + s.name@ + "»: "@ + (if s.room_names@.len() == 0 {
        "(no rooms)"@
    } else {
        join(views(s.room_names@), ", "@)
    })
}

/// The lines about slots.
pub open spec fn slot_rows(slots: Seq<CleaningSlot>) -> Seq<Seq<char>> {
    slots.map_values(|s: CleaningSlot| slot_row(s))
}

/// The lines about a group; `weight` is its weight in words where it is not neutral.
pub open spec fn group_rows(state: State, g: CleaningGroup, weight: Option<Seq<char>>) -> Seq<
    Seq<char>,
> {
    let members = state.persons_of(g.member_ids@);
    seq![
        "  "@ + g.name@ + " ("@ + decimal(members.len()) + " members): "@ + join(
            person_names(members),
            ", "@,
        ),
    ] + (if g.room_names@.len() == 0 {
        Seq::empty()
    } else {
        seq!["    rooms: "@ + join(views(g.room_names@), ", "@)]
    }) + slot_rows(g.slots@) + (match weight {
        Some(w) => seq!["    weight: "@ + w + "×"@],
        None => Seq::empty(),
    })
}

/// A text of a list, if the list holds one there.
pub open spec fn text_in(list: Seq<Option<String>>, i: int) -> Option<Seq<char>> {
    if 0 <= i < list.len() {
        match list[i] {
            Some(t) => Some(t@),
            None => None,
        }
    } else {
        None
    }
}

/// The lines about the first groups.
pub open spec fn groups_rows(state: State, weights: Seq<Option<String>>, n: nat) -> Seq<Seq<char>>
    decreases n,
{
    if n == 0 {
        Seq::empty()
    } else {
        groups_rows(state, weights, (n - 1) as nat) + group_rows(
            state,
            state.cleaning_groups@[n - 1],
            text_in(weights, n - 1),
        )
    }
}

/// Writes the lines about slots.
fn list_slots(slots: &Vec<CleaningSlot>) -> (r: Vec<String>)
    ensures
        views(r@) == slot_rows(slots@),
{
    let ghost rows = slot_rows(slots@);
    let mut r: Vec<String> = Vec::new();
    let mut i: usize = 0;
    assert(views(r@) =~= rows.take(0));
    while i < slots.len()
        invariant
            i <= slots.len(),
            rows == slot_rows(slots@),
            views(r@) == rows.take(i as int),
        decreases slots.len() - i,
    {
        let rooms = if slots[i].room_names.len() == 0 {
            "(no rooms)".to_owned()
        } else {
            join_texts(&slots[i].room_names, ", ")
        };
        let row = "    slot «".to_owned().concat(slots[i].name.as_str()).concat("»: ").concat(
            rooms.as_str(),
        );
        assert(rows.take(i + 1) =~= rows.take(i as int).push(row@));
        put_text(&mut r, row);
        i += 1;
    }
    assert(rows.take(i as int) =~= rows);
    r
}

/// Writes the lines about a group.
fn list_group(state: &State, g: &CleaningGroup, weight: &Option<String>) -> (r: Vec<String>)
    ensures
        views(r@) == group_rows(
            *state,
            *g,
            match *weight {
                Some(t) => Some(t@),
                None => None,
            },
        ),
{
    let n = state.members_of(g).len();
    let mut r: Vec<String> = Vec::new();
    assert(views(r@) =~= Seq::<Seq<char>>::empty());
    put_text(
        &mut r,
        "  ".to_owned().concat(g.name.as_str()).concat(" (").concat(show(n as u64).as_str()).concat(
            " members): ",
        ).concat(show_member_names(state, g).as_str()),
    );
    if g.room_names.len() > 0 {
        put_text(
            &mut r,
            "    rooms: ".to_owned().concat(join_texts(&g.room_names, ", ").as_str()),
        );
    }
    put_texts(&mut r, &list_slots(&g.slots));
    match weight {
        Some(w) => {
            put_text(&mut r, "    weight: ".to_owned().concat(w.as_str()).concat("×"));
        },
        None => {},
    }
    assert(views(r@) =~= group_rows(
        *state,
        *g,
        match *weight {
            Some(t) => Some(t@),
            None => None,
        },
    ));
    r
}

/// Writes the lines about all groups.
fn list_groups(state: &State, weights: &Vec<Option<String>>) -> (r: Vec<String>)
    ensures
        views(r@) == groups_rows(*state, weights@, state.cleaning_groups@.len()),
{
    let all = &state.cleaning_groups;
    let mut r: Vec<String> = Vec::new();
    let mut i: usize = 0;
    assert(views(r@) =~= Seq::<Seq<char>>::empty());
    while i < all.len()
        invariant
            i <= all.len(),
            all == &state.cleaning_groups,
            views(r@) == groups_rows(*state, weights@, i as nat),
        decreases all.len() - i,
    {
        let rows = if i < weights.len() {
            list_group(state, &all[i], &weights[i])
        } else {
            list_group(state, &all[i], &None)
        };
        put_texts(&mut r, &rows);
        i += 1;
    }
    r
}

// ── Marks ────────────────────────────────────────────────────────────────────

/// A mark in a list.
#[derive(Clone, Copy, Debug)]
pub struct Mark {
    pub at: Timestamp,
    pub place: usize,
}

impl Ranked for Mark {
    /// The latest comes first.
    open spec fn before(self, other: Self) -> bool {
        after(self.at, other.at)
    }

    proof fn ranks(a: Self, b: Self, c: Self) {
    }

    fn is_before(&self, other: &Self) -> (r: bool) {
        is_after(self.at, other.at)
    }
}

/// A mark that excuses.
pub open spec fn is_skip() -> spec_fn(Completion) -> bool {
    |c: Completion| c.skipped
}

/// The cleanings among marks.
pub open spec fn cleanings(marks: Seq<Completion>) -> Seq<Mark>
    decreases marks.len(),
{
    if marks.len() == 0 {
        Seq::empty()
    } else {
        let r = cleanings(marks.drop_last());
        if marks.last().skipped {
            r
        } else {
            r.push(Mark { at: marks.last().completed_at, place: (marks.len() - 1) as usize })
        }
    }
}

/// Whether all marks stand in a list.
pub open spec fn within(marks: Seq<Mark>, n: nat) -> bool {
    forall|i: int| 0 <= i < marks.len() ==> (#[trigger] marks[i]).place < n
}

/// How many cleanings are listed.
pub const CLEANINGS_SHOWN: usize = 8;

/// The line about a cleaning.
pub open spec fn mark_row(state: State, m: Mark) -> Seq<char> {
    let c = state.completions@[m.place as int];
    "  "@ + week_mark(c.iso_year as int, c.iso_week as int) + "  "@ + filled(
        known_group(state, c.group_id@),
        20,
    ) + "  by "@ + known_person(state, c.completed_by_id@)
}

/// How many of a list are shown.
pub open spec fn shown(len: nat, most: usize) -> nat {
    if len < most {
        len
    } else {
        most as nat
    }
}

/// That a list goes on.
pub open spec fn more_rows(len: nat, most: usize) -> Seq<Seq<char>> {
    if len > most {
        seq!["  … ("@ + decimal((len - most) as nat) + " more)"@]
    } else {
        Seq::empty()
    }
}

/// The lines about cleanings.
pub open spec fn mark_rows(state: State, marks: Seq<Mark>) -> Seq<Seq<char>> {
    Seq::new(shown(marks.len(), CLEANINGS_SHOWN), |i: int| mark_row(state, marks[i])) + more_rows(
        marks.len(),
        CLEANINGS_SHOWN,
    )
}

/// Lists the cleanings, the latest first.
fn list_cleanings(state: &State) -> (r: Vec<Mark>)
    ensures
        r@ == sorted(cleanings(state.completions@)),
        within(r@, state.completions@.len()),
{
    let all = &state.completions;
    let mut list: Vec<Mark> = Vec::new();
    let mut i: usize = 0;
    assert(all@.take(0) =~= Seq::<Completion>::empty());
    while i < all.len()
        invariant
            i <= all.len(),
            all == &state.completions,
            list@ == cleanings(all@.take(i as int)),
            within(list@, all@.len()),
        decreases all.len() - i,
    {
        proof {
            assert(all@.take(i + 1).drop_last() =~= all@.take(i as int));
            assert(all@.take(i + 1).last() == all@[i as int]);
        }
        if !all[i].skipped {
            list.push(Mark { at: all[i].completed_at, place: i });
        }
        i += 1;
    }
    assert(all@.take(i as int) =~= all@);
    let ghost before = list@;
    let r = sort(list);
    proof {
        lemma_sorted(before);
        assert forall|k: int| 0 <= k < r@.len() implies (#[trigger] r@[k]).place
            < state.completions@.len() by {
            vstd::seq_lib::to_multiset_contains(r@, r@[k]);
            vstd::seq_lib::to_multiset_contains(before, r@[k]);
        }
    }
    r
}

/// Says that a list goes on.
fn put_more(r: &mut Vec<String>, len: usize, most: usize)
    ensures
        views(final(r)@) == views(old(r)@) + more_rows(len as nat, most),
{
    if len > most {
        put_text(r, "  … (".to_owned().concat(show((len - most) as u64).as_str()).concat(" more)"));
    }
    assert(views(r@) =~= views(old(r)@) + more_rows(len as nat, most));
}

/// Writes the lines about cleanings.
fn list_marks(state: &State, marks: &Vec<Mark>) -> (r: Vec<String>)
    requires
        within(marks@, state.completions@.len()),
    ensures
        views(r@) == mark_rows(*state, marks@),
{
    let ghost rows = Seq::new(
        shown(marks@.len(), CLEANINGS_SHOWN),
        |i: int| mark_row(*state, marks@[i]),
    );
    let mut r: Vec<String> = Vec::new();
    let mut i: usize = 0;
    assert(views(r@) =~= rows.take(0));
    while i < marks.len() && i < CLEANINGS_SHOWN
        invariant
            i <= marks.len(),
            i <= CLEANINGS_SHOWN,
            within(marks@, state.completions@.len()),
            rows == Seq::new(
                shown(marks@.len(), CLEANINGS_SHOWN),
                |i: int| mark_row(*state, marks@[i]),
            ),
            views(r@) == rows.take(i as int),
        decreases marks.len() - i,
    {
        let c = &state.completions[marks[i].place];
        let row = "  ".to_owned().concat(show_mark(c.iso_year, c.iso_week).as_str()).concat(
            "  ",
        ).concat(fill(show_group(state, c.group_id.as_str()).as_str(), 20).as_str()).concat(
            "  by ",
        ).concat(show_person(state, c.completed_by_id.as_str()).as_str());
        assert(rows.take(i + 1) =~= rows.take(i as int).push(row@));
        put_text(&mut r, row);
        i += 1;
    }
    assert(rows.take(i as int) =~= rows);
    put_more(&mut r, marks.len(), CLEANINGS_SHOWN);
    r
}

// ── What is ahead ────────────────────────────────────────────────────────────

/// An assignment ahead in a list.
#[derive(Clone, Copy, Debug)]
pub struct Ahead {
    pub year: i32,
    pub week: u32,
    pub slot: usize,
    pub place: usize,
}

impl Ranked for Ahead {
    /// In the order of weeks, and of slots within one.
    open spec fn before(self, other: Self) -> bool {
        self.year < other.year || (self.year == other.year && (self.week < other.week || (self.week
            == other.week && self.slot < other.slot)))
    }

    proof fn ranks(a: Self, b: Self, c: Self) {
    }

    fn is_before(&self, other: &Self) -> (r: bool) {
        self.year < other.year || (self.year == other.year && (self.week < other.week || (self.week
            == other.week && self.slot < other.slot)))
    }
}

/// Whether an assignment is for a week or one after it.
pub open spec fn is_ahead(a: SlotAssignment, week: (i32, u32)) -> bool {
    a.iso_year > week.0 || (a.iso_year == week.0 && a.iso_week >= week.1)
}

/// The assignments for a week and those after it.
pub open spec fn ahead_of(list: Seq<SlotAssignment>, week: (i32, u32)) -> Seq<Ahead>
    decreases list.len(),
{
    if list.len() == 0 {
        Seq::empty()
    } else {
        let r = ahead_of(list.drop_last(), week);
        let a = list.last();
        if is_ahead(a, week) {
            r.push(
                Ahead {
                    year: a.iso_year,
                    week: a.iso_week,
                    slot: a.slot_index,
                    place: (list.len() - 1) as usize,
                },
            )
        } else {
            r
        }
    }
}

/// Whether all of these stand in a list.
pub open spec fn placed_in(list: Seq<Ahead>, n: nat) -> bool {
    forall|i: int| 0 <= i < list.len() ==> (#[trigger] list[i]).place < n
}

/// How many assignments are listed.
pub const AHEAD_SHOWN: usize = 10;

/// The slot of an assignment, behind a slash.
pub open spec fn slot_part(state: State, a: SlotAssignment) -> Seq<char> {
    match state.group(a.group_id@) {
        Some(g) => if a.slot_index < g.slots@.len() {
            " / "@ + g.slots@[a.slot_index as int].name@
        } else {
            ""@
        },
        None => ""@,
    }
}

/// Who is assigned.
pub open spec fn assigned_name(state: State, a: SlotAssignment) -> Seq<char> {
    match a.person_id {
        Some(id) => match state.person(id@) {
            Some(p) => p.display_name@,
            None => "(nobody)"@,
        },
        None => "(nobody)"@,
    }
}

/// The line about an assignment.
pub open spec fn ahead_row(state: State, x: Ahead, week: (i32, u32)) -> Seq<char> {
    let a = state.slot_assignments@[x.place as int];
    "  "@ + week_mark(a.iso_year as int, a.iso_week as int) + "  "@ + known_group(state, a.group_id@)
        + filled(slot_part(state, a), 28) + " → "@ + assigned_name(state, a) + (if (
        a.iso_year,
        a.iso_week,
    ) == week {
        " ← THIS WEEK"@
    } else {
        ""@
    })
}

/// The lines about assignments.
pub open spec fn ahead_rows(state: State, list: Seq<Ahead>, week: (i32, u32)) -> Seq<Seq<char>> {
    Seq::new(shown(list.len(), AHEAD_SHOWN), |i: int| ahead_row(state, list[i], week)) + more_rows(
        list.len(),
        AHEAD_SHOWN,
    )
}

/// Lists the assignments for a week and those after it, in order.
fn list_ahead(state: &State, week: (i32, u32)) -> (r: Vec<Ahead>)
    ensures
        r@ == sorted(ahead_of(state.slot_assignments@, week)),
        placed_in(r@, state.slot_assignments@.len()),
{
    let all = &state.slot_assignments;
    let mut list: Vec<Ahead> = Vec::new();
    let mut i: usize = 0;
    assert(all@.take(0) =~= Seq::<SlotAssignment>::empty());
    while i < all.len()
        invariant
            i <= all.len(),
            all == &state.slot_assignments,
            list@ == ahead_of(all@.take(i as int), week),
            placed_in(list@, all@.len()),
        decreases all.len() - i,
    {
        proof {
            assert(all@.take(i + 1).drop_last() =~= all@.take(i as int));
            assert(all@.take(i + 1).last() == all@[i as int]);
        }
        let a = &all[i];
        if a.iso_year > week.0 || (a.iso_year == week.0 && a.iso_week >= week.1) {
            list.push(Ahead { year: a.iso_year, week: a.iso_week, slot: a.slot_index, place: i });
        }
        i += 1;
    }
    assert(all@.take(i as int) =~= all@);
    let ghost before = list@;
    let r = sort(list);
    proof {
        lemma_sorted(before);
        assert forall|k: int| 0 <= k < r@.len() implies (#[trigger] r@[k]).place
            < state.slot_assignments@.len() by {
            vstd::seq_lib::to_multiset_contains(r@, r@[k]);
            vstd::seq_lib::to_multiset_contains(before, r@[k]);
        }
    }
    r
}

/// Writes the line about an assignment.
fn show_ahead(state: &State, x: &Ahead, week: (i32, u32)) -> (r: String)
    requires
        x.place < state.slot_assignments@.len(),
    ensures
        r@ == ahead_row(*state, *x, week),
{
    let a = &state.slot_assignments[x.place];
    let slot = match state.group_by_id(a.group_id.as_str()) {
        Some(g) => if a.slot_index < g.slots.len() {
            " / ".to_owned().concat(g.slots[a.slot_index].name.as_str())
        } else {
            "".to_owned()
        },
        None => "".to_owned(),
    };
    let who = match &a.person_id {
        Some(id) => match state.person_by_id(id.as_str()) {
            Some(p) => p.display_name.clone(),
            None => "(nobody)".to_owned(),
        },
        None => "(nobody)".to_owned(),
    };
    let tag: &str = if a.iso_year == week.0 && a.iso_week == week.1 {
        " ← THIS WEEK"
    } else {
        ""
    };
    "  ".to_owned().concat(show_mark(a.iso_year, a.iso_week).as_str()).concat("  ").concat(
        show_group(state, a.group_id.as_str()).as_str(),
    ).concat(fill(slot.as_str(), 28).as_str()).concat(" → ").concat(who.as_str()).concat(tag)
}

/// Writes the lines about assignments.
fn list_ahead_rows(state: &State, list: &Vec<Ahead>, week: (i32, u32)) -> (r: Vec<String>)
    requires
        placed_in(list@, state.slot_assignments@.len()),
    ensures
        views(r@) == ahead_rows(*state, list@, week),
{
    let ghost rows = Seq::new(
        shown(list@.len(), AHEAD_SHOWN),
        |i: int| ahead_row(*state, list@[i], week),
    );
    let mut r: Vec<String> = Vec::new();
    let mut i: usize = 0;
    assert(views(r@) =~= rows.take(0));
    while i < list.len() && i < AHEAD_SHOWN
        invariant
            i <= list.len(),
            i <= AHEAD_SHOWN,
            placed_in(list@, state.slot_assignments@.len()),
            rows == Seq::new(
                shown(list@.len(), AHEAD_SHOWN),
                |i: int| ahead_row(*state, list@[i], week),
            ),
            views(r@) == rows.take(i as int),
        decreases list.len() - i,
    {
        let row = show_ahead(state, &list[i], week);
        assert(rows.take(i + 1) =~= rows.take(i as int).push(row@));
        put_text(&mut r, row);
        i += 1;
    }
    assert(rows.take(i as int) =~= rows);
    put_more(&mut r, list.len(), AHEAD_SHOWN);
    r
}

// ── Swaps and absences ───────────────────────────────────────────────────────

/// The line about a swap that waits for an answer.
pub open spec fn swap_row(state: State) -> spec_fn(SwapRequest) -> Option<Seq<char>> {
    |s: SwapRequest|
        if s.status == SwapStatus::Pending {
            Some(
                "  #"@ + decimal(s.id as nat) + " "@ + known_group(state, s.group_id@) + " "@
                    + week_mark(s.iso_year as int, s.iso_week as int) + "  "@ + s.requester@ + " → "@
                    + s.target@,
            )
        } else {
            None
        }
}

/// Writes the lines about swaps that wait for an answer.
fn list_swaps(state: &State) -> (r: Vec<String>)
    ensures
        views(r@) == filter_map(state.swap_requests@, swap_row(*state)),
{
    let all = &state.swap_requests;
    let ghost f = swap_row(*state);
    let mut r: Vec<String> = Vec::new();
    let mut i: usize = 0;
    proof {
        assert(views(r@) =~= Seq::<Seq<char>>::empty());
        assert(all@.take(0) =~= Seq::<SwapRequest>::empty());
    }
    while i < all.len()
        invariant
            i <= all.len(),
            all == &state.swap_requests,
            f == swap_row(*state),
            views(r@) == filter_map(all@.take(i as int), f),
        decreases all.len() - i,
    {
        proof {
            lemma_filter_map_step(all@, f, i as int);
        }
        let s = &all[i];
        if s.status == SwapStatus::Pending {
            put_text(
                &mut r,
                "  #".to_owned().concat(show(s.id).as_str()).concat(" ").concat(
                    show_group(state, s.group_id.as_str()).as_str(),
                ).concat(" ").concat(show_mark(s.iso_year, s.iso_week).as_str()).concat(
                    "  ",
                ).concat(s.requester.as_str()).concat(" → ").concat(s.target.as_str()),
            );
        }
        i += 1;
    }
    assert(all@.take(i as int) =~= all@);
    r
}

/// The line about an absence.
pub open spec fn absence_row(state: State, a: Absence) -> Seq<char> {
    "  "@ + known_person(state, a.person_id@) + " in "@ + known_group(state, a.group_id@)
        + ": from "@ + week_mark(a.from_year as int, a.from_week as int) + " for "@ + decimal(
        a.duration_weeks as nat,
    ) + " weeks"@
}

/// The lines about absences.
pub open spec fn absence_rows(state: State) -> Seq<Seq<char>> {
    state.absences@.map_values(|a: Absence| absence_row(state, a))
}

/// Writes the lines about absences.
fn list_absences(state: &State) -> (r: Vec<String>)
    ensures
        views(r@) == absence_rows(*state),
{
    let all = &state.absences;
    let ghost rows = absence_rows(*state);
    let mut r: Vec<String> = Vec::new();
    let mut i: usize = 0;
    assert(views(r@) =~= rows.take(0));
    while i < all.len()
        invariant
            i <= all.len(),
            all == &state.absences,
            rows == absence_rows(*state),
            views(r@) == rows.take(i as int),
        decreases all.len() - i,
    {
        let a = &all[i];
        let row = "  ".to_owned().concat(
            show_person(state, a.person_id.as_str()).as_str(),
        ).concat(" in ").concat(show_group(state, a.group_id.as_str()).as_str()).concat(
            ": from ",
        ).concat(show_mark(a.from_year, a.from_week).as_str()).concat(" for ").concat(
            show(a.duration_weeks as u64).as_str(),
        ).concat(" weeks");
        assert(rows.take(i + 1) =~= rows.take(i as int).push(row@));
        put_text(&mut r, row);
        i += 1;
    }
    assert(rows.take(i as int) =~= rows);
    r
}

// ── Persons without a place ──────────────────────────────────────────────────

/// The line about a person who is inactive or in no group.
pub open spec fn stub_row(state: State) -> spec_fn(Person) -> Option<Seq<char>> {
    |p: Person|
        if p.active && state.groups_of(p.id@).len() > 0 {
            None
        } else {
            Some(
                "  "@ + p.display_name@ + " ("@ + (match p.matrix_id {
                    Some(m) => m@,
                    None => "no mxid"@,
                }) + ") — "@ + (if p.active {
                    "no group"@
                } else {
                    "INACTIVE"@
                }),
            )
        }
}

/// Writes the lines about persons who are inactive or in no group.
fn list_stubs(state: &State) -> (r: Vec<String>)
    ensures
        views(r@) == filter_map(state.persons@, stub_row(*state)),
{
    let all = &state.persons;
    let ghost f = stub_row(*state);
    let mut r: Vec<String> = Vec::new();
    let mut i: usize = 0;
    proof {
        assert(views(r@) =~= Seq::<Seq<char>>::empty());
        assert(all@.take(0) =~= Seq::<Person>::empty());
    }
    while i < all.len()
        invariant
            i <= all.len(),
            all == &state.persons,
            f == stub_row(*state),
            views(r@) == filter_map(all@.take(i as int), f),
        decreases all.len() - i,
    {
        proof {
            lemma_filter_map_step(all@, f, i as int);
        }
        let p = &all[i];
        if !p.active || state.groups_for_person(p.id.as_str()).len() == 0 {
            let mxid: &str = match &p.matrix_id {
                Some(m) => m.as_str(),
                None => "no mxid",
            };
            let reason: &str = if p.active {
                "no group"
            } else {
                "INACTIVE"
            };
            put_text(
                &mut r,
                "  ".to_owned().concat(p.display_name.as_str()).concat(" (").concat(mxid).concat(
                    ") — ",
                ).concat(reason),
            );
        }
        i += 1;
    }
    assert(all@.take(i as int) =~= all@);
    r
}

// ── Counts ───────────────────────────────────────────────────────────────────

/// A mark of a group that excuses or does not.
pub open spec fn mark_in(group_id: Seq<char>, skipped: bool) -> spec_fn(Completion) -> bool {
    |c: Completion| c.group_id@ == group_id && c.skipped == skipped
}

/// The line about how often a group was cleaned.
pub open spec fn count_row(state: State, g: CleaningGroup) -> Seq<char> {
    "    "@ + g.name@ + ": "@ + decimal(count(state.completions@, mark_in(g.id@, false)))
        + " done, "@ + decimal(count(state.completions@, mark_in(g.id@, true))) + " skipped"@
}

/// The lines about how often groups were cleaned.
pub open spec fn count_rows(state: State) -> Seq<Seq<char>> {
    state.cleaning_groups@.map_values(|g: CleaningGroup| count_row(state, g))
}

/// Counts the marks of a group that excuse or do not.
fn count_marks(state: &State, group_id: &str, skipped: bool) -> (r: usize)
    ensures
        r == count(state.completions@, mark_in(group_id@, skipped)),
{
    let test = |c: &Completion| -> (b: bool)
        ensures
            b == (c.group_id@ == group_id@ && c.skipped == skipped),
        { c.skipped == skipped && same_text(c.group_id.as_str(), group_id) };
    count_where(&state.completions, test, Ghost(mark_in(group_id@, skipped)))
}

/// Writes the lines about how often groups were cleaned.
fn list_counts(state: &State) -> (r: Vec<String>)
    ensures
        views(r@) == count_rows(*state),
{
    let all = &state.cleaning_groups;
    let ghost rows = count_rows(*state);
    let mut r: Vec<String> = Vec::new();
    let mut i: usize = 0;
    assert(views(r@) =~= rows.take(0));
    while i < all.len()
        invariant
            i <= all.len(),
            all == &state.cleaning_groups,
            rows == count_rows(*state),
            views(r@) == rows.take(i as int),
        decreases all.len() - i,
    {
        let done = count_marks(state, all[i].id.as_str(), false);
        let skipped = count_marks(state, all[i].id.as_str(), true);
        let row = "    ".to_owned().concat(all[i].name.as_str()).concat(": ").concat(
            show(done as u64).as_str(),
        ).concat(" done, ").concat(show(skipped as u64).as_str()).concat(" skipped");
        assert(rows.take(i + 1) =~= rows.take(i as int).push(row@));
        put_text(&mut r, row);
        i += 1;
    }
    assert(rows.take(i as int) =~= rows);
    r
}

// ── The whole ────────────────────────────────────────────────────────────────

/// What was found wrong, a line each.
pub open spec fn finding_rows(errors: Seq<Seq<char>>, warnings: Seq<Seq<char>>) -> Seq<Seq<char>> {
    if errors.len() == 0 && warnings.len() == 0 {
        seq!["  ✅ No issues found."@]
    } else {
        errors.map_values(|t: Seq<char>| "  ❌ "@ + t) + warnings.map_values(
            |t: Seq<char>| "  ⚠️  "@ + t,
        )
    }
}

/// Lines under a title, and an empty one after them; nothing where there are none.
pub open spec fn section(title: Seq<char>, rows: Seq<Seq<char>>) -> Seq<Seq<char>> {
    if rows.len() == 0 {
        Seq::empty()
    } else {
        seq![title] + rows + seq![""@]
    }
}

/// When a state was made and changed, as far as it is known.
pub open spec fn time_rows(created: Option<Seq<char>>, modified: Option<Seq<char>>) -> Seq<
    Seq<char>,
> {
    (match created {
        Some(t) => seq!["Created:       "@ + t],
        None => Seq::empty(),
    }) + (match modified {
        Some(t) => seq!["Last modified: "@ + t],
        None => Seq::empty(),
    })
}

/// The text of an option.
pub open spec fn text_of_option(t: Option<String>) -> Option<Seq<char>> {
    match t {
        Some(t) => Some(t@),
        None => None,
    }
}

/// The lines that describe persons and groups.
pub open spec fn people_part(state: State, weights: Seq<Option<String>>) -> Seq<Seq<char>> {
    seq![
        "── Persons ("@ + decimal(state.persons@.len())
            + ") ──────────────────────────────"@,
    ] + person_rows(state) + seq![
        ""@,
        "── Groups ("@ + decimal(state.cleaning_groups@.len())
            + ") ───────────────────────────────"@,
    ] + groups_rows(state, weights, state.cleaning_groups@.len()) + seq![""@]
}

/// The lines that describe what was done and what is ahead.
pub open spec fn plan_part(state: State, week: (i32, u32)) -> Seq<Seq<char>> {
    let done = sorted(cleanings(state.completions@));
    seq![
        "── Completions: "@ + decimal(done.len()) + " done, "@ + decimal(
            count(state.completions@, is_skip()),
        ) + " skipped ─────────"@,
    ] + mark_rows(state, done) + seq![
        ""@,
        "── Future schedule (next 10 assignments) ────"@,
    ] + ahead_rows(state, sorted(ahead_of(state.slot_assignments@, week)), week) + seq![""@]
}

/// The lines that describe what is open or out of place.
pub open spec fn loose_part(state: State) -> Seq<Seq<char>> {
    let swaps = filter_map(state.swap_requests@, swap_row(state));
    let stubs = filter_map(state.persons@, stub_row(state));
    section(
        "── Pending swaps ("@ + decimal(swaps.len()) + ") ─────────────────────"@,
        swaps,
    ) + section(
        "── Absences ("@ + decimal(state.absences@.len())
            + ") ─────────────────────────"@,
        absence_rows(state),
    ) + section(
        "── Stubs / ungrouped persons ("@ + decimal(stubs.len()) + ") ──────────"@,
        stubs,
    )
}

/// The lines that say whether a state is sound.
pub open spec fn check_part(state: State) -> Seq<Seq<char>> {
    seq![
        "── Validation ────────────────────────────────"@,
        "  Completion counts per group:"@,
    ] + count_rows(state) + seq![""@] + finding_rows(state_errors(state), state_warnings(state))
}

/// The line above and below the title.
pub const BAR: &'static str = "═══════════════════════════════════════════════";

/// A whole state in words: where it comes from, its times, its parts.
pub open spec fn state_text(
    state: State,
    week: (i32, u32),
    source: Seq<char>,
    created: Option<Seq<char>>,
    modified: Option<Seq<char>>,
    weights: Seq<Option<String>>,
) -> Seq<char> {
    join(
        seq![BAR@, "  cleaning-bot state: "@ + source, BAR@, ""@] + time_rows(created, modified)
            + seq![""@] + people_part(state, weights) + plan_part(state, week) + loose_part(state)
            + check_part(state),
        "\n"@,
    )
}

/// Writes lines under a title.
fn put_section(r: &mut Vec<String>, title: &str, end: &str, rows: &Vec<String>)
    ensures
        views(final(r)@) == views(old(r)@) + section(
            title@ + decimal(rows@.len()) + end@,
            views(rows@),
        ),
{
    if rows.len() > 0 {
        put_text(r, title.to_owned().concat(show(rows.len() as u64).as_str()).concat(end));
        put_texts(r, rows);
        put_text(r, "".to_owned());
    }
    assert(views(r@) =~= views(old(r)@) + section(
        title@ + decimal(rows@.len()) + end@,
        views(rows@),
    ));
}

/// Writes the lines about persons and groups.
fn put_people(r: &mut Vec<String>, state: &State, weights: &Vec<Option<String>>)
    ensures
        views(final(r)@) == views(old(r)@) + people_part(*state, weights@),
{
    put_text(
        r,
        "── Persons (".to_owned().concat(show(state.persons.len() as u64).as_str()).concat(
            ") ──────────────────────────────",
        ),
    );
    put_texts(r, &list_persons(state));
    put_text(r, "".to_owned());
    put_text(
        r,
        "── Groups (".to_owned().concat(show(state.cleaning_groups.len() as u64).as_str()).concat(
            ") ───────────────────────────────",
        ),
    );
    put_texts(r, &list_groups(state, weights));
    put_text(r, "".to_owned());
    assert(views(r@) =~= views(old(r)@) + people_part(*state, weights@));
}

/// Writes the lines about what was done and what is ahead.
fn put_plan(r: &mut Vec<String>, state: &State, week: (i32, u32))
    ensures
        views(final(r)@) == views(old(r)@) + plan_part(*state, week),
{
    let done = list_cleanings(state);
    let test = |c: &Completion| -> (b: bool)
        ensures
            b == c.skipped,
        { c.skipped };
    let skipped = count_where(&state.completions, test, Ghost(is_skip()));
    put_text(
        r,
        "── Completions: ".to_owned().concat(show(done.len() as u64).as_str()).concat(
            " done, ",
        ).concat(show(skipped as u64).as_str()).concat(" skipped ─────────"),
    );
    put_texts(r, &list_marks(state, &done));
    put_text(r, "".to_owned());
    put_text(r, "── Future schedule (next 10 assignments) ────".to_owned());
    let ahead = list_ahead(state, week);
    put_texts(r, &list_ahead_rows(state, &ahead, week));
    put_text(r, "".to_owned());
    assert(views(r@) =~= views(old(r)@) + plan_part(*state, week));
}

/// Writes the lines about what is open or out of place.
fn put_loose(r: &mut Vec<String>, state: &State)
    ensures
        views(final(r)@) == views(old(r)@) + loose_part(*state),
{
    let swaps = list_swaps(state);
    put_section(r, "── Pending swaps (", ") ─────────────────────", &swaps);
    let away = list_absences(state);
    put_section(r, "── Absences (", ") ─────────────────────────", &away);
    let stubs = list_stubs(state);
    put_section(r, "── Stubs / ungrouped persons (", ") ──────────", &stubs);
    assert(views(r@) =~= views(old(r)@) + loose_part(*state));
}

/// Writes texts with a sign before each.
fn put_signed(r: &mut Vec<String>, sign: &str, texts: &Vec<String>)
    ensures
        views(final(r)@) == views(old(r)@) + views(texts@).map_values(|t: Seq<char>| sign@ + t),
{
    let ghost head = views(r@);
    let ghost rows = views(texts@).map_values(|t: Seq<char>| sign@ + t);
    let mut i: usize = 0;
    assert(views(r@) =~= head + rows.take(0));
    while i < texts.len()
        invariant
            i <= texts.len(),
            rows == views(texts@).map_values(|t: Seq<char>| sign@ + t),
            views(r@) == head + rows.take(i as int),
        decreases texts.len() - i,
    {
        let row = sign.to_owned().concat(texts[i].as_str());
        assert(head + rows.take(i + 1) =~= (head + rows.take(i as int)).push(row@));
        put_text(r, row);
        i += 1;
    }
    assert(rows.take(i as int) =~= rows);
}

/// Writes the lines that say whether a state is sound.
fn put_check(r: &mut Vec<String>, state: &State)
    ensures
        views(final(r)@) == views(old(r)@) + check_part(*state),
{
    put_text(r, "── Validation ────────────────────────────────".to_owned());
    put_text(r, "  Completion counts per group:".to_owned());
    put_texts(r, &list_counts(state));
    put_text(r, "".to_owned());
    let found = validate_state(state);
    if found.errors.len() == 0 && found.warnings.len() == 0 {
        put_text(r, "  ✅ No issues found.".to_owned());
    } else {
        put_signed(r, "  ❌ ", &found.errors);
        put_signed(r, "  ⚠️  ", &found.warnings);
    }
    assert(views(r@) =~= views(old(r)@) + check_part(*state));
}

/// Describes a whole state; the weights of groups are given in words where they are not neutral.
pub fn describe_state(
    state: &State,
    today: Date,
    source: &str,
    created: &Option<String>,
    modified: &Option<String>,
    weights: &Vec<Option<String>>,
) -> (r: String)
    requires
        is_today(today.day as int),
    ensures
        r@ == state_text(
            *state,
            this_week(today),
            source@,
            text_of_option(*created),
            text_of_option(*modified),
            weights@,
        ),
{
    proof {
        lemma_today(today.day as int);
    }
    let week = week_of(today);
    let mut r: Vec<String> = Vec::new();
    assert(views(r@) =~= Seq::<Seq<char>>::empty());
    put_text(&mut r, BAR.to_owned());
    put_text(&mut r, "  cleaning-bot state: ".to_owned().concat(source));
    put_text(&mut r, BAR.to_owned());
    put_text(&mut r, "".to_owned());
    match created {
        Some(t) => {
            put_text(&mut r, "Created:       ".to_owned().concat(t.as_str()));
        },
        None => {},
    }
    match modified {
        Some(t) => {
            put_text(&mut r, "Last modified: ".to_owned().concat(t.as_str()));
        },
        None => {},
    }
    put_text(&mut r, "".to_owned());
    assert(views(r@) =~= seq![BAR@, "  cleaning-bot state: "@ + source@, BAR@, ""@] + time_rows(
        text_of_option(*created),
        text_of_option(*modified),
    ) + seq![""@]);
    put_people(&mut r, state, weights);
    put_plan(&mut r, state, week);
    put_loose(&mut r, state);
    put_check(&mut r, state);
    join_texts(&r, "\n")
}

} // verus!
