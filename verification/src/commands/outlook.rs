//! What comes next for somebody, and reminding them of it.

use vstd::prelude::*;

use crate::analytics::turn_of;
use crate::calendar::{is_year, weeks_apart, weeks_between, Date};
use crate::commands::base::{
    answered, current_week, meant_turn, show_week, slot_ending, slot_suffix, turn_meant, week_label,
    Answer, CommandError, Request,
};
use crate::commands::done::{
    is_finished, list_line, name_finished, shift_note, show_shift, task_names,
};
use crate::commands::tasks::{all_own, list_all_own};
use crate::domain::{CleaningGroup, Person, SlotAssignment};
use crate::lists::{filter_map, lemma_filter, lemma_filter_map_step, lemma_filter_step};
use crate::planning::{is_known, known, this_week, turn_fits};
use crate::rhythm::Turn;
use crate::scheduler::{mention_list, slot_mxid, tidy_mentions};
use crate::state::State;
use crate::text::{
    decimal, is_same_name, join, join_texts, lemma_views_push, option_is, replace_char, replaced,
    same_name, show, show_signed, signed_decimal, views,
};

verus! {

/// Whether a week comes before another.
pub open spec fn before_week(a: (i32, u32), b: (i32, u32)) -> bool {
    a.0 < b.0 || (a.0 == b.0 && a.1 < b.1)
}

/// The week of an assignment.
pub open spec fn week_in(a: SlotAssignment) -> (i32, u32) {
    (a.iso_year, a.iso_week)
}

/// A turn that is frozen for somebody, is not over with an earlier week, and is not done.
pub open spec fn coming(state: State, person_id: Seq<char>, today: Date) -> spec_fn(
    SlotAssignment,
) -> bool {
    |a: SlotAssignment|
        {
            &&& a.person_id is Some
            &&& a.person_id->0@ == person_id
            &&& !before_week(week_in(a), this_week(today))
            &&& state.group(a.group_id@) is Some
            &&& !state.slot_done(state.group(a.group_id@)->0, a.slot_index as int, turn_of(a))
        }
}

/// The first week of assignments.
pub open spec fn first_week(s: Seq<SlotAssignment>) -> (i32, u32)
    decreases s.len(),
{
    if s.len() <= 1 {
        week_in(s[0])
    } else {
        let r = first_week(s.drop_last());
        if before_week(week_in(s.last()), r) {
            week_in(s.last())
        } else {
            r
        }
    }
}

/// An assignment by group, slot and shift, when it is in a week.
pub open spec fn name_in(state: State, week: (i32, u32)) -> spec_fn(SlotAssignment) -> Option<Seq<char>> {
    |a: SlotAssignment|
        if week_in(a) == week {
            let g = state.group(a.group_id@)->0;
            Some(g.name@ + slot_suffix(g, a.slot_index as int, " / "@) + shift_note(g, turn_of(a)))
        } else {
            None
        }
}

/// How far off a week is.
pub open spec fn distance_text(weeks: int) -> Seq<char> {
    if weeks == 0 {
        "this week ⚠️"@
    } else if weeks == 1 {
        "next week"@
    } else {
        "in "@ + signed_decimal(weeks) + " weeks"@
    }
}

/// The line about what comes next for somebody.
pub open spec fn next_line(state: State, p: Person, today: Date) -> Seq<char> {
    let turns = state.slot_assignments@.filter(coming(state, p.id@, today));
    let week = first_week(turns);
    if turns.len() == 0 {
        "📅 Nothing planned for "@ + p.display_name@ + " yet."@
    } else {
        "📅 Next due for "@ + p.display_name@ + ": **Week "@ + week_label(week) + "** ("@
            + distance_text(weeks_apart(this_week(today), week)) + ") · "@ + join(
            filter_map(turns, name_in(state, week)),
            ", "@,
        )
    }
}

/// Whether the days of all assignments of somebody can be represented.
pub open spec fn dated_for(state: State, person_id: Seq<char>) -> bool {
    forall|i: int|
        0 <= i < state.slot_assignments@.len() && state.slot_assignments@[i].person_id is Some
            && state.slot_assignments@[i].person_id->0@ == person_id ==> turn_of(
            #[trigger] state.slot_assignments@[i],
        ).wf()
}

/// Whether the days of all assignments of somebody can be represented.
fn person_dates_fit(state: &State, person_id: &str) -> (r: bool)
    ensures
        r == dated_for(*state, person_id@),
{
    let mut i: usize = 0;
    while i < state.slot_assignments.len()
        invariant
            i <= state.slot_assignments.len(),
            forall|k: int|
                0 <= k < i && state.slot_assignments@[k].person_id is Some
                    && state.slot_assignments@[k].person_id->0@ == person_id@ ==> turn_of(
                    #[trigger] state.slot_assignments@[k],
                ).wf(),
        decreases state.slot_assignments.len() - i,
    {
        let a = &state.slot_assignments[i];
        if option_is(&a.person_id, person_id) && !turn_fits(
            Turn { year: a.iso_year, week: a.iso_week, shift: a.shift },
        ) {
            assert(!turn_of(state.slot_assignments@[i as int]).wf());
            return false;
        }
        i += 1;
    }
    true
}

/// What `!next` says: the next turn of somebody, and what they have done this week.
pub open spec fn next_answer(state: State, req: Request, args: Seq<String>) -> Answer {
    let query = if args.len() > 0 {
        args[0]@
    } else {
        req.sender@
    };
    if !known(state, req.today) {
        Answer::Fails(CommandError::OutOfRange)
    } else {
        match state.person_named(query) {
            None => Answer::Says(query + " is not registered."@),
            Some(p) => if state.groups_of(p.id@).len() == 0 {
                Answer::Says(p.display_name@ + " is not in any cleaning group."@)
            } else if !dated_for(state, p.id@) {
                Answer::Fails(CommandError::OutOfRange)
            } else {
                let own = all_own(
                    state,
                    this_week(req.today),
                    p.id@,
                    None,
                    req.today,
                    state.cleaning_groups@.len(),
                );
                Answer::Says(
                    join(
                        seq![next_line(state, p, req.today)] + list_line(
                            "Already done: "@,
                            task_names(state, own.filter(is_finished(state))),
                        ),
                        "\n"@,
                    ),
                )
            },
        }
    }
}

/// Lists the coming turns of somebody, by place.
fn list_coming(state: &State, person_id: &str, today: Date) -> (r: Vec<usize>)
    requires
        known(*state, today),
    ensures
        forall|i: int| 0 <= i < r@.len() ==> #[trigger] r@[i] < state.slot_assignments@.len(),
        r@.map_values(|k: usize| state.slot_assignments@[k as int])
            == state.slot_assignments@.filter(coming(*state, person_id@, today)),
{
    let ghost p = coming(*state, person_id@, today);
    let all = &state.slot_assignments;
    let now = current_week(today);
    let mut r: Vec<usize> = Vec::new();
    let mut i: usize = 0;
    assert(all@.take(0).filter(p) =~= Seq::<SlotAssignment>::empty()) by {
        reveal(Seq::filter);
    }
    assert(r@.map_values(|k: usize| all@[k as int]) =~= Seq::<SlotAssignment>::empty());
    while i < all.len()
        invariant
            i <= all.len(),
            all == &state.slot_assignments,
            p == coming(*state, person_id@, today),
            now == this_week(today),
            forall|j: int| 0 <= j < r@.len() ==> #[trigger] r@[j] < all@.len(),
            r@.map_values(|k: usize| all@[k as int]) == all@.take(i as int).filter(p),
        decreases all.len() - i,
    {
        proof {
            lemma_filter_step(all@, p, i as int);
        }
        let a = &all[i];
        let wanted: bool = option_is(&a.person_id, person_id) && !(a.iso_year < now.0 || (
        a.iso_year == now.0 && a.iso_week < now.1)) && match state.group_by_id(
            a.group_id.as_str(),
        ) {
            Some(g) => {
                let turn = Turn { year: a.iso_year, week: a.iso_week, shift: a.shift };
                !state.is_turn_slot_done(g, a.slot_index, turn)
            },
            None => false,
        };
        if wanted {
            assert(r@.push(i).map_values(|k: usize| all@[k as int]) =~= r@.map_values(
                |k: usize| all@[k as int],
            ).push(all@[i as int]));
            r.push(i);
        }
        i += 1;
    }
    assert(all@.take(i as int) =~= all@);
    r
}

/// The first week of assignments at places.
pub(crate) fn find_first_week(state: &State, places: &Vec<usize>, Ghost(turns): Ghost<Seq<SlotAssignment>>) -> (r:
    (i32, u32))
    requires
        places@.len() > 0,
        forall|i: int|
            0 <= i < places@.len() ==> #[trigger] places@[i] < state.slot_assignments@.len()
                && turn_of(state.slot_assignments@[places@[i] as int]).wf(),
        turns == places@.map_values(|k: usize| state.slot_assignments@[k as int]),
    ensures
        r == first_week(turns),
        (Turn { year: r.0, week: r.1, shift: 0 }).wf(),
{
    let first = &state.slot_assignments[places[0]];
    let mut week: (i32, u32) = (first.iso_year, first.iso_week);
    let mut i: usize = 1;
    proof {
        assert(turns[0] == state.slot_assignments@[places@[0] as int]);
        assert(turns.take(1).len() == 1);
        assert(turn_of(*first).wf());
    }
    while i < places.len()
        invariant
            1 <= i <= places.len(),
            forall|j: int|
                0 <= j < places@.len() ==> #[trigger] places@[j] < state.slot_assignments@.len()
                    && turn_of(state.slot_assignments@[places@[j] as int]).wf(),
            turns == places@.map_values(|k: usize| state.slot_assignments@[k as int]),
            week == first_week(turns.take(i as int)),
            (Turn { year: week.0, week: week.1, shift: 0 }).wf(),
        decreases places.len() - i,
    {
        proof {
            assert(turns.take(i + 1).drop_last() =~= turns.take(i as int));
            assert(turns.take(i + 1).last() == state.slot_assignments@[places@[i as int] as int]);
            assert(turn_of(
                state.slot_assignments@[places@[i as int] as int],
            ).wf());
        }
        let a = &state.slot_assignments[places[i]];
        if a.iso_year < week.0 || (a.iso_year == week.0 && a.iso_week < week.1) {
            week = (a.iso_year, a.iso_week);
        }
        i += 1;
    }
    assert(turns.take(i as int) =~= turns);
    week
}

/// The line about what comes next for somebody.
fn show_next(state: &State, p: &Person, today: Date) -> (r: String)
    requires
        known(*state, today),
        dated_for(*state, p.id@),
    ensures
        r@ == next_line(*state, *p, today),
{
    let places = list_coming(state, p.id.as_str(), today);
    let ghost turns = state.slot_assignments@.filter(coming(*state, p.id@, today));
    proof {
        assert(turns.len() == places@.len());
        assert forall|i: int| 0 <= i < places@.len() implies turns[i]
            == state.slot_assignments@[#[trigger] places@[i] as int] by {
            assert(places@.map_values(|k: usize| state.slot_assignments@[k as int])[i]
                == state.slot_assignments@[places@[i] as int]);
        }
    }
    if places.len() == 0 {
        return "📅 Nothing planned for ".to_owned().concat(p.display_name.as_str()).concat(
            " yet.",
        );
    }
    proof {
        lemma_filter(state.slot_assignments@, coming(*state, p.id@, today));
        assert forall|i: int| 0 <= i < places@.len() implies turn_of(
            state.slot_assignments@[#[trigger] places@[i] as int],
        ).wf() by {
            assert(coming(*state, p.id@, today)(turns[i]));
        }
    }
    let week = find_first_week(state, &places, Ghost(turns));
    let ghost f = name_in(*state, week);
    let mut names: Vec<String> = Vec::new();
    let mut j: usize = 0;
    proof {
        assert(turns.take(0) =~= Seq::<SlotAssignment>::empty());
        assert(views(names@) =~= Seq::<Seq<char>>::empty());
        lemma_filter(state.slot_assignments@, coming(*state, p.id@, today));
    }
    while j < places.len()
        invariant
            j <= places.len(),
            places@.len() == turns.len(),
            turns == state.slot_assignments@.filter(coming(*state, p.id@, today)),
            forall|k: int| 0 <= k < turns.len() ==> coming(*state, p.id@, today)(#[trigger] turns[k]),
            forall|k: int| 0 <= k < places@.len() ==> #[trigger] places@[k] < state.slot_assignments@.len()
                && turns[k] == state.slot_assignments@[places@[k] as int],
            f == name_in(*state, week),
            views(names@) == filter_map(turns.take(j as int), f),
        decreases places.len() - j,
    {
        proof {
            lemma_filter_map_step(turns, f, j as int);
            assert(coming(*state, p.id@, today)(turns[j as int]));
        }
        let a = &state.slot_assignments[places[j]];
        if a.iso_year == week.0 && a.iso_week == week.1 {
            match state.group_by_id(a.group_id.as_str()) {
                Some(g) => {
                    let turn = Turn { year: a.iso_year, week: a.iso_week, shift: a.shift };
                    let name = g.name.clone().concat(
                        slot_ending(g, a.slot_index, " / ").as_str(),
                    ).concat(show_shift(g, turn).as_str());
                    proof {
                        lemma_views_push(names@, name);
                    }
                    names.push(name);
                },
                None => {
                    assert(false);
                },
            }
        }
        j += 1;
    }
    assert(turns.take(j as int) =~= turns);
    let n = weeks_between(current_week(today), week);
    let when: String = if n == 0 {
        "this week ⚠️".to_owned()
    } else if n == 1 {
        "next week".to_owned()
    } else {
        "in ".to_owned().concat(show_signed(n).as_str()).concat(" weeks")
    };
    "📅 Next due for ".to_owned().concat(p.display_name.as_str()).concat(": **Week ").concat(
        show_week(week).as_str(),
    ).concat("** (").concat(when.as_str()).concat(") · ").concat(join_texts(&names, ", ").as_str())
}

/// Tells the next turn of somebody: of whoever is named, or of whoever asks.
pub fn cmd_next(state: &State, req: &Request, args: &Vec<String>) -> (r: Result<String, CommandError>)
    ensures
        answered(*state, *state, r, next_answer(*state, *req, args@), req.now),
{
    if !is_known(state, req.today) {
        return Err(CommandError::OutOfRange);
    }
    let query: &str = if args.len() > 0 {
        args[0].as_str()
    } else {
        req.sender.as_str()
    };
    let p = match state.find_person(query) {
        Some(p) => p,
        None => {
            return Ok(query.to_owned().concat(" is not registered."));
        },
    };
    if state.groups_for_person(p.id.as_str()).len() == 0 {
        return Ok(p.display_name.clone().concat(" is not in any cleaning group."));
    }
    if !person_dates_fit(state, p.id.as_str()) {
        return Err(CommandError::OutOfRange);
    }
    let own = list_all_own(state, current_week(req.today), p.id.as_str(), &None, req.today);
    let done = name_finished(state, &own, false);
    let mut lines: Vec<String> = Vec::new();
    let line = show_next(state, p, req.today);
    lines.push(line);
    assert(views(lines@) =~= seq![line@]);
    crate::commands::done::add_list_line(&mut lines, "Already done: ", &done);
    Ok(join_texts(&lines, "\n"))
}

// ── !remind ──────────────────────────────────────────────────────────────────

/// A reminder about a group, and whom it mentions.
#[derive(Clone, Debug)]
pub struct ReminderRow {
    pub group_name: String,
    pub text: String,
    pub mxids: Vec<String>,
}

/// Whether `!remind` is about a group: one that is named, or one that is due and not done.
pub open spec fn to_be_reminded(state: State, group: CleaningGroup, today: Date, name: Option<String>) -> bool {
    let week = this_week(today);
    group.is_active && match name {
        Some(n) => same_name(group.name@, n@),
        None => state.due(group, today, week.0 as int, week.1 as int) && !state.week_done(
            group,
            week.0,
            week.1,
        ),
    }
}

/// The Matrix ids of those who are responsible for the first slots of a turn: for the open ones,
/// or for all of them when none is open.
pub open spec fn turn_mxids(state: State, group: CleaningGroup, turn: Turn, today: Date, n: nat) -> Seq<
    String,
>
    decreases n,
{
    if n == 0 {
        Seq::empty()
    } else {
        let r = turn_mxids(state, group, turn, today, (n - 1) as nat);
        match slot_mxid(state, group, turn, n - 1, today) {
            Some(m) => if state.slot_done(group, n - 1, turn) && !state.turn_done(group, turn) {
                r
            } else {
                r.push(m)
            },
            None => r,
        }
    }
}

/// The rooms of a group as they end a line.
pub open spec fn group_rooms(group: CleaningGroup) -> Seq<char> {
    match group.rooms_line() {
        Some(rooms) => " · "@ + replaced(rooms, '\n', " · "@),
        None => ""@,
    }
}

/// What a reminder about a group says.
pub open spec fn row_text(group: CleaningGroup, week: u32, mxids: Seq<String>) -> Seq<char> {
    "⏰ **Reminder · Week "@ + decimal(week as nat) + "**\n**"@ + group.name@ + "** · "@ + (
    if mxids.len() == 0 {
        "(nobody assigned)"@
    } else {
        join(views(mxids), ", "@)
    }) + group_rooms(group)
}

/// Whether a row reminds of the running turn of a group.
pub open spec fn is_row(row: ReminderRow, state: State, group: CleaningGroup, today: Date) -> bool {
    let week = this_week(today);
    &&& row.group_name@ == group.name@
    &&& row.mxids@ == mention_list(
        turn_mxids(state, group, turn_meant(group, week, today), today, group.slot_count()),
    )
    &&& row.text@ == row_text(group, week.1, row.mxids@)
}

/// The groups that `!remind` is about.
pub open spec fn reminded_groups(state: State, today: Date, name: Option<String>) -> Seq<CleaningGroup> {
    state.cleaning_groups@.filter(
        |g: CleaningGroup| to_be_reminded(state, g, today, name),
    )
}

/// The reminder about a group.
fn make_row(state: &State, k: usize, today: Date) -> (r: ReminderRow)
    requires
        known(*state, today),
        k < state.cleaning_groups@.len(),
    ensures
        is_row(r, *state, state.cleaning_groups@[k as int], today),
{
    proof {
        crate::planning::lemma_known(*state, today);
    }
    let group = &state.cleaning_groups[k];
    let week = current_week(today);
    let turn = meant_turn(group, week, today);
    let all_done = state.is_turn_done(group, turn);
    let n = group.people_per_turn();
    let mut found: Vec<String> = Vec::new();
    let mut i: usize = 0;
    while i < n
        invariant
            i <= n,
            n == group.slot_count(),
            state.wf(),
            today.in_week(),
            turn.wf(),
            all_done == state.turn_done(*group, turn),
            found@ == turn_mxids(*state, *group, turn, today, i as nat),
        decreases n - i,
    {
        match state.slot_assignee_at(group, i, turn, today) {
            Some(p) => match &p.matrix_id {
                Some(m) => {
                    if all_done || !state.is_turn_slot_done(group, i, turn) {
                        found.push(m.clone());
                    }
                },
                None => {},
            },
            None => {},
        }
        i += 1;
    }
    let mxids = tidy_mentions(found);
    let who: String = if mxids.len() == 0 {
        "(nobody assigned)".to_owned()
    } else {
        join_texts(&mxids, ", ")
    };
    let rooms: String = match group.rooms_text() {
        Some(rooms) => " · ".to_owned().concat(replace_char(rooms.as_str(), '\n', " · ").as_str()),
        None => "".to_owned(),
    };
    let text = "⏰ **Reminder · Week ".to_owned().concat(show(week.1 as u64).as_str()).concat(
        "**\n**",
    ).concat(group.name.as_str()).concat("** · ").concat(who.as_str()).concat(rooms.as_str());
    ReminderRow { group_name: group.name.clone(), text, mxids }
}

/// Whether rows are the reminders about groups.
pub open spec fn are_rows(rows: Seq<ReminderRow>, state: State, groups: Seq<CleaningGroup>, today: Date) -> bool {
    &&& rows.len() == groups.len()
    &&& forall|i: int| 0 <= i < rows.len() ==> is_row(#[trigger] rows[i], state, groups[i], today)
}

/// The reminders that `!remind` sends: about a group that is named, or about every active group
/// that is due this week and not done.
pub fn cmd_remind(state: &State, req: &Request, args: &Vec<String>) -> (r: Result<
    Vec<ReminderRow>,
    CommandError,
>)
    ensures
        !req.is_admin ==> r is Err && r->Err_0 == CommandError::NotAdmin,
        req.is_admin && !known(*state, req.today) ==> r is Err && r->Err_0
            == CommandError::OutOfRange,
        req.is_admin && known(*state, req.today) ==> r is Ok && are_rows(
            r->Ok_0@,
            *state,
            reminded_groups(
                *state,
                req.today,
                if args@.len() > 0 {
                    Some(args@[0])
                } else {
                    None
                },
            ),
            req.today,
        ),
{
    if !req.is_admin {
        return Err(CommandError::NotAdmin);
    }
    if !is_known(state, req.today) {
        return Err(CommandError::OutOfRange);
    }
    let name: Option<String> = if args.len() > 0 {
        Some(args[0].clone())
    } else {
        None
    };
    let ghost p = |g: CleaningGroup| to_be_reminded(*state, g, req.today, name);
    let week = current_week(req.today);
    let mut rows: Vec<ReminderRow> = Vec::new();
    let mut i: usize = 0;
    proof {
        crate::calendar::lemma_today(req.today.day as int);
        assert(state.cleaning_groups@.take(0).filter(p) =~= Seq::<CleaningGroup>::empty()) by {
            reveal(Seq::filter);
        }
    }
    while i < state.cleaning_groups.len()
        invariant
            i <= state.cleaning_groups.len(),
            known(*state, req.today),
            req.today.in_week(),
            week == this_week(req.today),
            is_year(week.0 as int),
            p == (|g: CleaningGroup| to_be_reminded(*state, g, req.today, name)),
            are_rows(rows@, *state, state.cleaning_groups@.take(i as int).filter(p), req.today),
        decreases state.cleaning_groups.len() - i,
    {
        proof {
            lemma_filter_step(state.cleaning_groups@, p, i as int);
        }
        let g = &state.cleaning_groups[i];
        let wanted: bool = g.is_active && match &name {
            Some(n) => is_same_name(g.name.as_str(), n.as_str()),
            None => state.is_due_week(g, req.today, week.0, week.1) && !state.is_week_done(
                g,
                week.0,
                week.1,
            ),
        };
        if wanted {
            rows.push(make_row(state, i, req.today));
        }
        i += 1;
    }
    assert(state.cleaning_groups@.take(i as int) =~= state.cleaning_groups@);
    Ok(rows)
}

/// What `!remind` says after sending reminders about groups; `any` tells whether there were any
/// to send.
pub fn remind_reply(any: bool, sent: &Vec<String>) -> (r: String)
    ensures
        r@ == if any {
            "✅ Reminder sent for: "@ + join(views(sent@), ", "@)
        } else {
            "✅ Nothing due and uncleaned right now."@
        },
{
    if any {
        "✅ Reminder sent for: ".to_owned().concat(join_texts(sent, ", ").as_str())
    } else {
        "✅ Nothing due and uncleaned right now.".to_owned()
    }
}

/// What came of posting the plan of the week.
#[derive(Clone, Debug)]
pub enum Announced {
    Posted,
    NothingDue,
    /// Why it could not be posted.
    Failed(String),
}

/// What `!plan announce` says after posting the plan.
pub fn announce_reply(outcome: &Announced) -> (r: String)
    ensures
        r@ == match *outcome {
            Announced::Posted => "📋 Weekly plan announced and pinned."@,
            Announced::NothingDue => "Nothing is due this week — no plan to announce."@,
            Announced::Failed(why) => "❌ Failed to announce weekly plan: "@ + why@,
        },
{
    match outcome {
        Announced::Posted => "📋 Weekly plan announced and pinned.".to_owned(),
        Announced::NothingDue => "Nothing is due this week — no plan to announce.".to_owned(),
        Announced::Failed(why) => "❌ Failed to announce weekly plan: ".to_owned().concat(
            why.as_str(),
        ),
    }
}

} // verus!
