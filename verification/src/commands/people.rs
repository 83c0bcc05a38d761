//! The people of the groups, and who is away.

use vstd::prelude::*;

use crate::analytics::{turn_of, DomainEvent};
use crate::calendar::{
    add_weeks, is_day, is_year, week_at, weeks_apart, weeks_between, year_fits, Date,
};
use crate::commands::base::{
    answered, current_week, full_label, no_group, no_group_text, perform, person_label, show_week,
    week_label, Answer, CommandError, Request,
};
use crate::commands::members::{next_assignment_summary, summary};
use crate::commands::outlook::week_in;
use crate::domain::{CleaningGroup, Person, SlotAssignment};
use crate::lists::{filter_map, lemma_filter_map_step, lemma_filter_step, lemma_first_index, some};
use crate::planning::{dated_in, group_dates_fit, is_known, known, this_week};
use crate::rhythm::Turn;
use crate::state::{Absence, State};
use crate::text::{
    decimal, join, join_texts, lemma_views_push, option_is, parse_up_to, parsed_up_to, same_text,
    show, views,
};

verus! {

// ── !cleaning people ─────────────────────────────────────────────────────────

/// Somebody by id.
pub open spec fn label_by_id(state: State, id: Seq<char>) -> Seq<char> {
    match state.person(id) {
        Some(p) => full_label(p),
        None => "unknown ("@ + id + ")"@,
    }
}

/// The first members of a group, numbered.
pub open spec fn numbered(state: State, ids: Seq<String>) -> Seq<Seq<char>> {
    Seq::new(
        ids.len(),
        |i: int| decimal((i + 1) as nat) + ". "@ + label_by_id(state, ids[i]@),
    )
}

/// The members of a group, and who cleans next.
pub open spec fn people_section(state: State, g: CleaningGroup, today: Date) -> Seq<char> {
    join(
        seq!["🔁 **"@ + g.name@ + "**"@] + (if g.member_ids@.len() == 0 {
            seq!["Rotation is empty."@]
        } else {
            numbered(state, g.member_ids@).push(summary(state, g.id@, today))
        }),
        "\n"@,
    )
}

/// An active group.
pub open spec fn active() -> spec_fn(CleaningGroup) -> bool {
    |g: CleaningGroup| g.is_active
}

/// Whether the days of all assignments of groups can be represented.
pub open spec fn all_dated(state: State, groups: Seq<CleaningGroup>) -> bool {
    forall|i: int| 0 <= i < groups.len() ==> dated_in(state, (#[trigger] groups[i]).id@)
}

/// What `!cleaning people` says: the members of a group that is named, or of all active groups.
pub open spec fn people_answer(state: State, req: Request, args: Seq<String>) -> Answer {
    let groups = if args.len() > 0 {
        seq![state.group_of_name(args[0]@)->0]
    } else {
        state.cleaning_groups@.filter(active())
    };
    if !known(state, req.today) {
        Answer::Fails(CommandError::OutOfRange)
    } else if args.len() > 0 && state.group_of_name(args[0]@) is None {
        Answer::Says(no_group_text(args[0]@))
    } else if !all_dated(state, groups) {
        Answer::Fails(CommandError::OutOfRange)
    } else if groups.len() == 0 {
        Answer::Says("No active cleaning groups."@)
    } else {
        Answer::Says(
            join(
                groups.map_values(|g: CleaningGroup| people_section(state, g, req.today)),
                "\n\n"@,
            ),
        )
    }
}

/// The members of a group, and who cleans next.
fn show_people(state: &State, g: &CleaningGroup, today: Date) -> (r: String)
    requires
        known(*state, today),
        dated_in(*state, g.id@),
    ensures
        r@ == people_section(*state, *g, today),
{
    let mut lines: Vec<String> = Vec::new();
    let title = "🔁 **".to_owned().concat(g.name.as_str()).concat("**");
    lines.push(title);
    assert(views(lines@) =~= seq![title@]);
    if g.member_ids.len() == 0 {
        let line = "Rotation is empty.".to_owned();
        proof {
            lemma_views_push(lines@, line);
            assert(views(lines@.push(line)) =~= seq![title@] + seq!["Rotation is empty."@]);
        }
        lines.push(line);
        return join_texts(&lines, "\n");
    }
    let ghost all = numbered(*state, g.member_ids@);
    let mut i: usize = 0;
    assert(views(lines@) =~= seq![title@] + all.take(0));
    while i < g.member_ids.len()
        invariant
            i <= g.member_ids.len(),
            all == numbered(*state, g.member_ids@),
            views(lines@) == seq![title@] + all.take(i as int),
        decreases g.member_ids.len() - i,
    {
        let label: String = match state.person_by_id(g.member_ids[i].as_str()) {
            Some(p) => person_label(p),
            None => "unknown (".to_owned().concat(g.member_ids[i].as_str()).concat(")"),
        };
        let line = show(i as u64 + 1).concat(". ").concat(label.as_str());
        proof {
            lemma_views_push(lines@, line);
            assert(seq![title@] + all.take(i + 1) =~= (seq![title@] + all.take(i as int)).push(
                line@,
            ));
        }
        lines.push(line);
        i += 1;
    }
    let next = next_assignment_summary(state, g.id.as_str(), today);
    proof {
        assert(all.take(i as int) =~= all);
        lemma_views_push(lines@, next);
        assert(views(lines@).push(next@) =~= seq![title@] + all.push(next@));
    }
    lines.push(next);
    join_texts(&lines, "\n")
}

/// Lists the members of a group that is named, or of all active groups.
pub fn cmd_cleaning_people(state: &State, req: &Request, args: &Vec<String>) -> (r: Result<
    String,
    CommandError,
>)
    ensures
        answered(*state, *state, r, people_answer(*state, *req, args@), req.now),
{
    if !is_known(state, req.today) {
        return Err(CommandError::OutOfRange);
    }
    if args.len() > 0 {
        return match state.group_by_name(args[0].as_str()) {
            Some(g) => {
                if !group_dates_fit(state, g.id.as_str()) {
                    assert(!dated_in(*state, seq![*g][0].id@));
                    assert(!all_dated(*state, seq![*g]));
                    return Err(CommandError::OutOfRange);
                }
                let text = show_people(state, g, req.today);
                proof {
                    let groups = seq![*g];
                    let all = groups.map_values(
                        |g: CleaningGroup| people_section(*state, g, req.today),
                    );
                    assert(all =~= seq![text@]);
                    crate::text::lemma_join_push(Seq::empty(), text@, "\n\n"@);
                    assert(Seq::<Seq<char>>::empty().push(text@) =~= seq![text@]);
                }
                Ok(text)
            },
            None => Ok(no_group(args[0].as_str())),
        };
    }
    let ghost groups = state.cleaning_groups@.filter(active());
    let ghost f = |g: CleaningGroup| people_section(*state, g, req.today);
    let mut sections: Vec<String> = Vec::new();
    let mut i: usize = 0;
    proof {
        assert(state.cleaning_groups@.take(0).filter(active()) =~= Seq::<CleaningGroup>::empty())
            by {
            reveal(Seq::filter);
        }
        assert(views(sections@) =~= Seq::<CleaningGroup>::empty().map_values(f));
    }
    while i < state.cleaning_groups.len()
        invariant
            i <= state.cleaning_groups.len(),
            known(*state, req.today),
            args@.len() == 0,
            groups == state.cleaning_groups@.filter(active()),
            forall|k: int|
                0 <= k < i && active()(state.cleaning_groups@[k]) ==> dated_in(
                    *state,
                    (#[trigger] state.cleaning_groups@[k]).id@,
                ),
            f == (|g: CleaningGroup| people_section(*state, g, req.today)),
            views(sections@) == state.cleaning_groups@.take(i as int).filter(active()).map_values(
                f,
            ),
        decreases state.cleaning_groups.len() - i,
    {
        let g = &state.cleaning_groups[i];
        proof {
            lemma_filter_step(state.cleaning_groups@, active(), i as int);
        }
        if g.is_active {
            if !group_dates_fit(state, g.id.as_str()) {
                proof {
                    crate::lists::lemma_filter(state.cleaning_groups@, active());
                    assert(active()(state.cleaning_groups@[i as int]));
                    let j = choose|j: int| 0 <= j < groups.len() && groups[j] == *g;
                    assert(!dated_in(*state, groups[j].id@));
                    assert(!all_dated(*state, groups));
                }
                return Err(CommandError::OutOfRange);
            }
            let text = show_people(state, g, req.today);
            proof {
                lemma_views_push(sections@, text);
                let before = state.cleaning_groups@.take(i as int).filter(active());
                assert(before.push(*g).map_values(f) =~= before.map_values(f).push(text@));
            }
            sections.push(text);
        }
        i += 1;
    }
    proof {
        assert(state.cleaning_groups@.take(i as int) =~= state.cleaning_groups@);
        assert(views(sections@).len() == sections@.len());
        crate::lists::lemma_filter(state.cleaning_groups@, active());
        assert forall|j: int| 0 <= j < groups.len() implies dated_in(
            *state,
            (#[trigger] groups[j]).id@,
        ) by {
            assert(active()(groups[j]) && state.cleaning_groups@.contains(groups[j]));
            let k = choose|k: int|
                0 <= k < state.cleaning_groups@.len() && state.cleaning_groups@[k] == groups[j];
            assert(dated_in(*state, state.cleaning_groups@[k].id@));
        }
        assert(all_dated(*state, groups));
    }
    if sections.len() == 0 {
        return Ok("No active cleaning groups.".to_owned());
    }
    Ok(join_texts(&sections, "\n\n"))
}

// ── Absences ─────────────────────────────────────────────────────────────────

/// The last number among arguments, or 4.
pub open spec fn weeks_given(args: Seq<String>) -> nat
    decreases args.len(),
{
    if args.len() == 0 {
        4
    } else {
        match parsed_up_to(args.last()@, u32::MAX as nat) {
            Some(n) => n,
            None => weeks_given(args.drop_last()),
        }
    }
}

/// An assignment that falls into an absence of somebody, and is not done. One of a year that cannot
/// be represented falls into none.
pub open spec fn missed_turn(state: State, person_id: Seq<char>, weeks: nat, today: Date) -> spec_fn(
    SlotAssignment,
) -> Option<Seq<char>> {
    |a: SlotAssignment|
        if a.person_id is Some && a.person_id->0@ == person_id && is_year(a.iso_year as int) && 0
            <= weeks_apart(this_week(today), week_in(a)) < weeks && state.group(a.group_id@) is Some && !state.slot_done(
            state.group(a.group_id@)->0,
            a.slot_index as int,
            turn_of(a),
        ) {
            Some(
                "week "@ + decimal(a.iso_week as nat) + " "@ + state.group(a.group_id@)->0.name@,
            )
        } else {
            None
        }
}

/// The event that records an absence of somebody from a group.
pub open spec fn records(p: Person, weeks: nat, today: Date) -> spec_fn(CleaningGroup) -> DomainEvent {
    |g: CleaningGroup|
        DomainEvent::AbsenceRecorded {
            person_id: p.id,
            group_id: g.id,
            from_year: this_week(today).0,
            from_week: this_week(today).1,
            duration_weeks: weeks as u32,
        }
}

/// The week that somebody is back in.
pub open spec fn back_week(weeks: nat, today: Date) -> (i32, u32) {
    let w = week_at(today.week_no() + weeks);
    (w.0 as i32, w.1 as u32)
}

/// What `!absent` does: somebody is away from all their groups for some weeks. Turns that are
/// planned for them already stay theirs, and are pointed out.
pub open spec fn absent_answer(state: State, req: Request, args: Seq<String>) -> Answer {
    let weeks = weeks_given(args);
    if !req.is_admin {
        Answer::Fails(CommandError::NotAdmin)
    } else if !known(state, req.today) || !is_day(7 * (req.today.week_no() + weeks) + 7) {
        Answer::Fails(CommandError::OutOfRange)
    } else if args.len() == 0 {
        Answer::Says("Usage: !member away <person> [weeks]  (default 4)"@)
    } else {
        match state.person_named(args[0]@) {
            None => Answer::Says(args[0]@ + " not found."@),
            Some(p) => {
                let groups = state.groups_of(p.id@);
                let planned = filter_map(
                    state.slot_assignments@,
                    missed_turn(state, p.id@, weeks, req.today),
                );
                if groups.len() == 0 {
                    Answer::Says(p.display_name@ + " is not in any group."@)
                } else {
                    Answer::Runs(
                        groups.map_values(records(p, weeks, req.today)),
                        "🌴 "@ + p.display_name@ + " away for "@ + decimal(weeks) + " week"@ + (
                        if weeks == 1 {
                            ""@
                        } else {
                            "s"@
                        }) + " · back week "@ + week_label(back_week(weeks, req.today)) + (
                        if planned.len() > 0 {
                            "\nStill planned for them: "@ + join(planned, ", "@)
                        } else {
                            ""@
                        }),
                    )
                }
            },
        }
    }
}

/// The last number among arguments, or 4.
fn read_weeks(args: &Vec<String>) -> (r: u32)
    ensures
        r == weeks_given(args@),
{
    let mut i: usize = args.len();
    assert(args@.take(i as int) =~= args@);
    while i > 0
        invariant
            i <= args.len(),
            weeks_given(args@) == weeks_given(args@.take(i as int)),
        decreases i,
    {
        proof {
            assert(args@.take(i as int).last() == args@[i - 1]);
            assert(args@.take(i as int).drop_last() =~= args@.take(i - 1));
        }
        if let Some(n) = parse_up_to(args[i - 1].as_str(), u32::MAX as u64) {
            return n as u32;
        }
        i -= 1;
    }
    4
}

/// The turns that fall into an absence of somebody.
fn list_missed(state: &State, person_id: &str, weeks: u32, today: Date) -> (r: Vec<String>)
    requires
        known(*state, today),
    ensures
        views(r@) == filter_map(
            state.slot_assignments@,
            missed_turn(*state, person_id@, weeks as nat, today),
        ),
{
    let ghost f = missed_turn(*state, person_id@, weeks as nat, today);
    let all = &state.slot_assignments;
    let now = current_week(today);
    let mut r: Vec<String> = Vec::new();
    let mut i: usize = 0;
    proof {
        assert(all@.take(0) =~= Seq::<SlotAssignment>::empty());
        assert(views(r@) =~= Seq::<Seq<char>>::empty());
    }
    while i < all.len()
        invariant
            i <= all.len(),
            all == &state.slot_assignments,
            now == this_week(today),
            crate::calendar::is_year(now.0 as int),
            f == missed_turn(*state, person_id@, weeks as nat, today),
            views(r@) == filter_map(all@.take(i as int), f),
        decreases all.len() - i,
    {
        proof {
            lemma_filter_map_step(all@, f, i as int);
        }
        let a = &all[i];
        let apart: i64 = if year_fits(a.iso_year) {
            weeks_between(now, (a.iso_year, a.iso_week))
        } else {
            -1
        };
        if option_is(&a.person_id, person_id) && 0 <= apart && apart < weeks as i64 {
            if let Some(g) = state.group_by_id(a.group_id.as_str()) {
                let turn = Turn { year: a.iso_year, week: a.iso_week, shift: a.shift };
                if !state.is_turn_slot_done(g, a.slot_index, turn) {
                    let line = "week ".to_owned().concat(show(a.iso_week as u64).as_str()).concat(
                        " ",
                    ).concat(g.name.as_str());
                    proof {
                        lemma_views_push(r@, line);
                    }
                    r.push(line);
                }
            }
        }
        i += 1;
    }
    assert(all@.take(i as int) =~= all@);
    r
}

/// Records that somebody is away from all their groups for some weeks, from the current one on.
pub fn cmd_absent(state: &mut State, req: &Request, args: &Vec<String>) -> (r: Result<
    String,
    CommandError,
>)
    ensures
        answered(*old(state), *final(state), r, absent_answer(*old(state), *req, args@), req.now),
{
    if !req.is_admin {
        return Err(CommandError::NotAdmin);
    }
    if !is_known(state, req.today) {
        return Err(CommandError::OutOfRange);
    }
    let weeks = read_weeks(args);
    let from = current_week(req.today);
    let monday = crate::calendar::week_monday(from.0, from.1);
    if !crate::planning::day_fits(monday.day as i64 + 7 * (weeks as i64) + 6) {
        return Err(CommandError::OutOfRange);
    }
    if args.len() == 0 {
        return Ok("Usage: !member away <person> [weeks]  (default 4)".to_owned());
    }
    let p = match state.find_person(args[0].as_str()) {
        Some(p) => p,
        None => {
            return Ok(args[0].clone().concat(" not found."));
        },
    };
    let groups = state.groups_for_person(p.id.as_str());
    if groups.len() == 0 {
        return Ok(p.display_name.clone().concat(" is not in any group."));
    }
    let ghost all = state.groups_of(p.id@);
    let ghost f = records(*p, weeks as nat, req.today);
    let mut events: Vec<DomainEvent> = Vec::new();
    let mut i: usize = 0;
    assert(events@ =~= all.map_values(f).take(0));
    while i < groups.len()
        invariant
            i <= groups.len(),
            groups@.len() == all.len(),
            forall|k: int| 0 <= k < groups@.len() ==> *(#[trigger] groups@[k]) == all[k],
            from == this_week(req.today),
            f == records(*p, weeks as nat, req.today),
            events@ == all.map_values(f).take(i as int),
            forall|k: int| 0 <= k < events@.len() ==> #[trigger] events@[k] is AbsenceRecorded,
        decreases groups.len() - i,
    {
        let e = DomainEvent::AbsenceRecorded {
            person_id: p.id.clone(),
            group_id: groups[i].id.clone(),
            from_year: from.0,
            from_week: from.1,
            duration_weeks: weeks,
        };
        assert(all.map_values(f).take(i + 1) =~= all.map_values(f).take(i as int).push(e));
        events.push(e);
        i += 1;
    }
    assert(all.map_values(f).take(i as int) =~= all.map_values(f));
    let missed = list_missed(state, p.id.as_str(), weeks, req.today);
    assert(views(missed@).len() == missed@.len());
    let end = add_weeks(from.0, from.1, weeks as i64);
    proof {
        let no = req.today.week_no() + weeks;
        assert((7 * req.today.week_no() + 1 + 7 * weeks - 1) / 7 == no);
        assert(end == back_week(weeks as nat, req.today));
        crate::calendar::lemma_whole_week(7 * no + 1, end.0 as int, end.1 as int);
    }
    let plural: &str = if weeks == 1 {
        ""
    } else {
        "s"
    };
    let note: String = if missed.len() > 0 {
        "\nStill planned for them: ".to_owned().concat(join_texts(&missed, ", ").as_str())
    } else {
        "".to_owned()
    };
    let text = "🌴 ".to_owned().concat(p.display_name.as_str()).concat(" away for ").concat(
        show(weeks as u64).as_str(),
    ).concat(" week").concat(plural).concat(" · back week ").concat(
        show_week(end).as_str(),
    ).concat(note.as_str());
    match state.apply_absences(events, req.now) {
        Ok(_) => Ok(text),
        Err(e) => Err(CommandError::Refused(e)),
    }
}

/// An absence of somebody.
pub open spec fn absence_of(person_id: Seq<char>) -> spec_fn(Absence) -> bool {
    |a: Absence| a.person_id@ == person_id
}

/// What `!back` does: somebody is not away any more.
pub open spec fn back_answer(state: State, req: Request, args: Seq<String>) -> Answer {
    if !req.is_admin {
        Answer::Fails(CommandError::NotAdmin)
    } else if !known(state, req.today) {
        Answer::Fails(CommandError::OutOfRange)
    } else if args.len() == 0 {
        Answer::Says("Usage: !member back <person>"@)
    } else {
        match state.person_named(args[0]@) {
            None => Answer::Says(args[0]@ + " not found."@),
            Some(p) => if some(state.absences@, absence_of(p.id@)) {
                Answer::Does(
                    DomainEvent::AbsenceCancelled { person_id: p.id },
                    "✅ "@ + args[0]@ + " is back."@,
                )
            } else {
                Answer::Says(args[0]@ + " has no active absence."@)
            },
        }
    }
}

/// Whether somebody is or was away.
fn has_absence(state: &State, person_id: &str) -> (r: bool)
    ensures
        r == some(state.absences@, absence_of(person_id@)),
{
    let ghost p = absence_of(person_id@);
    let mut i: usize = 0;
    while i < state.absences.len()
        invariant
            i <= state.absences.len(),
            p == absence_of(person_id@),
            forall|k: int| 0 <= k < i ==> !p(#[trigger] state.absences@[k]),
        decreases state.absences.len() - i,
    {
        if same_text(state.absences[i].person_id.as_str(), person_id) {
            proof {
                lemma_first_index(state.absences@, p, i as int);
            }
            return true;
        }
        i += 1;
    }
    proof {
        lemma_first_index(state.absences@, p, i as int);
    }
    false
}

/// Takes back all absences of somebody.
pub fn cmd_back(state: &mut State, req: &Request, args: &Vec<String>) -> (r: Result<
    String,
    CommandError,
>)
    ensures
        answered(*old(state), *final(state), r, back_answer(*old(state), *req, args@), req.now),
{
    if !req.is_admin {
        return Err(CommandError::NotAdmin);
    }
    if !is_known(state, req.today) {
        return Err(CommandError::OutOfRange);
    }
    if args.len() == 0 {
        return Ok("Usage: !member back <person>".to_owned());
    }
    let id = match state.find_person(args[0].as_str()) {
        Some(p) => p.id.clone(),
        None => {
            return Ok(args[0].clone().concat(" not found."));
        },
    };
    if !has_absence(state, id.as_str()) {
        return Ok(args[0].clone().concat(" has no active absence."));
    }
    let text = "✅ ".to_owned().concat(args[0].as_str()).concat(" is back.");
    perform(state, DomainEvent::AbsenceCancelled { person_id: id }, text, req.now)
}

} // verus!
