//! Changes of single assignments by hand.

use vstd::prelude::*;

use crate::analytics::DomainEvent;
use crate::calendar::Date;
use crate::commands::base::{
    answered, extract_week_arg, full_label, group_and_slot, lemma_group_known, lemma_near_week,
    meant_turn, perform, person_label, resolve_group_and_slot, show_week, slot_ending, slot_suffix,
    turn_meant, week_clause, week_label, Answer, CommandError, Request, Target,
};
use crate::domain::{AssignmentSource, CleaningGroup, Person, PersonId};
use crate::planning::{is_known, lemma_known, known};
use crate::rhythm::Turn;
use crate::state::State;
use crate::text::{contains_text, same_text, says};

verus! {

/// How `!assign` is used.
pub const ASSIGN_USAGE: &'static str = "Usage: !assign <group> [<slot>] <person> [week <1-53>]";

/// How `!unassign` is used.
pub const UNASSIGN_USAGE: &'static str = "Usage: !unassign <group> [<slot>] [week <1-53>]";

/// A group that is in the state somewhere is found by its id.
pub proof fn lemma_known_group(state: State, today: Date, g: CleaningGroup)
    requires
        known(state, today),
        state.cleaning_groups@.contains(g),
    ensures
        today.in_week(),
        state.group(g.id@) is Some,
{
    let i = choose|i: int|
        0 <= i < state.cleaning_groups@.len() && state.cleaning_groups@[i] == g;
    lemma_known(state, today);
    lemma_group_known(state, i);
}

/// The id of a person.
pub open spec fn id_of(p: Option<Person>) -> Option<PersonId> {
    match p {
        Some(p) => Some(p.id),
        None => None,
    }
}

/// The event that makes somebody, or nobody, responsible for one slot of a turn by hand.
pub open spec fn hand_over(
    state: State,
    req: Request,
    group: CleaningGroup,
    slot: int,
    turn: Turn,
    person_id: Option<PersonId>,
    source: AssignmentSource,
) -> DomainEvent {
    DomainEvent::SlotAssigned {
        group_id: group.id,
        slot_index: slot as usize,
        iso_year: turn.year,
        iso_week: turn.week,
        shift: turn.shift,
        person_id,
        source,
        actor_id: Some(req.sender),
        previous_person_id: id_of(state.assignee(group, slot, turn, req.today)),
    }
}

/// That somebody is not a member of the group they are given a turn in.
pub open spec fn outsider_note(group: CleaningGroup, person_id: Seq<char>, what: Seq<char>) -> Seq<char> {
    if says(group.member_ids@, person_id) {
        ""@
    } else {
        " (not a member of «"@ + group.name@ + "» — one-off "@ + what + ")"@
    }
}

/// That somebody is not a member of the group they are given a turn in.
pub fn note_outsider(group: &CleaningGroup, person_id: &str, what: &str) -> (r: String)
    ensures
        r@ == outsider_note(*group, person_id@, what@),
{
    if contains_text(&group.member_ids, person_id) {
        "".to_owned()
    } else {
        " (not a member of «".to_owned().concat(group.name.as_str()).concat(
            "» — one-off ",
        ).concat(what).concat(")")
    }
}

/// Whom somebody takes over from.
pub open spec fn change_note(previous: Option<Person>, person: Person) -> Seq<char> {
    match previous {
        Some(q) => if q.id@ != person.id@ {
            " · was "@ + full_label(q)
        } else {
            ""@
        },
        None => ""@,
    }
}

/// What `!assign` does: somebody becomes responsible for one slot of the turn that a week stands
/// for.
pub open spec fn assign_answer(state: State, req: Request, args: Seq<String>) -> Answer {
    if !req.is_admin {
        Answer::Fails(CommandError::NotAdmin)
    } else if !known(state, req.today) {
        Answer::Fails(CommandError::OutOfRange)
    } else if args.len() == 0 {
        Answer::Says(ASSIGN_USAGE@)
    } else {
        match week_clause(args.skip(1), req.today) {
            None => Answer::Says(ASSIGN_USAGE@),
            Some((n, week)) => {
                let rest = args.subrange(1, 1 + n);
                match group_and_slot(state, args[0]@, rest) {
                    Target::Wrong(t) => Answer::Says(t),
                    Target::Found(g, slot, used) => if used >= rest.len() {
                        Answer::Says(ASSIGN_USAGE@)
                    } else {
                        match state.person_named(rest[used]@) {
                            None => Answer::Says(
                                "«"@ + rest[used]@
                                    + "» is not registered. Use !adduser or !addperson to register them first."@,
                            ),
                            Some(p) => {
                                let turn = turn_meant(g, week, req.today);
                                Answer::Does(
                                    hand_over(
                                        state,
                                        req,
                                        g,
                                        slot,
                                        turn,
                                        Some(p.id),
                                        AssignmentSource::Assign,
                                    ),
                                    "✅ Assigned "@ + full_label(p) + " to «"@ + g.name@ + "»"@
                                        + slot_suffix(g, slot, " / "@) + " for week "@
                                        + week_label(week) + outsider_note(
                                        g,
                                        p.id@,
                                        "assignment"@,
                                    ) + change_note(
                                        state.assignee(g, slot, turn, req.today),
                                        p,
                                    ) + "."@,
                                )
                            },
                        }
                    },
                }
            },
        }
    }
}

/// Makes somebody responsible for one slot of a turn. The turn order and group membership stay as
/// they are.
pub fn cmd_assign(state: &mut State, req: &Request, args: &Vec<String>) -> (r: Result<
    String,
    CommandError,
>)
    ensures
        answered(*old(state), *final(state), r, assign_answer(*old(state), *req, args@), req.now),
{
    if !req.is_admin {
        return Err(CommandError::NotAdmin);
    }
    if !is_known(state, req.today) {
        return Err(CommandError::OutOfRange);
    }
    if args.len() == 0 {
        return Ok(ASSIGN_USAGE.to_owned());
    }
    let (to, week) = match extract_week_arg(args, 1, req.today) {
        Some(v) => v,
        None => {
            return Ok(ASSIGN_USAGE.to_owned());
        },
    };
    let ghost rest = args@.subrange(1, to as int);
    let (i, slot, at) = match resolve_group_and_slot(state, args[0].as_str(), args, 1, to) {
        Ok(v) => v,
        Err(t) => {
            return Ok(t);
        },
    };
    if at >= to {
        return Ok(ASSIGN_USAGE.to_owned());
    }
    assert(rest[at - 1] == args@[at as int]);
    let person = match state.find_person(args[at].as_str()) {
        Some(p) => p,
        None => {
            return Ok(
                "«".to_owned().concat(args[at].as_str()).concat(
                    "» is not registered. Use !adduser or !addperson to register them first.",
                ),
            );
        },
    };
    let group = &state.cleaning_groups[i];
    proof {
        crate::planning::lemma_known(*state, req.today);
        lemma_group_known(*state, i as int);
        lemma_near_week(week.0 as int, week.1 as int);
    }
    let turn = meant_turn(group, week, req.today);
    let previous = state.slot_assignee_at(group, slot, turn, req.today);
    let change: String = match previous {
        Some(q) => if !same_text(q.id.as_str(), person.id.as_str()) {
            " · was ".to_owned().concat(person_label(q).as_str())
        } else {
            "".to_owned()
        },
        None => "".to_owned(),
    };
    let text = "✅ Assigned ".to_owned().concat(person_label(person).as_str()).concat(
        " to «",
    ).concat(group.name.as_str()).concat("»").concat(
        slot_ending(group, slot, " / ").as_str(),
    ).concat(" for week ").concat(show_week(week).as_str()).concat(
        note_outsider(group, person.id.as_str(), "assignment").as_str(),
    ).concat(change.as_str()).concat(".");
    let event = DomainEvent::SlotAssigned {
        group_id: group.id.clone(),
        slot_index: slot,
        iso_year: turn.year,
        iso_week: turn.week,
        shift: turn.shift,
        person_id: Some(person.id.clone()),
        source: AssignmentSource::Assign,
        actor_id: Some(req.sender.clone()),
        previous_person_id: match previous {
            Some(q) => Some(q.id.clone()),
            None => None,
        },
    };
    perform(state, event, text, req.now)
}

/// What `!unassign` does: nobody is responsible for one slot of the turn that a week stands for.
pub open spec fn unassign_answer(state: State, req: Request, args: Seq<String>) -> Answer {
    if !req.is_admin {
        Answer::Fails(CommandError::NotAdmin)
    } else if !known(state, req.today) {
        Answer::Fails(CommandError::OutOfRange)
    } else if args.len() == 0 {
        Answer::Says(UNASSIGN_USAGE@)
    } else {
        match week_clause(args.skip(1), req.today) {
            None => Answer::Says(UNASSIGN_USAGE@),
            Some((n, week)) => match group_and_slot(state, args[0]@, args.subrange(1, 1 + n)) {
                Target::Wrong(t) => Answer::Says(t),
                Target::Found(g, slot, used) => Answer::Does(
                    hand_over(
                        state,
                        req,
                        g,
                        slot,
                        turn_meant(g, week, req.today),
                        None,
                        AssignmentSource::Assign,
                    ),
                    "✅ Cleared «"@ + g.name@ + "»"@ + slot_suffix(g, slot, " / "@) + " for week "@
                        + week_label(week) + " — left unassigned."@,
                ),
            },
        }
    }
}

/// Takes back who is responsible for one slot of a turn, and leaves it to nobody.
pub fn cmd_unassign(state: &mut State, req: &Request, args: &Vec<String>) -> (r: Result<
    String,
    CommandError,
>)
    ensures
        answered(*old(state), *final(state), r, unassign_answer(*old(state), *req, args@), req.now),
{
    if !req.is_admin {
        return Err(CommandError::NotAdmin);
    }
    if !is_known(state, req.today) {
        return Err(CommandError::OutOfRange);
    }
    if args.len() == 0 {
        return Ok(UNASSIGN_USAGE.to_owned());
    }
    let (to, week) = match extract_week_arg(args, 1, req.today) {
        Some(v) => v,
        None => {
            return Ok(UNASSIGN_USAGE.to_owned());
        },
    };
    let (i, slot, _) = match resolve_group_and_slot(state, args[0].as_str(), args, 1, to) {
        Ok(v) => v,
        Err(t) => {
            return Ok(t);
        },
    };
    let group = &state.cleaning_groups[i];
    proof {
        crate::planning::lemma_known(*state, req.today);
        lemma_group_known(*state, i as int);
        lemma_near_week(week.0 as int, week.1 as int);
    }
    let turn = meant_turn(group, week, req.today);
    let text = "✅ Cleared «".to_owned().concat(group.name.as_str()).concat("»").concat(
        slot_ending(group, slot, " / ").as_str(),
    ).concat(" for week ").concat(show_week(week).as_str()).concat(" — left unassigned.");
    let event = DomainEvent::SlotAssigned {
        group_id: group.id.clone(),
        slot_index: slot,
        iso_year: turn.year,
        iso_week: turn.week,
        shift: turn.shift,
        person_id: None,
        source: AssignmentSource::Assign,
        actor_id: Some(req.sender.clone()),
        previous_person_id: match state.slot_assignee_at(group, slot, turn, req.today) {
            Some(q) => Some(q.id.clone()),
            None => None,
        },
    };
    perform(state, event, text, req.now)
}

} // verus!
