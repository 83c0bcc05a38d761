//! Taking a turn over from somebody else.

use vstd::prelude::*;

use crate::analytics::DomainEvent;
use crate::calendar::{is_day, is_year, week_start, Date};
use crate::commands::assignments::{hand_over, lemma_known_group, note_outsider, outsider_note};
use crate::commands::base::{
    answered, extract_week_arg, full_label, lemma_near_week, meant_turn, perform, person_label,
    says_only, show_week, slot_ending, slot_suffix, slots_list, turn_meant, week_clause, week_label,
    Answer, CommandError, Request,
};
use crate::course::step;
use crate::domain::{fresh_id, slot_named, slot_names, AssignmentSource, CleaningGroup, Person};
use crate::journal::StateError;
use crate::lists::{first_index, lemma_filter, lemma_first_index_is, some};
use crate::planning::{is_known, known};
use crate::rhythm::Turn;
use crate::state::{group_named, group_with_member, State};
use crate::text::{join, join_texts, lemma_views_push, same_text, views};

verus! {

/// How `!takeover` is used.
pub const TAKEOVER_USAGE: &'static str = "Usage: !takeover [<group>] [<slot>] [week <1-53>]";

/// What somebody wants to take over.
pub enum Choice {
    /// One slot of a group.
    Slot(CleaningGroup, int),
    /// That cannot be told, and what to say about it.
    Unclear(Seq<char>),
}

/// The names of groups.
pub open spec fn names_of(groups: Seq<CleaningGroup>) -> Seq<Seq<char>> {
    groups.map_values(|g: CleaningGroup| g.name@)
}

/// Why the group of somebody cannot be told: they are in none, or in several.
pub open spec fn not_one_group(groups: Seq<CleaningGroup>) -> Seq<char> {
    if groups.len() == 0 {
        "You are not in any cleaning group. Specify one: !takeover <group> [<slot>]"@
    } else {
        "You are in multiple groups — specify one: "@ + join(names_of(groups), ", "@)
            + "\nUsage: !takeover <group> [<slot>] [week <N>]"@
    }
}

/// Whether a slot can be taken over: it is open, and somebody else's or nobody's.
pub open spec fn takeable(
    state: State,
    group: CleaningGroup,
    person_id: Seq<char>,
    turn: Turn,
    today: Date,
    slot: int,
) -> bool {
    &&& !state.slot_done(group, slot, turn)
    &&& match state.assignee(group, slot, turn, today) {
        Some(p) => p.id@ != person_id,
        None => true,
    }
}

/// The first slots of a group that can be taken over.
pub open spec fn takeable_slots(
    state: State,
    group: CleaningGroup,
    person_id: Seq<char>,
    turn: Turn,
    today: Date,
    n: nat,
) -> Seq<int>
    decreases n,
{
    if n == 0 {
        Seq::empty()
    } else {
        let r = takeable_slots(state, group, person_id, turn, today, (n - 1) as nat);
        if takeable(state, group, person_id, turn, today, n - 1) {
            r.push(n - 1)
        } else {
            r
        }
    }
}

/// The slot that is meant when none is named: the only one there is, or the only one that can be
/// taken over.
pub open spec fn only_choice(
    state: State,
    group: CleaningGroup,
    person_id: Seq<char>,
    turn: Turn,
    today: Date,
) -> Choice {
    let open = takeable_slots(state, group, person_id, turn, today, group.slots@.len());
    if group.slots@.len() == 0 {
        Choice::Slot(group, 0)
    } else if open.len() == 0 {
        Choice::Unclear(
            "Nothing to take over in «"@ + group.name@
                + "» this week — every slot is already done, skipped, or already yours."@,
        )
    } else if open.len() == 1 {
        Choice::Slot(group, open[0])
    } else {
        Choice::Unclear(
            "«"@ + group.name@ + "» has multiple open slots this week: "@ + join(
                open.map_values(|i: int| group.slots@[i].name@),
                ", "@,
            ) + "\nSpecify one: !takeover "@ + group.name@ + " <slot>"@,
        )
    }
}

/// The slot of a group that is named.
pub open spec fn named_choice(group: CleaningGroup, name: Seq<char>) -> Choice {
    if group.slots@.len() == 0 {
        Choice::Unclear("«"@ + group.name@ + "» does not have slots."@)
    } else if some(group.slots@, slot_named(name)) {
        Choice::Slot(group, first_index(group.slots@, slot_named(name)))
    } else {
        Choice::Unclear(
            "«"@ + name + "» is not a group or a slot of «"@ + group.name@ + "». Slots: "@ + join(
                slot_names(group.slots@),
                ", "@,
            ),
        )
    }
}

/// What arguments name to take over in a week: a group and a slot, a group alone, a slot of the
/// only group that somebody is in, or nothing.
pub open spec fn takeover_choice(
    state: State,
    person_id: Seq<char>,
    rest: Seq<String>,
    week: (i32, u32),
    today: Date,
) -> Choice {
    let own = state.groups_of(person_id);
    if rest.len() > 0 && state.group_of_name(rest[0]@) is Some {
        let g = state.group_of_name(rest[0]@)->0;
        if rest.len() > 1 {
            named_choice(g, rest[1]@)
        } else {
            only_choice(state, g, person_id, turn_meant(g, week, today), today)
        }
    } else if own.len() != 1 {
        Choice::Unclear(not_one_group(own))
    } else if rest.len() > 0 {
        named_choice(own[0], rest[0]@)
    } else {
        only_choice(state, own[0], person_id, turn_meant(own[0], week, today), today)
    }
}

/// Picks the slot that is meant when none is named.
pub fn auto_pick_takeover_slot(
    state: &State,
    group: &CleaningGroup,
    person_id: &str,
    turn: Turn,
    today: Date,
) -> (r: Result<usize, String>)
    requires
        known(*state, today),
        state.cleaning_groups@.contains(*group),
        turn.wf(),
    ensures
        match only_choice(*state, *group, person_id@, turn, today) {
            Choice::Slot(g, slot) => r is Ok && r->Ok_0 == slot,
            Choice::Unclear(t) => r is Err && r->Err_0@ == t,
        },
{
    if group.slots.len() == 0 {
        return Ok(0);
    }
    let mut open: Vec<usize> = Vec::new();
    let mut names: Vec<String> = Vec::new();
    let mut i: usize = 0;
    proof {
        lemma_known_group(*state, today, *group);
        assert(views(names@) =~= Seq::<int>::empty().map_values(|k: int| group.slots@[k].name@));
    }
    while i < group.slots.len()
        invariant
            i <= group.slots.len(),
            state.wf(),
            today.in_week(),
            turn.wf(),
            open@.map_values(|k: usize| k as int) == takeable_slots(
                *state,
                *group,
                person_id@,
                turn,
                today,
                i as nat,
            ),
            open@.len() == names@.len(),
            views(names@) == takeable_slots(
                *state,
                *group,
                person_id@,
                turn,
                today,
                i as nat,
            ).map_values(|k: int| group.slots@[k].name@),
        decreases group.slots.len() - i,
    {
        let ghost before = takeable_slots(*state, *group, person_id@, turn, today, i as nat);
        let free: bool = match state.slot_assignee_at(group, i, turn, today) {
            Some(p) => !same_text(p.id.as_str(), person_id),
            None => true,
        };
        if free && !state.is_turn_slot_done(group, i, turn) {
            let name = group.slots[i].name.clone();
            proof {
                lemma_views_push(names@, name);
                assert(open@.push(i).map_values(|k: usize| k as int) =~= before.push(i as int));
                assert(before.push(i as int).map_values(|k: int| group.slots@[k].name@)
                    =~= before.map_values(|k: int| group.slots@[k].name@).push(name@));
            }
            open.push(i);
            names.push(name);
        }
        i += 1;
    }
    if open.len() == 0 {
        Err(
            "Nothing to take over in «".to_owned().concat(group.name.as_str()).concat(
                "» this week — every slot is already done, skipped, or already yours.",
            ),
        )
    } else if open.len() == 1 {
        assert(open@.map_values(|k: usize| k as int)[0] == open@[0]);
        Ok(open[0])
    } else {
        Err(
            "«".to_owned().concat(group.name.as_str()).concat(
                "» has multiple open slots this week: ",
            ).concat(join_texts(&names, ", ").as_str()).concat("\nSpecify one: !takeover ").concat(
                group.name.as_str(),
            ).concat(" <slot>"),
        )
    }
}

/// Finds the slot of a group that is named.
pub fn named_slot(group: &CleaningGroup, name: &str) -> (r: Result<usize, String>)
    ensures
        match named_choice(*group, name@) {
            Choice::Slot(g, slot) => r is Ok && r->Ok_0 == slot,
            Choice::Unclear(t) => r is Err && r->Err_0@ == t,
        },
{
    if group.slots.len() == 0 {
        return Err("«".to_owned().concat(group.name.as_str()).concat("» does not have slots."));
    }
    match group.slot_position(name) {
        Some(i) => Ok(i),
        None => Err(
            "«".to_owned().concat(name).concat("» is not a group or a slot of «").concat(
                group.name.as_str(),
            ).concat("». Slots: ").concat(slots_list(group).as_str()),
        ),
    }
}

/// The names of groups, joined by commas.
fn names_list(groups: &Vec<&CleaningGroup>, Ghost(all): Ghost<Seq<CleaningGroup>>) -> (r: String)
    requires
        groups@.len() == all.len(),
        forall|i: int| 0 <= i < groups@.len() ==> *(#[trigger] groups@[i]) == all[i],
    ensures
        r@ == join(names_of(all), ", "@),
{
    let mut names: Vec<String> = Vec::new();
    let mut i: usize = 0;
    assert(views(names@) =~= names_of(all).take(0));
    while i < groups.len()
        invariant
            i <= groups.len(),
            groups@.len() == all.len(),
            forall|k: int| 0 <= k < groups@.len() ==> *(#[trigger] groups@[k]) == all[k],
            views(names@) == names_of(all).take(i as int),
        decreases groups.len() - i,
    {
        let name = groups[i].name.clone();
        proof {
            lemma_views_push(names@, name);
            assert(names_of(all).take(i + 1) =~= names_of(all).take(i as int).push(name@));
        }
        names.push(name);
        i += 1;
    }
    assert(names_of(all).take(i as int) =~= names_of(all));
    join_texts(&names, ", ")
}

/// Finds what arguments up to a place name to take over.
pub fn resolve_takeover_target<'a>(
    state: &'a State,
    person_id: &str,
    args: &Vec<String>,
    to: usize,
    week: (i32, u32),
    today: Date,
) -> (r: Result<(&'a CleaningGroup, usize), String>)
    requires
        known(*state, today),
        to <= args@.len(),
        is_year(week.0 as int),
        is_day(week_start(week.0 as int, week.1 as int) + 6),
    ensures
        match takeover_choice(*state, person_id@, args@.take(to as int), week, today) {
            Choice::Slot(g, slot) => {
                &&& r is Ok
                &&& *r->Ok_0.0 == g
                &&& r->Ok_0.1 == slot
                &&& state.cleaning_groups@.contains(g)
            },
            Choice::Unclear(t) => r is Err && r->Err_0@ == t,
        },
{
    let ghost rest = args@.take(to as int);
    if to > 0 {
        assert(rest[0] == args@[0]);
        match state.group_by_name(args[0].as_str()) {
            Some(g) => {
                proof {
                    let p = group_named(args@[0]@);
                    lemma_first_index_is(state.cleaning_groups@, p);
                    assert(state.cleaning_groups@[first_index(state.cleaning_groups@, p)] == *g);
                }
                if to > 1 {
                    assert(rest[1] == args@[1]);
                    return match named_slot(g, args[1].as_str()) {
                        Ok(i) => Ok((g, i)),
                        Err(t) => Err(t),
                    };
                }
                let turn = meant_turn(g, week, today);
                return match auto_pick_takeover_slot(state, g, person_id, turn, today) {
                    Ok(i) => Ok((g, i)),
                    Err(t) => Err(t),
                };
            },
            None => {},
        }
    }
    let own = state.groups_for_person(person_id);
    if own.len() == 0 {
        return Err(
            "You are not in any cleaning group. Specify one: !takeover <group> [<slot>]".to_owned(),
        );
    }
    if own.len() > 1 {
        return Err(
            "You are in multiple groups — specify one: ".to_owned().concat(
                names_list(&own, Ghost(state.groups_of(person_id@))).as_str(),
            ).concat("\nUsage: !takeover <group> [<slot>] [week <N>]"),
        );
    }
    let g = own[0];
    proof {
        assert(*own@[0] == state.groups_of(person_id@)[0]);
        lemma_filter(state.cleaning_groups@, group_with_member(person_id@));
    }
    if to > 0 {
        return match named_slot(g, args[0].as_str()) {
            Ok(i) => Ok((g, i)),
            Err(t) => Err(t),
        };
    }
    let turn = meant_turn(g, week, today);
    match auto_pick_takeover_slot(state, g, person_id, turn, today) {
        Ok(i) => Ok((g, i)),
        Err(t) => Err(t),
    }
}

/// From whom somebody took over.
pub open spec fn from_note(previous: Option<Person>) -> Seq<char> {
    match previous {
        Some(p) => " from "@ + full_label(p),
        None => ""@,
    }
}

/// What a takeover by a known person does.
pub open spec fn takeover_answer(
    state: State,
    req: Request,
    person_id: String,
    rest: Seq<String>,
    week: (i32, u32),
) -> Answer {
    match takeover_choice(state, person_id@, rest, week, req.today) {
        Choice::Unclear(t) => Answer::Says(t),
        Choice::Slot(g, slot) => {
            let turn = turn_meant(g, week, req.today);
            let previous = state.assignee(g, slot, turn, req.today);
            let place = "«"@ + g.name@ + "»"@ + slot_suffix(g, slot, " / "@) + " for week "@
                + week_label(week);
            if state.slot_done(g, slot, turn) {
                Answer::Says(
                    place + " is already completed or skipped — nothing to take over."@,
                )
            } else if previous is Some && previous->0.id@ == person_id@ {
                Answer::Says("You are already responsible for «"@ + g.name@ + "» this week."@)
            } else {
                Answer::Does(
                    hand_over(
                        state,
                        req,
                        g,
                        slot,
                        turn,
                        Some(person_id),
                        AssignmentSource::Takeover,
                    ),
                    "✅ You took over "@ + place + from_note(previous) + outsider_note(
                        g,
                        person_id@,
                        "takeover"@,
                    ) + "."@,
                )
            }
        },
    }
}

/// The event by which whoever asks becomes known, unless they are already.
pub open spec fn registers(req: Request, id: String) -> DomainEvent {
    DomainEvent::PersonCreated {
        person_id: id,
        display_name: req.sender,
        matrix_id: Some(req.sender),
    }
}

/// What `!takeover` does: whoever asks becomes known under an id, unless they are already, and
/// responsible for one slot of the turn that a week stands for.
pub open spec fn took_over(
    pre: State,
    post: State,
    r: Result<String, CommandError>,
    req: Request,
    args: Seq<String>,
    id: String,
) -> bool {
    if !known(pre, req.today) {
        answered(pre, post, r, Answer::Fails(CommandError::OutOfRange), req.now)
    } else {
        match week_clause(args, req.today) {
            None => says_only(pre, post, r, TAKEOVER_USAGE@),
            Some((n, week)) => exists|mid: State|
                {
                    &&& #[trigger] step(pre, mid, registers(req, id), req.now)
                    &&& match mid.person_of(req.sender@) {
                        None => {
                            &&& post == mid
                            &&& r == Err::<String, CommandError>(
                                CommandError::Refused(StateError::UnknownPerson),
                            )
                        },
                        Some(p) => answered(
                            mid,
                            post,
                            r,
                            takeover_answer(mid, req, p.id, args.take(n), week),
                            req.now,
                        ),
                    }
                },
        }
    }
}

/// Makes whoever asks responsible for one slot of a turn; they become known under `id` unless they
/// are already. The turn order and the rest of the plan stay as they are.
pub fn takeover_as(state: &mut State, req: &Request, args: &Vec<String>, id: String) -> (r: Result<
    String,
    CommandError,
>)
    ensures
        took_over(*old(state), *final(state), r, *req, args@, id),
{
    if !is_known(state, req.today) {
        return Err(CommandError::OutOfRange);
    }
    assert(args@.skip(0) =~= args@);
    let (to, week) = match extract_week_arg(args, 0, req.today) {
        Some(v) => v,
        None => {
            return Ok(TAKEOVER_USAGE.to_owned());
        },
    };
    let ghost pre = *state;
    let event = DomainEvent::PersonCreated {
        person_id: id,
        display_name: req.sender.clone(),
        matrix_id: Some(req.sender.clone()),
    };
    match state.apply_event_at(event, req.now) {
        Ok(_) => {},
        Err(e) => {
            return Err(CommandError::Refused(e));
        },
    }
    let ghost mid = *state;
    proof {
        assert(step(pre, mid, registers(*req, id), req.now));
        lemma_near_week(week.0 as int, week.1 as int);
    }
    let person_id = match state.person_by_matrix_id(req.sender.as_str()) {
        Some(p) => p.id.clone(),
        None => {
            return Err(CommandError::Refused(StateError::UnknownPerson));
        },
    };
    let (group, slot) = match resolve_takeover_target(
        state,
        person_id.as_str(),
        args,
        to,
        week,
        req.today,
    ) {
        Ok(v) => v,
        Err(t) => {
            return Ok(t);
        },
    };
    proof {
        lemma_known_group(*state, req.today, *group);
    }
    let turn = meant_turn(group, week, req.today);
    let place = "«".to_owned().concat(group.name.as_str()).concat("»").concat(
        slot_ending(group, slot, " / ").as_str(),
    ).concat(" for week ").concat(show_week(week).as_str());
    if state.is_turn_slot_done(group, slot, turn) {
        return Ok(place.concat(" is already completed or skipped — nothing to take over."));
    }
    let previous = state.slot_assignee_at(group, slot, turn, req.today);
    let from: String = match previous {
        Some(p) => {
            if same_text(p.id.as_str(), person_id.as_str()) {
                return Ok(
                    "You are already responsible for «".to_owned().concat(
                        group.name.as_str(),
                    ).concat("» this week."),
                );
            }
            " from ".to_owned().concat(person_label(p).as_str())
        },
        None => "".to_owned(),
    };
    let text = "✅ You took over ".to_owned().concat(place.as_str()).concat(from.as_str()).concat(
        note_outsider(group, person_id.as_str(), "takeover").as_str(),
    ).concat(".");
    let event = DomainEvent::SlotAssigned {
        group_id: group.id.clone(),
        slot_index: slot,
        iso_year: turn.year,
        iso_week: turn.week,
        shift: turn.shift,
        person_id: Some(person_id),
        source: AssignmentSource::Takeover,
        actor_id: Some(req.sender.clone()),
        previous_person_id: match previous {
            Some(q) => Some(q.id.clone()),
            None => None,
        },
    };
    perform(state, event, text, req.now)
}

/// Makes whoever asks responsible for one slot of a turn. Somebody new gets a random id.
pub fn cmd_takeover(state: &mut State, req: &Request, args: &Vec<String>) -> (r: Result<
    String,
    CommandError,
>)
    ensures
        exists|id: String|
            id@.len() == 36 && #[trigger] took_over(
                *old(state),
                *final(state),
                r,
                *req,
                args@,
                id,
            ),
{
    let id = fresh_id();
    takeover_as(state, req, args, id)
}

} // verus!
