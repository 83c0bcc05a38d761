//! Reactions on plan messages: marking tasks as done, and taking that back.

use vstd::prelude::*;

use crate::commands::base::{CommandError, Request};
use crate::commands::done::{mark_all, marked};
use crate::commands::takeover::registers;
use crate::commands::tasks::{all_own, is_open, list_all_own, open_tasks, Task};
use crate::analytics::DomainEvent;
use crate::course::step;
use crate::domain::{fresh_id, PersonId};
use crate::journal::StateError;
use crate::lists::{find, lemma_filter, lemma_first_index, retain};
use crate::planning::{is_known, known, turn_fits};
use crate::rhythm::Turn;
use crate::state::{Completion, PlanEvent, ReactionDone, State};
use crate::text::{same_text, views};

verus! {

// ── Marking ──────────────────────────────────────────────────────────────────

/// The reaction that marks tasks as done.
pub const DONE_SIGN: &'static str = "✅";

/// A plan message.
pub open spec fn plan_with_id(event_id: Seq<char>) -> spec_fn(PlanEvent) -> bool {
    |e: PlanEvent| e.event_id@ == event_id
}

/// The week that a plan message shows.
pub open spec fn plan_week(state: State, event_id: Seq<char>) -> Option<(i32, u32)> {
    match find(state.weekly_plan_event_ids@, plan_with_id(event_id)) {
        Some(e) => Some((e.iso_year, e.iso_week)),
        None => None,
    }
}

/// The week that a plan message shows.
pub fn find_plan_week(state: &State, event_id: &str) -> (r: Option<(i32, u32)>)
    ensures
        r == plan_week(*state, event_id@),
{
    let all = &state.weekly_plan_event_ids;
    let ghost p = plan_with_id(event_id@);
    let mut i: usize = 0;
    while i < all.len()
        invariant
            i <= all.len(),
            all == &state.weekly_plan_event_ids,
            p == plan_with_id(event_id@),
            forall|k: int| 0 <= k < i ==> !p(#[trigger] all@[k]),
        decreases all.len() - i,
    {
        if same_text(all[i].event_id.as_str(), event_id) {
            proof {
                lemma_first_index(all@, p, i as int);
            }
            return Some((all[i].iso_year, all[i].iso_week));
        }
        i += 1;
    }
    proof {
        lemma_first_index(all@, p, i as int);
    }
    None
}

/// What comes of a reaction on a message.
#[derive(Clone, Debug)]
pub enum PlanReaction {
    /// It was no sign of being done, or not on a plan.
    Ignored,
    /// Whoever reacted has nothing to do in that plan.
    NotAssigned,
    /// Their open tasks are marked as done; the plan of that week is to be shown anew.
    Marked(i32, u32),
}

/// What is said to somebody who has nothing to do in a plan.
pub const NOT_ASSIGNED: &'static str = "You are not assigned to any open item in this plan.";

/// What reactions other than one marked.
pub open spec fn other_reaction(event_id: Seq<char>) -> spec_fn(ReactionDone) -> bool {
    |d: ReactionDone| d.event_id@ != event_id
}

/// Whether a reaction was noted with the first of the tasks that it marked, if there are any.
pub open spec fn noted(
    mid: State,
    post: State,
    tasks: Seq<Task>,
    person_id: PersonId,
    reaction_id: Seq<char>,
    week: (i32, u32),
) -> bool {
    if tasks.len() == 0 {
        post == mid
    } else {
        let d = post.reaction_dones@.last();
        &&& post == State { reaction_dones: post.reaction_dones, ..mid }
        &&& post.reaction_dones@.len() > 0
        &&& post.reaction_dones@.drop_last() == mid.reaction_dones@.filter(
            other_reaction(reaction_id),
        )
        &&& d.event_id@ == reaction_id
        &&& d.group_id == mid.cleaning_groups@[tasks[0].group as int].id
        &&& d.completed_by_id == person_id
        &&& d.iso_year == week.0
        &&& d.iso_week == week.1
    }
}

/// Whether the open tasks of somebody in a week were marked as done by a reaction.
pub open spec fn marks_own(
    met: State,
    mid: State,
    post: State,
    person_id: PersonId,
    reaction_id: Seq<char>,
    week: (i32, u32),
    req: Request,
) -> bool {
    let own = all_own(
        met,
        week,
        person_id@,
        None,
        req.today,
        met.cleaning_groups@.len(),
    );
    let open = own.filter(is_open(met));
    &&& exists|said: Seq<Seq<char>>| #[trigger]
        marked(met, mid, open, person_id, req.today, req.now, said)
    &&& noted(mid, post, open, person_id, reaction_id, week)
}

/// What a reaction on a message does: whoever reacts becomes known under an id, unless they are
/// already, and their open tasks of the week that the message shows are done.
pub open spec fn reacted(
    pre: State,
    post: State,
    r: Result<PlanReaction, CommandError>,
    req: Request,
    message_id: Seq<char>,
    reaction_id: Seq<char>,
    sign: Seq<char>,
    id: String,
) -> bool {
    if sign != DONE_SIGN@ || plan_week(pre, message_id) is None {
        post == pre && r == Ok::<PlanReaction, CommandError>(PlanReaction::Ignored)
    } else {
        let week = plan_week(pre, message_id)->0;
        if !known(pre, req.today) || !(Turn { year: week.0, week: week.1, shift: 0 }).wf() {
            post == pre && r == Err::<PlanReaction, CommandError>(CommandError::OutOfRange)
        } else {
            exists|met: State|
                {
                    &&& #[trigger] step(pre, met, registers(req, id), req.now)
                    &&& match met.person_of(req.sender@) {
                        None => post == met && r == Err::<PlanReaction, CommandError>(
                            CommandError::Refused(StateError::UnknownPerson),
                        ),
                        Some(p) => if all_own(
                            met,
                            week,
                            p.id@,
                            None,
                            req.today,
                            met.cleaning_groups@.len(),
                        ).len() == 0 {
                            post == met && r == Ok::<PlanReaction, CommandError>(
                                PlanReaction::NotAssigned,
                            )
                        } else {
                            &&& r == Ok::<PlanReaction, CommandError>(
                                PlanReaction::Marked(week.0, week.1),
                            )
                            &&& exists|mid: State| #[trigger]
                                marks_own(met, mid, post, p.id, reaction_id, week, req)
                        },
                    }
                }
        }
    }
}

/// Notes what a reaction marked.
fn note_reaction(
    state: &mut State,
    tasks: &Vec<Task>,
    person_id: &PersonId,
    reaction_id: &str,
    week: (i32, u32),
)
    requires
        tasks@.len() > 0 ==> tasks@[0].group < old(state).cleaning_groups@.len(),
    ensures
        noted(*old(state), *final(state), tasks@, *person_id, reaction_id@, week),
{
    if tasks.len() == 0 {
        return;
    }
    let d = ReactionDone {
        event_id: reaction_id.to_owned(),
        group_id: state.cleaning_groups[tasks[0].group].id.clone(),
        completed_by_id: person_id.clone(),
        iso_year: week.0,
        iso_week: week.1,
    };
    let keep = |d: &ReactionDone| -> (b: bool)
        ensures
            b == (d.event_id@ != reaction_id@),
        { !same_text(d.event_id.as_str(), reaction_id) };
    retain(&mut state.reaction_dones, keep, Ghost(other_reaction(reaction_id@)));
    let ghost kept = state.reaction_dones@;
    state.reaction_dones.push(d);
    assert(state.reaction_dones@.drop_last() =~= kept);
}

/// Carries out a reaction on a message; whoever reacts becomes known under `id` unless they are
/// already.
pub fn react_as(
    state: &mut State,
    req: &Request,
    message_id: &str,
    reaction_id: &str,
    sign: &str,
    id: String,
) -> (r: Result<PlanReaction, CommandError>)
    ensures
        reacted(*old(state), *final(state), r, *req, message_id@, reaction_id@, sign@, id),
{
    if !same_text(sign, DONE_SIGN) {
        return Ok(PlanReaction::Ignored);
    }
    let week = match find_plan_week(state, message_id) {
        Some(w) => w,
        None => {
            return Ok(PlanReaction::Ignored);
        },
    };
    if !is_known(state, req.today) || !turn_fits(Turn { year: week.0, week: week.1, shift: 0 }) {
        return Err(CommandError::OutOfRange);
    }
    let ghost pre = *state;
    let event = DomainEvent::PersonCreated {
        person_id: id,
        display_name: req.sender.clone(),
        matrix_id: Some(req.sender.clone()),
    };
    match state.apply_event_at(event, req.now) {
        Ok(_) => {},
        Err(e) => {
            return Err(CommandError::Refused(e));
        },
    }
    let ghost met = *state;
    assert(step(pre, met, registers(*req, id), req.now));
    let person_id = match state.person_by_matrix_id(req.sender.as_str()) {
        Some(p) => p.id.clone(),
        None => {
            return Err(CommandError::Refused(StateError::UnknownPerson));
        },
    };
    let own = list_all_own(state, week, person_id.as_str(), &None, req.today);
    if own.len() == 0 {
        return Ok(PlanReaction::NotAssigned);
    }
    let open = open_tasks(state, &own);
    match mark_all(state, &open, &person_id, req.today, req.now) {
        Ok(said) => {
            let ghost told = views(said@);
            let ghost mid = *state;
            proof {
                assert(marked(met, mid, open@, person_id, req.today, req.now, told));
                assert(mid.cleaning_groups@.len() == met.cleaning_groups@.len());
            }
            note_reaction(state, &open, &person_id, reaction_id, week);
            assert(marks_own(met, mid, *state, person_id, reaction_id@, week, *req));
            Ok(PlanReaction::Marked(week.0, week.1))
        },
        Err(e) => Err(CommandError::Refused(e)),
    }
}

/// Carries out a reaction on a message. Somebody new gets a random id.
pub fn react(
    state: &mut State,
    req: &Request,
    message_id: &str,
    reaction_id: &str,
    sign: &str,
) -> (r: Result<PlanReaction, CommandError>)
    ensures
        exists|id: String|
            id@.len() == 36 && #[trigger] reacted(
                *old(state),
                *final(state),
                r,
                *req,
                message_id@,
                reaction_id@,
                sign@,
                id,
            ),
{
    let id = fresh_id();
    react_as(state, req, message_id, reaction_id, sign, id)
}

// ── Taking back ──────────────────────────────────────────────────────────────

/// What a reaction marked.
pub open spec fn reaction_with_id(event_id: Seq<char>) -> spec_fn(ReactionDone) -> bool {
    |d: ReactionDone| d.event_id@ == event_id
}

/// A mark that a reaction did not make: of another group or week, or by somebody else.
pub open spec fn not_marked_by(d: ReactionDone) -> spec_fn(Completion) -> bool {
    |c: Completion|
        !(c.group_id@ == d.group_id@ && c.iso_year == d.iso_year && c.iso_week == d.iso_week
            && c.completed_by_id@ == d.completed_by_id@)
}

/// What taking back a reaction does: the marks that it made are gone, and it is forgotten.
pub open spec fn taken_back(
    pre: State,
    post: State,
    r: Option<(i32, u32)>,
    event_id: Seq<char>,
) -> bool {
    match find(pre.reaction_dones@, reaction_with_id(event_id)) {
        None => post == pre && r is None,
        Some(d) => {
            &&& post == State {
                reaction_dones: post.reaction_dones,
                completions: post.completions,
                ..pre
            }
            &&& post.reaction_dones@ == pre.reaction_dones@.filter(other_reaction(event_id))
            &&& post.completions@ == pre.completions@.filter(not_marked_by(d))
            &&& r == if post.completions@.len() < pre.completions@.len() {
                Some((d.iso_year, d.iso_week))
            } else {
                None
            }
        },
    }
}

/// Takes back what a reaction marked; returns the week whose plan is to be shown anew.
pub fn take_back(state: &mut State, event_id: &str) -> (r: Option<(i32, u32)>)
    ensures
        taken_back(*old(state), *final(state), r, event_id@),
{
    let d: ReactionDone = match find_reaction(state, event_id) {
        Some(d) => d,
        None => {
            return None;
        },
    };
    let before = state.completions.len();
    let keep = |x: &ReactionDone| -> (b: bool)
        ensures
            b == (x.event_id@ != event_id@),
        { !same_text(x.event_id.as_str(), event_id) };
    retain(&mut state.reaction_dones, keep, Ghost(other_reaction(event_id@)));
    let stays = |c: &Completion| -> (b: bool)
        ensures
            b == !(c.group_id@ == d.group_id@ && c.iso_year == d.iso_year && c.iso_week
                == d.iso_week && c.completed_by_id@ == d.completed_by_id@),
        {
            !(c.iso_year == d.iso_year && c.iso_week == d.iso_week && same_text(
                c.group_id.as_str(),
                d.group_id.as_str(),
            ) && same_text(c.completed_by_id.as_str(), d.completed_by_id.as_str()))
        };
    let ghost found = find(old(state).reaction_dones@, reaction_with_id(event_id@))->0;
    assert(not_marked_by(found) =~= not_marked_by(d));
    retain(&mut state.completions, stays, Ghost(not_marked_by(d)));
    if state.completions.len() < before {
        Some((d.iso_year, d.iso_week))
    } else {
        None
    }
}

/// What a reaction marked.
fn find_reaction(state: &State, event_id: &str) -> (r: Option<ReactionDone>)
    ensures
        r == find(state.reaction_dones@, reaction_with_id(event_id@)),
{
    let all = &state.reaction_dones;
    let ghost p = reaction_with_id(event_id@);
    let mut i: usize = 0;
    while i < all.len()
        invariant
            i <= all.len(),
            all == &state.reaction_dones,
            p == reaction_with_id(event_id@),
            forall|k: int| 0 <= k < i ==> !p(#[trigger] all@[k]),
        decreases all.len() - i,
    {
        if same_text(all[i].event_id.as_str(), event_id) {
            proof {
                lemma_first_index(all@, p, i as int);
            }
            return Some(
                ReactionDone {
                    event_id: all[i].event_id.clone(),
                    group_id: all[i].group_id.clone(),
                    completed_by_id: all[i].completed_by_id.clone(),
                    iso_year: all[i].iso_year,
                    iso_week: all[i].iso_week,
                },
            );
        }
        i += 1;
    }
    proof {
        lemma_first_index(all@, p, i as int);
    }
    None
}

/// Taking back a reaction leaves the marks of all other groups, weeks and people alone.
pub proof fn law_taking_back_keeps_other_marks(
    pre: State,
    post: State,
    r: Option<(i32, u32)>,
    event_id: Seq<char>,
    c: Completion,
)
    requires
        taken_back(pre, post, r, event_id),
        pre.completions@.contains(c),
        find(pre.reaction_dones@, reaction_with_id(event_id)) is Some ==> not_marked_by(
            find(pre.reaction_dones@, reaction_with_id(event_id))->0,
        )(c),
    ensures
        post.completions@.contains(c),
{
    match find(pre.reaction_dones@, reaction_with_id(event_id)) {
        None => {},
        Some(d) => {
            lemma_filter(pre.completions@, not_marked_by(d));
        },
    }
}

} // verus!
