//! What reactions to a plan mark.

use vstd::prelude::*;

use crate::analytics::DomainEvent;
use crate::commands::base::{CommandError, Request};
use crate::commands::done::{marked, marked_by};
use crate::commands::mark_laws::{
    is_done_in, is_new_mark, is_of_tasks, is_own_in, lemma_all_own_in, lemma_marked_run,
    takes_place_in,
};
use crate::commands::takeover::registers;
use crate::commands::tasks::{all_own, is_open, Task};
use crate::course::step;
use crate::domain::Person;
use crate::journal::StateError;
use crate::lists::{find, lemma_filter};
use crate::plain::{is_marked, lemma_marked, marks, places};
use crate::planning::known;
use crate::reactions::{
    marks_own, not_marked_by, plan_week, reacted, reaction_with_id, taken_back, PlanReaction,
};
use crate::state::{Completion, State};

verus! {

/// The state in which somebody who reacted is known.
pub open spec fn is_met(pre: State, met: State, req: Request, p: Person) -> bool {
    &&& met.person_of(req.sender@) == Some(p)
    &&& met.cleaning_groups == pre.cleaning_groups
    &&& met.slot_assignments == pre.slot_assignments
    &&& met.completions == pre.completions
    &&& met.absences == pre.absences
    &&& met.created_at == pre.created_at
}

/// Whether a slot of a turn falls to somebody in the week of a plan and was open.
pub open spec fn is_open_duty(met: State, t: Task, week: (i32, u32), p: Person, req: Request) -> bool {
    &&& is_own_in(met, t, week, p.id@, req.today)
    &&& takes_place_in(met, met.cleaning_groups@[t.group as int], week, req.today)
    &&& met.cleaning_groups@[t.group as int].is_active
    &&& !is_marked(met, met.cleaning_groups@[t.group as int], t.slot as int, t.turn)
}

/// Whether the open slots of a week that fall to somebody are marked now, by them, and no others are.
pub open spec fn duties_are_marked(met: State, post: State, week: (i32, u32), p: Person, req: Request) -> bool {
    &&& post.completions@.len() >= met.completions@.len()
    &&& forall|i: int|
        0 <= i < met.completions@.len() ==> #[trigger] post.completions@[i] == met.completions@[i]
    &&& forall|i: int|
        met.completions@.len() <= i < post.completions@.len() ==> marks_duty_of(
            met,
            #[trigger] post.completions@[i],
            week,
            p,
            req,
        )
    &&& forall|t: Task| #[trigger]
        is_open_duty(met, t, week, p, req) ==> is_marked(
            post,
            met.cleaning_groups@[t.group as int],
            t.slot as int,
            t.turn,
        )
}

/// Whether a mark is by somebody, of an open slot that falls to them.
pub open spec fn marks_duty_of(met: State, c: Completion, week: (i32, u32), p: Person, req: Request) -> bool {
    exists|t: Task|
        is_new_mark(met, c, p.id@, t) && #[trigger] is_open_duty(met, t, week, p, req)
}

proof fn lemma_open_duties(met: State, week: (i32, u32), p: Person, req: Request, t: Task)
    ensures
        all_own(met, week, p.id@, None, req.today, met.cleaning_groups@.len()).filter(
            is_open(met),
        ).contains(t) == is_open_duty(met, t, week, p, req),
{
    let n = met.cleaning_groups@.len();
    let own = all_own(met, week, p.id@, None, req.today, n);
    let open = own.filter(is_open(met));
    lemma_filter(own, is_open(met));
    lemma_all_own_in(met, week, p.id@, req.today, n, t);
    lemma_marked(met, met.cleaning_groups@[t.group as int], t.slot as int, t.turn);
    if open.contains(t) {
        let i = choose|i: int| 0 <= i < open.len() && open[i] == t;
        assert(is_open(met)(open[i]) && own.contains(open[i]));
    }
    if is_open_duty(met, t, week, p, req) {
        let i = choose|i: int| 0 <= i < own.len() && own[i] == t;
        assert(is_open(met)(own[i]));
        assert(open.contains(own[i]));
    }
}

proof fn lemma_marks_own(
    met: State,
    mid: State,
    post: State,
    p: Person,
    reaction_id: Seq<char>,
    week: (i32, u32),
    req: Request,
)
    requires
        marks_own(met, mid, post, p.id, reaction_id, week, req),
    ensures
        duties_are_marked(met, post, week, p, req),
{
    let n = met.cleaning_groups@.len();
    let own = all_own(met, week, p.id@, None, req.today, n);
    let open = own.filter(is_open(met));
    lemma_filter(own, is_open(met));
    assert forall|i: int| 0 <= i < open.len() implies is_open(met)(#[trigger] open[i])
        && open[i].slot < places(met.cleaning_groups@[open[i].group as int]) by {
        assert(open.contains(open[i]));
        lemma_open_duties(met, week, p, req, open[i]);
    }
    let said = choose|said: Seq<Seq<char>>| #[trigger]
        marked(met, mid, open, p.id, req.today, req.now, said);
    let (h, events) = choose|h: Seq<State>, events: Seq<DomainEvent>| #[trigger]
        marked_by(h, events, met, mid, open, p.id, req.today, req.now, said);
    let m = open.len() as int;
    lemma_marked_run(h, events, met, mid, open, p.id, req.today, req.now, said, m);
    assert(h[m] == mid);
    assert(post.completions == mid.completions);
    assert forall|i: int|
        met.completions@.len() <= i < post.completions@.len() implies marks_duty_of(
        met,
        #[trigger] post.completions@[i],
        week,
        p,
        req,
    ) by {
        assert(is_of_tasks(met, h[m].completions@[i], p.id@, open, m));
        let j = choose|j: int|
            0 <= j < m && is_new_mark(met, h[m].completions@[i], p.id@, #[trigger] open[j]);
        assert(open.contains(open[j]));
        lemma_open_duties(met, week, p, req, open[j]);
    }
    assert forall|t: Task| #[trigger] is_open_duty(met, t, week, p, req) implies is_marked(
        post,
        met.cleaning_groups@[t.group as int],
        t.slot as int,
        t.turn,
    ) by {
        lemma_open_duties(met, week, p, req, t);
        let j = choose|j: int| 0 <= j < open.len() && open[j] == t;
        assert(is_done_in(met, h[m], open[j]));
    }
}

/// Reacting to the plan of a week marks all open slots of that week that fall to whoever reacts, in
/// all active groups, and no other slot; what was marked stays.
pub proof fn law_reactions_mark_ones_own(
    pre: State,
    post: State,
    r: Result<PlanReaction, CommandError>,
    req: Request,
    message_id: Seq<char>,
    reaction_id: Seq<char>,
    sign: Seq<char>,
    id: String,
)
    requires
        reacted(pre, post, r, req, message_id, reaction_id, sign, id),
        r is Ok,
        r->Ok_0 is Marked,
    ensures
        plan_week(pre, message_id) is Some,
        exists|met: State, p: Person|
            is_met(pre, met, req, p) && #[trigger] duties_are_marked(
                met,
                post,
                plan_week(pre, message_id)->0,
                p,
                req,
            ),
{
    let week = plan_week(pre, message_id)->0;
    let met = choose|met: State|
        {
            &&& #[trigger] step(pre, met, registers(req, id), req.now)
            &&& match met.person_of(req.sender@) {
                None => post == met && r == Err::<PlanReaction, CommandError>(
                    CommandError::Refused(StateError::UnknownPerson),
                ),
                Some(p) => if all_own(
                    met,
                    week,
                    p.id@,
                    None,
                    req.today,
                    met.cleaning_groups@.len(),
                ).len() == 0 {
                    post == met && r == Ok::<PlanReaction, CommandError>(PlanReaction::NotAssigned)
                } else {
                    &&& r == Ok::<PlanReaction, CommandError>(
                        PlanReaction::Marked(week.0, week.1),
                    )
                    &&& exists|mid: State| #[trigger]
                        marks_own(met, mid, post, p.id, reaction_id, week, req)
                },
            }
        };
    let p = met.person_of(req.sender@)->0;
    let mid = choose|mid: State| #[trigger]
        marks_own(met, mid, post, p.id, reaction_id, week, req);
    lemma_marks_own(met, mid, post, p, reaction_id, week, req);
    assert(is_met(pre, met, req, p));
}

/// Taking a reaction back takes back the marks that whoever reacted made in the group and week of
/// the reaction, and no others.
pub proof fn law_taking_a_reaction_back_takes_those_marks(
    pre: State,
    post: State,
    r: Option<(i32, u32)>,
    event_id: Seq<char>,
    i: int,
    c: Completion,
)
    requires
        taken_back(pre, post, r, event_id),
        0 <= i < pre.reaction_dones@.len(),
        pre.reaction_dones@[i].event_id@ == event_id,
        forall|k: int| 0 <= k < i ==> (#[trigger] pre.reaction_dones@[k]).event_id@ != event_id,
    ensures
        post.completions@.contains(c) == (pre.completions@.contains(c) && !({
            let d = pre.reaction_dones@[i];
            &&& c.group_id@ == d.group_id@
            &&& c.iso_year == d.iso_year
            &&& c.iso_week == d.iso_week
            &&& c.completed_by_id@ == d.completed_by_id@
        })),
        post.slot_assignments == pre.slot_assignments,
        post.cleaning_groups == pre.cleaning_groups,
        forall|k: int|
            0 <= k < post.reaction_dones@.len() ==> (#[trigger] post.reaction_dones@[k]).event_id@
                != event_id,
{
    let s = pre.reaction_dones@;
    let q = reaction_with_id(event_id);
    assert forall|k: int| 0 <= k < i implies !q(#[trigger] s[k]) by {
        assert(s[k].event_id@ != event_id);
    }
    crate::lists::lemma_first_index(s, q, i);
    let d = s[i];
    assert(find(s, q) == Some(d));
    let keep = not_marked_by(d);
    lemma_filter(pre.completions@, keep);
    lemma_filter(s, crate::reactions::other_reaction(event_id));
    if post.completions@.contains(c) {
        let k = choose|k: int| 0 <= k < post.completions@.len() && post.completions@[k] == c;
        assert(keep(post.completions@[k]) && pre.completions@.contains(post.completions@[k]));
    }
    if pre.completions@.contains(c) && keep(c) {
        let k = choose|k: int| 0 <= k < pre.completions@.len() && pre.completions@[k] == c;
        assert(post.completions@.contains(pre.completions@[k]));
    }
}

} // verus!
