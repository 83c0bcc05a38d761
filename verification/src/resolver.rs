//! Slot assignment resolver.
//!
//! `materialize` computes frozen assignments for the upcoming turns of every group and returns
//! them as `SlotAssigned` (+ `RotationQueueSet`) events. It reads state and returns events to
//! apply. Already-assigned turns are skipped and never recomputed or overwritten.
//!
//! # Rotation queue
//!
//! Each `CleaningGroup` carries its turn order, front = next up. For every not-yet-frozen turn,
//! `materialize` takes one member per slot from the front of the queue and puts them at the back,
//! then freezes that pick. All turns and slots of the same week draw from the same queue in
//! sequence, so nobody is drawn twice in one week — including when there are fewer members than
//! turns × slots, in which case the leftovers are left unassigned.

use vstd::prelude::*;

use crate::analytics::DomainEvent;
use crate::calendar::{
    is_day, is_today, is_year, lemma_week_start, lemma_whole_week, planning_day, week_at,
    week_monday, week_no_of, week_of, week_start, weeks_between, Date, LAST_WEEK,
};
use crate::domain::{AssignmentSource, CleaningGroup, PersonId, SlotAssignment};
use crate::lists::{count, first_index, lemma_filter_step, lemma_first_index, some};
use crate::rhythm::Turn;
use crate::state::{assignment_of, remainder, State};
use crate::text::{contains_text, same_text, says};

verus! {

// ── The queue ────────────────────────────────────────────────────────────────

/// The ids among `ids`.
pub open spec fn among(ids: Seq<String>) -> spec_fn(String) -> bool {
    |id: String| says(ids, id@)
}

/// The ids not among `ids`.
pub open spec fn not_among(ids: Seq<String>) -> spec_fn(String) -> bool {
    |id: String| !says(ids, id@)
}

/// An assignment of somebody in a group.
pub open spec fn assigned_in(group_id: Seq<char>) -> spec_fn(SlotAssignment) -> bool {
    |a: SlotAssignment| a.group_id@ == group_id && a.person_id is Some
}

/// `queue` followed by each of `ids` that is not in it yet.
pub open spec fn with_missing(queue: Seq<String>, ids: Seq<String>) -> Seq<String>
    decreases ids.len(),
{
    if ids.len() == 0 {
        queue
    } else {
        let r = with_missing(queue, ids.drop_last());
        if says(r, ids.last()@) {
            r
        } else {
            r.push(ids.last())
        }
    }
}

/// A sequence that starts `k` places later and goes round.
pub open spec fn rotated(s: Seq<String>, k: int) -> Seq<String> {
    s.skip(k) + s.take(k)
}

/// The turn order of a group: the queue without those who are no longer members, and with the
/// members that it misses at the end. An empty queue starts out as the members, continuing after
/// as many turns as have been assigned.
pub open spec fn turn_order(state: State, group: CleaningGroup) -> Seq<String> {
    let kept = group.rotation_queue@.filter(among(group.member_ids@));
    if kept.len() == 0 && group.member_ids@.len() > 0 {
        rotated(
            group.member_ids@,
            count(state.slot_assignments@, assigned_in(group.id@)) as int
                % group.member_ids@.len() as int,
        )
    } else {
        with_missing(kept, group.member_ids@)
    }
}

/// Reconcile a group's stored queue against its current members: drop ids that are no longer
/// members, append members that aren't queued yet (in member order), and otherwise keep
/// everyone's relative position.
///
/// When the queue is empty but the group has members, it is seeded from them, rotated by however
/// many assignments already happened, so that an existing cycle continues.
pub fn reconcile_queue(state: &State, group: &CleaningGroup) -> (r: Vec<PersonId>)
    ensures
        r@ == turn_order(*state, *group),
{
    let ghost keep = among(group.member_ids@);
    let mut queue: Vec<PersonId> = Vec::new();
    let mut i: usize = 0;
    assert(group.rotation_queue@.take(0).filter(keep) =~= Seq::<String>::empty()) by {
        reveal(Seq::filter);
    }
    while i < group.rotation_queue.len()
        invariant
            i <= group.rotation_queue.len(),
            keep == among(group.member_ids@),
            queue@ == group.rotation_queue@.take(i as int).filter(keep),
        decreases group.rotation_queue.len() - i,
    {
        proof {
            lemma_filter_step(group.rotation_queue@, keep, i as int);
        }
        if contains_text(&group.member_ids, group.rotation_queue[i].as_str()) {
            queue.push(group.rotation_queue[i].clone());
        }
        i += 1;
    }
    assert(group.rotation_queue@.take(i as int) =~= group.rotation_queue@);
    if queue.is_empty() && !group.member_ids.is_empty() {
        let prior = assigned_count(state, group.id.as_str());
        let n = group.member_ids.len();
        let shift: usize = prior % n;
        let mut seed: Vec<PersonId> = Vec::new();
        let ghost whole = rotated(group.member_ids@, shift as int);
        let mut k: usize = 0;
        while k < n
            invariant
                k <= n,
                n == group.member_ids.len(),
                shift < n,
                whole == rotated(group.member_ids@, shift as int),
                seed@ == whole.take(k as int),
            decreases n - k,
        {
            let at: usize = if k < n - shift {
                shift + k
            } else {
                k - (n - shift)
            };
            assert(whole.take(k + 1) =~= whole.take(k as int).push(group.member_ids@[at as int]));
            seed.push(group.member_ids[at].clone());
            k += 1;
        }
        assert(whole.take(n as int) =~= whole);
        seed
    } else {
        let ghost kept = queue@;
        let mut k: usize = 0;
        assert(group.member_ids@.take(0) =~= Seq::<String>::empty());
        while k < group.member_ids.len()
            invariant
                k <= group.member_ids.len(),
                queue@ == with_missing(kept, group.member_ids@.take(k as int)),
            decreases group.member_ids.len() - k,
        {
            proof {
                let more = group.member_ids@.take(k + 1);
                assert(more.drop_last() =~= group.member_ids@.take(k as int));
                assert(more.last() == group.member_ids@[k as int]);
            }
            if !contains_text(&queue, group.member_ids[k].as_str()) {
                queue.push(group.member_ids[k].clone());
            }
            k += 1;
        }
        assert(group.member_ids@.take(k as int) =~= group.member_ids@);
        queue
    }
}

/// How many assignments of somebody a group has.
fn assigned_count(state: &State, group_id: &str) -> (r: usize)
    ensures
        r == count(state.slot_assignments@, assigned_in(group_id@)),
{
    let ghost p = assigned_in(group_id@);
    let mut n: usize = 0;
    let mut i: usize = 0;
    assert(state.slot_assignments@.take(0).filter(p) =~= Seq::<SlotAssignment>::empty()) by {
        reveal(Seq::filter);
    }
    while i < state.slot_assignments.len()
        invariant
            i <= state.slot_assignments.len(),
            n <= i,
            p == assigned_in(group_id@),
            n == state.slot_assignments@.take(i as int).filter(p).len(),
        decreases state.slot_assignments.len() - i,
    {
        proof {
            lemma_filter_step(state.slot_assignments@, p, i as int);
        }
        let a = &state.slot_assignments[i];
        if a.person_id.is_some() && same_text(a.group_id.as_str(), group_id) {
            n += 1;
        }
        i += 1;
    }
    assert(state.slot_assignments@.take(i as int) =~= state.slot_assignments@);
    n
}

// ── Drawing ──────────────────────────────────────────────────────────────────

/// Who was drawn for one slot of one turn; `None` when nobody could be.
pub struct Pick {
    pub turn: Turn,
    pub slot: int,
    pub person: Option<String>,
}

/// How far drawing has come.
pub struct Plan {
    /// The turn order after what was drawn.
    pub queue: Seq<String>,
    /// Who has a turn in the current week already.
    pub used: Set<Seq<char>>,
    /// What was drawn, in order.
    pub picks: Seq<Pick>,
    /// Whether anybody was drawn.
    pub drawn: bool,
}

/// Who can be drawn for a week: those without a turn in it who are not away.
pub open spec fn eligible(
    state: State,
    group: CleaningGroup,
    used: Set<Seq<char>>,
    year: i32,
    week: u32,
) -> spec_fn(String) -> bool {
    |id: String| !used.contains(id@) && !state.away(id@, group.id@, year, week)
}

/// Whether one slot of one turn has an assignment.
pub open spec fn frozen(state: State, group: CleaningGroup, slot: int, turn: Turn) -> bool {
    some(state.slot_assignments@, assignment_of(group.id@, slot, turn))
}

/// Draws for one slot of one turn, unless it is frozen: the first in the queue who can be drawn
/// goes to its end.
pub open spec fn fill_slot(state: State, group: CleaningGroup, plan: Plan, turn: Turn, slot: int) -> Plan {
    if frozen(state, group, slot, turn) {
        plan
    } else {
        let can = eligible(state, group, plan.used, turn.year, turn.week);
        let at = first_index(plan.queue, can);
        if at < plan.queue.len() {
            let id = plan.queue[at];
            Plan {
                queue: plan.queue.remove(at).push(id),
                used: plan.used.insert(id@),
                picks: plan.picks.push(Pick { turn, slot, person: Some(id) }),
                drawn: true,
            }
        } else {
            Plan { picks: plan.picks.push(Pick { turn, slot, person: None }), ..plan }
        }
    }
}

/// Draws for the first `n` slots of a turn.
pub open spec fn fill_slots(state: State, group: CleaningGroup, plan: Plan, turn: Turn, n: nat) -> Plan
    decreases n,
{
    if n == 0 {
        plan
    } else {
        fill_slot(
            state,
            group,
            fill_slots(state, group, plan, turn, (n - 1) as nat),
            turn,
            n - 1,
        )
    }
}

/// Draws for each turn of a sequence.
pub open spec fn fill_turns(state: State, group: CleaningGroup, plan: Plan, turns: Seq<Turn>) -> Plan
    decreases turns.len(),
{
    if turns.len() == 0 {
        plan
    } else {
        fill_slots(
            state,
            group,
            fill_turns(state, group, plan, turns.drop_last()),
            turns.last(),
            group.slot_count(),
        )
    }
}

/// An assignment of somebody in a group in a week.
pub open spec fn holds_turn(group_id: Seq<char>, year: i32, week: u32, person: Seq<char>) -> spec_fn(
    SlotAssignment,
) -> bool {
    |a: SlotAssignment|
        a.group_id@ == group_id && a.iso_year == year && a.iso_week == week && a.person_id is Some
            && a.person_id->0@ == person
}

/// Those who have a turn in a week already.
pub open spec fn busy(state: State, group: CleaningGroup, year: i32, week: u32) -> Set<Seq<char>> {
    Set::new(
        |t: Seq<char>| some(state.slot_assignments@, holds_turn(group.id@, year, week, t)),
    )
}

/// Draws for all turns of a week.
pub open spec fn fill_week(
    state: State,
    group: CleaningGroup,
    today: Date,
    plan: Plan,
    year: i32,
    week: u32,
) -> Plan {
    fill_turns(
        state,
        group,
        Plan { used: busy(state, group, year, week), ..plan },
        state.week_turns(group, today, year, week),
    )
}

/// The place of the due week that drawing starts with.
pub open spec fn first_due_no(state: State, group: CleaningGroup, today: Date) -> int {
    state.next_due_no(group, today, today.week_no())
}

/// The due week `i` cycles after the first.
pub open spec fn due_week(state: State, group: CleaningGroup, today: Date, i: int) -> (int, int) {
    week_at(first_due_no(state, group, today) + i * group.rhythm.interval())
}

/// Whether the due week `i` cycles after the first can be represented.
pub open spec fn due_fits(state: State, group: CleaningGroup, today: Date, i: int) -> bool {
    is_day(7 * (first_due_no(state, group, today) + i * group.rhythm.interval()) + 7)
}

/// What is drawn for the first `n` due weeks from today on. Weeks that cannot be represented are
/// left out.
pub open spec fn plan_for(state: State, group: CleaningGroup, today: Date, n: nat) -> Plan
    decreases n,
{
    if n == 0 {
        Plan {
            queue: turn_order(state, group),
            used: Set::empty(),
            picks: Seq::empty(),
            drawn: false,
        }
    } else {
        let before = plan_for(state, group, today, (n - 1) as nat);
        let week = due_week(state, group, today, n - 1);
        if due_fits(state, group, today, n - 1) {
            fill_week(state, group, today, before, week.0 as i32, week.1 as u32)
        } else {
            before
        }
    }
}

/// Whether the first `n` due weeks can be represented.
pub open spec fn horizon_ok(state: State, group: CleaningGroup, today: Date, n: int) -> bool {
    n > 0 ==> due_fits(state, group, today, n - 1)
}

/// The event that freezes a pick.
pub open spec fn freezes(e: DomainEvent, group_id: Seq<char>, pick: Pick) -> bool {
    match e {
        DomainEvent::SlotAssigned {
            group_id: g,
            slot_index,
            iso_year,
            iso_week,
            shift,
            person_id,
            source,
            actor_id,
            previous_person_id,
        } => {
            &&& g@ == group_id
            &&& slot_index == pick.slot
            &&& iso_year == pick.turn.year
            &&& iso_week == pick.turn.week
            &&& shift == pick.turn.shift
            &&& person_id == pick.person
            &&& source == AssignmentSource::RoundRobin
            &&& actor_id is None
            &&& previous_person_id is None
        },
        _ => false,
    }
}

/// The event that stores a turn order.
pub open spec fn stores_queue(e: DomainEvent, group_id: Seq<char>, queue: Seq<String>) -> bool {
    match e {
        DomainEvent::RotationQueueSet { group_id: g, queue: q } => g@ == group_id && q@ == queue,
        _ => false,
    }
}

/// How many events a plan takes.
pub open spec fn event_count(plan: Plan) -> nat {
    plan.picks.len() + if plan.drawn {
        1nat
    } else {
        0nat
    }
}

/// The events of a plan: one for each pick, and the new turn order when anybody was drawn.
pub open spec fn carries_out(events: Seq<DomainEvent>, group_id: Seq<char>, plan: Plan) -> bool {
    &&& events.len() == event_count(plan)
    &&& forall|i: int|
        0 <= i < plan.picks.len() ==> freezes(#[trigger] events[i], group_id, plan.picks[i])
    &&& plan.drawn ==> stores_queue(events.last(), group_id, plan.queue)
}

/// The plan of a group for some due weeks: nothing for a group without members.
pub open spec fn group_plan(state: State, group: CleaningGroup, today: Date, cycles: int) -> Plan {
    if group.member_ids@.len() == 0 {
        plan_for(state, group, today, 0)
    } else {
        plan_for(state, group, today, cycles as nat)
    }
}

/// Who has a turn in a week already.
fn busy_members(state: &State, group: &CleaningGroup, year: i32, week: u32) -> (r: Vec<PersonId>)
    ensures
        forall|t: Seq<char>|
            #[trigger] busy(*state, *group, year, week).contains(t) <==> says(r@, t),
{
    let mut r: Vec<PersonId> = Vec::new();
    let mut i: usize = 0;
    while i < state.slot_assignments.len()
        invariant
            i <= state.slot_assignments.len(),
            forall|t: Seq<char>|
                #![trigger says(r@, t)]
                says(r@, t) <==> exists|k: int|
                    0 <= k < i && holds_turn(group.id@, year, week, t)(
                        #[trigger] state.slot_assignments@[k],
                    ),
        decreases state.slot_assignments.len() - i,
    {
        let a = &state.slot_assignments[i];
        let ghost before = r@;
        let mut added = false;
        if a.iso_year == year && a.iso_week == week && same_text(
            a.group_id.as_str(),
            group.id.as_str(),
        ) {
            match &a.person_id {
                Some(id) => {
                    r.push(id.clone());
                    added = true;
                },
                None => {},
            }
        }
        proof {
            assert forall|t: Seq<char>|
                #![trigger says(r@, t)]
                says(r@, t) <==> exists|k: int|
                    0 <= k < i + 1 && holds_turn(group.id@, year, week, t)(
                        #[trigger] state.slot_assignments@[k],
                    ) by {
                if added {
                    lemma_says_push(before, r@.last(), t);
                }
                let at = holds_turn(group.id@, year, week, t);
                assert(says(before, t) <==> exists|k: int|
                    0 <= k < i && at(#[trigger] state.slot_assignments@[k]));
                assert(at(state.slot_assignments@[i as int]) <==> added && r@.last()@ == t);
            }
        }
        i += 1;
    }
    proof {
        assert forall|t: Seq<char>|
            #[trigger] busy(*state, *group, year, week).contains(t) <==> says(r@, t) by {
            crate::lists::lemma_some(
                state.slot_assignments@,
                holds_turn(group.id@, year, week, t),
            );
        }
    }
    r
}

/// Pushing a string adds what it says.
pub proof fn lemma_says_push(s: Seq<String>, x: String, t: Seq<char>)
    ensures
        says(s.push(x), t) <==> says(s, t) || x@ == t,
{
    if says(s, t) {
        let i = choose|i: int| 0 <= i < s.len() && (#[trigger] s[i])@ == t;
        assert(s.push(x)[i]@ == t);
    }
    if x@ == t {
        assert(s.push(x)[s.len() as int]@ == t);
    }
    if says(s.push(x), t) {
        let i = choose|i: int| 0 <= i < s.push(x).len() && (#[trigger] s.push(x)[i])@ == t;
        if i < s.len() {
            assert(s[i]@ == t);
        }
    }
}

/// The place in the queue of the first who can be drawn.
fn draw_position(
    state: &State,
    group: &CleaningGroup,
    queue: &Vec<PersonId>,
    used: &Vec<PersonId>,
    year: i32,
    week: u32,
    Ghost(set): Ghost<Set<Seq<char>>>,
) -> (r: Option<usize>)
    requires
        state.wf(),
        is_year(year as int),
        forall|t: Seq<char>| #[trigger] set.contains(t) <==> says(used@, t),
    ensures
        (r is Some) == some(queue@, eligible(*state, *group, set, year, week)),
        r is Some ==> r->0 == first_index(queue@, eligible(*state, *group, set, year, week))
            && r->0 < queue@.len(),
{
    let ghost can = eligible(*state, *group, set, year, week);
    let mut i: usize = 0;
    while i < queue.len()
        invariant
            state.wf(),
            is_year(year as int),
            i <= queue.len(),
            can == eligible(*state, *group, set, year, week),
            forall|t: Seq<char>| #[trigger] set.contains(t) <==> says(used@, t),
            forall|k: int| 0 <= k < i ==> !can(#[trigger] queue@[k]),
        decreases queue.len() - i,
    {
        let id = queue[i].as_str();
        if !contains_text(used, id) && !state.is_absent(id, group.id.as_str(), year, week) {
            proof {
                lemma_first_index(queue@, can, i as int);
            }
            return Some(i);
        }
        i += 1;
    }
    proof {
        lemma_first_index(queue@, can, i as int);
    }
    None
}

/// Drawing under way: the turn order, who has a turn in the current week, and the events so far.
struct Drawing {
    queue: Vec<PersonId>,
    used: Vec<PersonId>,
    events: Vec<DomainEvent>,
    drawn: bool,
}

impl Drawing {
    /// Whether drawing has come as far as a plan.
    spec fn at(self, group_id: Seq<char>, plan: Plan) -> bool {
        &&& self.queue@ == plan.queue
        &&& forall|t: Seq<char>| #[trigger] plan.used.contains(t) <==> says(self.used@, t)
        &&& self.events@.len() == plan.picks.len()
        &&& forall|i: int|
            0 <= i < plan.picks.len() ==> freezes(
                #[trigger] self.events@[i],
                group_id,
                plan.picks[i],
            )
        &&& self.drawn == plan.drawn
    }

    /// Draws for one slot of one turn.
    fn draw_slot(
        &mut self,
        state: &State,
        group: &CleaningGroup,
        turn: Turn,
        slot: usize,
        Ghost(plan): Ghost<Plan>,
    )
        requires
            state.wf(),
            is_year(turn.year as int),
            old(self).at(group.id@, plan),
        ensures
            final(self).at(group.id@, fill_slot(*state, *group, plan, turn, slot as int)),
    {
        if state.assignment_position(group.id.as_str(), slot, turn).is_some() {
            return;
        }
        let ghost next = fill_slot(*state, *group, plan, turn, slot as int);
        let pos = draw_position(
            state,
            group,
            &self.queue,
            &self.used,
            turn.year,
            turn.week,
            Ghost(plan.used),
        );
        let ghost before = *self;
        let person_id: Option<PersonId> = match pos {
            Some(at) => {
                let id = self.queue.remove(at);
                self.queue.push(id.clone());
                self.used.push(id.clone());
                self.drawn = true;
                Some(id)
            },
            None => None,
        };
        proof {
            assert forall|t: Seq<char>| #[trigger] next.used.contains(t) <==> says(self.used@, t) by {
                assert(plan.used.contains(t) <==> says(before.used@, t));
                if pos is Some {
                    lemma_says_push(before.used@, person_id->0, t);
                }
            }
        }
        self.events.push(
            DomainEvent::SlotAssigned {
                group_id: group.id.clone(),
                slot_index: slot,
                iso_year: turn.year,
                iso_week: turn.week,
                shift: turn.shift,
                person_id,
                source: AssignmentSource::RoundRobin,
                actor_id: None,
                previous_person_id: None,
            },
        );
        proof {
            assert(self.events@.drop_last() =~= before.events@);
            assert forall|i: int| 0 <= i < next.picks.len() implies freezes(
                #[trigger] self.events@[i],
                group.id@,
                next.picks[i],
            ) by {
                if i < plan.picks.len() {
                    assert(self.events@[i] == before.events@[i]);
                }
            }
        }
    }

    /// Draws for every slot of one turn.
    fn draw_turn(
        &mut self,
        state: &State,
        group: &CleaningGroup,
        turn: Turn,
        Ghost(plan): Ghost<Plan>,
    )
        requires
            state.wf(),
            is_year(turn.year as int),
            old(self).at(group.id@, plan),
        ensures
            final(self).at(
                group.id@,
                fill_slots(*state, *group, plan, turn, group.slot_count()),
            ),
    {
        let n = group.people_per_turn();
        let mut i: usize = 0;
        while i < n
            invariant
                i <= n,
                n == group.slot_count(),
                state.wf(),
                is_year(turn.year as int),
                self.at(group.id@, fill_slots(*state, *group, plan, turn, i as nat)),
            decreases n - i,
        {
            self.draw_slot(
                state,
                group,
                turn,
                i,
                Ghost(fill_slots(*state, *group, plan, turn, i as nat)),
            );
            i += 1;
        }
    }

    /// Draws for all turns of a week.
    fn draw_week(
        &mut self,
        state: &State,
        group: &CleaningGroup,
        today: Date,
        year: i32,
        week: u32,
        Ghost(plan): Ghost<Plan>,
    )
        requires
            state.wf(),
            today.in_week(),
            is_year(year as int),
            old(self).at(group.id@, plan),
        ensures
            final(self).at(group.id@, fill_week(*state, *group, today, plan, year, week)),
    {
        self.used = busy_members(state, group, year, week);
        let turns = state.turns_in_week(group, today, year, week);
        let ghost fresh = Plan { used: busy(*state, *group, year, week), ..plan };
        let mut i: usize = 0;
        assert(turns@.take(0) =~= Seq::<Turn>::empty());
        while i < turns.len()
            invariant
                i <= turns.len(),
                state.wf(),
                is_year(year as int),
                turns@ == state.week_turns(*group, today, year, week),
                self.at(group.id@, fill_turns(*state, *group, fresh, turns@.take(i as int))),
            decreases turns.len() - i,
        {
            proof {
                assert(turns@.take(i + 1).drop_last() =~= turns@.take(i as int));
                assert(turns@.take(i + 1).last() == turns@[i as int]);
                assert(turns@[i as int].year == year);
            }
            self.draw_turn(
                state,
                group,
                turns[i],
                Ghost(fill_turns(*state, *group, fresh, turns@.take(i as int))),
            );
            i += 1;
        }
        assert(turns@.take(i as int) =~= turns@);
    }
}

/// The weeks up to the last one of a horizon can be represented.
pub proof fn lemma_horizon(state: State, group: CleaningGroup, today: Date, n: int, i: int)
    requires
        today.in_week(),
        0 <= i < n,
        horizon_ok(state, group, today, n),
    ensures
        0 <= i * group.rhythm.interval() <= (n - 1) * group.rhythm.interval() <= 200000000,
        is_day(7 * (first_due_no(state, group, today) + i * group.rhythm.interval()) + 1),
        is_day(7 * (first_due_no(state, group, today) + i * group.rhythm.interval()) + 7),
        first_due_no(state, group, today) >= today.week_no(),
{
    let every = group.rhythm.interval();
    assert(0 <= i * every <= (n - 1) * every) by (nonlinear_arith)
        requires
            0 <= i <= n - 1,
            every >= 1,
    ;
    let late = (today.week_no() - state.start_no(today)) % every;
    assert(0 <= late < every);
    reveal(crate::calendar::january_first);
}

/// From the first due week that cannot be represented on, none can.
proof fn lemma_none_fits(state: State, group: CleaningGroup, today: Date, i: int, n: nat)
    requires
        today.in_week(),
        0 <= i <= n,
        !due_fits(state, group, today, i),
    ensures
        plan_for(state, group, today, n) == plan_for(state, group, today, i as nat),
    decreases n,
{
    if i < n {
        lemma_none_fits(state, group, today, i, (n - 1) as nat);
        if due_fits(state, group, today, n - 1) {
            lemma_horizon(state, group, today, n as int, i);
        }
    }
}

/// The place of the due week that drawing starts with.
pub fn first_due_number(state: &State, group: &CleaningGroup, today: Date) -> (r: i64)
    requires
        state.wf(),
        today.in_week(),
    ensures
        r == first_due_no(*state, *group, today),
        today.week_no() <= r <= today.week_no() + u32::MAX,
        -400000000 < r < 5000000000,
{
    let start = state.tracking_start(today);
    let now = week_of(today);
    proof {
        lemma_whole_week(today.day as int, now.0 as int, now.1 as int);
    }
    let d = weeks_between(start, now);
    let every = group.rhythm.every_weeks() as i64;
    let late = remainder(d, every);
    let no = week_no_of(today);
    if late == 0 {
        no
    } else {
        no + every - late
    }
}

/// Freezes the not yet frozen turns of one group's next `cycles_ahead` due weeks from a day on,
/// as far as they can be represented.
pub fn materialize_group_at(
    state: &State,
    group: &CleaningGroup,
    cycles_ahead: usize,
    today: Date,
) -> (r: Vec<DomainEvent>)
    requires
        state.wf(),
        today.in_week(),
    ensures
        carries_out(r@, group.id@, group_plan(*state, *group, today, cycles_ahead as int)),
{
    if cycles_ahead == 0 || group.member_ids.is_empty() {
        return Vec::new();
    }
    let every = group.rhythm.every_weeks() as i64;
    let first = first_due_number(state, group, today);
    let mut d = Drawing {
        queue: reconcile_queue(state, group),
        used: Vec::new(),
        events: Vec::new(),
        drawn: false,
    };
    let mut i: usize = 0;
    let mut no: i64 = first;
    while i < cycles_ahead && no <= LAST_WEEK
        invariant
            i <= cycles_ahead,
            state.wf(),
            today.in_week(),
            every == group.rhythm.interval(),
            1 <= every <= u32::MAX,
            first == first_due_no(*state, *group, today),
            today.week_no() <= first <= no,
            no == first + i * every,
            no < 5000000000,
            d.at(group.id@, plan_for(*state, *group, today, i as nat)),
        decreases cycles_ahead - i,
    {
        proof {
            lemma_fitting(*state, *group, today, i as int);
            assert((i + 1) * every == i * every + every) by (nonlinear_arith);
        }
        let (year, week) = week_of(Date { day: (7 * no + 1) as i32 });
        proof {
            assert((7 * no + 1 - 1) / 7 == no);
            lemma_whole_week(7 * no + 1, year as int, week as int);
            assert((year as int, week as int) == due_week(*state, *group, today, i as int));
        }
        d.draw_week(
            state,
            group,
            today,
            year,
            week,
            Ghost(plan_for(*state, *group, today, i as nat)),
        );
        i += 1;
        no = no + every;
    }
    proof {
        if i < cycles_ahead {
            lemma_fitting(*state, *group, today, i as int);
            lemma_none_fits(*state, *group, today, i as int, cycles_ahead as nat);
        }
    }
    let Drawing { queue, used: _, mut events, drawn } = d;
    let ghost plan = plan_for(*state, *group, today, cycles_ahead as nat);
    if drawn {
        let ghost before = events@;
        events.push(DomainEvent::RotationQueueSet { group_id: group.id.clone(), queue });
        assert forall|i: int| 0 <= i < plan.picks.len() implies freezes(
            #[trigger] events@[i],
            group.id@,
            plan.picks[i],
        ) by {
            assert(events@[i] == before[i]);
        }
    }
    events
}

/// A due week can be represented up to the last week that can.
pub proof fn lemma_fitting(state: State, group: CleaningGroup, today: Date, i: int)
    requires
        today.in_week(),
        i >= 0,
    ensures
        first_due_no(state, group, today) >= today.week_no(),
        due_fits(state, group, today, i) <==> first_due_no(state, group, today) + i
            * group.rhythm.interval() <= LAST_WEEK,
        due_fits(state, group, today, i) ==> is_day(
            7 * (first_due_no(state, group, today) + i * group.rhythm.interval()) + 1,
        ) && crate::calendar::whole_week(
            7 * (first_due_no(state, group, today) + i * group.rhythm.interval()) + 1,
        ),
        due_fits(state, group, today, i) ==> i32::MIN <= 7 * (first_due_no(state, group, today) + i
            * group.rhythm.interval()) + 1 <= i32::MAX,
{
    let every = group.rhythm.interval();
    assert(0 <= i * every) by (nonlinear_arith)
        requires
            0 <= i,
            every >= 1,
    ;
    let late = (today.week_no() - state.start_no(today)) % every;
    assert(0 <= late < every);
    reveal(crate::calendar::january_first);
}

/// The number of events of the first `k` groups.
pub open spec fn events_before(state: State, today: Date, cycles: int, k: int) -> nat
    decreases k,
{
    if k <= 0 {
        0
    } else {
        events_before(state, today, cycles, k - 1) + event_count(
            group_plan(state, state.cleaning_groups@[k - 1], today, cycles),
        )
    }
}

/// The events that carry out the plans of the first `n` groups, one after another.
pub open spec fn carries_out_all(
    events: Seq<DomainEvent>,
    state: State,
    today: Date,
    cycles: int,
    n: int,
) -> bool {
    &&& events.len() == events_before(state, today, cycles, n)
    &&& forall|k: int|
        0 <= k < n ==> carries_out(
            events.subrange(
                events_before(state, today, cycles, k) as int,
                events_before(state, today, cycles, k + 1) as int,
            ),
            (#[trigger] state.cleaning_groups@[k]).id@,
            group_plan(state, state.cleaning_groups@[k], today, cycles),
        )
}

/// More groups take at least as many events.
pub proof fn lemma_events_grow(state: State, today: Date, cycles: int, k: int, n: int)
    requires
        0 <= k <= n,
    ensures
        events_before(state, today, cycles, k) <= events_before(state, today, cycles, n),
    decreases n,
{
    if k < n {
        lemma_events_grow(state, today, cycles, k, n - 1);
    }
}

/// The events of one more group follow those of the groups before it.
proof fn lemma_carried_on(
    before: Seq<DomainEvent>,
    new: Seq<DomainEvent>,
    state: State,
    today: Date,
    cycles: int,
    n: int,
)
    requires
        0 <= n < state.cleaning_groups@.len(),
        carries_out_all(before, state, today, cycles, n),
        carries_out(
            new,
            state.cleaning_groups@[n].id@,
            group_plan(state, state.cleaning_groups@[n], today, cycles),
        ),
    ensures
        carries_out_all(before + new, state, today, cycles, n + 1),
{
    let events = before + new;
    assert forall|k: int| 0 <= k < n + 1 implies carries_out(
        events.subrange(
            events_before(state, today, cycles, k) as int,
            events_before(state, today, cycles, k + 1) as int,
        ),
        (#[trigger] state.cleaning_groups@[k]).id@,
        group_plan(state, state.cleaning_groups@[k], today, cycles),
    ) by {
        let a = events_before(state, today, cycles, k) as int;
        let b = events_before(state, today, cycles, k + 1) as int;
        if k < n {
            lemma_events_grow(state, today, cycles, k + 1, n);
            assert(events.subrange(a, b) =~= before.subrange(a, b));
        } else {
            assert(events.subrange(a, b) =~= new);
        }
    }
}

/// Freezes the not yet frozen turns of every group's next `cycles_ahead` due weeks from a day on,
/// each group in its own rhythm.
pub fn materialize_at(state: &State, cycles_ahead: usize, today: Date) -> (r: Vec<DomainEvent>)
    requires
        state.wf(),
        today.in_week(),
    ensures
        carries_out_all(
            r@,
            *state,
            today,
            cycles_ahead as int,
            state.cleaning_groups@.len() as int,
        ),
{
    let mut events: Vec<DomainEvent> = Vec::new();
    let mut i: usize = 0;
    while i < state.cleaning_groups.len()
        invariant
            i <= state.cleaning_groups.len(),
            state.wf(),
            today.in_week(),
            carries_out_all(events@, *state, today, cycles_ahead as int, i as int),
        decreases state.cleaning_groups.len() - i,
    {
        let mut more = materialize_group_at(state, &state.cleaning_groups[i], cycles_ahead, today);
        let ghost before = events@;
        let ghost new = more@;
        events.append(&mut more);
        proof {
            lemma_carried_on(before, new, *state, today, cycles_ahead as int, i as int);
            assert(events@ =~= before + new);
        }
        i += 1;
    }
    events
}

/// Fill all unassigned turns of every group for its next `cycles_ahead` due weeks (from the
/// current week on, each group in its own rhythm).
///
/// Returns `SlotAssigned` events plus, for each group that had at least one turn filled, a
/// trailing `RotationQueueSet` with the queue's new state. Already stored assignments are
/// skipped, so this is safe to call repeatedly. The day is read from the clock, so of the result
/// it is known only that it is right for some day.
pub fn materialize(state: &State, cycles_ahead: usize) -> (r: Vec<DomainEvent>)
    requires
        state.wf(),
    ensures
        exists|today: Date|
            is_today(today.day as int) && #[trigger] carries_out_all(
                r@,
                *state,
                today,
                cycles_ahead as int,
                state.cleaning_groups@.len() as int,
            ),
{
    let day = planning_day();
    materialize_at(state, cycles_ahead, day)
}

/// `materialize` for one group.
pub fn materialize_group(state: &State, group: &CleaningGroup, cycles_ahead: usize) -> (r: Vec<
    DomainEvent,
>)
    requires
        state.wf(),
    ensures
        exists|today: Date|
            is_today(today.day as int) && carries_out(
                r@,
                group.id@,
                #[trigger] group_plan(*state, *group, today, cycles_ahead as int),
            ),
{
    let day = planning_day();
    materialize_group_at(state, group, cycles_ahead, day)
}

// ── Preview ──────────────────────────────────────────────────────────────────

/// Somebody drawn for one slot of one turn.
pub open spec fn pick_of(slot: int, turn: Turn) -> spec_fn(Pick) -> bool {
    |p: Pick| p.slot == slot && p.turn == turn && p.person is Some
}

/// How many cycles after the first due week a turn's week lies, in weeks.
pub open spec fn weeks_ahead(state: State, group: CleaningGroup, today: Date, turn: Turn) -> int {
    crate::calendar::whole_weeks(
        week_start(turn.year as int, turn.week as int) - (7 * first_due_no(state, group, today)
            + 1),
    )
}

/// Who would be drawn for one slot of one turn: nobody for a turn before the first due week.
pub open spec fn preview(state: State, group: CleaningGroup, slot: int, turn: Turn, today: Date) -> Option<
    String,
> {
    let ahead = weeks_ahead(state, group, today, turn);
    if ahead < 0 {
        None
    } else {
        let plan = group_plan(state, group, today, ahead / group.rhythm.interval() + 1);
        match crate::lists::find(plan.picks, pick_of(slot, turn)) {
            Some(p) => p.person,
            None => None,
        }
    }
}

/// Whether the first due week from a day on can be represented.
pub open spec fn next_due_fits(state: State, group: CleaningGroup, today: Date) -> bool {
    is_day(7 * first_due_no(state, group, today) + 7)
}

/// Preview who `materialize_at` would assign to one slot of one turn of a group beyond what is
/// frozen, without storing anything.
#[verifier::loop_isolation(false)]
pub fn preview_slot_assignee_at(
    state: &State,
    group: &CleaningGroup,
    slot_index: usize,
    turn: Turn,
    today: Date,
) -> (r: Option<PersonId>)
    requires
        state.wf(),
        today.in_week(),
        turn.wf(),
    ensures
        r == preview(*state, *group, slot_index as int, turn, today),
{
    let first = first_due_number(state, group, today);
    let monday = week_monday(turn.year, turn.week);
    let days: i64 = monday.day as i64 - (7 * first + 1);
    if days <= -7 {
        return None;
    }
    let ahead: u64 = if days < 0 {
        0
    } else {
        days as u64 / 7
    };
    proof {
        lemma_week_start(turn.year as int, turn.week as int);
    }
    let every: u32 = group.rhythm.every_weeks();
    let cycles: u64 = ahead / every as u64 + 1;
    proof {
        assert(ahead / every as u64 <= ahead) by (nonlinear_arith)
            requires
                every >= 1,
        ;
    }
    let events = materialize_group_at(state, group, cycles as usize, today);
    let ghost plan = group_plan(*state, *group, today, cycles as int);
    let ghost p = pick_of(slot_index as int, turn);
    let mut i: usize = 0;
    while i < events.len()
        invariant
            i <= events.len(),
            carries_out(events@, group.id@, plan),
            p == pick_of(slot_index as int, turn),
            forall|k: int| 0 <= k < i && k < plan.picks.len() ==> !p(#[trigger] plan.picks[k]),
        decreases events.len() - i,
    {
        proof {
            if i < plan.picks.len() {
                assert(freezes(events@[i as int], group.id@, plan.picks[i as int]));
            } else {
                assert(stores_queue(events@.last(), group.id@, plan.queue));
            }
        }
        match &events[i] {
            DomainEvent::SlotAssigned {
                slot_index: si,
                iso_year,
                iso_week,
                shift,
                person_id,
                ..
            } => {
                if *si == slot_index && *iso_year == turn.year && *iso_week == turn.week && *shift
                    == turn.shift && person_id.is_some() {
                    proof {
                        lemma_first_index(plan.picks, p, i as int);
                    }
                    return person_id.clone();
                }
            },
            _ => {},
        }
        i += 1;
    }
    proof {
        lemma_first_index(plan.picks, p, plan.picks.len() as int);
    }
    None
}

/// Preview who `materialize` would assign to one slot of one turn beyond what is frozen, without
/// storing anything. The day is read from the clock.
pub fn preview_slot_assignee(
    state: &State,
    group: &CleaningGroup,
    slot_index: usize,
    turn: Turn,
) -> (r: Option<PersonId>)
    requires
        state.wf(),
        turn.wf(),
    ensures
        exists|today: Date|
            is_today(today.day as int) && r == #[trigger] preview(
                *state,
                *group,
                slot_index as int,
                turn,
                today,
            ),
{
    let day = planning_day();
    preview_slot_assignee_at(state, group, slot_index, turn, day)
}

// ── Rewinding ────────────────────────────────────────────────────────────────

impl crate::sorting::Ranked for SlotAssignment {
    /// By year, week, shift and slot.
    open spec fn before(self, other: Self) -> bool {
        self.iso_year < other.iso_year || (self.iso_year == other.iso_year && (self.iso_week
            < other.iso_week || (self.iso_week == other.iso_week && (self.shift < other.shift || (
        self.shift == other.shift && self.slot_index < other.slot_index)))))
    }

    proof fn ranks(a: Self, b: Self, c: Self) {
    }

    fn is_before(&self, other: &Self) -> (r: bool) {
        if self.iso_year != other.iso_year {
            self.iso_year < other.iso_year
        } else if self.iso_week != other.iso_week {
            self.iso_week < other.iso_week
        } else if self.shift != other.shift {
            self.shift < other.shift
        } else {
            self.slot_index < other.slot_index
        }
    }
}

/// The people of assignments in order, each once.
pub open spec fn people(s: Seq<SlotAssignment>) -> Seq<String>
    decreases s.len(),
{
    if s.len() == 0 {
        Seq::empty()
    } else {
        let r = people(s.drop_last());
        match s.last().person_id {
            Some(id) => if says(r, id@) {
                r
            } else {
                r.push(id)
            },
            None => r,
        }
    }
}

/// A turn order with the people of dropped assignments, in the order in which they were drawn,
/// put back at its front.
pub open spec fn rewound(queue: Seq<String>, dropped: Seq<SlotAssignment>) -> Seq<String> {
    let front = people(crate::sorting::sorted(dropped));
    front.filter(among(queue)) + queue.filter(not_among(front))
}

/// A copy of an assignment.
pub fn copy_assignment(a: &SlotAssignment) -> (r: SlotAssignment)
    ensures
        r == *a,
{
    SlotAssignment {
        group_id: a.group_id.clone(),
        slot_index: a.slot_index,
        iso_year: a.iso_year,
        iso_week: a.iso_week,
        shift: a.shift,
        person_id: a.person_id.clone(),
        source: a.source,
    }
}

/// The ids among others, or not among them.
fn select_ids(list: &Vec<PersonId>, others: &Vec<PersonId>, within: bool) -> (r: Vec<PersonId>)
    ensures
        r@ == if within {
            list@.filter(among(others@))
        } else {
            list@.filter(not_among(others@))
        },
{
    let ghost p = if within {
        among(others@)
    } else {
        not_among(others@)
    };
    let mut r: Vec<PersonId> = Vec::new();
    let mut i: usize = 0;
    assert(list@.take(0).filter(p) =~= Seq::<String>::empty()) by {
        reveal(Seq::filter);
    }
    while i < list.len()
        invariant
            i <= list.len(),
            p == if within {
                among(others@)
            } else {
                not_among(others@)
            },
            r@ == list@.take(i as int).filter(p),
        decreases list.len() - i,
    {
        proof {
            lemma_filter_step(list@, p, i as int);
        }
        if contains_text(others, list[i].as_str()) == within {
            r.push(list[i].clone());
        }
        i += 1;
    }
    assert(list@.take(i as int) =~= list@);
    r
}

/// Put the people drawn for `dropped` assignments back at the front of the queue, in the order
/// they were drawn — undoing those draws, so clearing future turns costs nobody their place.
pub fn rewind_queue(queue: &Vec<PersonId>, dropped: &Vec<SlotAssignment>) -> (r: Vec<PersonId>)
    ensures
        r@ == rewound(queue@, dropped@),
{
    let mut copy: Vec<SlotAssignment> = Vec::new();
    let mut i: usize = 0;
    while i < dropped.len()
        invariant
            i <= dropped.len(),
            copy@ == dropped@.take(i as int),
        decreases dropped.len() - i,
    {
        assert(dropped@.take(i + 1) =~= dropped@.take(i as int).push(dropped@[i as int]));
        copy.push(copy_assignment(&dropped[i]));
        i += 1;
    }
    assert(dropped@.take(i as int) =~= dropped@);
    let drawn = crate::sorting::sort(copy);
    let mut front: Vec<PersonId> = Vec::new();
    let mut k: usize = 0;
    assert(drawn@.take(0) =~= Seq::<SlotAssignment>::empty());
    while k < drawn.len()
        invariant
            k <= drawn.len(),
            front@ == people(drawn@.take(k as int)),
        decreases drawn.len() - k,
    {
        proof {
            assert(drawn@.take(k + 1).drop_last() =~= drawn@.take(k as int));
            assert(drawn@.take(k + 1).last() == drawn@[k as int]);
        }
        match &drawn[k].person_id {
            Some(id) => {
                if !contains_text(&front, id.as_str()) {
                    front.push(id.clone());
                }
            },
            None => {},
        }
        k += 1;
    }
    assert(drawn@.take(k as int) =~= drawn@);
    let mut rest = select_ids(queue, &front, false);
    let mut r = select_ids(&front, queue, true);
    r.append(&mut rest);
    r
}

} // verus!
