//! Who may hand turns over, and who is away.

use vstd::prelude::*;

use crate::analytics::DomainEvent;
use crate::calendar::{weeks_apart, Date, Timestamp};
use crate::commands::assignments::{assign_answer, hand_over, unassign_answer};
use crate::commands::base::{
    answered, group_and_slot, turn_meant, week_clause, CommandError, Request,
};
use crate::commands::people::{absent_answer, back_answer, records, weeks_given};
use crate::commands::swaps::{
    accept_answer, accept_of, law_accepted_swap_moves_one_turn, swap_answer, swap_in, swap_number,
    swap_place, swap_turn, swap_wish,
};
use crate::commands::takeover::{
    registers, takeable_slots, takeover_answer, takeover_choice, took_over,
};
use crate::commands::tasks::{is_open, own_tasks, responsible, shift_tasks, slot_tasks};
use crate::course::{history, law_assignment_reads_back, step};
use crate::domain::{AssignmentSource, CleaningGroup, Person, SlotAssignment};
use crate::event_laws::{law_absence_lasts_its_weeks, law_cancelled_absences_are_over};
use crate::lists::{find, first_index, lemma_filter, lemma_first_index_is, lemma_some};
use crate::plain::{covers, is_away, is_marked, lemma_marked, places};
use crate::planning::{known, this_week};
use crate::rhythm::Turn;
use crate::state::{Absence, State, SwapRequest};
use crate::text::says;

verus! {

// ── Swaps ────────────────────────────────────────────────────────────────────

/// Whether a request moves a turn from the one who asked to the one who was asked: it was open and
/// addressed to them, the slot of the turn was open and fell to the one who asked, and it falls to
/// the other one now.
pub open spec fn moves_by(pre: State, post: State, req: Request, s: SwapRequest) -> bool {
    let turn = Turn { year: s.iso_year, week: s.iso_week, shift: s.shift };
    let slot = s.slot_index as int;
    &&& s.status is Pending
    &&& s.target@ == req.sender@
    &&& pre.group(s.group_id@) is Some
    &&& !is_marked(pre, pre.group(s.group_id@)->0, slot, turn)
    &&& pre.assignee(pre.group(s.group_id@)->0, slot, turn, req.today) is Some
    &&& pre.assignee(pre.group(s.group_id@)->0, slot, turn, req.today)->0.id@ == match pre.person_of(
        s.requester@,
    ) {
        Some(p) => p.id@,
        None => s.requester@,
    }
    &&& post.assignment(s.group_id@, slot, turn) is Some
    &&& post.assignment(s.group_id@, slot, turn)->0.person_id is Some
    &&& post.assignment(s.group_id@, slot, turn)->0.person_id->0@ == match pre.person_of(
        req.sender@,
    ) {
        Some(p) => p.id@,
        None => req.sender@,
    }
}

/// Accepting a swap changes assignments only where the sender accepts an open request addressed to
/// them, for a slot that is open and still falls to the one who asked.
pub proof fn law_swaps_move_what_was_asked_for(
    pre: State,
    post: State,
    r: Result<String, CommandError>,
    req: Request,
    args: Seq<String>,
)
    requires
        answered(pre, post, r, accept_answer(pre, req, args), req.now),
    ensures
        post.slot_assignments == pre.slot_assignments || exists|i: int|
            0 <= i < pre.swap_requests@.len() && moves_by(
                pre,
                post,
                req,
                #[trigger] pre.swap_requests@[i],
            ),
        post.completions == pre.completions,
        post.cleaning_groups == pre.cleaning_groups,
        post.absences == pre.absences,
{
    if accept_answer(pre, req, args) is Runs {
        let id = swap_number(args)->0 as u64;
        let q = crate::journal::swap_with_id(id);
        lemma_first_index_is(pre.swap_requests@, q);
        let i = first_index(pre.swap_requests@, q);
        let s = pre.swap_requests@[i];
        assert(find(pre.swap_requests@, q) == Some(s));
        assert(accept_answer(pre, req, args) == accept_of(pre, req, s));
        law_accepted_swap_moves_one_turn(
            pre,
            post,
            r,
            req,
            s,
            s.group_id@,
            s.slot_index as int,
            swap_turn(s),
        );
        lemma_marked(pre, pre.group(s.group_id@)->0, s.slot_index as int, swap_turn(s));
        assert(moves_by(pre, post, req, pre.swap_requests@[i]));
        let events = accept_of(pre, req, s)->Runs_0;
        let h = choose|h: Seq<State>| #[trigger]
            history(h, events, req.now) && h[0] == pre && h.last() == post;
        assert(step(h[0], h[0int + 1], events[0], req.now));
        assert(step(h[1], h[1int + 1], events[1], req.now));
        assert(h[2] == post);
    }
}

/// Whether a slot of a turn of the group at a place falls to somebody, seen from a day.
pub open spec fn falls_on(state: State, k: int, slot: int, turn: Turn, person_id: Seq<char>, today: Date) -> bool {
    match state.assignee(state.cleaning_groups@[k], slot, turn, today) {
        Some(p) => p.id@ == person_id,
        None => false,
    }
}

proof fn lemma_own_is_responsible(
    state: State,
    k: int,
    week: (i32, u32),
    person_id: Seq<char>,
    today: Date,
    i: int,
)
    requires
        0 <= k < state.cleaning_groups@.len(),
        0 <= i < own_tasks(state, k, week, person_id, today).len(),
    ensures
        ({
            let t = own_tasks(state, k, week, person_id, today)[i];
            &&& t.group == k
            &&& (t.turn.year, t.turn.week) == week
            &&& responsible(
                state,
                state.cleaning_groups@[k],
                t.slot as int,
                t.turn,
                person_id,
                today,
            )
        }),
{
    assert(state.cleaning_groups@.len() == state.cleaning_groups.len());
    lemma_shift_is_responsible(
        state,
        k,
        week,
        person_id,
        today,
        state.cleaning_groups@[k].rhythm.week_shifts().len(),
        i,
    );
}

proof fn lemma_shift_is_responsible(
    state: State,
    k: int,
    week: (i32, u32),
    person_id: Seq<char>,
    today: Date,
    n: nat,
    i: int,
)
    requires
        0 <= k < state.cleaning_groups@.len(),
        k == k as usize,
        0 <= i < shift_tasks(state, k, week, person_id, today, n).len(),
    ensures
        ({
            let t = shift_tasks(state, k, week, person_id, today, n)[i];
            &&& t.group == k
            &&& (t.turn.year, t.turn.week) == week
            &&& responsible(
                state,
                state.cleaning_groups@[k],
                t.slot as int,
                t.turn,
                person_id,
                today,
            )
        }),
    decreases n,
{
    if n > 0 {
        let r = shift_tasks(state, k, week, person_id, today, (n - 1) as nat);
        if i < r.len() {
            lemma_shift_is_responsible(state, k, week, person_id, today, (n - 1) as nat, i);
        } else {
            let g = state.cleaning_groups@[k];
            assert(g.slots@.len() == g.slots.len());
            lemma_slot_is_responsible(
                state,
                k,
                Turn { year: week.0, week: week.1, shift: (n - 1) as u8 },
                person_id,
                today,
                g.slot_count(),
                i - r.len(),
            );
        }
    }
}

proof fn lemma_slot_is_responsible(
    state: State,
    k: int,
    turn: Turn,
    person_id: Seq<char>,
    today: Date,
    n: nat,
    i: int,
)
    requires
        k == k as usize,
        n <= usize::MAX,
        0 <= i < slot_tasks(state, k, turn, person_id, today, n).len(),
    ensures
        ({
            let t = slot_tasks(state, k, turn, person_id, today, n)[i];
            &&& t.group == k
            &&& t.turn == turn
            &&& responsible(
                state,
                state.cleaning_groups@[k],
                t.slot as int,
                turn,
                person_id,
                today,
            )
        }),
    decreases n,
{
    if n > 0 {
        let r = slot_tasks(state, k, turn, person_id, today, (n - 1) as nat);
        if i < r.len() {
            lemma_slot_is_responsible(state, k, turn, person_id, today, (n - 1) as nat, i);
        }
    }
}

/// Whether a new request is one that somebody may make: they ask somebody else for a turn of a
/// group they are in, in a week, and in a group with slots the slot falls to them and is open.
pub open spec fn is_fair_request(
    pre: State,
    s: SwapRequest,
    req: Request,
    target: Seq<char>,
    k: int,
) -> bool {
    let g = pre.cleaning_groups@[k];
    let turn = Turn { year: s.iso_year, week: s.iso_week, shift: s.shift };
    &&& 0 <= k < pre.cleaning_groups@.len()
    &&& s.group_id@ == g.id@
    &&& s.requester@ == req.sender@
    &&& s.target@ == target
    &&& s.target@ != s.requester@
    &&& s.status is Pending
    &&& pre.person_of(req.sender@) is Some
    &&& says(g.member_ids@, pre.person_of(req.sender@)->0.id@)
    &&& g.slots@.len() > 0 ==> !is_marked(pre, g, s.slot_index as int, turn) && falls_on(
        pre,
        k,
        s.slot_index as int,
        turn,
        pre.person_of(req.sender@)->0.id@,
        req.today,
    )
}

/// Asking for a swap changes no assignment; it adds at most one request, from the sender to the one
/// they name, for an open slot of their own.
pub proof fn law_requests_are_for_ones_own_turn(
    pre: State,
    post: State,
    r: Result<String, CommandError>,
    req: Request,
    args: Seq<String>,
)
    requires
        answered(pre, post, r, swap_answer(pre, req, args), req.now),
    ensures
        post.slot_assignments == pre.slot_assignments,
        post.completions == pre.completions,
        post.swap_requests == pre.swap_requests || (post.swap_requests@
            == pre.swap_requests@.push(post.swap_requests@.last()) && exists|k: int| #[trigger]
            is_fair_request(pre, post.swap_requests@.last(), req, args[0]@, k)),
{
    if swap_answer(pre, req, args) is Does {
        let (n, week) = week_clause(args.skip(1), req.today)->0;
        let rest = args.subrange(1, 1 + n);
        let p = pre.person_of(req.sender@)->0;
        let k = swap_place(pre, p.id@, rest);
        if rest.len() > 0 {
            lemma_first_index_is(pre.cleaning_groups@, crate::state::group_named(rest[0]@));
        } else {
            lemma_first_index_is(pre.cleaning_groups@, crate::state::group_with_member(p.id@));
        }
        let g = pre.cleaning_groups@[k];
        assert(swap_answer(pre, req, args) == swap_in(pre, req, args[0], p.id@, rest, week, k));
        let name = if rest.len() > 1 {
            Some(rest[1])
        } else {
            None
        };
        let wish = swap_wish(pre, k, p.id@, name, week, req.today);
        assert(wish is Turn);
        let slot = wish->Turn_0;
        let turn = wish->Turn_1;
        let all = own_tasks(pre, k, week, p.id@, req.today);
        let own = all.filter(is_open(pre));
        lemma_filter(all, is_open(pre));
        lemma_marked(pre, g, slot, turn);
        if g.slots@.len() > 0 {
            let i = if rest.len() > 1 {
                lemma_first_index_is(own, crate::commands::swaps::at_slot(slot));
                first_index(own, crate::commands::swaps::at_slot(slot))
            } else {
                0
            };
            assert(0 <= i < own.len() && own[i].slot == slot && own[i].turn == turn);
            assert(is_open(pre)(own[i]) && all.contains(own[i]));
            let j = choose|j: int| 0 <= j < all.len() && all[j] == own[i];
            lemma_own_is_responsible(pre, k, week, p.id@, req.today, j);
            assert(slot as usize == slot);
        }
        let s = post.swap_requests@.last();
        assert(is_fair_request(pre, s, req, args[0]@, k));
    }
}

// ── Taking over ──────────────────────────────────────────────────────────────

/// Whether a slot of a turn has come to somebody who did not have it, while it was open.
pub open spec fn is_taken(pre: State, post: State, g: CleaningGroup, slot: int, turn: Turn, person_id: Seq<char>) -> bool {
    &&& pre.cleaning_groups@.contains(g)
    &&& !is_marked(pre, g, slot, turn)
    &&& post.assignment(g.id@, slot, turn) is Some
    &&& post.assignment(g.id@, slot, turn)->0.person_id is Some
    &&& post.assignment(g.id@, slot, turn)->0.person_id->0@ == person_id
}

proof fn lemma_takeable_slots(
    state: State,
    group: CleaningGroup,
    person_id: Seq<char>,
    turn: Turn,
    today: Date,
    n: nat,
    i: int,
)
    requires
        0 <= i < takeable_slots(state, group, person_id, turn, today, n).len(),
    ensures
        0 <= takeable_slots(state, group, person_id, turn, today, n)[i] < n,
    decreases n,
{
    if n > 0 {
        let r = takeable_slots(state, group, person_id, turn, today, (n - 1) as nat);
        if i < r.len() {
            lemma_takeable_slots(state, group, person_id, turn, today, (n - 1) as nat, i);
        }
    }
}

/// What is chosen to be taken over is a slot of a group.
proof fn lemma_chosen(
    state: State,
    person_id: Seq<char>,
    rest: Seq<String>,
    week: (i32, u32),
    today: Date,
)
    requires
        takeover_choice(state, person_id, rest, week, today) is Slot,
    ensures
        ({
            let c = takeover_choice(state, person_id, rest, week, today);
            &&& state.cleaning_groups@.contains(c->Slot_0)
            &&& 0 <= c->Slot_1
            &&& c->Slot_1 as usize == c->Slot_1
        }),
{
    let own = state.groups_of(person_id);
    lemma_filter(state.cleaning_groups@, crate::state::group_with_member(person_id));
    let g = if rest.len() > 0 && state.group_of_name(rest[0]@) is Some {
        state.group_of_name(rest[0]@)->0
    } else {
        own[0]
    };
    if rest.len() > 0 && state.group_of_name(rest[0]@) is Some {
        lemma_first_index_is(state.cleaning_groups@, crate::state::group_named(rest[0]@));
    }
    assert(state.cleaning_groups@.contains(g));
    assert(g.slots@.len() == g.slots.len());
    if rest.len() > 0 {
        lemma_first_index_is(g.slots@, crate::domain::slot_named(rest[0]@));
    }
    if rest.len() > 1 {
        lemma_first_index_is(g.slots@, crate::domain::slot_named(rest[1]@));
    }
    let turn = turn_meant(g, week, today);
    let open = takeable_slots(state, g, person_id, turn, today, g.slots@.len());
    if open.len() == 1 {
        lemma_takeable_slots(state, g, person_id, turn, today, g.slots@.len(), 0);
    }
}

/// Taking over changes assignments only by giving the sender one slot of a turn of the week they
/// name, the current one where they name none, that was open; marks and groups stay.
pub proof fn law_takeover_takes_an_open_slot(
    pre: State,
    post: State,
    r: Result<String, CommandError>,
    req: Request,
    args: Seq<String>,
    id: String,
)
    requires
        took_over(pre, post, r, req, args, id),
    ensures
        post.completions == pre.completions,
        post.cleaning_groups == pre.cleaning_groups,
        post.absences == pre.absences,
        post.slot_assignments == pre.slot_assignments || exists|
            g: CleaningGroup,
            slot: int,
            turn: Turn,
        | #[trigger]
            is_taken(pre, post, g, slot, turn, post.person_of(req.sender@)->0.id@) && match week_clause(
                args,
                req.today,
            ) {
                Some((n, week)) => (turn.year, turn.week) == week,
                None => false,
            },
{
    if known(pre, req.today) && week_clause(args, req.today) is Some {
        let (n, week) = week_clause(args, req.today)->0;
        let rest = args.take(n);
        let mid = choose|mid: State|
            {
                &&& #[trigger] step(pre, mid, registers(req, id), req.now)
                &&& match mid.person_of(req.sender@) {
                    None => {
                        &&& post == mid
                        &&& r == Err::<String, CommandError>(
                            CommandError::Refused(crate::journal::StateError::UnknownPerson),
                        )
                    },
                    Some(p) => answered(
                        mid,
                        post,
                        r,
                        takeover_answer(mid, req, p.id, rest, week),
                        req.now,
                    ),
                }
            };
        if mid.person_of(req.sender@) is Some {
            let p = mid.person_of(req.sender@)->0;
            if takeover_answer(mid, req, p.id, rest, week) is Does {
                lemma_chosen(mid, p.id@, rest, week, req.today);
                let c = takeover_choice(mid, p.id@, rest, week, req.today);
                let g = c->Slot_0;
                let slot = c->Slot_1;
                let turn = turn_meant(g, week, req.today);
                let a = SlotAssignment {
                    group_id: g.id,
                    slot_index: slot as usize,
                    iso_year: turn.year,
                    iso_week: turn.week,
                    shift: turn.shift,
                    person_id: Some(p.id),
                    source: crate::domain::AssignmentSource::Takeover,
                };
                law_assignment_reads_back(
                    mid,
                    post,
                    a,
                    Some(req.sender),
                    crate::commands::assignments::id_of(
                        mid.assignee(g, slot, turn, req.today),
                    ),
                    req.now,
                    g.id@,
                    slot,
                    turn,
                );
                lemma_marked(mid, g, slot, turn);
                lemma_marked(pre, g, slot, turn);
                assert(post.person_of(req.sender@) == Some(p));
                assert(is_taken(pre, post, g, slot, turn, p.id@));
            }
        }
    }
}

// ── Assigning by hand ────────────────────────────────────────────────────────

/// Whether a slot of a turn of a named group has been given to somebody, or to nobody, by hand.
pub open spec fn is_given(
    pre: State,
    post: State,
    req: Request,
    args: Seq<String>,
    g: CleaningGroup,
    slot: int,
    turn: Turn,
    person: Option<Seq<char>>,
) -> bool {
    let a = post.assignment(g.id@, slot, turn);
    &&& pre.group_of_name(args[0]@) == Some(g)
    &&& 0 <= slot < places(g)
    &&& g.slots@.len() > 0 ==> args.len() > 1 && crate::domain::slot_named(args[1]@)(
        g.slots@[slot],
    )
    &&& match week_clause(args.skip(1), req.today) {
        Some((n, week)) => (turn.year, turn.week) == week,
        None => false,
    }
    &&& a is Some
    &&& match person {
        Some(id) => a->0.person_id is Some && a->0.person_id->0@ == id,
        None => a->0.person_id is None,
    }
}

proof fn lemma_target(state: State, name: Seq<char>, rest: Seq<String>)
    requires
        group_and_slot(state, name, rest) is Found,
    ensures
        ({
            let t = group_and_slot(state, name, rest);
            let g = t->Found_0;
            let slot = t->Found_1;
            &&& state.group_of_name(name) == Some(g)
            &&& 0 <= slot < places(g)
            &&& slot as usize == slot
            &&& t->Found_2 == if g.slots@.len() > 0 {
                1int
            } else {
                0int
            }
            &&& g.slots@.len() > 0 ==> rest.len() > 0 && crate::domain::slot_named(rest[0]@)(
                g.slots@[slot],
            )
        }),
{
    let g = state.group_of_name(name)->0;
    assert(g.slots@.len() == g.slots.len());
    if rest.len() > 0 {
        lemma_first_index_is(g.slots@, crate::domain::slot_named(rest[0]@));
    }
}

/// Assigning by hand gives the named slot of the named group, in the week named or the current one,
/// to the person named; marks stay.
pub proof fn law_assigning_gives_the_slot_to_whom_it_names(
    pre: State,
    post: State,
    r: Result<String, CommandError>,
    req: Request,
    args: Seq<String>,
)
    requires
        answered(pre, post, r, assign_answer(pre, req, args), req.now),
    ensures
        post.completions == pre.completions,
        post.slot_assignments == pre.slot_assignments || exists|
            g: CleaningGroup,
            slot: int,
            turn: Turn,
            j: int,
        |
            0 < j < args.len() && pre.person_named((#[trigger] args[j])@) is Some
                && #[trigger] is_given(
                pre,
                post,
                req,
                args,
                g,
                slot,
                turn,
                Some(pre.person_named(args[j]@)->0.id@),
            ),
{
    if assign_answer(pre, req, args) is Does {
        let (n, week) = week_clause(args.skip(1), req.today)->0;
        lemma_clause(args.skip(1), req.today);
        let rest = args.subrange(1, 1 + n);
        lemma_target(pre, args[0]@, rest);
        let t = group_and_slot(pre, args[0]@, rest);
        let (g, slot, used) = (t->Found_0, t->Found_1, t->Found_2);
        let p = pre.person_named(rest[used]@)->0;
        let turn = turn_meant(g, week, req.today);
        assert(rest[used] == args[1 + used]);
        if rest.len() > 0 {
            assert(rest[0] == args[1]);
        }
        lemma_given(pre, post, req, g, slot, turn, Some(p.id));
        assert(is_given(pre, post, req, args, g, slot, turn, Some(p.id@)));
    }
}

/// Clearing an assignment by hand leaves the named slot, in the week named or the current one, to
/// nobody.
pub proof fn law_clearing_leaves_the_slot_to_nobody(
    pre: State,
    post: State,
    r: Result<String, CommandError>,
    req: Request,
    args: Seq<String>,
)
    requires
        answered(pre, post, r, unassign_answer(pre, req, args), req.now),
    ensures
        post.completions == pre.completions,
        post.slot_assignments == pre.slot_assignments || exists|
            g: CleaningGroup,
            slot: int,
            turn: Turn,
        | #[trigger]
            is_given(pre, post, req, args, g, slot, turn, None),
{
    if unassign_answer(pre, req, args) is Does {
        let (n, week) = week_clause(args.skip(1), req.today)->0;
        lemma_clause(args.skip(1), req.today);
        let rest = args.subrange(1, 1 + n);
        lemma_target(pre, args[0]@, rest);
        let t = group_and_slot(pre, args[0]@, rest);
        let (g, slot) = (t->Found_0, t->Found_1);
        let turn = turn_meant(g, week, req.today);
        if rest.len() > 0 {
            assert(rest[0] == args[1]);
        }
        lemma_given(pre, post, req, g, slot, turn, None);
        assert(is_given(pre, post, req, args, g, slot, turn, None));
    }
}

proof fn lemma_clause(args: Seq<String>, today: Date)
    requires
        week_clause(args, today) is Some,
    ensures
        ({
            let (n, week) = week_clause(args, today)->0;
            0 <= n <= args.len()
        }),
{
    lemma_first_index_is(args, crate::commands::base::is_week_word());
}

proof fn lemma_given(
    pre: State,
    post: State,
    req: Request,
    g: CleaningGroup,
    slot: int,
    turn: Turn,
    person_id: Option<String>,
)
    requires
        slot as usize == slot,
        step(
            pre,
            post,
            hand_over(pre, req, g, slot, turn, person_id, AssignmentSource::Assign),
            req.now,
        ),
    ensures
        post.assignment(g.id@, slot, turn) is Some,
        post.assignment(g.id@, slot, turn)->0.person_id == person_id,
        post.completions == pre.completions,
{
    let a = SlotAssignment {
        group_id: g.id,
        slot_index: slot as usize,
        iso_year: turn.year,
        iso_week: turn.week,
        shift: turn.shift,
        person_id,
        source: AssignmentSource::Assign,
    };
    law_assignment_reads_back(
        pre,
        post,
        a,
        Some(req.sender),
        crate::commands::assignments::id_of(pre.assignee(g, slot, turn, req.today)),
        req.now,
        g.id@,
        slot,
        turn,
    );
}

// ── Absences ─────────────────────────────────────────────────────────────────

/// What telling groups of an absence one after another comes to.
proof fn lemma_absences_run(
    h: Seq<State>,
    events: Seq<DomainEvent>,
    pre: State,
    groups: Seq<CleaningGroup>,
    p: Person,
    weeks: nat,
    today: Date,
    now: Timestamp,
    n: int,
    person: Seq<char>,
    group: Seq<char>,
    year: i32,
    week: u32,
)
    requires
        history(h, events, now),
        h[0] == pre,
        weeks <= u32::MAX,
        events == groups.map_values(records(p, weeks, today)),
        0 <= n <= events.len(),
    ensures
        h[n].slot_assignments == pre.slot_assignments,
        h[n].completions == pre.completions,
        h[n].cleaning_groups == pre.cleaning_groups,
        is_away(h[n], person, group, year, week) == (is_away(pre, person, group, year, week) || (
        person == p.id@ && (exists|j: int| 0 <= j < n && (#[trigger] groups[j]).id@ == group)
            && crate::calendar::is_year(this_week(today).0 as int) && 0 <= weeks_apart(
            this_week(today),
            (year, week),
        ) < weeks)),
    decreases n,
{
    if n > 0 {
        let m = n - 1;
        lemma_absences_run(
            h,
            events,
            pre,
            groups,
            p,
            weeks,
            today,
            now,
            m,
            person,
            group,
            year,
            week,
        );
        let a = Absence {
            person_id: p.id,
            group_id: groups[m].id,
            from_year: this_week(today).0,
            from_week: this_week(today).1,
            duration_weeks: weeks as u32,
        };
        assert(events[m] == records(p, weeks, today)(groups[m]));
        assert(step(h[m], h[m + 1], events[m], now));
        law_absence_lasts_its_weeks(h[m], h[n], a, now, person, group, year, week);
        if exists|j: int| 0 <= j < n && (#[trigger] groups[j]).id@ == group {
            let j = choose|j: int| 0 <= j < n && (#[trigger] groups[j]).id@ == group;
            if j < m {
                assert(groups[j].id@ == group);
            }
        }
    }
}

/// Telling that a member is away makes them away from every group that they are in, from the
/// current week on for as many weeks as were said, and changes nothing for anybody else: no
/// assignment, no mark.
pub proof fn law_away_is_from_all_groups(
    pre: State,
    post: State,
    r: Result<String, CommandError>,
    req: Request,
    args: Seq<String>,
    person: Seq<char>,
    k: int,
    year: i32,
    week: u32,
)
    requires
        answered(pre, post, r, absent_answer(pre, req, args), req.now),
        absent_answer(pre, req, args) is Runs,
        0 <= k < pre.cleaning_groups@.len(),
        weeks_given(args) <= u32::MAX,
    ensures
        post.slot_assignments == pre.slot_assignments,
        post.completions == pre.completions,
        post.cleaning_groups == pre.cleaning_groups,
        person != pre.person_named(args[0]@)->0.id@ ==> is_away(
            post,
            person,
            pre.cleaning_groups@[k].id@,
            year,
            week,
        ) == is_away(pre, person, pre.cleaning_groups@[k].id@, year, week),
        person == pre.person_named(args[0]@)->0.id@ && says(
            pre.cleaning_groups@[k].member_ids@,
            person,
        ) && crate::calendar::is_year(this_week(req.today).0 as int) ==> is_away(
            post,
            person,
            pre.cleaning_groups@[k].id@,
            year,
            week,
        ) == (is_away(pre, person, pre.cleaning_groups@[k].id@, year, week) || 0 <= weeks_apart(
            this_week(req.today),
            (year, week),
        ) < weeks_given(args)),
{
    let p = pre.person_named(args[0]@)->0;
    let weeks = weeks_given(args);
    let groups = pre.groups_of(p.id@);
    let events = groups.map_values(records(p, weeks, req.today));
    let h = choose|h: Seq<State>| #[trigger]
        history(h, events, req.now) && h[0] == pre && h.last() == post;
    let n = events.len() as int;
    let g = pre.cleaning_groups@[k];
    lemma_absences_run(
        h,
        events,
        pre,
        groups,
        p,
        weeks,
        req.today,
        req.now,
        n,
        person,
        g.id@,
        year,
        week,
    );
    assert(h[n] == post);
    let q = crate::state::group_with_member(p.id@);
    lemma_filter(pre.cleaning_groups@, q);
    if person == p.id@ && says(g.member_ids@, person) {
        assert(q(pre.cleaning_groups@[k]));
        assert(groups.contains(g));
        let j = choose|j: int| 0 <= j < groups.len() && groups[j] == g;
        assert(groups[j].id@ == g.id@);
    }
}

/// Telling that a member is back makes them away from no group in no week; nobody else is affected.
pub proof fn law_back_is_in_all_groups(
    pre: State,
    post: State,
    r: Result<String, CommandError>,
    req: Request,
    args: Seq<String>,
    person: Seq<char>,
    group: Seq<char>,
    year: i32,
    week: u32,
)
    requires
        answered(pre, post, r, back_answer(pre, req, args), req.now),
        req.is_admin,
        known(pre, req.today),
        args.len() > 0,
        pre.person_named(args[0]@) is Some,
    ensures
        is_away(post, person, group, year, week) == (person != pre.person_named(args[0]@)->0.id@
            && is_away(pre, person, group, year, week)),
        post.slot_assignments == pre.slot_assignments,
        post.completions == pre.completions,
{
    let p = pre.person_named(args[0]@)->0;
    let q = crate::commands::people::absence_of(p.id@);
    lemma_some(pre.absences@, q);
    if back_answer(pre, req, args) is Does {
        law_cancelled_absences_are_over(pre, post, p.id, req.now, person, group, year, week);
    } else if person == p.id@ && is_away(pre, person, group, year, week) {
        let i = choose|i: int|
            0 <= i < pre.absences@.len() && covers(
                #[trigger] pre.absences@[i],
                person,
                group,
                year,
                week,
            );
        assert(q(pre.absences@[i]));
    }
}

} // verus!
