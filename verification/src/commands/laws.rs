//! What holds of commands taken together.

use vstd::prelude::*;

use crate::analytics::{turn_of, DomainEvent};
use crate::calendar::Timestamp;
use crate::commands::assignments::{assign_answer, unassign_answer};
use crate::commands::base::{answered, week_clause, Answer, CommandError, Request};
use crate::commands::dispatch::Command;
use crate::commands::done::{did_done, done_marking, marked, marked_by, marks, Marking};
use crate::commands::groups::Factors;
use crate::commands::handle::did_plain;
use crate::commands::import::{
    additions, entries, import_answer, no_option, readings, replacements, wish,
};
use crate::commands::import_laws::lemma_filter_map_has;
use crate::commands::marks::{due_places, sender_key, skip_all, skip_answer};
use crate::commands::people::{absent_answer, records, weeks_given};
use crate::commands::rooms::Factor;
use crate::commands::swaps::accept_answer;
use crate::commands::takeover::{registers, takeover_answer, took_over};
use crate::course::{history, law_assignment_reads_back, lemma_ran_pop, ran, step};
use crate::domain::SlotAssignment;
use crate::journal::StateError;
use crate::lists::{filter_map, first_index};
use crate::planning::this_week;
use crate::rhythm::Turn;
use crate::state::{group_named, State};
use crate::text::says;

verus! {

// ── Events that leave turn orders alone ──────────────────────────────────────

/// Whether an event leaves groups, and with them members and turn orders, alone.
pub open spec fn leaves_groups(e: DomainEvent) -> bool {
    e is SlotAssigned || e is CleaningCompleted || e is CleaningSkipped || e is CleaningUndone
        || e is SwapRequested || e is SwapApproved || e is SwapRejected || e is AbsenceRecorded
        || e is AbsenceCancelled || e is PersonCreated
}

/// Whether an event leaves the plan alone as well.
pub open spec fn leaves_plan(e: DomainEvent) -> bool {
    leaves_groups(e) && !(e is SlotAssigned)
}

/// Such events do so.
proof fn lemma_step_leaves(pre: State, post: State, e: DomainEvent, now: Timestamp)
    requires
        step(pre, post, e, now),
        leaves_groups(e),
    ensures
        post.cleaning_groups == pre.cleaning_groups,
        leaves_plan(e) ==> post.slot_assignments == pre.slot_assignments,
{
}

/// The same of events one after another.
proof fn lemma_ran_leaves(pre: State, post: State, events: Seq<DomainEvent>, now: Timestamp)
    requires
        ran(pre, post, events, now),
        forall|i: int| 0 <= i < events.len() ==> leaves_groups(#[trigger] events[i]),
    ensures
        post.cleaning_groups == pre.cleaning_groups,
        (forall|i: int| 0 <= i < events.len() ==> leaves_plan(#[trigger] events[i]))
            ==> post.slot_assignments == pre.slot_assignments,
    decreases events.len(),
{
    if events.len() == 0 {
        let h = choose|h: Seq<State>| #[trigger]
            history(h, events, now) && h[0] == pre && h.last() == post;
    } else {
        let front = events.drop_last();
        let mid = lemma_ran_pop(pre, post, events, now);
        assert forall|i: int| 0 <= i < front.len() implies leaves_groups(#[trigger] front[i]) by {
            assert(leaves_groups(events[i]));
        }
        assert(leaves_groups(events[events.len() - 1]));
        lemma_ran_leaves(pre, mid, front, now);
        lemma_step_leaves(mid, post, events.last(), now);
        if forall|i: int| 0 <= i < events.len() ==> leaves_plan(#[trigger] events[i]) {
            assert(leaves_plan(events[events.len() - 1]));
            assert forall|i: int| 0 <= i < front.len() implies leaves_plan(#[trigger] front[i]) by {
                assert(leaves_plan(events[i]));
            }
        }
    }
}

/// Whether an answer, when it does something, leaves turn orders alone.
spec fn gentle(a: Answer) -> bool {
    match a {
        Answer::Fails(_) => true,
        Answer::Says(_) => true,
        Answer::Does(e, _) => leaves_groups(e),
        Answer::Runs(events, _) => forall|i: int|
            0 <= i < events.len() ==> leaves_groups(#[trigger] events[i]),
    }
}

/// Whether an answer, when it does something, leaves the plan alone as well.
spec fn idle(a: Answer) -> bool {
    match a {
        Answer::Fails(_) => true,
        Answer::Says(_) => true,
        Answer::Does(e, _) => leaves_plan(e),
        Answer::Runs(events, _) => forall|i: int|
            0 <= i < events.len() ==> leaves_plan(#[trigger] events[i]),
    }
}

/// What such answers leave alone.
proof fn lemma_gentle(
    pre: State,
    post: State,
    r: Result<String, CommandError>,
    a: Answer,
    now: Timestamp,
)
    requires
        answered(pre, post, r, a, now),
        gentle(a) || idle(a),
    ensures
        post.cleaning_groups == pre.cleaning_groups,
        idle(a) ==> post.slot_assignments == pre.slot_assignments,
{
    match a {
        Answer::Does(e, _) => lemma_step_leaves(pre, post, e, now),
        Answer::Runs(events, _) => {
            if idle(a) {
                assert forall|i: int| 0 <= i < events.len() implies leaves_groups(
                    #[trigger] events[i],
                ) by {
                    assert(leaves_plan(events[i]));
                }
            }
            lemma_ran_leaves(pre, post, events, now);
        },
        _ => {},
    }
}

// ── Commands that leave turn orders alone ────────────────────────────────────

/// Excusing groups runs no other events than those that excuse.
proof fn lemma_skips(state: State, week: (i32, u32), by: String, places: Seq<int>)
    ensures
        forall|i: int|
            0 <= i < skip_all(state, week, by, places).0.len() ==> (#[trigger] skip_all(
                state,
                week,
                by,
                places,
            ).0[i]) is CleaningSkipped,
    decreases places.len(),
{
    if places.len() > 0 {
        lemma_skips(state, week, by, places.drop_last());
    }
}

/// `!skip` leaves the plan alone.
proof fn lemma_skip_idle(state: State, req: Request, args: Seq<String>)
    ensures
        idle(skip_answer(state, req, args)),
{
    let k = first_index(state.cleaning_groups@, group_named(args[0]@));
    let week = this_week(req.today);
    let places = if args.len() > 0 {
        seq![k]
    } else {
        due_places(state, week, req.today, state.cleaning_groups@.len())
    };
    let by = sender_key(state, req);
    lemma_skips(state, week, by, places);
    let events = skip_all(state, week, by, places).0;
    assert forall|i: int| 0 <= i < events.len() implies leaves_plan(#[trigger] events[i]) by {
        assert(events[i] is CleaningSkipped);
    }
}

/// `!member away` leaves the plan alone.
proof fn lemma_away_idle(state: State, req: Request, args: Seq<String>)
    ensures
        idle(absent_answer(state, req, args)),
{
    match absent_answer(state, req, args) {
        Answer::Runs(events, _) => {
            let p = state.person_named(args[0]@)->0;
            let f = records(p, weeks_given(args), req.today);
            assert(events == state.groups_of(p.id@).map_values(f));
            assert forall|i: int| 0 <= i < events.len() implies leaves_plan(
                #[trigger] events[i],
            ) by {
                assert(events[i] == f(state.groups_of(p.id@)[i]));
            }
        },
        _ => {},
    }
}

/// `!plan import` leaves turn orders alone.
proof fn lemma_import_gentle(state: State, req: Request, args: Seq<String>)
    ensures
        gentle(import_answer(state, req, args)),
{
    match import_answer(state, req, args) {
        Answer::Runs(events, _) => {
            let replace = says(args, "--replace"@);
            let rs = readings(state, req.today, entries(args.filter(no_option())));
            let wishes = filter_map(rs, wish());
            let fa = additions(state, req, replace);
            let fr = replacements(state, req, replace);
            let added = filter_map(wishes, fa);
            let moved = filter_map(wishes, fr);
            lemma_filter_map_has(wishes, fa);
            lemma_filter_map_has(wishes, fr);
            assert forall|i: int| 0 <= i < events.len() implies leaves_groups(
                #[trigger] events[i],
            ) by {
                if i < added.len() {
                    assert(events[i] == added[i]);
                } else {
                    assert(events[i] == moved[i - added.len()]);
                }
            }
        },
        _ => {},
    }
}

/// `!done` leaves the plan alone.
proof fn lemma_done_idle(
    pre: State,
    post: State,
    r: Result<String, CommandError>,
    req: Request,
    args: Seq<String>,
)
    requires
        did_done(pre, post, r, req, args),
    ensures
        post.cleaning_groups == pre.cleaning_groups,
        post.slot_assignments == pre.slot_assignments,
{
    if post != pre {
        let p = pre.person_of(req.sender@)->0;
        match done_marking(pre, req, p.id@, args) {
            Marking::Marks(tasks, before) => {
                let said = choose|said: Seq<Seq<char>>| #[trigger]
                    marked(pre, post, tasks, p.id, req.today, req.now, said);
                let (h, events) = choose|h: Seq<State>, events: Seq<DomainEvent>| #[trigger]
                    marked_by(h, events, pre, post, tasks, p.id, req.today, req.now, said);
                assert(ran(pre, post, events, req.now));
                assert forall|i: int| 0 <= i < events.len() implies leaves_plan(
                    #[trigger] events[i],
                ) by {
                    assert(marks(events[i], pre, tasks[i], p.id, req.today));
                }
                assert forall|i: int| 0 <= i < events.len() implies leaves_groups(
                    #[trigger] events[i],
                ) by {
                    assert(leaves_plan(events[i]));
                }
                lemma_ran_leaves(pre, post, events, req.now);
            },
            _ => {},
        }
    }
}

/// Marking, taking marks back, excusing, assigning by hand, taking over, swapping, importing a plan
/// and being away leave all groups as they are: their members and their turn orders.
pub proof fn law_changes_by_hand_keep_turn_orders(
    pre: State,
    post: State,
    r: Result<String, CommandError>,
    req: Request,
    c: Command,
    args: Seq<String>,
    factor: Option<Factor>,
    factors: Factors,
)
    requires
        did_plain(pre, post, r, req, c, args, factor, factors),
        c == Command::Done || c == Command::Undo || c == Command::Skip || c == Command::Assign || c
            == Command::Unassign || c == Command::Takeover || c == Command::Swap || c
            == Command::AcceptSwap || c == Command::RejectSwap || c == Command::Import || c
            == Command::Away || c == Command::Back,
    ensures
        post.cleaning_groups == pre.cleaning_groups,
{
    match c {
        Command::Done => lemma_done_idle(pre, post, r, req, args),
        Command::Undo => {},
        Command::Skip => {
            lemma_skip_idle(pre, req, args);
            lemma_gentle(pre, post, r, skip_answer(pre, req, args), req.now);
        },
        Command::Takeover => {
            let id = choose|id: String|
                id@.len() == 36 && #[trigger] took_over(pre, post, r, req, args, id);
            lemma_takeover_gentle(pre, post, r, req, args, id);
        },
        Command::AcceptSwap => {
            let a = accept_answer(pre, req, args);
            assert(gentle(a));
            lemma_gentle(pre, post, r, a, req.now);
        },
        Command::Import => {
            lemma_import_gentle(pre, req, args);
            lemma_gentle(pre, post, r, import_answer(pre, req, args), req.now);
        },
        Command::Away => {
            lemma_away_idle(pre, req, args);
            lemma_gentle(pre, post, r, absent_answer(pre, req, args), req.now);
        },
        _ => {},
    }
}

/// `!takeover` registers whoever asks, and answers then.
proof fn lemma_takeover_parts(
    pre: State,
    post: State,
    r: Result<String, CommandError>,
    req: Request,
    args: Seq<String>,
    id: String,
) -> (mid: State)
    requires
        took_over(pre, post, r, req, args, id),
        post != pre,
    ensures
        week_clause(args, req.today) is Some,
        step(pre, mid, registers(req, id), req.now),
        match mid.person_of(req.sender@) {
            None => post == mid,
            Some(p) => {
                let (n, week) = week_clause(args, req.today)->0;
                answered(
                    mid,
                    post,
                    r,
                    takeover_answer(mid, req, p.id, args.take(n), week),
                    req.now,
                )
            },
        },
{
    let (n, week) = week_clause(args, req.today)->0;
    choose|mid: State|
        {
            &&& #[trigger] step(pre, mid, registers(req, id), req.now)
            &&& match mid.person_of(req.sender@) {
                None => {
                    &&& post == mid
                    &&& r == Err::<String, CommandError>(
                        CommandError::Refused(StateError::UnknownPerson),
                    )
                },
                Some(p) => answered(
                    mid,
                    post,
                    r,
                    takeover_answer(mid, req, p.id, args.take(n), week),
                    req.now,
                ),
            }
        }
}

/// `!takeover` leaves turn orders alone.
proof fn lemma_takeover_gentle(
    pre: State,
    post: State,
    r: Result<String, CommandError>,
    req: Request,
    args: Seq<String>,
    id: String,
)
    requires
        took_over(pre, post, r, req, args, id),
    ensures
        post.cleaning_groups == pre.cleaning_groups,
{
    if post != pre {
        let mid = lemma_takeover_parts(pre, post, r, req, args, id);
        lemma_step_leaves(pre, mid, registers(req, id), req.now);
        if mid.person_of(req.sender@) is Some {
            let (n, week) = week_clause(args, req.today)->0;
            let p = mid.person_of(req.sender@)->0;
            let a = takeover_answer(mid, req, p.id, args.take(n), week);
            assert(gentle(a));
            lemma_gentle(mid, post, r, a, req.now);
        }
    }
}

/// Marking, taking marks back, excusing, being away, and asking for a swap or declining one leave
/// the whole plan as it is.
pub proof fn law_marks_and_absences_keep_the_plan(
    pre: State,
    post: State,
    r: Result<String, CommandError>,
    req: Request,
    c: Command,
    args: Seq<String>,
    factor: Option<Factor>,
    factors: Factors,
)
    requires
        did_plain(pre, post, r, req, c, args, factor, factors),
        c == Command::Done || c == Command::Undo || c == Command::Skip || c == Command::Away || c
            == Command::Back || c == Command::Swap || c == Command::RejectSwap,
    ensures
        post.slot_assignments == pre.slot_assignments,
        post.cleaning_groups == pre.cleaning_groups,
{
    match c {
        Command::Done => lemma_done_idle(pre, post, r, req, args),
        Command::Undo => {},
        Command::Skip => {
            lemma_skip_idle(pre, req, args);
            lemma_gentle(pre, post, r, skip_answer(pre, req, args), req.now);
        },
        Command::Away => {
            lemma_away_idle(pre, req, args);
            lemma_gentle(pre, post, r, absent_answer(pre, req, args), req.now);
        },
        _ => {},
    }
}

/// Whether all turns but one slot of one are given to whom they were.
pub open spec fn others_kept(pre: State, post: State, group: Seq<char>, slot: int, turn: Turn) -> bool {
    forall|g: Seq<char>, i: int, t: Turn|
        (g, i, t) != (group, slot, turn) ==> #[trigger] post.assignment(g, i, t) == pre.assignment(
            g,
            i,
            t,
        )
}

/// Whether at most one slot of one turn changed hands.
pub open spec fn one_turn_changed(pre: State, post: State) -> bool {
    exists|group: Seq<char>, slot: int, turn: Turn| #[trigger]
        others_kept(pre, post, group, slot, turn)
}

/// An assignment by hand changes one turn.
proof fn lemma_one_turn(pre: State, post: State, e: DomainEvent, now: Timestamp)
    requires
        step(pre, post, e, now),
        e is SlotAssigned,
    ensures
        one_turn_changed(pre, post),
{
    match e {
        DomainEvent::SlotAssigned {
            group_id,
            slot_index,
            iso_year,
            iso_week,
            shift,
            person_id,
            source,
            actor_id,
            previous_person_id,
        } => {
            let a = SlotAssignment {
                group_id,
                slot_index,
                iso_year,
                iso_week,
                shift,
                person_id,
                source,
            };
            assert forall|g: Seq<char>, i: int, t: Turn|
                (g, i, t) != (a.group_id@, a.slot_index as int, turn_of(
                    a,
                )) implies #[trigger] post.assignment(g, i, t) == pre.assignment(g, i, t) by {
                law_assignment_reads_back(
                    pre,
                    post,
                    a,
                    actor_id,
                    previous_person_id,
                    now,
                    g,
                    i,
                    t,
                );
            }
            assert(others_kept(pre, post, a.group_id@, a.slot_index as int, turn_of(a)));
        },
        _ => {},
    }
}

/// Assigning by hand, clearing an assignment and taking over change who is responsible for at most
/// one slot of one turn.
pub proof fn law_one_turn_changes_hands(
    pre: State,
    post: State,
    r: Result<String, CommandError>,
    req: Request,
    c: Command,
    args: Seq<String>,
    factor: Option<Factor>,
    factors: Factors,
)
    requires
        did_plain(pre, post, r, req, c, args, factor, factors),
        c == Command::Assign || c == Command::Unassign || c == Command::Takeover,
    ensures
        one_turn_changed(pre, post),
{
    let nowhere = Turn { year: 0, week: 0, shift: 0 };
    if post.slot_assignments == pre.slot_assignments {
        assert(others_kept(pre, post, Seq::empty(), 0, nowhere));
    } else if c == Command::Assign {
        match assign_answer(pre, req, args) {
            Answer::Does(e, _) => lemma_one_turn(pre, post, e, req.now),
            _ => {},
        }
    } else if c == Command::Unassign {
        match unassign_answer(pre, req, args) {
            Answer::Does(e, _) => lemma_one_turn(pre, post, e, req.now),
            _ => {},
        }
    } else {
        let id = choose|id: String|
            id@.len() == 36 && #[trigger] took_over(pre, post, r, req, args, id);
        let mid = lemma_takeover_parts(pre, post, r, req, args, id);
        lemma_step_leaves(pre, mid, registers(req, id), req.now);
        if mid.person_of(req.sender@) is Some {
            let (n, week) = week_clause(args, req.today)->0;
            match takeover_answer(
                mid,
                req,
                mid.person_of(req.sender@)->0.id,
                args.take(n),
                week,
            ) {
                Answer::Does(e, _) => {
                    lemma_one_turn(mid, post, e, req.now);
                    let (g, i, t) = choose|g: Seq<char>, i: int, t: Turn| #[trigger]
                        others_kept(mid, post, g, i, t);
                    assert forall|g2: Seq<char>, i2: int, t2: Turn|
                        (g2, i2, t2) != (g, i, t) implies #[trigger] post.assignment(g2, i2, t2)
                        == pre.assignment(g2, i2, t2) by {
                        assert(post.assignment(g2, i2, t2) == mid.assignment(g2, i2, t2));
                    }
                    assert(others_kept(pre, post, g, i, t));
                },
                _ => {},
            }
        }
    }
}

// ── Who may do what ──────────────────────────────────────────────────────────

/// Whoever is not an admin changes nothing by a command for admins.
pub proof fn law_only_admins_change_the_setup(
    pre: State,
    post: State,
    r: Result<String, CommandError>,
    req: Request,
    c: Command,
    args: Seq<String>,
    factor: Option<Factor>,
    factors: Factors,
)
    requires
        did_plain(pre, post, r, req, c, args, factor, factors),
        !req.is_admin,
        c == Command::Assign || c == Command::Unassign || c == Command::Skip || c == Command::Reset
            || c == Command::Import || c == Command::MemberAdd || c == Command::MemberRemove || c
            == Command::Away || c == Command::Back || c == Command::GroupAdd || c
            == Command::GroupRemove || c == Command::GroupEnable || c == Command::GroupDisable || c
            == Command::Weight || c == Command::Slot || c == Command::Room || c
            == Command::Validate,
    ensures
        post == pre,
        r is Ok ==> c == Command::Weight || c == Command::Slot || c == Command::Room,
        r is Err ==> r->Err_0 == CommandError::NotAdmin,
{
}

/// Commands that only show something change nothing.
pub proof fn law_looking_changes_nothing(
    pre: State,
    post: State,
    r: Result<String, CommandError>,
    req: Request,
    c: Command,
    args: Seq<String>,
    factor: Option<Factor>,
    factors: Factors,
)
    requires
        did_plain(pre, post, r, req, c, args, factor, factors),
        c == Command::Status || c == Command::Groups || c == Command::GroupDetail || c
            == Command::Next || c == Command::Help || c == Command::AdminHelp || c
            == Command::PlanUsage || c == Command::MemberUsage || c == Command::Validate,
    ensures
        post == pre,
{
}

} // verus!
