//! Swapping turns.

use vstd::prelude::*;

use crate::analytics::DomainEvent;
use crate::calendar::{is_day, is_year, week_start, Date};
use crate::commands::assignments::id_of;
use crate::commands::base::{
    answered, extract_week_arg, group_position_by_name, label_or_nobody, lemma_near_week,
    meant_turn, no_group, no_group_text, perform, person_label, show_week, slot_ending, slot_suffix,
    turn_meant, week_clause, week_label, Answer, CommandError, Request,
};
use crate::commands::takeover::{named_choice, named_slot, Choice};
use crate::commands::tasks::{is_open, list_own_tasks, open_tasks, own_tasks, Task};
use crate::course::{
    history, law_assignment_reads_back, lemma_ran_nothing, lemma_ran_pop, lemma_ran_push, ran,
};
use crate::domain::{AssignmentSource, Person, SlotAssignment};
use crate::journal::{next_swap_id, swap_with_id};
use crate::lists::{find, first_index, lemma_first_index, lemma_first_index_is, some};
use crate::planning::{is_known, known, swaps_fit, turn_fits};
use crate::rhythm::Turn;
use crate::state::{group_named, State, SwapRequest, SwapStatus};
use crate::text::{
    chars_of, contains_text, decimal, parse_up_to, parsed_up_to, same_text, says, show,
};

verus! {

/// How `!swap` is used.
pub const SWAP_USAGE: &'static str = "Usage: !swap @user [group] [week <N>]";

/// How `!swap` is used, when the week makes no sense.
pub const SWAP_WEEK_USAGE: &'static str = "Usage: !swap @user [group] [week <1-53>]";

/// An open task of a slot.
pub open spec fn at_slot(slot: int) -> spec_fn(Task) -> bool {
    |t: Task| t.slot == slot
}

/// What somebody wants to swap.
pub enum Wish {
    /// A slot of a turn.
    Turn(int, Turn),
    /// That cannot be told, and what to say about it.
    Unclear(Seq<char>),
}

/// The slot and turn of a week that somebody wants to swap in the group at a place: one that is
/// theirs and open; in a group without slots, without any, the turn that the week stands for.
pub open spec fn swap_wish(
    state: State,
    k: int,
    person_id: Seq<char>,
    slot_name: Option<String>,
    week: (i32, u32),
    today: Date,
) -> Wish {
    let g = state.cleaning_groups@[k];
    let own = own_tasks(state, k, week, person_id, today).filter(is_open(state));
    match slot_name {
        Some(name) => match named_choice(g, name@) {
            Choice::Unclear(t) => Wish::Unclear(t),
            Choice::Slot(h, slot) => match find(own, at_slot(slot)) {
                Some(t) => Wish::Turn(slot, t.turn),
                None => Wish::Unclear(
                    "«"@ + g.name@ + " / "@ + g.slots@[slot].name@ + "» isn't yours in week "@
                        + week_label(week) + "."@,
                ),
            },
        },
        None => if own.len() > 0 {
            Wish::Turn(own[0].slot as int, own[0].turn)
        } else if g.slots@.len() > 0 {
            Wish::Unclear(
                "No open slot of «"@ + g.name@ + "» in week "@ + week_label(week) + " is yours."@,
            )
        } else {
            Wish::Turn(0, turn_meant(g, week, today))
        },
    }
}

/// A request of somebody that is pending for a slot of a turn.
pub open spec fn pending_for(
    group_id: Seq<char>,
    slot: int,
    turn: Turn,
    mxid: Seq<char>,
) -> spec_fn(SwapRequest) -> bool {
    |s: SwapRequest|
        {
            &&& s.group_id@ == group_id
            &&& s.slot_index == slot
            &&& (Turn { year: s.iso_year, week: s.iso_week, shift: s.shift }) == turn
            &&& s.status == SwapStatus::Pending
            &&& s.requester@ == mxid
        }
}

/// The group that a swap is about: one that is named, or the first of somebody.
pub open spec fn swap_place(state: State, person_id: Seq<char>, rest: Seq<String>) -> int {
    if rest.len() > 0 {
        first_index(state.cleaning_groups@, group_named(rest[0]@))
    } else {
        first_index(state.cleaning_groups@, crate::state::group_with_member(person_id))
    }
}

/// What a request to swap in the group at a place comes to.
pub open spec fn swap_in(
    state: State,
    req: Request,
    target: String,
    person_id: Seq<char>,
    rest: Seq<String>,
    week: (i32, u32),
    k: int,
) -> Answer {
    let g = state.cleaning_groups@[k];
    let name = if rest.len() > 1 {
        Some(rest[1])
    } else {
        None
    };
    if !says(g.member_ids@, person_id) {
        Answer::Says("You are not a member of «"@ + g.name@ + "»."@)
    } else {
        match swap_wish(state, k, person_id, name, week, req.today) {
            Wish::Unclear(t) => Answer::Says(t),
            Wish::Turn(slot, turn) => {
                let id = decimal(next_swap_id(state.swap_requests@) as nat);
                if some(state.swap_requests@, pending_for(g.id@, slot, turn, req.sender@)) {
                    Answer::Says(
                        "You already have a pending swap for «"@ + g.name@ + "» week "@ + decimal(
                            week.1 as nat,
                        ) + "."@,
                    )
                } else if next_swap_id(state.swap_requests@) > u64::MAX {
                    Answer::Fails(CommandError::OutOfRange)
                } else {
                    Answer::Does(
                        DomainEvent::SwapRequested {
                            group_id: g.id,
                            requester_mxid: req.sender,
                            target_mxid: target,
                            iso_year: turn.year,
                            iso_week: turn.week,
                            shift: turn.shift,
                            slot_index: slot as usize,
                        },
                        "🔄 Swap #"@ + id + " · «"@ + g.name@ + slot_suffix(g, slot, " / "@)
                            + "» week "@ + week_label(week) + "\n"@ + target@ + ": !swap accept "@
                            + id + " or !swap reject "@ + id,
                    )
                }
            },
        }
    }
}

/// What `!swap` does: it asks somebody to take over a turn of whoever asks.
pub open spec fn swap_answer(state: State, req: Request, args: Seq<String>) -> Answer {
    if !known(state, req.today) {
        Answer::Fails(CommandError::OutOfRange)
    } else if args.len() == 0 {
        Answer::Says(SWAP_USAGE@)
    } else if !(args[0]@.len() > 0 && args[0]@[0] == '@') {
        Answer::Says("Swap targets must be Matrix users (@user:server)."@)
    } else {
        match week_clause(args.skip(1), req.today) {
            None => Answer::Says(SWAP_WEEK_USAGE@),
            Some((n, week)) => {
                let rest = args.subrange(1, 1 + n);
                if args[0]@ == req.sender@ {
                    Answer::Says("You cannot swap with yourself."@)
                } else {
                    match state.person_of(req.sender@) {
                        None => Answer::Says("You ("@ + req.sender@ + ") are not registered."@),
                        Some(p) => {
                            let k = swap_place(state, p.id@, rest);
                            if k < state.cleaning_groups@.len() {
                                swap_in(state, req, args[0], p.id@, rest, week, k)
                            } else if rest.len() > 0 {
                                Answer::Says(no_group_text(rest[0]@))
                            } else {
                                Answer::Says(
                                    "You are not in any group. Specify: !swap @user <group>"@,
                                )
                            }
                        },
                    }
                }
            },
        }
    }
}

/// The place of the first task of a slot.
fn task_at_slot(tasks: &Vec<Task>, slot: usize) -> (r: Option<usize>)
    ensures
        (r is Some) == some(tasks@, at_slot(slot as int)),
        r is Some ==> r->0 < tasks@.len() && r->0 == first_index(tasks@, at_slot(slot as int)),
{
    let ghost p = at_slot(slot as int);
    let mut i: usize = 0;
    while i < tasks.len()
        invariant
            i <= tasks.len(),
            p == at_slot(slot as int),
            forall|j: int| 0 <= j < i ==> !p(#[trigger] tasks@[j]),
        decreases tasks.len() - i,
    {
        if tasks[i].slot == slot {
            proof {
                lemma_first_index(tasks@, p, i as int);
            }
            return Some(i);
        }
        i += 1;
    }
    proof {
        lemma_first_index(tasks@, p, i as int);
    }
    None
}

/// Finds the slot and turn of a week that somebody wants to swap.
fn find_wish(
    state: &State,
    k: usize,
    person_id: &str,
    slot_name: Option<&String>,
    week: (i32, u32),
    today: Date,
) -> (r: Result<(usize, Turn), String>)
    requires
        known(*state, today),
        k < state.cleaning_groups@.len(),
        is_year(week.0 as int),
        is_day(week_start(week.0 as int, week.1 as int) + 6),
    ensures
        match swap_wish(
            *state,
            k as int,
            person_id@,
            match slot_name {
                Some(name) => Some(*name),
                None => None,
            },
            week,
            today,
        ) {
            Wish::Turn(slot, turn) => r is Ok && r->Ok_0.0 == slot && r->Ok_0.1 == turn,
            Wish::Unclear(t) => r is Err && r->Err_0@ == t,
        },
{
    let g = &state.cleaning_groups[k];
    let all = list_own_tasks(state, k, week, person_id, today);
    let own = open_tasks(state, &all);
    match slot_name {
        Some(name) => match named_slot(g, name.as_str()) {
            Err(t) => Err(t),
            Ok(slot) => {
                if let Some(i) = task_at_slot(&own, slot) {
                    return Ok((slot, own[i].turn));
                }
                Err(
                    "«".to_owned().concat(g.name.as_str()).concat(" / ").concat(
                        g.slots[slot].name.as_str(),
                    ).concat("» isn't yours in week ").concat(show_week(week).as_str()).concat(
                        ".",
                    ),
                )
            },
        },
        None => if own.len() > 0 {
            Ok((own[0].slot, own[0].turn))
        } else if g.slots.len() > 0 {
            Err(
                "No open slot of «".to_owned().concat(g.name.as_str()).concat(
                    "» in week ",
                ).concat(show_week(week).as_str()).concat(" is yours."),
            )
        } else {
            Ok((0, meant_turn(g, week, today)))
        },
    }
}

/// Whether somebody has a request pending for a slot of a turn.
fn has_pending(state: &State, group_id: &str, slot: usize, turn: Turn, mxid: &str) -> (r: bool)
    ensures
        r == some(state.swap_requests@, pending_for(group_id@, slot as int, turn, mxid@)),
{
    let ghost p = pending_for(group_id@, slot as int, turn, mxid@);
    let mut i: usize = 0;
    while i < state.swap_requests.len()
        invariant
            i <= state.swap_requests.len(),
            p == pending_for(group_id@, slot as int, turn, mxid@),
            forall|j: int| 0 <= j < i ==> !p(#[trigger] state.swap_requests@[j]),
        decreases state.swap_requests.len() - i,
    {
        let s = &state.swap_requests[i];
        if s.slot_index == slot && s.iso_year == turn.year && s.iso_week == turn.week && s.shift
            == turn.shift && s.status == SwapStatus::Pending && same_text(
            s.group_id.as_str(),
            group_id,
        ) && same_text(s.requester.as_str(), mxid) {
            proof {
                lemma_first_index(state.swap_requests@, p, i as int);
            }
            return true;
        }
        i += 1;
    }
    proof {
        lemma_first_index(state.swap_requests@, p, i as int);
    }
    false
}

/// The place of the first group that somebody is in.
fn first_group_of(state: &State, person_id: &str) -> (r: Option<usize>)
    ensures
        (r is Some) == some(
            state.cleaning_groups@,
            crate::state::group_with_member(person_id@),
        ),
        r is Some ==> r->0 < state.cleaning_groups@.len() && r->0 == first_index(
            state.cleaning_groups@,
            crate::state::group_with_member(person_id@),
        ),
{
    let ghost p = crate::state::group_with_member(person_id@);
    let mut i: usize = 0;
    while i < state.cleaning_groups.len()
        invariant
            i <= state.cleaning_groups.len(),
            p == crate::state::group_with_member(person_id@),
            forall|j: int| 0 <= j < i ==> !p(#[trigger] state.cleaning_groups@[j]),
        decreases state.cleaning_groups.len() - i,
    {
        if contains_text(&state.cleaning_groups[i].member_ids, person_id) {
            proof {
                lemma_first_index(state.cleaning_groups@, p, i as int);
            }
            return Some(i);
        }
        i += 1;
    }
    proof {
        lemma_first_index(state.cleaning_groups@, p, i as int);
    }
    None
}

/// Asks somebody to take over a turn of whoever asks.
pub fn cmd_swap(state: &mut State, req: &Request, args: &Vec<String>) -> (r: Result<
    String,
    CommandError,
>)
    ensures
        answered(*old(state), *final(state), r, swap_answer(*old(state), *req, args@), req.now),
{
    if !is_known(state, req.today) {
        return Err(CommandError::OutOfRange);
    }
    if args.len() == 0 {
        return Ok(SWAP_USAGE.to_owned());
    }
    let target = chars_of(args[0].as_str());
    if !(target.len() > 0 && target[0] == '@') {
        return Ok("Swap targets must be Matrix users (@user:server).".to_owned());
    }
    let (to, week) = match extract_week_arg(args, 1, req.today) {
        Some(v) => v,
        None => {
            return Ok(SWAP_WEEK_USAGE.to_owned());
        },
    };
    if same_text(args[0].as_str(), req.sender.as_str()) {
        return Ok("You cannot swap with yourself.".to_owned());
    }
    let ghost rest = args@.subrange(1, to as int);
    let person_id = match state.person_by_matrix_id(req.sender.as_str()) {
        Some(p) => p.id.clone(),
        None => {
            return Ok(
                "You (".to_owned().concat(req.sender.as_str()).concat(") are not registered."),
            );
        },
    };
    proof {
        lemma_near_week(week.0 as int, week.1 as int);
        if rest.len() > 0 {
            assert(rest[0] == args@[1]);
            lemma_first_index_is(state.cleaning_groups@, group_named(rest[0]@));
        } else {
            lemma_first_index_is(
                state.cleaning_groups@,
                crate::state::group_with_member(person_id@),
            );
        }
        if rest.len() > 1 {
            assert(rest[1] == args@[2]);
        }
    }
    let k: usize = if to > 1 {
        match group_position_by_name(state, args[1].as_str()) {
            Some(k) => k,
            None => {
                return Ok(no_group(args[1].as_str()));
            },
        }
    } else {
        match first_group_of(state, person_id.as_str()) {
            Some(k) => k,
            None => {
                return Ok("You are not in any group. Specify: !swap @user <group>".to_owned());
            },
        }
    };
    let g = &state.cleaning_groups[k];
    if !contains_text(&g.member_ids, person_id.as_str()) {
        return Ok("You are not a member of «".to_owned().concat(g.name.as_str()).concat("»."));
    }
    let name: Option<&String> = if to > 2 {
        Some(&args[2])
    } else {
        None
    };
    let (slot, turn) = match find_wish(state, k, person_id.as_str(), name, week, req.today) {
        Ok(v) => v,
        Err(t) => {
            return Ok(t);
        },
    };
    if has_pending(state, g.id.as_str(), slot, turn, req.sender.as_str()) {
        return Ok(
            "You already have a pending swap for «".to_owned().concat(g.name.as_str()).concat(
                "» week ",
            ).concat(show(week.1 as u64).as_str()).concat("."),
        );
    }
    if !swaps_fit(&state.swap_requests) {
        return Err(CommandError::OutOfRange);
    }
    let id = show(state.fresh_swap_id());
    let text = "🔄 Swap #".to_owned().concat(id.as_str()).concat(" · «").concat(
        g.name.as_str(),
    ).concat(slot_ending(g, slot, " / ").as_str()).concat("» week ").concat(
        show_week(week).as_str(),
    ).concat("\n").concat(args[0].as_str()).concat(": !swap accept ").concat(id.as_str()).concat(
        " or !swap reject ",
    ).concat(id.as_str());
    let event = DomainEvent::SwapRequested {
        group_id: g.id.clone(),
        requester_mxid: req.sender.clone(),
        target_mxid: args[0].clone(),
        iso_year: turn.year,
        iso_week: turn.week,
        shift: turn.shift,
        slot_index: slot,
    };
    perform(state, event, text, req.now)
}

// ── Answering requests ───────────────────────────────────────────────────────

/// The word for what became of a request.
pub open spec fn status_text(s: SwapStatus) -> Seq<char> {
    match s {
        SwapStatus::Pending => "Pending"@,
        SwapStatus::Accepted => "Accepted"@,
        SwapStatus::Rejected => "Rejected"@,
        SwapStatus::Cancelled => "Cancelled"@,
    }
}

/// The word for what became of a request.
fn show_status(s: SwapStatus) -> (r: &'static str)
    ensures
        r@ == status_text(s),
{
    match s {
        SwapStatus::Pending => "Pending",
        SwapStatus::Accepted => "Accepted",
        SwapStatus::Rejected => "Rejected",
        SwapStatus::Cancelled => "Cancelled",
    }
}

/// What keeps somebody from answering a request: that it is for somebody else, or answered.
pub open spec fn not_answerable(s: SwapRequest, mxid: Seq<char>) -> Option<Seq<char>> {
    if s.target@ != mxid {
        Some("This swap is not addressed to you."@)
    } else if s.status != SwapStatus::Pending {
        Some(
            "Request #"@ + decimal(s.id as nat) + " is already "@ + status_text(s.status) + "."@,
        )
    } else {
        None
    }
}

/// What keeps somebody from answering a request.
fn why_not_answerable(s: &SwapRequest, mxid: &str) -> (r: Option<String>)
    ensures
        (r is Some) == (not_answerable(*s, mxid@) is Some),
        r is Some ==> r->0@ == not_answerable(*s, mxid@)->0,
{
    if !same_text(s.target.as_str(), mxid) {
        Some("This swap is not addressed to you.".to_owned())
    } else if s.status != SwapStatus::Pending {
        Some(
            "Request #".to_owned().concat(show(s.id).as_str()).concat(" is already ").concat(
                show_status(s.status),
            ).concat("."),
        )
    } else {
        None
    }
}

/// Somebody by id, or by Matrix id when they are not known.
pub open spec fn id_or_key(state: State, mxid: String) -> String {
    match state.person_of(mxid@) {
        Some(p) => p.id,
        None => mxid,
    }
}

/// Somebody by id, or by Matrix id when they are not known.
fn find_id_or_key(state: &State, mxid: &String) -> (r: String)
    ensures
        r == id_or_key(*state, *mxid),
{
    match state.person_by_matrix_id(mxid.as_str()) {
        Some(p) => p.id.clone(),
        None => mxid.clone(),
    }
}

/// The turn of a request.
pub open spec fn swap_turn(s: SwapRequest) -> Turn {
    Turn { year: s.iso_year, week: s.iso_week, shift: s.shift }
}

/// Who holds the turn of a request.
pub open spec fn swap_holder(state: State, s: SwapRequest, today: Date) -> Option<Person> {
    match state.group(s.group_id@) {
        Some(g) => state.assignee(g, s.slot_index as int, swap_turn(s), today),
        None => None,
    }
}

/// The group of a request, by name.
pub open spec fn swap_group_name(state: State, s: SwapRequest) -> Seq<char> {
    match state.group(s.group_id@) {
        Some(g) => g.name@,
        None => ""@,
    }
}

/// What accepting a pending request comes to. A turn that is done stays as it is; when whoever
/// asked does not hold the turn any more, the request is rejected, and nobody loses a turn.
pub open spec fn accept_of(state: State, req: Request, s: SwapRequest) -> Answer {
    let id = decimal(s.id as nat);
    let name = swap_group_name(state, s);
    let group = state.group(s.group_id@);
    let turn = swap_turn(s);
    let requester_id = id_or_key(state, s.requester);
    let replacement_id = id_or_key(state, req.sender);
    let now = swap_holder(state, s, req.today);
    if group is Some && state.slot_done(group->0, s.slot_index as int, turn) {
        Answer::Says(
            "«"@ + name + "» week "@ + decimal(s.iso_week as nat)
                + " is already completed or skipped — swap #"@ + id
                + " can no longer be accepted."@,
        )
    } else if group is None || now is None || now->0.id@ != requester_id@ {
        Answer::Does(
            DomainEvent::SwapRejected { swap_id: s.id },
            "Swap #"@ + id + " is no longer valid — "@ + s.requester@
                + " is no longer responsible for «"@ + name + "» week "@ + decimal(
                s.iso_week as nat,
            ) + " (now: "@ + label_or_nobody(now) + "). It has been cancelled."@,
        )
    } else {
        Answer::Runs(
            seq![
                DomainEvent::SwapApproved {
                    swap_id: s.id,
                    group_id: s.group_id,
                    requester_id,
                    replacement_id,
                    iso_year: s.iso_year,
                    iso_week: s.iso_week,
                    shift: s.shift,
                },
                DomainEvent::SlotAssigned {
                    group_id: s.group_id,
                    slot_index: s.slot_index,
                    iso_year: s.iso_year,
                    iso_week: s.iso_week,
                    shift: s.shift,
                    person_id: Some(replacement_id),
                    source: AssignmentSource::Swap,
                    actor_id: Some(req.sender),
                    previous_person_id: id_of(now),
                },
            ],
            "✅ Swap #"@ + id + " accepted. "@ + req.sender@ + " will clean «"@ + name + slot_suffix(
                group->0,
                s.slot_index as int,
                " / "@,
            ) + "» instead of "@ + s.requester@ + "."@,
        )
    }
}

/// The number of a request that an argument gives.
pub open spec fn swap_number(args: Seq<String>) -> Option<nat> {
    if args.len() > 0 {
        parsed_up_to(args[0]@, u64::MAX as nat)
    } else {
        None
    }
}

/// What `!acceptswap` does.
pub open spec fn accept_answer(state: State, req: Request, args: Seq<String>) -> Answer {
    if !known(state, req.today) {
        Answer::Fails(CommandError::OutOfRange)
    } else {
        match swap_number(args) {
            None => Answer::Says("Usage: !swap accept <id>"@),
            Some(id) => match find(state.swap_requests@, swap_with_id(id as u64)) {
                None => Answer::Says("Swap request #"@ + decimal(id) + " not found."@),
                Some(s) => match not_answerable(s, req.sender@) {
                    Some(t) => Answer::Says(t),
                    None => if swap_turn(s).wf() {
                        accept_of(state, req, s)
                    } else {
                        Answer::Fails(CommandError::OutOfRange)
                    },
                },
            },
        }
    }
}

/// What `!rejectswap` does.
pub open spec fn reject_answer(state: State, req: Request, args: Seq<String>) -> Answer {
    if !known(state, req.today) {
        Answer::Fails(CommandError::OutOfRange)
    } else {
        match swap_number(args) {
            None => Answer::Says("Usage: !swap reject <id>"@),
            Some(id) => match find(state.swap_requests@, swap_with_id(id as u64)) {
                None => Answer::Says("Swap #"@ + decimal(id) + " not found."@),
                Some(s) => match not_answerable(s, req.sender@) {
                    Some(t) => Answer::Says(t),
                    None => Answer::Does(
                        DomainEvent::SwapRejected { swap_id: s.id },
                        "❌ Swap #"@ + decimal(s.id as nat) + " rejected."@,
                    ),
                },
            },
        }
    }
}

/// The number of a request that an argument gives.
fn read_swap_number(args: &Vec<String>) -> (r: Option<u64>)
    ensures
        (r is Some) == (swap_number(args@) is Some),
        r is Some ==> r->0 == swap_number(args@)->0,
{
    if args.len() > 0 {
        parse_up_to(args[0].as_str(), u64::MAX)
    } else {
        None
    }
}

/// The next id depends on the ids alone.
proof fn lemma_same_ids(a: Seq<SwapRequest>, b: Seq<SwapRequest>)
    requires
        a.len() == b.len(),
        forall|i: int| 0 <= i < a.len() ==> (#[trigger] a[i]).id == b[i].id,
    ensures
        next_swap_id(a) == next_swap_id(b),
    decreases a.len(),
{
    if a.len() > 0 {
        assert(a[a.len() - 1].id == b[a.len() - 1].id);
        assert forall|i: int| 0 <= i < a.drop_last().len() implies (#[trigger] a.drop_last()[i]).id
            == b.drop_last()[i].id by {
            assert(a[i].id == b[i].id);
        }
        lemma_same_ids(a.drop_last(), b.drop_last());
    }
}

/// Applies two events, one after the other, the first of which answers a request.
fn perform_swap(
    state: &mut State,
    approved: DomainEvent,
    assigned: DomainEvent,
    text: String,
    req: &Request,
) -> (r: Result<String, CommandError>)
    requires
        approved is SwapApproved,
        crate::journal::refusal(*old(state), approved) is None,
        assigned is SlotAssigned,
    ensures
        answered(
            *old(state),
            *final(state),
            r,
            Answer::Runs(seq![approved, assigned], text@),
            req.now,
        ),
{
    let ghost pre = *state;
    match state.apply_event_at(approved, req.now) {
        Ok(_) => {},
        Err(e) => {
            return Err(CommandError::Refused(e));
        },
    }
    let ghost mid = *state;
    proof {
        lemma_first_index_is(pre.swap_requests@, swap_with_id(approved->SwapApproved_swap_id));
        lemma_same_ids(mid.swap_requests@, pre.swap_requests@);
        assert(crate::journal::refusal(mid, assigned) is None);
    }
    match state.apply_event_at(assigned, req.now) {
        Ok(_) => {},
        Err(e) => {
            return Err(CommandError::Refused(e));
        },
    }
    proof {
        lemma_ran_nothing(pre, req.now);
        lemma_ran_push(pre, pre, mid, Seq::empty(), approved, req.now);
        lemma_ran_push(
            pre,
            mid,
            *state,
            Seq::<DomainEvent>::empty().push(approved),
            assigned,
            req.now,
        );
        assert(Seq::<DomainEvent>::empty().push(approved).push(assigned) =~= seq![
            approved,
            assigned,
        ]);
    }
    Ok(text)
}

/// Takes over a turn that somebody asked to swap.
pub fn cmd_acceptswap(state: &mut State, req: &Request, args: &Vec<String>) -> (r: Result<
    String,
    CommandError,
>)
    ensures
        answered(*old(state), *final(state), r, accept_answer(*old(state), *req, args@), req.now),
{
    if !is_known(state, req.today) {
        return Err(CommandError::OutOfRange);
    }
    let id = match read_swap_number(args) {
        Some(id) => id,
        None => {
            return Ok("Usage: !swap accept <id>".to_owned());
        },
    };
    let i = match state.swap_position(id) {
        Some(i) => i,
        None => {
            return Ok(
                "Swap request #".to_owned().concat(show(id).as_str()).concat(" not found."),
            );
        },
    };
    let s = &state.swap_requests[i];
    if let Some(t) = why_not_answerable(s, req.sender.as_str()) {
        return Ok(t);
    }
    let turn = Turn { year: s.iso_year, week: s.iso_week, shift: s.shift };
    if !turn_fits(turn) {
        return Err(CommandError::OutOfRange);
    }
    let place = state.group_position(s.group_id.as_str());
    let name: String = match place {
        Some(k) => state.cleaning_groups[k].name.clone(),
        None => "".to_owned(),
    };
    let week_text = show(s.iso_week as u64);
    let id_text = show(id);
    if let Some(k) = place {
        if state.is_turn_slot_done(&state.cleaning_groups[k], s.slot_index, turn) {
            return Ok(
                "«".to_owned().concat(name.as_str()).concat("» week ").concat(
                    week_text.as_str(),
                ).concat(" is already completed or skipped — swap #").concat(
                    id_text.as_str(),
                ).concat(" can no longer be accepted."),
            );
        }
    }
    let requester_id = find_id_or_key(state, &s.requester);
    let replacement_id = find_id_or_key(state, &req.sender);
    let holder: Option<&Person> = match place {
        Some(k) => {
            proof {
                crate::planning::lemma_known(*state, req.today);
            }
            state.slot_assignee_at(&state.cleaning_groups[k], s.slot_index, turn, req.today)
        },
        None => None,
    };
    let still: bool = match holder {
        Some(p) => same_text(p.id.as_str(), requester_id.as_str()),
        None => false,
    };
    if !still {
        let label: String = match holder {
            Some(p) => person_label(p),
            None => "nobody".to_owned(),
        };
        let text = "Swap #".to_owned().concat(id_text.as_str()).concat(
            " is no longer valid — ",
        ).concat(s.requester.as_str()).concat(" is no longer responsible for «").concat(
            name.as_str(),
        ).concat("» week ").concat(week_text.as_str()).concat(" (now: ").concat(
            label.as_str(),
        ).concat("). It has been cancelled.");
        return perform(state, DomainEvent::SwapRejected { swap_id: id }, text, req.now);
    }
    let ending: String = match place {
        Some(k) => slot_ending(&state.cleaning_groups[k], s.slot_index, " / "),
        None => "".to_owned(),
    };
    let text = "✅ Swap #".to_owned().concat(id_text.as_str()).concat(" accepted. ").concat(
        req.sender.as_str(),
    ).concat(" will clean «").concat(name.as_str()).concat(ending.as_str()).concat(
        "» instead of ",
    ).concat(s.requester.as_str()).concat(".");
    let approved = DomainEvent::SwapApproved {
        swap_id: id,
        group_id: s.group_id.clone(),
        requester_id,
        replacement_id: replacement_id.clone(),
        iso_year: s.iso_year,
        iso_week: s.iso_week,
        shift: s.shift,
    };
    let assigned = DomainEvent::SlotAssigned {
        group_id: s.group_id.clone(),
        slot_index: s.slot_index,
        iso_year: s.iso_year,
        iso_week: s.iso_week,
        shift: s.shift,
        person_id: Some(replacement_id),
        source: AssignmentSource::Swap,
        actor_id: Some(req.sender.clone()),
        previous_person_id: match holder {
            Some(p) => Some(p.id.clone()),
            None => None,
        },
    };
    perform_swap(state, approved, assigned, text, req)
}

/// Turns a request to swap down.
pub fn cmd_rejectswap(state: &mut State, req: &Request, args: &Vec<String>) -> (r: Result<
    String,
    CommandError,
>)
    ensures
        answered(*old(state), *final(state), r, reject_answer(*old(state), *req, args@), req.now),
{
    if !is_known(state, req.today) {
        return Err(CommandError::OutOfRange);
    }
    let id = match read_swap_number(args) {
        Some(id) => id,
        None => {
            return Ok("Usage: !swap reject <id>".to_owned());
        },
    };
    let i = match state.swap_position(id) {
        Some(i) => i,
        None => {
            return Ok("Swap #".to_owned().concat(show(id).as_str()).concat(" not found."));
        },
    };
    if let Some(t) = why_not_answerable(&state.swap_requests[i], req.sender.as_str()) {
        return Ok(t);
    }
    let text = "❌ Swap #".to_owned().concat(show(id).as_str()).concat(" rejected.");
    perform(state, DomainEvent::SwapRejected { swap_id: id }, text, req.now)
}

// ── Laws ─────────────────────────────────────────────────────────────────────

/// A swap that is accepted hands over exactly one slot of one turn: to the one who accepted, while
/// all other assignments, all turn orders and all marks stay.
pub proof fn law_accepted_swap_moves_one_turn(
    pre: State,
    post: State,
    r: Result<String, CommandError>,
    req: Request,
    s: SwapRequest,
    group: Seq<char>,
    slot: int,
    turn: Turn,
)
    requires
        answered(pre, post, r, accept_of(pre, req, s), req.now),
        accept_of(pre, req, s) is Runs,
    ensures
        post.assignment(s.group_id@, s.slot_index as int, swap_turn(s)) is Some,
        post.assignment(s.group_id@, s.slot_index as int, swap_turn(s))->0.person_id == Some(
            id_or_key(pre, req.sender),
        ),
        (group, slot, turn) != (s.group_id@, s.slot_index as int, swap_turn(s)) ==> post.assignment(
            group,
            slot,
            turn,
        ) == pre.assignment(group, slot, turn),
        post.cleaning_groups == pre.cleaning_groups,
        post.completions == pre.completions,
{
    let events = accept_of(pre, req, s)->Runs_0;
    let mid = lemma_ran_pop(pre, post, events, req.now);
    let first = lemma_ran_pop(pre, mid, events.drop_last(), req.now);
    let none = events.drop_last().drop_last();
    assert(ran(pre, first, none, req.now));
    let h = choose|h: Seq<State>| #[trigger]
        history(h, none, req.now) && h[0] == pre && h.last() == first;
    assert(h.len() == 1);
    assert(first == pre);
    let a = SlotAssignment {
        group_id: s.group_id,
        slot_index: s.slot_index,
        iso_year: s.iso_year,
        iso_week: s.iso_week,
        shift: s.shift,
        person_id: Some(id_or_key(pre, req.sender)),
        source: AssignmentSource::Swap,
    };
    law_assignment_reads_back(
        mid,
        post,
        a,
        Some(req.sender),
        id_of(swap_holder(pre, s, req.today)),
        req.now,
        group,
        slot,
        turn,
    );
}

/// The request with an id has the status that it was given.
proof fn lemma_status(requests: Seq<SwapRequest>, id: u64, status: SwapStatus)
    requires
        some(requests, swap_with_id(id)),
    ensures
        ({
            let i = first_index(requests, swap_with_id(id));
            find(
                requests.update(i, SwapRequest { status, ..requests[i] }),
                swap_with_id(id),
            ) == Some(SwapRequest { status, ..requests[i] })
        }),
{
    let p = swap_with_id(id);
    lemma_first_index_is(requests, p);
    let i = first_index(requests, p);
    let t = requests.update(i, SwapRequest { status, ..requests[i] });
    assert forall|k: int| 0 <= k < i implies !p(#[trigger] t[k]) by {
        assert(!p(requests[k]));
    }
    assert(p(t[i]));
    lemma_first_index(t, p, i);
}

/// A request is answered once: after it was rejected, neither accepting nor rejecting it does
/// anything.
pub proof fn law_rejected_swap_stays_rejected(
    pre: State,
    post: State,
    r: Result<String, CommandError>,
    req: Request,
    args: Seq<String>,
)
    requires
        answered(pre, post, r, reject_answer(pre, req, args), req.now),
        reject_answer(pre, req, args) is Does,
    ensures
        accept_answer(post, req, args) is Says,
        reject_answer(post, req, args) is Says,
        post.slot_assignments == pre.slot_assignments,
        post.cleaning_groups == pre.cleaning_groups,
{
    let id = swap_number(args)->0 as u64;
    lemma_first_index_is(pre.swap_requests@, swap_with_id(id));
    lemma_status(pre.swap_requests@, id, SwapStatus::Rejected);
    lemma_same_ids(pre.swap_requests@, post.swap_requests@);
    assert(known(post, req.today));
}

} // verus!
