//! Carrying out the commands that are answered with a text.

use vstd::prelude::*;

use crate::commands::assignments::{assign_answer, cmd_assign, cmd_unassign, unassign_answer};
use crate::commands::base::{answered, says_only, CommandError, Request};
use crate::commands::dispatch::{Call, Command, MEMBER_USAGE, PLAN_USAGE};
use crate::commands::done::{cmd_done, did_done};
use crate::commands::groups::{cmd_groups, groups_answer, groups_fit, Factors};
use crate::commands::help::{admin_help_text, help_text, hint, renamed_command_hint, ADMIN_HELP, HELP};
use crate::commands::import::{cmd_importplan, import_answer};
use crate::commands::line::part;
use crate::commands::marks::{cmd_skip, cmd_undo, did_undo, skip_answer};
use crate::commands::members::{
    add_matrix_participant, cmd_joinfloor, cmd_leavefloor, cmd_member_add, cmd_member_remove,
    did_add, did_join, did_leave, did_remove, is_handle, is_valid_handle, names_user,
    remove_matrix_participant,
};
use crate::commands::outlook::{cmd_next, next_answer};
use crate::commands::overview::{cmd_status, status};
use crate::commands::people::{
    absent_answer, back_answer, cmd_absent, cmd_back, cmd_cleaning_people, people_answer,
};
use crate::commands::rooms::{
    add_room_answer, add_slot_answer, cmd_addroom, cmd_addslot, cmd_removeroom, cmd_removeslot,
    cmd_weight, remove_room_answer, remove_slot_answer, room_given, second_name, weight_answer,
    Factor,
};
use crate::commands::setup::{
    add_group_answer, cmd_addfloor, cmd_disablegroup, cmd_enablegroup, cmd_removefloor,
    cmd_resetplan, did_reset, remove_group_answer, switch_answer,
};
use crate::commands::swaps::{
    accept_answer, cmd_acceptswap, cmd_rejectswap, cmd_swap, reject_answer, swap_answer,
};
use crate::commands::takeover::{cmd_takeover, took_over};
use crate::inspect::{validate_state, Report};
use crate::planning::known;
use crate::state::State;
use crate::text::{join, join_texts, lowered, same_text, to_lower, views};

verus! {

// ── Commands below commands ──────────────────────────────────────────────────

/// The first argument in small letters, if there is one.
pub open spec fn below(args: Seq<String>) -> Seq<char> {
    if args.len() > 0 {
        lowered(args[0]@)
    } else {
        ""@
    }
}

/// What `!groups slot` does.
pub open spec fn did_slot(
    pre: State,
    post: State,
    r: Result<String, CommandError>,
    req: Request,
    args: Seq<String>,
) -> bool {
    if args.len() > 0 && below(args) == "add"@ {
        exists|rest: Vec<String>, name: String, id: String|
            views(rest@) == views(args).skip(1) && id@.len() == 36 && name@ == second_name(rest@)
                && answered(
                pre,
                post,
                r,
                #[trigger] add_slot_answer(pre, req, rest@, name, id),
                req.now,
            )
    } else if args.len() > 0 && below(args) == "remove"@ {
        exists|rest: Vec<String>|
            views(rest@) == views(args).skip(1) && answered(
                pre,
                post,
                r,
                #[trigger] remove_slot_answer(pre, req, rest@),
                req.now,
            )
    } else {
        says_only(pre, post, r, "Usage: !groups slot add|remove <group> <slot>"@)
    }
}

/// Adds a slot to a group or takes one away.
pub fn cmd_groups_slot(state: &mut State, req: &Request, args: &Vec<String>) -> (r: Result<
    String,
    CommandError,
>)
    ensures
        did_slot(*old(state), *final(state), r, *req, args@),
{
    if args.len() == 0 {
        return Ok("Usage: !groups slot add|remove <group> <slot>".to_owned());
    }
    let sub = to_lower(args[0].as_str());
    let rest = part(args, 1, args.len());
    assert(views(args@).subrange(1, args@.len() as int) =~= views(args@).skip(1));
    if same_text(sub.as_str(), "add") {
        cmd_addslot(state, req, &rest)
    } else if same_text(sub.as_str(), "remove") {
        cmd_removeslot(state, req, &rest)
    } else {
        Ok("Usage: !groups slot add|remove <group> <slot>".to_owned())
    }
}

/// What `!groups room` does.
pub open spec fn did_room(
    pre: State,
    post: State,
    r: Result<String, CommandError>,
    req: Request,
    args: Seq<String>,
) -> bool {
    if args.len() > 0 && below(args) == "add"@ {
        exists|rest: Vec<String>, room: String|
            views(rest@) == views(args).skip(1) && room@ == room_given(pre, rest@) && answered(
                pre,
                post,
                r,
                #[trigger] add_room_answer(pre, req, rest@, room),
                req.now,
            )
    } else if args.len() > 0 && below(args) == "remove"@ {
        exists|rest: Vec<String>, room: String|
            views(rest@) == views(args).skip(1) && room@ == room_given(pre, rest@) && answered(
                pre,
                post,
                r,
                #[trigger] remove_room_answer(pre, req, rest@, room),
                req.now,
            )
    } else {
        says_only(pre, post, r, "Usage: !groups room add|remove <group> [<slot>] <room>"@)
    }
}

/// Adds a room to a group or takes one away.
pub fn cmd_groups_room(state: &mut State, req: &Request, args: &Vec<String>) -> (r: Result<
    String,
    CommandError,
>)
    ensures
        did_room(*old(state), *final(state), r, *req, args@),
{
    if args.len() == 0 {
        return Ok("Usage: !groups room add|remove <group> [<slot>] <room>".to_owned());
    }
    let sub = to_lower(args[0].as_str());
    let rest = part(args, 1, args.len());
    assert(views(args@).subrange(1, args@.len() as int) =~= views(args@).skip(1));
    if same_text(sub.as_str(), "add") {
        cmd_addroom(state, req, &rest)
    } else if same_text(sub.as_str(), "remove") {
        cmd_removeroom(state, req, &rest)
    } else {
        Ok("Usage: !groups room add|remove <group> [<slot>] <room>".to_owned())
    }
}

/// How `!cleaning` is used.
pub const CLEANING_USAGE: &'static str = "Usage: !cleaning add @user:server <group> | remove @user:server <group> | people [group]";

/// What `!cleaning` does.
pub open spec fn did_cleaning(
    pre: State,
    post: State,
    r: Result<String, CommandError>,
    req: Request,
    args: Seq<String>,
) -> bool {
    if args.len() > 0 && below(args) == "add"@ {
        exists|rest: Vec<String>, id: String|
            views(rest@) == views(args).skip(1) && id@.len() == 36 && #[trigger] did_add(
                pre,
                post,
                r,
                req,
                rest@,
                true,
                names_user(rest@),
                id,
            )
    } else if args.len() > 0 && below(args) == "remove"@ {
        exists|rest: Vec<String>|
            views(rest@) == views(args).skip(1) && #[trigger] did_remove(
                pre,
                post,
                r,
                req,
                rest@,
                true,
                names_user(rest@),
            )
    } else if args.len() > 0 && below(args) == "people"@ {
        post == pre && exists|rest: Vec<String>|
            views(rest@) == views(args).skip(1) && answered(
                pre,
                pre,
                r,
                #[trigger] people_answer(pre, req, rest@),
                req.now,
            )
    } else {
        says_only(pre, post, r, CLEANING_USAGE@)
    }
}

/// Adds somebody to a group by Matrix id, removes them, or lists who takes part.
pub fn cmd_cleaning(state: &mut State, req: &Request, args: &Vec<String>) -> (r: Result<
    String,
    CommandError,
>)
    ensures
        did_cleaning(*old(state), *final(state), r, *req, args@),
{
    if args.len() == 0 {
        return Ok(CLEANING_USAGE.to_owned());
    }
    let sub = to_lower(args[0].as_str());
    let rest = part(args, 1, args.len());
    assert(views(args@).subrange(1, args@.len() as int) =~= views(args@).skip(1));
    if same_text(sub.as_str(), "add") {
        add_matrix_participant(state, req, &rest)
    } else if same_text(sub.as_str(), "remove") {
        remove_matrix_participant(state, req, &rest)
    } else if same_text(sub.as_str(), "people") {
        cmd_cleaning_people(state, req, &rest)
    } else {
        Ok(CLEANING_USAGE.to_owned())
    }
}

/// What `!validate` says.
pub open spec fn validated(state: State, r: Result<String, CommandError>, req: Request) -> bool {
    if !req.is_admin {
        r == Err::<String, CommandError>(CommandError::NotAdmin)
    } else {
        exists|report: Report|
            views(report.errors@) == crate::inspect::state_errors(state) && views(
                report.warnings@,
            ) == crate::inspect::state_warnings(state) && r is Ok && r->Ok_0@
                == #[trigger] report.text()
    }
}

/// Checks the state for problems.
pub fn cmd_validate(state: &State, req: &Request) -> (r: Result<String, CommandError>)
    ensures
        validated(*state, r, *req),
{
    if !req.is_admin {
        return Err(CommandError::NotAdmin);
    }
    let report = validate_state(state);
    Ok(report.summary())
}

// ── All commands ─────────────────────────────────────────────────────────────

/// What comes of a command.
#[derive(Clone, Debug)]
pub enum Handled {
    /// A text to answer with.
    Says(String),
    /// Nothing at all.
    Silent,
    /// Nothing yet: the command needs the room, or numbers that are not whole.
    Elsewhere,
}

/// Whether a command is answered with a text and needs nothing from the room.
pub open spec fn is_plain(c: Command) -> bool {
    match c {
        Command::Plan
        | Command::Remind
        | Command::Announce
        | Command::Pdf
        | Command::IcalReset
        | Command::Ical
        | Command::Link
        | Command::Stats
        | Command::Other => false,
        _ => true,
    }
}

/// What a plain command does, by its arguments.
pub open spec fn did_plain(
    pre: State,
    post: State,
    r: Result<String, CommandError>,
    req: Request,
    c: Command,
    args: Seq<String>,
    factor: Option<Factor>,
    factors: Factors,
) -> bool {
    match c {
        Command::Status => post == pre && if known(pre, req.today) {
            r is Ok && r->Ok_0@ == status(pre, req.today)
        } else {
            r == Err::<String, CommandError>(CommandError::OutOfRange)
        },
        Command::Done => did_done(pre, post, r, req, args),
        Command::Undo => did_undo(pre, post, r, req, args),
        Command::Groups => post == pre && if known(pre, req.today) {
            r is Ok && groups_answer(r->Ok_0@, pre, None, factors, req.today)
        } else {
            r == Err::<String, CommandError>(CommandError::OutOfRange)
        },
        Command::GroupDetail => post == pre && exists|name: String|
            name@ == join(views(args), " "@) && if #[trigger] groups_fit(
                pre,
                Some(name),
                req.today,
            ) {
                r is Ok && groups_answer(r->Ok_0@, pre, Some(name), factors, req.today)
            } else {
                r == Err::<String, CommandError>(CommandError::OutOfRange)
            },
        Command::Next => post == pre && answered(
            pre,
            pre,
            r,
            next_answer(pre, req, args),
            req.now,
        ),
        Command::Takeover => exists|id: String|
            id@.len() == 36 && #[trigger] took_over(pre, post, r, req, args, id),
        Command::AcceptSwap => answered(pre, post, r, accept_answer(pre, req, args), req.now),
        Command::RejectSwap => answered(pre, post, r, reject_answer(pre, req, args), req.now),
        Command::Swap => answered(pre, post, r, swap_answer(pre, req, args), req.now),
        Command::Join => exists|id: String|
            id@.len() == 36 && #[trigger] did_join(pre, post, r, req, args, id),
        Command::Leave => did_leave(pre, post, r, req, args),
        Command::AdminHelp => says_only(pre, post, r, ADMIN_HELP@),
        Command::Help => says_only(pre, post, r, HELP@),
        Command::Assign => answered(pre, post, r, assign_answer(pre, req, args), req.now),
        Command::Unassign => answered(pre, post, r, unassign_answer(pre, req, args), req.now),
        Command::Skip => answered(pre, post, r, skip_answer(pre, req, args), req.now),
        Command::Reset => did_reset(pre, post, r, req, args),
        Command::Import => answered(pre, post, r, import_answer(pre, req, args), req.now),
        Command::PlanUsage => says_only(pre, post, r, PLAN_USAGE@),
        Command::MemberAdd => exists|id: String|
            id@.len() == 36 && #[trigger] did_add(
                pre,
                post,
                r,
                req,
                args,
                is_handle(args),
                is_valid_handle(args),
                id,
            ),
        Command::MemberRemove => did_remove(
            pre,
            post,
            r,
            req,
            args,
            is_handle(args),
            is_valid_handle(args),
        ),
        Command::Away => answered(pre, post, r, absent_answer(pre, req, args), req.now),
        Command::Back => answered(pre, post, r, back_answer(pre, req, args), req.now),
        Command::MemberUsage => says_only(pre, post, r, MEMBER_USAGE@),
        Command::GroupAdd => exists|id: String|
            id@.len() == 36 && answered(
                pre,
                post,
                r,
                #[trigger] add_group_answer(pre, req, args, id),
                req.now,
            ),
        Command::GroupRemove => answered(
            pre,
            post,
            r,
            remove_group_answer(pre, req, args),
            req.now,
        ),
        Command::GroupEnable => answered(
            pre,
            post,
            r,
            switch_answer(pre, req, args, true),
            req.now,
        ),
        Command::GroupDisable => answered(
            pre,
            post,
            r,
            switch_answer(pre, req, args, false),
            req.now,
        ),
        Command::Weight => answered(
            pre,
            post,
            r,
            weight_answer(pre, req, args, factor),
            req.now,
        ),
        Command::Slot => did_slot(pre, post, r, req, args),
        Command::Room => did_room(pre, post, r, req, args),
        Command::Validate => post == pre && validated(pre, r, req),
        _ => false,
    }
}

/// Carries out a plain command. `factor` is the workload factor that the arguments end with, and
/// `factors` are those of the group that they name.
fn run_plain(
    state: &mut State,
    req: &Request,
    c: Command,
    args: &Vec<String>,
    factor: &Option<Factor>,
    factors: &Factors,
) -> (r: Result<String, CommandError>)
    requires
        is_plain(c),
    ensures
        did_plain(*old(state), *final(state), r, *req, c, args@, *factor, *factors),
{
    match c {
        Command::Status => cmd_status(state, req.today),
        Command::Done => cmd_done(state, req, args),
        Command::Undo => cmd_undo(state, req, args),
        Command::Groups => cmd_groups(state, &None, factors, req.today),
        Command::GroupDetail => {
            let name = join_texts(args, " ");
            let r = cmd_groups(state, &Some(name), factors, req.today);
            assert(r is Ok ==> groups_answer(
                r->Ok_0@,
                *old(state),
                Some(name),
                *factors,
                req.today,
            ));
            r
        },
        Command::Next => cmd_next(state, req, args),
        Command::Takeover => cmd_takeover(state, req, args),
        Command::AcceptSwap => cmd_acceptswap(state, req, args),
        Command::RejectSwap => cmd_rejectswap(state, req, args),
        Command::Swap => cmd_swap(state, req, args),
        Command::Join => cmd_joinfloor(state, req, args),
        Command::Leave => cmd_leavefloor(state, req, args),
        Command::AdminHelp => Ok(admin_help_text()),
        Command::Help => Ok(help_text()),
        Command::Assign => cmd_assign(state, req, args),
        Command::Unassign => cmd_unassign(state, req, args),
        Command::Skip => cmd_skip(state, req, args),
        Command::Reset => cmd_resetplan(state, req, args),
        Command::Import => cmd_importplan(state, req, args),
        Command::PlanUsage => Ok(PLAN_USAGE.to_owned()),
        Command::MemberAdd => cmd_member_add(state, req, args),
        Command::MemberRemove => cmd_member_remove(state, req, args),
        Command::Away => cmd_absent(state, req, args),
        Command::Back => cmd_back(state, req, args),
        Command::MemberUsage => Ok(MEMBER_USAGE.to_owned()),
        Command::GroupAdd => cmd_addfloor(state, req, args),
        Command::GroupRemove => cmd_removefloor(state, req, args),
        Command::GroupEnable => cmd_enablegroup(state, req, args),
        Command::GroupDisable => cmd_disablegroup(state, req, args),
        Command::Weight => cmd_weight(state, req, args, factor),
        Command::Slot => cmd_groups_slot(state, req, args),
        Command::Room => cmd_groups_room(state, req, args),
        Command::Validate => cmd_validate(state, req),
        _ => Ok("".to_owned()),
    }
}

/// What comes of a call.
pub open spec fn did_handle(
    pre: State,
    post: State,
    r: Result<Handled, CommandError>,
    req: Request,
    call: Call,
    factor: Option<Factor>,
    factors: Factors,
) -> bool {
    if is_plain(call.command) {
        match r {
            Ok(h) => h is Says && did_plain(
                pre,
                post,
                Ok(h->Says_0),
                req,
                call.command,
                call.args@,
                factor,
                factors,
            ),
            Err(e) => did_plain(
                pre,
                post,
                Err(e),
                req,
                call.command,
                call.args@,
                factor,
                factors,
            ),
        }
    } else if call.command == Command::Other {
        post == pre && r is Ok && match hint(call.cmd@) {
            Some(t) => r->Ok_0 is Says && r->Ok_0->Says_0@ == t,
            None => r->Ok_0 is Silent,
        }
    } else {
        post == pre && r is Ok && r->Ok_0 is Elsewhere
    }
}

/// Carries out a call that needs nothing from the room. `factor` is the workload factor that the
/// arguments end with, and `factors` are those of the group that they name.
pub fn handle(
    state: &mut State,
    req: &Request,
    call: &Call,
    factor: &Option<Factor>,
    factors: &Factors,
) -> (r: Result<Handled, CommandError>)
    ensures
        did_handle(*old(state), *final(state), r, *req, *call, *factor, *factors),
{
    match call.command {
        Command::Plan
        | Command::Remind
        | Command::Announce
        | Command::Pdf
        | Command::IcalReset
        | Command::Ical
        | Command::Link
        | Command::Stats => Ok(Handled::Elsewhere),
        Command::Other => match renamed_command_hint(call.cmd.as_str()) {
            Some(t) => Ok(Handled::Says(t)),
            None => Ok(Handled::Silent),
        },
        c => match run_plain(state, req, c, &call.args, factor, factors) {
            Ok(t) => Ok(Handled::Says(t)),
            Err(e) => Err(e),
        },
    }
}

} // verus!
