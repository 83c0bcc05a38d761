//! Which command a line calls, and with which arguments.

use vstd::prelude::*;

use crate::commands::line::{normalize_args, normalized, part, tokenize, words_of};
use crate::state::State;
use crate::text::{join, lowered, parse_up_to, parsed_up_to, same_text, to_lower, views};

verus! {

/// How `!plan` is used.
pub const PLAN_USAGE: &'static str = "Usage: !plan [N] | !plan assign|unassign|skip|remind|announce|pdf|reset|import … (see !help admin)";

/// How `!member` is used.
pub const MEMBER_USAGE: &'static str = "Usage: !member add|remove <@user:server | name> <group> · !member link <name> <@user:server> · !member away <person> [weeks] · !member back <person>";

/// What a line calls.
#[derive(Clone, Copy, Debug, PartialEq, Eq, Structural)]
pub enum Command {
    Plan,
    Remind,
    Announce,
    Pdf,
    IcalReset,
    Ical,
    Link,
    Status,
    Done,
    Undo,
    Groups,
    Next,
    Takeover,
    AcceptSwap,
    RejectSwap,
    Swap,
    Join,
    Leave,
    Stats,
    AdminHelp,
    Help,
    Assign,
    Unassign,
    Skip,
    Reset,
    Import,
    PlanUsage,
    MemberAdd,
    MemberRemove,
    Away,
    Back,
    MemberUsage,
    GroupAdd,
    GroupRemove,
    GroupEnable,
    GroupDisable,
    Weight,
    Slot,
    Room,
    GroupDetail,
    Validate,
    /// None of them; perhaps an old name.
    Other,
}

/// What `!plan` calls, by its first argument.
pub open spec fn plan_command(sub: Option<Seq<char>>) -> Command {
    match sub {
        None => Command::Plan,
        Some(s) => if parsed_up_to(s, u64::MAX as nat) is Some {
            Command::Plan
        } else if s == "remind"@ {
            Command::Remind
        } else if s == "announce"@ {
            Command::Announce
        } else if s == "pdf"@ {
            Command::Pdf
        } else if s == "assign"@ {
            Command::Assign
        } else if s == "unassign"@ {
            Command::Unassign
        } else if s == "skip"@ {
            Command::Skip
        } else if s == "reset"@ {
            Command::Reset
        } else if s == "import"@ {
            Command::Import
        } else {
            Command::PlanUsage
        },
    }
}

/// What `!member` calls, by its first argument.
pub open spec fn member_command(sub: Option<Seq<char>>) -> Command {
    match sub {
        None => Command::MemberUsage,
        Some(s) => if s == "link"@ {
            Command::Link
        } else if s == "add"@ {
            Command::MemberAdd
        } else if s == "remove"@ {
            Command::MemberRemove
        } else if s == "away"@ {
            Command::Away
        } else if s == "back"@ {
            Command::Back
        } else {
            Command::MemberUsage
        },
    }
}

/// What `!groups` calls, by its first argument.
pub open spec fn groups_command(sub: Option<Seq<char>>) -> Command {
    match sub {
        None => Command::Groups,
        Some(s) => if s == "add"@ {
            Command::GroupAdd
        } else if s == "remove"@ {
            Command::GroupRemove
        } else if s == "enable"@ {
            Command::GroupEnable
        } else if s == "disable"@ {
            Command::GroupDisable
        } else if s == "weight"@ {
            Command::Weight
        } else if s == "slot"@ {
            Command::Slot
        } else if s == "room"@ {
            Command::Room
        } else {
            Command::GroupDetail
        },
    }
}

/// What `!swap` calls, by its first argument.
pub open spec fn swap_command(sub: Option<Seq<char>>) -> Command {
    if sub == Some("accept"@) {
        Command::AcceptSwap
    } else if sub == Some("reject"@) {
        Command::RejectSwap
    } else {
        Command::Swap
    }
}

/// What is called by a first word and the first argument in small letters.
pub open spec fn command_named(cmd: Seq<char>, sub: Option<Seq<char>>) -> Command {
    if cmd == "!plan"@ {
        plan_command(sub)
    } else if cmd == "!ical"@ {
        if sub == Some("reset"@) {
            Command::IcalReset
        } else {
            Command::Ical
        }
    } else if cmd == "!member"@ {
        member_command(sub)
    } else if cmd == "!groups"@ {
        groups_command(sub)
    } else if cmd == "!swap"@ {
        swap_command(sub)
    } else if cmd == "!help"@ {
        if sub == Some("admin"@) {
            Command::AdminHelp
        } else {
            Command::Help
        }
    } else if cmd == "!status"@ {
        Command::Status
    } else if cmd == "!done"@ {
        Command::Done
    } else if cmd == "!undo"@ {
        Command::Undo
    } else if cmd == "!next"@ {
        Command::Next
    } else if cmd == "!takeover"@ {
        Command::Takeover
    } else if cmd == "!acceptswap"@ {
        Command::AcceptSwap
    } else if cmd == "!rejectswap"@ {
        Command::RejectSwap
    } else if cmd == "!join"@ {
        Command::Join
    } else if cmd == "!leave"@ {
        Command::Leave
    } else if cmd == "!stats"@ {
        Command::Stats
    } else if cmd == "!validate"@ {
        Command::Validate
    } else {
        Command::Other
    }
}

/// Whether the first argument only chooses the command and is not handed on.
pub open spec fn drops_first(cmd: Seq<char>, c: Command) -> bool {
    match c {
        Command::Remind
        | Command::Announce
        | Command::Pdf
        | Command::IcalReset
        | Command::Link
        | Command::Assign
        | Command::Unassign
        | Command::Skip
        | Command::Reset
        | Command::Import
        | Command::MemberAdd
        | Command::MemberRemove
        | Command::Away
        | Command::Back
        | Command::GroupAdd
        | Command::GroupRemove
        | Command::GroupEnable
        | Command::GroupDisable
        | Command::Weight
        | Command::Slot
        | Command::Room => true,
        Command::AcceptSwap | Command::RejectSwap => cmd == "!swap"@,
        _ => false,
    }
}

/// Whether a command may change who is responsible in the current week, or what is done in it.
pub open spec fn may_change_plan(cmd: Seq<char>, sub: Option<Seq<char>>) -> bool {
    match command_named(cmd, sub) {
        Command::Done
        | Command::Undo
        | Command::Takeover
        | Command::AcceptSwap
        | Command::Skip
        | Command::Assign
        | Command::Unassign
        | Command::Reset
        | Command::Import
        | Command::GroupEnable
        | Command::GroupDisable
        | Command::Away => true,
        _ => false,
    }
}

/// Whether an optional text is a given one.
fn names(sub: Option<&str>, t: &str) -> (r: bool)
    ensures
        r == (sub is Some && sub->0@ == t@),
{
    match sub {
        Some(s) => same_text(s, t),
        None => false,
    }
}

/// The text that an option holds.
pub open spec fn text_in(sub: Option<&str>) -> Option<Seq<char>> {
    match sub {
        Some(s) => Some(s@),
        None => None,
    }
}

/// What `!plan` calls.
fn find_plan_command(sub: Option<&str>) -> (r: Command)
    ensures
        r == plan_command(text_in(sub)),
{
    let s = match sub {
        Some(s) => s,
        None => {
            return Command::Plan;
        },
    };
    if parse_up_to(s, u64::MAX).is_some() {
        Command::Plan
    } else if same_text(s, "remind") {
        Command::Remind
    } else if same_text(s, "announce") {
        Command::Announce
    } else if same_text(s, "pdf") {
        Command::Pdf
    } else if same_text(s, "assign") {
        Command::Assign
    } else if same_text(s, "unassign") {
        Command::Unassign
    } else if same_text(s, "skip") {
        Command::Skip
    } else if same_text(s, "reset") {
        Command::Reset
    } else if same_text(s, "import") {
        Command::Import
    } else {
        Command::PlanUsage
    }
}

/// What `!member` calls.
fn find_member_command(sub: Option<&str>) -> (r: Command)
    ensures
        r == member_command(text_in(sub)),
{
    if names(sub, "link") {
        Command::Link
    } else if names(sub, "add") {
        Command::MemberAdd
    } else if names(sub, "remove") {
        Command::MemberRemove
    } else if names(sub, "away") {
        Command::Away
    } else if names(sub, "back") {
        Command::Back
    } else {
        Command::MemberUsage
    }
}

/// What `!groups` calls.
fn find_groups_command(sub: Option<&str>) -> (r: Command)
    ensures
        r == groups_command(text_in(sub)),
{
    if sub.is_none() {
        Command::Groups
    } else if names(sub, "add") {
        Command::GroupAdd
    } else if names(sub, "remove") {
        Command::GroupRemove
    } else if names(sub, "enable") {
        Command::GroupEnable
    } else if names(sub, "disable") {
        Command::GroupDisable
    } else if names(sub, "weight") {
        Command::Weight
    } else if names(sub, "slot") {
        Command::Slot
    } else if names(sub, "room") {
        Command::Room
    } else {
        Command::GroupDetail
    }
}

/// What is called by a first word and the first argument in small letters.
pub fn find_command(cmd: &str, sub: Option<&str>) -> (r: Command)
    ensures
        r == command_named(cmd@, text_in(sub)),
{
    if same_text(cmd, "!plan") {
        find_plan_command(sub)
    } else if same_text(cmd, "!ical") {
        if names(sub, "reset") {
            Command::IcalReset
        } else {
            Command::Ical
        }
    } else if same_text(cmd, "!member") {
        find_member_command(sub)
    } else if same_text(cmd, "!groups") {
        find_groups_command(sub)
    } else if same_text(cmd, "!swap") {
        if names(sub, "accept") {
            Command::AcceptSwap
        } else if names(sub, "reject") {
            Command::RejectSwap
        } else {
            Command::Swap
        }
    } else if same_text(cmd, "!help") {
        if names(sub, "admin") {
            Command::AdminHelp
        } else {
            Command::Help
        }
    } else if same_text(cmd, "!status") {
        Command::Status
    } else if same_text(cmd, "!done") {
        Command::Done
    } else if same_text(cmd, "!undo") {
        Command::Undo
    } else if same_text(cmd, "!next") {
        Command::Next
    } else if same_text(cmd, "!takeover") {
        Command::Takeover
    } else if same_text(cmd, "!acceptswap") {
        Command::AcceptSwap
    } else if same_text(cmd, "!rejectswap") {
        Command::RejectSwap
    } else if same_text(cmd, "!join") {
        Command::Join
    } else if same_text(cmd, "!leave") {
        Command::Leave
    } else if same_text(cmd, "!stats") {
        Command::Stats
    } else if same_text(cmd, "!validate") {
        Command::Validate
    } else {
        Command::Other
    }
}

/// Whether the pinned plan has to be shown anew after a command, because it may have changed who
/// is responsible in the current week, or what is done in it.
pub fn command_may_change_current_plan(cmd: &str, sub: Option<&str>) -> (r: bool)
    ensures
        r == may_change_plan(cmd@, text_in(sub)),
{
    match find_command(cmd, sub) {
        Command::Done
        | Command::Undo
        | Command::Takeover
        | Command::AcceptSwap
        | Command::Skip
        | Command::Assign
        | Command::Unassign
        | Command::Reset
        | Command::Import
        | Command::GroupEnable
        | Command::GroupDisable
        | Command::Away => true,
        _ => false,
    }
}

// ── Lines ────────────────────────────────────────────────────────────────────

/// A line as it was understood.
#[derive(Clone, Debug)]
pub struct Call {
    /// The first word.
    pub cmd: String,
    pub command: Command,
    pub args: Vec<String>,
    /// Whether the plan of the current week is to be shown anew afterwards.
    pub refresh: bool,
}

/// The first word of a line.
pub open spec fn first_word(line: Seq<char>) -> Seq<char> {
    if words_of(line).len() > 0 {
        words_of(line)[0]
    } else {
        ""@
    }
}

/// The arguments of a line, regrouped.
pub open spec fn line_args(state: State, line: Seq<char>) -> Seq<Seq<char>> {
    normalized(
        state,
        first_word(line),
        if words_of(line).len() > 0 {
            words_of(line).skip(1)
        } else {
            Seq::empty()
        },
    )
}

/// The first argument of a line in small letters.
pub open spec fn line_sub(state: State, line: Seq<char>) -> Option<Seq<char>> {
    let args = line_args(state, line);
    if args.len() > 0 {
        Some(lowered(args[0]))
    } else {
        None
    }
}

/// Whether a line was understood.
pub open spec fn is_call(r: Call, state: State, line: Seq<char>) -> bool {
    let cmd = first_word(line);
    let args = line_args(state, line);
    let sub = line_sub(state, line);
    &&& r.cmd@ == cmd
    &&& r.command == command_named(cmd, sub)
    &&& r.refresh == may_change_plan(cmd, sub)
    &&& views(r.args@) == if drops_first(cmd, r.command) {
        args.skip(1)
    } else {
        args
    }
}

/// Whether the first argument only chooses the command and is not handed on.
fn hands_on_rest(cmd: &str, c: Command) -> (r: bool)
    ensures
        r == drops_first(cmd@, c),
{
    match c {
        Command::Remind
        | Command::Announce
        | Command::Pdf
        | Command::IcalReset
        | Command::Link
        | Command::Assign
        | Command::Unassign
        | Command::Skip
        | Command::Reset
        | Command::Import
        | Command::MemberAdd
        | Command::MemberRemove
        | Command::Away
        | Command::Back
        | Command::GroupAdd
        | Command::GroupRemove
        | Command::GroupEnable
        | Command::GroupDisable
        | Command::Weight
        | Command::Slot
        | Command::Room => true,
        Command::AcceptSwap | Command::RejectSwap => same_text(cmd, "!swap"),
        _ => false,
    }
}

/// Reads a line: which command it calls, and with which arguments.
pub fn read_line(state: &State, line: &str) -> (r: Call)
    ensures
        is_call(r, *state, line@),
{
    let words = tokenize(line);
    let ghost all = words_of(line@);
    assert(all.len() == words@.len());
    let cmd: String = if words.len() > 0 {
        words[0].clone()
    } else {
        "".to_owned()
    };
    let given: Vec<String> = if words.len() > 0 {
        part(&words, 1, words.len())
    } else {
        part(&words, 0, 0)
    };
    proof {
        if all.len() > 0 {
            assert(all.subrange(1, all.len() as int) =~= all.skip(1));
        } else {
            assert(all.subrange(0, 0) =~= Seq::<Seq<char>>::empty());
        }
    }
    let args = normalize_args(state, cmd.as_str(), &given);
    assert(views(args@).len() == args@.len());
    let lower: String = if args.len() > 0 {
        to_lower(args[0].as_str())
    } else {
        "".to_owned()
    };
    let sub: Option<&str> = if args.len() > 0 {
        Some(lower.as_str())
    } else {
        None
    };
    let command = find_command(cmd.as_str(), sub);
    let refresh = command_may_change_current_plan(cmd.as_str(), sub);
    proof {
        lemma_dropped_is_there(cmd@, text_in(sub));
        assert(views(args@).subrange(0, args@.len() as int) =~= views(args@));
    }
    let rest: Vec<String> = if hands_on_rest(cmd.as_str(), command) {
        let rest = part(&args, 1, args.len());
        assert(views(args@).subrange(1, args@.len() as int) =~= views(args@).skip(1));
        rest
    } else {
        part(&args, 0, args.len())
    };
    Call { cmd, command, args: rest, refresh }
}

/// A command that does not hand on the first argument has one.
proof fn lemma_dropped_is_there(cmd: Seq<char>, sub: Option<Seq<char>>)
    ensures
        drops_first(cmd, command_named(cmd, sub)) ==> sub is Some,
{
    if sub is None {
        assert(plan_command(sub) == Command::Plan);
    }
}

} // verus!
