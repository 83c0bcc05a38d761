//! What is said to those who ask for help or use an old name.

use vstd::prelude::*;

use crate::text::same_text;

verus! {

/// What `!help` says.
pub const HELP: &'static str = "🧹 **Cleaning bot**\n\n!status · this week: who cleans what, done or open\n!done [group] · mark your part done (or react ✅ on the plan)\n!undo [group] · take back your done mark\n!groups · all groups and their members\n!plan [N] · the next N weeks (default 6)\n!next [person] · when is your next turn?\n!takeover [group] [slot] [week N] · take a task over yourself\n!swap @user [group] [slot] [week N] · ask someone to swap · !swap accept|reject <id>\n!join <group> · !leave <group>\n!stats [person | group | fairness | load]\n!ical [N] · calendar feed of your turns · !ical reset\n\nAdmins: !help admin";

/// What `!help admin` says.
pub const ADMIN_HELP: &'static str = "🔧 **Admin commands**\n\n**Members**\n!member add <@user:server | name> <group> · name = person without Matrix\n!member remove <@user:server | name> <group>\n!member link <name> <@user:server> · connect a name-only person to Matrix\n!member away <person> [weeks] · skip in new rotation picks (default 4)\n!member back <person>\n\n**This week & plan**\n!plan skip [group] [slot] · excuse this week (not counted as missed)\n!plan remind [group] · send the reminder now\n!plan announce · (re)post and pin this week's plan\n!plan assign <group> [slot] <person> [week N]\n!plan unassign <group> [slot] [week N]\n!plan reset <group> · redistribute future weeks from the rotation\n!plan import [--replace] <YYYY-Www> <group>[/slot] <person> [; …]\n!plan pdf [N] [group] · printable plan\n\n**Groups**\n!groups <group> · details: turn order, slots, rooms, weights\n!groups add|enable|disable <group>\n!groups remove <group> [confirm] · deletes it with its history\n!groups slot add|remove <group> <slot>\n!groups room add|remove <group> [slot] <room>\n!groups weight <group> [room] <factor>\n\n**Other**\n!ical <person> [N] · !ical reset <person>\n!validate · check the saved state for problems\n!admin · bot administration (verification, settings)";

/// What `!help` says.
pub fn help_text() -> (r: String)
    ensures
        r@ == HELP@,
{
    HELP.to_owned()
}

/// What `!help admin` says.
pub fn admin_help_text() -> (r: String)
    ensures
        r@ == ADMIN_HELP@,
{
    ADMIN_HELP.to_owned()
}

/// What an old command is called now.
pub open spec fn new_name(cmd: Seq<char>) -> Option<Seq<char>> {
    if cmd == "!cleanplan"@ {
        Some("!plan [N]"@)
    } else if cmd == "!areas"@ {
        Some("!groups"@)
    } else if cmd == "!listgroups"@ {
        Some("!groups"@)
    } else if cmd == "!floors"@ {
        Some("!groups"@)
    } else if cmd == "!cleaning"@ {
        Some("!groups (list) or !member add|remove (changes)"@)
    } else if cmd == "!joingroup"@ {
        Some("!join <group>"@)
    } else if cmd == "!leavegroup"@ {
        Some("!leave <group>"@)
    } else if cmd == "!icalreset"@ {
        Some("!ical reset"@)
    } else if cmd == "!leaderboard"@ {
        Some("!stats"@)
    } else if cmd == "!fairness"@ {
        Some("!stats fairness [group]"@)
    } else if cmd == "!planfairness"@ {
        Some("!stats fairness [group]"@)
    } else if cmd == "!workload"@ {
        Some("!stats load"@)
    } else if cmd == "!groupstats"@ {
        Some("!stats load"@)
    } else if cmd == "!blame"@ {
        Some("!status (this week) or !stats <person | group>"@)
    } else if cmd == "!adduser"@ {
        Some("!member add <@user:server | name> <group>"@)
    } else if cmd == "!addperson"@ {
        Some("!member add <@user:server | name> <group>"@)
    } else if cmd == "!removeuser"@ {
        Some("!member remove <@user:server | name> <group>"@)
    } else if cmd == "!removeperson"@ {
        Some("!member remove <@user:server | name> <group>"@)
    } else if cmd == "!linkmatrix"@ {
        Some("!member link <name> <@user:server>"@)
    } else if cmd == "!absent"@ {
        Some("!member away <person> [weeks]"@)
    } else if cmd == "!back"@ {
        Some("!member back <person>"@)
    } else if cmd == "!assign"@ {
        Some("!plan assign <group> [slot] <person> [week N]"@)
    } else if cmd == "!unassign"@ {
        Some("!plan unassign <group> [slot] [week N]"@)
    } else if cmd == "!importplan"@ {
        Some("!plan import …"@)
    } else if cmd == "!resetplan"@ {
        Some("!plan reset <group>"@)
    } else if cmd == "!skip"@ {
        Some("!plan skip [group]"@)
    } else if cmd == "!remind"@ {
        Some("!plan remind [group]"@)
    } else if cmd == "!announceweek"@ {
        Some("!plan announce"@)
    } else if cmd == "!repostplan"@ {
        Some("!plan announce"@)
    } else if cmd == "!pdf"@ {
        Some("!plan pdf [N]"@)
    } else if cmd == "!addgroup"@ {
        Some("!groups add <group>"@)
    } else if cmd == "!removegroup"@ {
        Some("!groups remove <group>"@)
    } else if cmd == "!enablegroup"@ {
        Some("!groups enable <group>"@)
    } else if cmd == "!disablegroup"@ {
        Some("!groups disable <group>"@)
    } else if cmd == "!addslot"@ {
        Some("!groups slot add <group> <slot>"@)
    } else if cmd == "!removeslot"@ {
        Some("!groups slot remove <group> <slot>"@)
    } else if cmd == "!addroom"@ {
        Some("!groups room add <group> [slot] <room>"@)
    } else if cmd == "!removeroom"@ {
        Some("!groups room remove <group> [slot] <room>"@)
    } else if cmd == "!setgroupweight"@ {
        Some("!groups weight <group> <factor>"@)
    } else if cmd == "!setroomweight"@ {
        Some("!groups weight <group> <room> <factor>"@)
    } else {
        None
    }
}

/// What an old command is called now.
fn find_new_name(cmd: &str) -> (r: Option<&'static str>)
    ensures
        (r is Some) == (new_name(cmd@) is Some),
        r is Some ==> r->0@ == new_name(cmd@)->0,
{
    if same_text(cmd, "!cleanplan") {
        Some("!plan [N]")
    } else if same_text(cmd, "!areas") {
        Some("!groups")
    } else if same_text(cmd, "!listgroups") {
        Some("!groups")
    } else if same_text(cmd, "!floors") {
        Some("!groups")
    } else if same_text(cmd, "!cleaning") {
        Some("!groups (list) or !member add|remove (changes)")
    } else if same_text(cmd, "!joingroup") {
        Some("!join <group>")
    } else if same_text(cmd, "!leavegroup") {
        Some("!leave <group>")
    } else if same_text(cmd, "!icalreset") {
        Some("!ical reset")
    } else if same_text(cmd, "!leaderboard") {
        Some("!stats")
    } else if same_text(cmd, "!fairness") {
        Some("!stats fairness [group]")
    } else if same_text(cmd, "!planfairness") {
        Some("!stats fairness [group]")
    } else if same_text(cmd, "!workload") {
        Some("!stats load")
    } else if same_text(cmd, "!groupstats") {
        Some("!stats load")
    } else if same_text(cmd, "!blame") {
        Some("!status (this week) or !stats <person | group>")
    } else if same_text(cmd, "!adduser") {
        Some("!member add <@user:server | name> <group>")
    } else if same_text(cmd, "!addperson") {
        Some("!member add <@user:server | name> <group>")
    } else if same_text(cmd, "!removeuser") {
        Some("!member remove <@user:server | name> <group>")
    } else if same_text(cmd, "!removeperson") {
        Some("!member remove <@user:server | name> <group>")
    } else if same_text(cmd, "!linkmatrix") {
        Some("!member link <name> <@user:server>")
    } else if same_text(cmd, "!absent") {
        Some("!member away <person> [weeks]")
    } else if same_text(cmd, "!back") {
        Some("!member back <person>")
    } else if same_text(cmd, "!assign") {
        Some("!plan assign <group> [slot] <person> [week N]")
    } else if same_text(cmd, "!unassign") {
        Some("!plan unassign <group> [slot] [week N]")
    } else if same_text(cmd, "!importplan") {
        Some("!plan import …")
    } else if same_text(cmd, "!resetplan") {
        Some("!plan reset <group>")
    } else if same_text(cmd, "!skip") {
        Some("!plan skip [group]")
    } else if same_text(cmd, "!remind") {
        Some("!plan remind [group]")
    } else if same_text(cmd, "!announceweek") {
        Some("!plan announce")
    } else if same_text(cmd, "!repostplan") {
        Some("!plan announce")
    } else if same_text(cmd, "!pdf") {
        Some("!plan pdf [N]")
    } else if same_text(cmd, "!addgroup") {
        Some("!groups add <group>")
    } else if same_text(cmd, "!removegroup") {
        Some("!groups remove <group>")
    } else if same_text(cmd, "!enablegroup") {
        Some("!groups enable <group>")
    } else if same_text(cmd, "!disablegroup") {
        Some("!groups disable <group>")
    } else if same_text(cmd, "!addslot") {
        Some("!groups slot add <group> <slot>")
    } else if same_text(cmd, "!removeslot") {
        Some("!groups slot remove <group> <slot>")
    } else if same_text(cmd, "!addroom") {
        Some("!groups room add <group> [slot] <room>")
    } else if same_text(cmd, "!removeroom") {
        Some("!groups room remove <group> [slot] <room>")
    } else if same_text(cmd, "!setgroupweight") {
        Some("!groups weight <group> <factor>")
    } else if same_text(cmd, "!setroomweight") {
        Some("!groups weight <group> <room> <factor>")
    } else {
        None
    }
}

/// What is said to somebody who uses an old name.
pub open spec fn hint(cmd: Seq<char>) -> Option<Seq<char>> {
    match new_name(cmd) {
        Some(n) => Some(cmd + " was renamed — use "@ + n + ". (!help lists all commands)"@),
        None => None,
    }
}

/// Answers an old command with what replaces it, and anything else with nothing.
pub fn renamed_command_hint(cmd: &str) -> (r: Option<String>)
    ensures
        (r is Some) == (hint(cmd@) is Some),
        r is Some ==> r->0@ == hint(cmd@)->0,
{
    match find_new_name(cmd) {
        Some(n) => Some(
            cmd.to_owned().concat(" was renamed — use ").concat(n).concat(
                ". (!help lists all commands)",
            ),
        ),
        None => None,
    }
}

} // verus!
