//! Groups, slots, rooms and factors.

use vstd::prelude::*;

use crate::analytics::DomainEvent;
use crate::commands::base::{
    answered, lemma_group_known, meant_turn, no_group, no_group_text, perform, says_only,
    turn_meant, Answer, CommandError, Request,
};
use crate::domain::fresh_id;
use crate::lists::{first_index, lemma_first_index_is};
use crate::planning::{is_known, known, reset, reset_and_rematerialize, this_week};
use crate::state::{group_named, group_with_id, State};
use crate::text::{is_same_name, same_name};

verus! {

// ── Groups ───────────────────────────────────────────────────────────────────

/// What `!addfloor` does: there is a new group under an id, unless one has the name.
pub open spec fn add_group_answer(state: State, req: Request, args: Seq<String>, id: String) -> Answer {
    if !req.is_admin {
        Answer::Fails(CommandError::NotAdmin)
    } else if !known(state, req.today) {
        Answer::Fails(CommandError::OutOfRange)
    } else if args.len() == 0 {
        Answer::Says("Usage: !groups add <name>"@)
    } else if state.group_of_name(args[0]@) is Some {
        Answer::Says("Group «"@ + args[0]@ + "» already exists."@)
    } else {
        Answer::Does(
            DomainEvent::GroupCreated { group_id: id, name: args[0] },
            "✅ Created cleaning group «"@ + args[0]@ + "»."@,
        )
    }
}

/// Makes a new group under an id.
pub fn add_group_as(state: &mut State, req: &Request, args: &Vec<String>, id: String) -> (r: Result<
    String,
    CommandError,
>)
    ensures
        answered(
            *old(state),
            *final(state),
            r,
            add_group_answer(*old(state), *req, args@, id),
            req.now,
        ),
{
    if !req.is_admin {
        return Err(CommandError::NotAdmin);
    }
    if !is_known(state, req.today) {
        return Err(CommandError::OutOfRange);
    }
    if args.len() == 0 {
        return Ok("Usage: !groups add <name>".to_owned());
    }
    if state.group_by_name(args[0].as_str()).is_some() {
        return Ok("Group «".to_owned().concat(args[0].as_str()).concat("» already exists."));
    }
    let text = "✅ Created cleaning group «".to_owned().concat(args[0].as_str()).concat("».");
    let event = DomainEvent::GroupCreated { group_id: id, name: args[0].clone() };
    perform(state, event, text, req.now)
}

/// Makes a new group under a random id.
pub fn cmd_addfloor(state: &mut State, req: &Request, args: &Vec<String>) -> (r: Result<
    String,
    CommandError,
>)
    ensures
        exists|id: String|
            id@.len() == 36 && answered(
                *old(state),
                *final(state),
                r,
                #[trigger] add_group_answer(*old(state), *req, args@, id),
                req.now,
            ),
{
    let id = fresh_id();
    add_group_as(state, req, args, id)
}

/// What `!removefloor` does: a group and everything about it is gone, when that is confirmed.
pub open spec fn remove_group_answer(state: State, req: Request, args: Seq<String>) -> Answer {
    if !req.is_admin {
        Answer::Fails(CommandError::NotAdmin)
    } else if !known(state, req.today) {
        Answer::Fails(CommandError::OutOfRange)
    } else if args.len() == 0 {
        Answer::Says("Usage: !groups remove <name>"@)
    } else {
        match state.group_of_name(args[0]@) {
            None => Answer::Says(no_group_text(args[0]@)),
            Some(g) => if args.len() > 1 && same_name(args[1]@, "confirm"@) {
                Answer::Does(
                    DomainEvent::GroupDeleted { group_id: g.id },
                    "✅ Removed group «"@ + args[0]@ + "»."@,
                )
            } else {
                Answer::Says(
                    "⚠️ This deletes «"@ + g.name@
                        + "» with its plan and history. To go on: !groups remove "@ + g.name@
                        + " confirm"@,
                )
            },
        }
    }
}

/// Takes out a group and everything about it, when that is confirmed.
pub fn cmd_removefloor(state: &mut State, req: &Request, args: &Vec<String>) -> (r: Result<
    String,
    CommandError,
>)
    ensures
        answered(
            *old(state),
            *final(state),
            r,
            remove_group_answer(*old(state), *req, args@),
            req.now,
        ),
{
    if !req.is_admin {
        return Err(CommandError::NotAdmin);
    }
    if !is_known(state, req.today) {
        return Err(CommandError::OutOfRange);
    }
    if args.len() == 0 {
        return Ok("Usage: !groups remove <name>".to_owned());
    }
    let g = match state.group_by_name(args[0].as_str()) {
        Some(g) => g,
        None => {
            return Ok(no_group(args[0].as_str()));
        },
    };
    if !(args.len() > 1 && is_same_name(args[1].as_str(), "confirm")) {
        return Ok(
            "⚠️ This deletes «".to_owned().concat(g.name.as_str()).concat(
                "» with its plan and history. To go on: !groups remove ",
            ).concat(g.name.as_str()).concat(" confirm"),
        );
    }
    let text = "✅ Removed group «".to_owned().concat(args[0].as_str()).concat("».");
    let event = DomainEvent::GroupDeleted { group_id: g.id.clone() };
    perform(state, event, text, req.now)
}

/// What `!disablegroup` and `!enablegroup` do: a group takes part in planning and statistics, or
/// not.
pub open spec fn switch_answer(state: State, req: Request, args: Seq<String>, on: bool) -> Answer {
    if !req.is_admin {
        Answer::Fails(CommandError::NotAdmin)
    } else if !known(state, req.today) {
        Answer::Fails(CommandError::OutOfRange)
    } else if args.len() == 0 {
        Answer::Says(
            if on {
                "Usage: !groups enable <group>"@
            } else {
                "Usage: !groups disable <group>"@
            },
        )
    } else {
        match state.group_of_name(args[0]@) {
            None => Answer::Says(no_group_text(args[0]@)),
            Some(g) => if g.is_active == on {
                Answer::Says(
                    "«"@ + args[0]@ + (if on {
                        "» is already enabled."@
                    } else {
                        "» is already disabled."@
                    }),
                )
            } else if on {
                Answer::Does(
                    DomainEvent::GroupEnabled { group_id: g.id },
                    "✅ «"@ + args[0]@
                        + "» enabled — now included in scheduling and statistics."@,
                )
            } else {
                Answer::Does(
                    DomainEvent::GroupDisabled { group_id: g.id },
                    "🚫 «"@ + args[0]@
                        + "» disabled — excluded from scheduling and statistics."@,
                )
            },
        }
    }
}

/// A group that has a name is known by its id.
proof fn lemma_known_by_name(state: State, name: Seq<char>)
    ensures
        state.group_of_name(name) is Some ==> state.group(state.group_of_name(name)->0.id@) is Some,
{
    if state.group_of_name(name) is Some {
        let p = group_named(name);
        lemma_first_index_is(state.cleaning_groups@, p);
        lemma_group_known(state, first_index(state.cleaning_groups@, p));
    }
}

/// Lets a group take part in planning and statistics, or not.
fn switch(state: &mut State, req: &Request, args: &Vec<String>, on: bool) -> (r: Result<
    String,
    CommandError,
>)
    ensures
        answered(
            *old(state),
            *final(state),
            r,
            switch_answer(*old(state), *req, args@, on),
            req.now,
        ),
{
    if !req.is_admin {
        return Err(CommandError::NotAdmin);
    }
    if !is_known(state, req.today) {
        return Err(CommandError::OutOfRange);
    }
    if args.len() == 0 {
        return Ok(
            if on {
                "Usage: !groups enable <group>".to_owned()
            } else {
                "Usage: !groups disable <group>".to_owned()
            },
        );
    }
    let g = match state.group_by_name(args[0].as_str()) {
        Some(g) => g,
        None => {
            return Ok(no_group(args[0].as_str()));
        },
    };
    if g.is_active == on {
        let ending: &str = if on {
            "» is already enabled."
        } else {
            "» is already disabled."
        };
        return Ok("«".to_owned().concat(args[0].as_str()).concat(ending));
    }
    let group_id = g.id.clone();
    proof {
        lemma_known_by_name(*state, args@[0]@);
    }
    if on {
        let text = "✅ «".to_owned().concat(args[0].as_str()).concat(
            "» enabled — now included in scheduling and statistics.",
        );
        perform(state, DomainEvent::GroupEnabled { group_id }, text, req.now)
    } else {
        let text = "🚫 «".to_owned().concat(args[0].as_str()).concat(
            "» disabled — excluded from scheduling and statistics.",
        );
        perform(state, DomainEvent::GroupDisabled { group_id }, text, req.now)
    }
}

/// Leaves a group out of planning and statistics.
pub fn cmd_disablegroup(state: &mut State, req: &Request, args: &Vec<String>) -> (r: Result<
    String,
    CommandError,
>)
    ensures
        answered(
            *old(state),
            *final(state),
            r,
            switch_answer(*old(state), *req, args@, false),
            req.now,
        ),
{
    switch(state, req, args, false)
}

/// Lets a group take part in planning and statistics again.
pub fn cmd_enablegroup(state: &mut State, req: &Request, args: &Vec<String>) -> (r: Result<
    String,
    CommandError,
>)
    ensures
        answered(
            *old(state),
            *final(state),
            r,
            switch_answer(*old(state), *req, args@, true),
            req.now,
        ),
{
    switch(state, req, args, true)
}

/// What `!resetplan` does: the plan of a group is started over after the current week.
pub open spec fn did_reset(
    pre: State,
    post: State,
    r: Result<String, CommandError>,
    req: Request,
    args: Seq<String>,
) -> bool {
    if !req.is_admin {
        answered(pre, post, r, Answer::Fails(CommandError::NotAdmin), req.now)
    } else if !known(pre, req.today) {
        answered(pre, post, r, Answer::Fails(CommandError::OutOfRange), req.now)
    } else if args.len() == 0 {
        says_only(pre, post, r, "Usage: !plan reset <group>"@)
    } else {
        match pre.group_of_name(args[0]@) {
            None => says_only(pre, post, r, no_group_text(args[0]@)),
            Some(g) => {
                let h = post.group(g.id@)->0;
                let turn = turn_meant(h, this_week(req.today), req.today);
                &&& reset(
                    pre,
                    post,
                    pre.group(g.id@)->0,
                    req.today,
                    req.usual as int,
                    req.now,
                )
                &&& r is Ok
                &&& r->Ok_0@ == "✅ Plan reset for «"@ + args[0]@ + "». This week: "@ + (match post.assignee(
                    h,
                    0,
                    turn,
                    req.today,
                ) {
                    Some(p) => p.display_name@,
                    None => "(nobody)"@,
                }) + "."@
            },
        }
    }
}

/// Starts the plan of a group over after the current week.
pub fn cmd_resetplan(state: &mut State, req: &Request, args: &Vec<String>) -> (r: Result<
    String,
    CommandError,
>)
    ensures
        did_reset(*old(state), *final(state), r, *req, args@),
{
    if !req.is_admin {
        return Err(CommandError::NotAdmin);
    }
    if !is_known(state, req.today) {
        return Err(CommandError::OutOfRange);
    }
    if args.len() == 0 {
        return Ok("Usage: !plan reset <group>".to_owned());
    }
    let group_id = match state.group_by_name(args[0].as_str()) {
        Some(g) => g.id.clone(),
        None => {
            return Ok(no_group(args[0].as_str()));
        },
    };
    proof {
        lemma_known_by_name(*state, args@[0]@);
    }
    match reset_and_rematerialize(state, &group_id, req.today, req.usual, req.now) {
        Ok(_) => {},
        Err(e) => {
            return Err(CommandError::Refused(e));
        },
    }
    let who: String = match state.group_by_id(group_id.as_str()) {
        Some(g) => {
            proof {
                let p = group_with_id(group_id@);
                lemma_first_index_is(state.cleaning_groups@, p);
                let i = first_index(state.cleaning_groups@, p);
                assert(state.cleaning_groups@[i] == *g);
                crate::planning::lemma_known(*state, req.today);
            }
            let week = crate::commands::base::current_week(req.today);
            let turn = meant_turn(g, week, req.today);
            match state.slot_assignee_at(g, 0, turn, req.today) {
                Some(p) => p.display_name.clone(),
                None => "(nobody)".to_owned(),
            }
        },
        None => {
            "(nobody)".to_owned()
        },
    };
    Ok(
        "✅ Plan reset for «".to_owned().concat(args[0].as_str()).concat("». This week: ").concat(
            who.as_str(),
        ).concat("."),
    )
}

} // verus!
