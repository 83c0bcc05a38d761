//! Slots, rooms and workload factors of groups.

use vstd::prelude::*;

use crate::analytics::DomainEvent;
use crate::commands::base::{
    answered, lemma_group_known, no_group, no_group_text, perform, slots_list, Answer, CommandError,
    Request,
};
use crate::domain::{
    fresh_id, slot_named, slot_names, CleaningGroup, CleaningSlot, SlotId, Weight,
};
use crate::lists::{find, first_index, lemma_first_index, lemma_first_index_is, some};
use crate::planning::{is_known, known};
use crate::state::{group_named, State};
use crate::text::{is_same_name, join, join_texts, lemma_views_push, same_name, views};

verus! {

/// The arguments from a place on, as one text.
pub open spec fn tail_text(args: Seq<String>, from: int) -> Seq<char> {
    join(views(args.skip(from)), " "@)
}

/// The arguments from a place on, as one text.
pub fn join_from(args: &Vec<String>, from: usize) -> (r: String)
    requires
        from <= args@.len(),
    ensures
        r@ == tail_text(args@, from as int),
{
    let mut rest: Vec<String> = Vec::new();
    let mut i: usize = from;
    let ghost all = views(args@.skip(from as int));
    assert(views(rest@) =~= all.take(0));
    while i < args.len()
        invariant
            from <= i <= args.len(),
            all == views(args@.skip(from as int)),
            views(rest@) == all.take(i - from),
        decreases args.len() - i,
    {
        let t = args[i].clone();
        proof {
            lemma_views_push(rest@, t);
            assert(all[i - from] == t@);
            assert(all.take(i - from + 1) =~= all.take(i - from).push(t@));
        }
        rest.push(t);
        i += 1;
    }
    assert(all.take(i - from) =~= all);
    join_texts(&rest, " ")
}

/// A group that has a name is known by its id.
proof fn lemma_known(state: State, name: Seq<char>)
    ensures
        state.group_of_name(name) is Some ==> state.group(state.group_of_name(name)->0.id@) is Some,
{
    if state.group_of_name(name) is Some {
        let p = group_named(name);
        lemma_first_index_is(state.cleaning_groups@, p);
        lemma_group_known(state, first_index(state.cleaning_groups@, p));
    }
}

/// What is wrong before a command of an admin is looked at.
pub open spec fn admin_fault(state: State, req: Request) -> Option<CommandError> {
    if !req.is_admin {
        Some(CommandError::NotAdmin)
    } else if !known(state, req.today) {
        Some(CommandError::OutOfRange)
    } else {
        None
    }
}

/// What is wrong before a command of an admin is looked at.
fn find_fault(state: &State, req: &Request) -> (r: Option<CommandError>)
    ensures
        r == admin_fault(*state, *req),
{
    if !req.is_admin {
        Some(CommandError::NotAdmin)
    } else if !is_known(state, req.today) {
        Some(CommandError::OutOfRange)
    } else {
        None
    }
}

/// The arguments after the first, as one text.
pub open spec fn second_name(args: Seq<String>) -> Seq<char> {
    if args.len() > 1 {
        tail_text(args, 1)
    } else {
        ""@
    }
}

/// The arguments after the first, as one text.
fn read_second_name(args: &Vec<String>) -> (r: String)
    ensures
        r@ == second_name(args@),
{
    if args.len() > 1 {
        join_from(args, 1)
    } else {
        "".to_owned()
    }
}

// ── Slots ────────────────────────────────────────────────────────────────────

/// What `!addslot` does: a group has a new slot with a name under an id, unless one has the name.
pub open spec fn add_slot_answer(
    state: State,
    req: Request,
    args: Seq<String>,
    name: String,
    id: String,
) -> Answer {
    match admin_fault(state, req) {
        Some(e) => Answer::Fails(e),
        None => if args.len() == 0 || name@.len() == 0 {
            Answer::Says("Usage: !groups slot add <group> <slot>"@)
        } else {
            match state.group_of_name(args[0]@) {
                None => Answer::Says(no_group_text(args[0]@)),
                Some(g) => if some(g.slots@, slot_named(name@)) {
                    Answer::Says(
                        "Slot «"@ + name@ + "» already exists in «"@ + args[0]@ + "»."@,
                    )
                } else {
                    Answer::Does(
                        DomainEvent::SlotAdded { group_id: g.id, slot_id: id, slot_name: name },
                        "✅ Added slot «"@ + name@ + "» to «"@ + args[0]@ + "»."@,
                    )
                },
            }
        },
    }
}

/// Gives a group a new slot under an id.
pub fn add_slot_as(state: &mut State, req: &Request, args: &Vec<String>, id: String) -> (r: Result<
    String,
    CommandError,
>)
    ensures
        exists|name: String|
            name@ == second_name(args@) && answered(
                *old(state),
                *final(state),
                r,
                #[trigger] add_slot_answer(*old(state), *req, args@, name, id),
                req.now,
            ),
{
    let name = read_second_name(args);
    let ghost answer = add_slot_answer(*state, *req, args@, name, id);
    if let Some(e) = find_fault(state, req) {
        return Err(e);
    }
    if args.len() == 0 || name.as_str().unicode_len() == 0 {
        return Ok("Usage: !groups slot add <group> <slot>".to_owned());
    }
    let g = match state.group_by_name(args[0].as_str()) {
        Some(g) => g,
        None => {
            return Ok(no_group(args[0].as_str()));
        },
    };
    if g.slot_position(name.as_str()).is_some() {
        return Ok(
            "Slot «".to_owned().concat(name.as_str()).concat("» already exists in «").concat(
                args[0].as_str(),
            ).concat("»."),
        );
    }
    proof {
        lemma_known(*state, args@[0]@);
    }
    let text = "✅ Added slot «".to_owned().concat(name.as_str()).concat("» to «").concat(
        args[0].as_str(),
    ).concat("».");
    let event = DomainEvent::SlotAdded { group_id: g.id.clone(), slot_id: id, slot_name: name };
    perform(state, event, text, req.now)
}

/// Gives a group a new slot under a random id.
pub fn cmd_addslot(state: &mut State, req: &Request, args: &Vec<String>) -> (r: Result<
    String,
    CommandError,
>)
    ensures
        exists|name: String, id: String|
            id@.len() == 36 && name@ == second_name(args@) && answered(
                *old(state),
                *final(state),
                r,
                #[trigger] add_slot_answer(*old(state), *req, args@, name, id),
                req.now,
            ),
{
    let id = fresh_id();
    add_slot_as(state, req, args, id)
}

/// What `!removeslot` does: a slot of a group is gone, and the assignments of the slots after it
/// still belong to them.
pub open spec fn remove_slot_answer(state: State, req: Request, args: Seq<String>) -> Answer {
    let name = second_name(args);
    match admin_fault(state, req) {
        Some(e) => Answer::Fails(e),
        None => if args.len() == 0 || name.len() == 0 {
            Answer::Says("Usage: !groups slot remove <group> <slot>"@)
        } else {
            match state.group_of_name(args[0]@) {
                None => Answer::Says(no_group_text(args[0]@)),
                Some(g) => match find(g.slots@, slot_named(name)) {
                    None => Answer::Says(
                        "Slot «"@ + name + "» not found in «"@ + args[0]@ + "»."@,
                    ),
                    Some(slot) => Answer::Does(
                        DomainEvent::SlotRemoved { group_id: g.id, slot_id: slot.id },
                        "✅ Removed slot «"@ + name + "» from «"@ + args[0]@ + "»."@,
                    ),
                },
            }
        },
    }
}

/// Takes a slot out of a group.
pub fn cmd_removeslot(state: &mut State, req: &Request, args: &Vec<String>) -> (r: Result<
    String,
    CommandError,
>)
    ensures
        answered(
            *old(state),
            *final(state),
            r,
            remove_slot_answer(*old(state), *req, args@),
            req.now,
        ),
{
    let name = read_second_name(args);
    if let Some(e) = find_fault(state, req) {
        return Err(e);
    }
    if args.len() == 0 || name.as_str().unicode_len() == 0 {
        return Ok("Usage: !groups slot remove <group> <slot>".to_owned());
    }
    let g = match state.group_by_name(args[0].as_str()) {
        Some(g) => g,
        None => {
            return Ok(no_group(args[0].as_str()));
        },
    };
    let slot_id = match g.slot_by_name(name.as_str()) {
        Some(s) => s.id.clone(),
        None => {
            return Ok(
                "Slot «".to_owned().concat(name.as_str()).concat("» not found in «").concat(
                    args[0].as_str(),
                ).concat("»."),
            );
        },
    };
    proof {
        lemma_known(*state, args@[0]@);
    }
    let text = "✅ Removed slot «".to_owned().concat(name.as_str()).concat("» from «").concat(
        args[0].as_str(),
    ).concat("».");
    let event = DomainEvent::SlotRemoved { group_id: g.id.clone(), slot_id };
    perform(state, event, text, req.now)
}

// ── Rooms ────────────────────────────────────────────────────────────────────

/// The slot that a room belongs to, and where its name starts: a slot when the second argument
/// names one and more follow, and else the group.
pub open spec fn room_slot(g: CleaningGroup, args: Seq<String>) -> (Option<SlotId>, int) {
    if args.len() >= 3 {
        match find(g.slots@, slot_named(args[1]@)) {
            Some(slot) => (Some(slot.id), 2),
            None => (None, 1),
        }
    } else {
        (None, 1)
    }
}

/// Where the name of the room starts.
pub open spec fn room_start(state: State, args: Seq<String>) -> int {
    match state.group_of_name(args[0]@) {
        Some(g) => room_slot(g, args).1,
        None => 1,
    }
}

/// The name of the room that arguments give.
pub open spec fn room_given(state: State, args: Seq<String>) -> Seq<char> {
    if args.len() < 2 {
        ""@
    } else {
        tail_text(args, room_start(state, args))
    }
}

/// Finds the slot that a room belongs to, and where its name starts.
fn find_room_slot(g: &CleaningGroup, args: &Vec<String>) -> (r: (Option<SlotId>, usize))
    requires
        args@.len() >= 2,
    ensures
        (r.0, r.1 as int) == room_slot(*g, args@),
        1 <= r.1 <= 2,
        r.1 <= args@.len(),
{
    if args.len() >= 3 {
        match g.slot_by_name(args[1].as_str()) {
            Some(s) => (Some(s.id.clone()), 2),
            None => (None, 1),
        }
    } else {
        (None, 1)
    }
}

/// What `!addroom` does: a group, or one of its slots, has a room more.
pub open spec fn add_room_answer(state: State, req: Request, args: Seq<String>, room: String) -> Answer {
    match admin_fault(state, req) {
        Some(e) => Answer::Fails(e),
        None => if args.len() < 2 {
            Answer::Says("Usage: !groups room add <group> [<slot>] <room>"@)
        } else {
            match state.group_of_name(args[0]@) {
                None => Answer::Says(no_group_text(args[0]@)),
                Some(g) => if args.len() == 2 && g.slots@.len() > 0 {
                    Answer::Says(
                        "«"@ + args[0]@ + "» has slots. Usage: !groups room add \""@ + args[0]@
                            + "\" <slot> <room>.\nSlots: "@ + join(slot_names(g.slots@), ", "@),
                    )
                } else {
                    Answer::Does(
                        DomainEvent::RoomAdded {
                            group_id: g.id,
                            slot_id: room_slot(g, args).0,
                            room_name: room,
                        },
                        "✅ Added room «"@ + room@ + "»."@,
                    )
                },
            }
        },
    }
}

/// Gives a group, or one of its slots, a room more.
pub fn cmd_addroom(state: &mut State, req: &Request, args: &Vec<String>) -> (r: Result<
    String,
    CommandError,
>)
    ensures
        exists|room: String|
            room@ == room_given(*old(state), args@) && answered(
                *old(state),
                *final(state),
                r,
                #[trigger] add_room_answer(*old(state), *req, args@, room),
                req.now,
            ),
{
    let room = read_room(state, args);
    let ghost answer = add_room_answer(*state, *req, args@, room);
    if let Some(e) = find_fault(state, req) {
        return Err(e);
    }
    if args.len() < 2 {
        return Ok("Usage: !groups room add <group> [<slot>] <room>".to_owned());
    }
    let g = match state.group_by_name(args[0].as_str()) {
        Some(g) => g,
        None => {
            return Ok(no_group(args[0].as_str()));
        },
    };
    if args.len() == 2 && g.slots.len() > 0 {
        return Ok(
            "«".to_owned().concat(args[0].as_str()).concat(
                "» has slots. Usage: !groups room add \"",
            ).concat(args[0].as_str()).concat("\" <slot> <room>.\nSlots: ").concat(
                slots_list(g).as_str(),
            ),
        );
    }
    proof {
        lemma_known(*state, args@[0]@);
    }
    let (slot_id, _) = find_room_slot(g, args);
    let text = "✅ Added room «".to_owned().concat(room.as_str()).concat("».");
    let event = DomainEvent::RoomAdded { group_id: g.id.clone(), slot_id, room_name: room };
    perform(state, event, text, req.now)
}

/// The name of the room that arguments give.
fn read_room(state: &State, args: &Vec<String>) -> (r: String)
    ensures
        r@ == room_given(*state, args@),
{
    if args.len() < 2 {
        return "".to_owned();
    }
    let from: usize = match state.group_by_name(args[0].as_str()) {
        Some(g) => find_room_slot(g, args).1,
        None => 1,
    };
    join_from(args, from)
}

/// What `!removeroom` does: a group, or one of its slots, has a room less.
pub open spec fn remove_room_answer(state: State, req: Request, args: Seq<String>, room: String) -> Answer {
    match admin_fault(state, req) {
        Some(e) => Answer::Fails(e),
        None => if args.len() < 2 {
            Answer::Says("Usage: !groups room remove <group> [<slot>] <room>"@)
        } else {
            match state.group_of_name(args[0]@) {
                None => Answer::Says(no_group_text(args[0]@)),
                Some(g) => Answer::Does(
                    DomainEvent::RoomRemoved {
                        group_id: g.id,
                        slot_id: room_slot(g, args).0,
                        room_name: room,
                    },
                    "✅ Removed room «"@ + room@ + "» from «"@ + args[0]@ + "»."@,
                ),
            }
        },
    }
}

/// Takes a room out of a group, or out of one of its slots.
pub fn cmd_removeroom(state: &mut State, req: &Request, args: &Vec<String>) -> (r: Result<
    String,
    CommandError,
>)
    ensures
        exists|room: String|
            room@ == room_given(*old(state), args@) && answered(
                *old(state),
                *final(state),
                r,
                #[trigger] remove_room_answer(*old(state), *req, args@, room),
                req.now,
            ),
{
    let room = read_room(state, args);
    let ghost answer = remove_room_answer(*state, *req, args@, room);
    if let Some(e) = find_fault(state, req) {
        return Err(e);
    }
    if args.len() < 2 {
        return Ok("Usage: !groups room remove <group> [<slot>] <room>".to_owned());
    }
    let g = match state.group_by_name(args[0].as_str()) {
        Some(g) => g,
        None => {
            return Ok(no_group(args[0].as_str()));
        },
    };
    proof {
        lemma_known(*state, args@[0]@);
    }
    let (slot_id, _) = find_room_slot(g, args);
    let text = "✅ Removed room «".to_owned().concat(room.as_str()).concat("» from «").concat(
        args[0].as_str(),
    ).concat("».");
    let event = DomainEvent::RoomRemoved { group_id: g.id.clone(), slot_id, room_name: room };
    perform(state, event, text, req.now)
}

// ── Factors ──────────────────────────────────────────────────────────────────

/// A workload factor as it was given, and as it is shown: "1.50".
#[derive(Clone, Debug)]
pub struct Factor {
    pub weight: Weight,
    pub shown: String,
}

/// A room name, up to the case of letters.
pub open spec fn room_called(name: Seq<char>) -> spec_fn(String) -> bool {
    |r: String| same_name(r@, name)
}

/// A slot that has a room.
pub open spec fn slot_with_room(name: Seq<char>) -> spec_fn(CleaningSlot) -> bool {
    |s: CleaningSlot| some(s.room_names@, room_called(name))
}

/// Where a room of a group is, and how it is spelled there: in the group itself, or in the first
/// slot that has it.
pub open spec fn room_place(g: CleaningGroup, name: Seq<char>) -> Option<(Option<SlotId>, String)> {
    match find(g.room_names@, room_called(name)) {
        Some(r) => Some((None, r)),
        None => match find(g.slots@, slot_with_room(name)) {
            Some(s) => Some((Some(s.id), find(s.room_names@, room_called(name))->0)),
            None => None,
        },
    }
}

/// The place of the first room of a name.
fn room_position(rooms: &Vec<String>, name: &str) -> (r: Option<usize>)
    ensures
        (r is Some) == some(rooms@, room_called(name@)),
        r is Some ==> r->0 < rooms@.len() && r->0 == first_index(rooms@, room_called(name@)),
{
    let ghost p = room_called(name@);
    let mut i: usize = 0;
    while i < rooms.len()
        invariant
            i <= rooms.len(),
            p == room_called(name@),
            forall|k: int| 0 <= k < i ==> !p(#[trigger] rooms@[k]),
        decreases rooms.len() - i,
    {
        if is_same_name(rooms[i].as_str(), name) {
            proof {
                lemma_first_index(rooms@, p, i as int);
            }
            return Some(i);
        }
        i += 1;
    }
    proof {
        lemma_first_index(rooms@, p, i as int);
    }
    None
}

/// Finds where a room of a group is, and how it is spelled there.
fn find_room(g: &CleaningGroup, name: &str) -> (r: Option<(Option<SlotId>, String)>)
    ensures
        r == room_place(*g, name@),
{
    if let Some(i) = room_position(&g.room_names, name) {
        return Some((None, g.room_names[i].clone()));
    }
    let ghost p = slot_with_room(name@);
    let mut k: usize = 0;
    while k < g.slots.len()
        invariant
            k <= g.slots.len(),
            p == slot_with_room(name@),
            !some(g.room_names@, room_called(name@)),
            forall|j: int| 0 <= j < k ==> !p(#[trigger] g.slots@[j]),
        decreases g.slots.len() - k,
    {
        if let Some(i) = room_position(&g.slots[k].room_names, name) {
            proof {
                lemma_first_index(g.slots@, p, k as int);
            }
            return Some((Some(g.slots[k].id.clone()), g.slots[k].room_names[i].clone()));
        }
        k += 1;
    }
    proof {
        lemma_first_index(g.slots@, p, k as int);
    }
    None
}

/// What setting the factor of a room does, given the factor if it is a positive number.
pub open spec fn room_weight_answer(
    state: State,
    req: Request,
    args: Seq<String>,
    factor: Option<Factor>,
) -> Answer {
    match admin_fault(state, req) {
        Some(e) => Answer::Fails(e),
        None => if args.len() < 3 {
            Answer::Says(
                "Usage: !groups weight <group> <room> <factor>  (e.g. 2.0 for twice the load)"@,
            )
        } else {
            match factor {
                None => Answer::Says("Weight must be a positive number (e.g. 1.5 or 0.5)."@),
                Some(f) => match state.group_of_name(args[0]@) {
                    None => Answer::Says(no_group_text(args[0]@)),
                    Some(g) => match room_place(g, args[1]@) {
                        None => Answer::Says(
                            "Room «"@ + args[1]@ + "» not found in «"@ + args[0]@ + "»."@,
                        ),
                        Some((slot_id, room_name)) => Answer::Does(
                            DomainEvent::RoomWeightSet {
                                group_id: g.id,
                                slot_id,
                                room_name,
                                weight: f.weight,
                            },
                            "✅ Room «"@ + room_name@ + "» in «"@ + args[0]@
                                + "» weight set to "@ + f.shown@ + "×."@,
                        ),
                    },
                },
            }
        },
    }
}

/// Sets the factor of a room, given the factor if it is a positive number.
pub fn cmd_setroomweight(
    state: &mut State,
    req: &Request,
    args: &Vec<String>,
    factor: &Option<Factor>,
) -> (r: Result<String, CommandError>)
    ensures
        answered(
            *old(state),
            *final(state),
            r,
            room_weight_answer(*old(state), *req, args@, *factor),
            req.now,
        ),
{
    if let Some(e) = find_fault(state, req) {
        return Err(e);
    }
    if args.len() < 3 {
        return Ok(
            "Usage: !groups weight <group> <room> <factor>  (e.g. 2.0 for twice the load)".to_owned(),
        );
    }
    let f = match factor {
        Some(f) => f,
        None => {
            return Ok("Weight must be a positive number (e.g. 1.5 or 0.5).".to_owned());
        },
    };
    let g = match state.group_by_name(args[0].as_str()) {
        Some(g) => g,
        None => {
            return Ok(no_group(args[0].as_str()));
        },
    };
    let (slot_id, room_name) = match find_room(g, args[1].as_str()) {
        Some(x) => x,
        None => {
            return Ok(
                "Room «".to_owned().concat(args[1].as_str()).concat("» not found in «").concat(
                    args[0].as_str(),
                ).concat("»."),
            );
        },
    };
    proof {
        lemma_known(*state, args@[0]@);
    }
    let text = "✅ Room «".to_owned().concat(room_name.as_str()).concat("» in «").concat(
        args[0].as_str(),
    ).concat("» weight set to ").concat(f.shown.as_str()).concat("×.");
    let event = DomainEvent::RoomWeightSet {
        group_id: g.id.clone(),
        slot_id,
        room_name,
        weight: f.weight,
    };
    perform(state, event, text, req.now)
}

/// What setting the factor of a group does, given the factor if it is a positive number.
pub open spec fn group_weight_answer(
    state: State,
    req: Request,
    args: Seq<String>,
    factor: Option<Factor>,
) -> Answer {
    match admin_fault(state, req) {
        Some(e) => Answer::Fails(e),
        None => if args.len() < 2 {
            Answer::Says(
                "Usage: !groups weight <group> <factor>  (e.g. 2.0 for twice the load)"@,
            )
        } else {
            match factor {
                None => Answer::Says("Weight must be a positive number (e.g. 1.5 or 0.5)."@),
                Some(f) => match state.group_of_name(args[0]@) {
                    None => Answer::Says(no_group_text(args[0]@)),
                    Some(g) => Answer::Does(
                        DomainEvent::GroupWeightSet { group_id: g.id, weight: f.weight },
                        "✅ «"@ + args[0]@ + "» workload weight set to "@ + f.shown@ + "×."@,
                    ),
                },
            }
        },
    }
}

/// Sets the factor of a group, given the factor if it is a positive number.
pub fn cmd_setgroupweight(
    state: &mut State,
    req: &Request,
    args: &Vec<String>,
    factor: &Option<Factor>,
) -> (r: Result<String, CommandError>)
    ensures
        answered(
            *old(state),
            *final(state),
            r,
            group_weight_answer(*old(state), *req, args@, *factor),
            req.now,
        ),
{
    if let Some(e) = find_fault(state, req) {
        return Err(e);
    }
    if args.len() < 2 {
        return Ok(
            "Usage: !groups weight <group> <factor>  (e.g. 2.0 for twice the load)".to_owned(),
        );
    }
    let f = match factor {
        Some(f) => f,
        None => {
            return Ok("Weight must be a positive number (e.g. 1.5 or 0.5).".to_owned());
        },
    };
    let g = match state.group_by_name(args[0].as_str()) {
        Some(g) => g,
        None => {
            return Ok(no_group(args[0].as_str()));
        },
    };
    proof {
        lemma_known(*state, args@[0]@);
    }
    let text = "✅ «".to_owned().concat(args[0].as_str()).concat(
        "» workload weight set to ",
    ).concat(f.shown.as_str()).concat("×.");
    let event = DomainEvent::GroupWeightSet { group_id: g.id.clone(), weight: f.weight };
    perform(state, event, text, req.now)
}

/// How factors are set.
pub const WEIGHT_USAGE: &'static str = "Usage: !groups weight <group> [<room>] <factor>  (e.g. 2.0 = twice the work; quote names with spaces)";

/// What `!groups weight` does: it sets the factor of a group, or of one of its rooms.
pub open spec fn weight_answer(
    state: State,
    req: Request,
    args: Seq<String>,
    factor: Option<Factor>,
) -> Answer {
    if args.len() == 2 {
        group_weight_answer(state, req, args, factor)
    } else if args.len() == 3 {
        room_weight_answer(state, req, args, factor)
    } else {
        Answer::Says(WEIGHT_USAGE@)
    }
}

/// Sets the factor of a group, or of one of its rooms, given the factor if it is a positive
/// number.
pub fn cmd_weight(
    state: &mut State,
    req: &Request,
    args: &Vec<String>,
    factor: &Option<Factor>,
) -> (r: Result<String, CommandError>)
    ensures
        answered(
            *old(state),
            *final(state),
            r,
            weight_answer(*old(state), *req, args@, *factor),
            req.now,
        ),
{
    if args.len() == 2 {
        cmd_setgroupweight(state, req, args, factor)
    } else if args.len() == 3 {
        cmd_setroomweight(state, req, args, factor)
    } else {
        Ok(WEIGHT_USAGE.to_owned())
    }
}

} // verus!
