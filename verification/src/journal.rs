//! Applying events: the only way in which what the bot remembers of the cleaning changes.

use vstd::prelude::*;

use crate::analytics::{DomainEvent, LoggedEvent};
use crate::calendar::Timestamp;
use crate::domain::{
    default_weight, slot_with_id, CleaningGroup, CleaningSlot, Person, RoomWeight, SlotAssignment,
    Weight, NEUTRAL_WEIGHT,
};
use crate::lists::{first_index, lemma_first_index, lemma_first_index_is, retain, some};
use crate::rhythm::Turn;
use crate::state::{
    assignment_of, completion_of, group_with_id, person_with_id, Absence, Completion, ReactionDone,
    SentReminder, State, SwapRequest, SwapStatus,
};
use crate::text::{contains_text, copy_texts, same_text, says};

verus! {

/// Why an event cannot be applied.
#[derive(Clone, Copy, Debug, PartialEq, Eq, Structural)]
pub enum StateError {
    UnknownGroup,
    UnknownPerson,
    UnknownSwap,
}

// ── What each event does ─────────────────────────────────────────────────────

/// Whether `post` is `pre` with an event logged at its end.
pub open spec fn logged(pre: State, post: State, e: DomainEvent, now: Timestamp) -> bool {
    &&& post.last_modified == Some(now)
    &&& post.event_log@.len() == pre.event_log@.len() + 1
    &&& post.event_log@.drop_last() == pre.event_log@
    &&& post.event_log@.last().event == e
    &&& post.event_log@.last().timestamp == now
}

/// `pre` with the log and the time of the last change of `post`.
pub open spec fn noted(pre: State, post: State) -> State {
    State { event_log: post.event_log, last_modified: post.last_modified, ..pre }
}

/// Whether only the groups differ.
pub open spec fn only_groups(pre: State, post: State) -> bool {
    post == (State { cleaning_groups: post.cleaning_groups, ..noted(pre, post) })
}

/// Whether only the persons differ.
pub open spec fn only_persons(pre: State, post: State) -> bool {
    post == (State { persons: post.persons, ..noted(pre, post) })
}

/// Whether only the assignments differ.
pub open spec fn only_assignments(pre: State, post: State) -> bool {
    post == (State { slot_assignments: post.slot_assignments, ..noted(pre, post) })
}

/// Whether only the marks differ.
pub open spec fn only_completions(pre: State, post: State) -> bool {
    post == (State { completions: post.completions, ..noted(pre, post) })
}

/// Whether only the requests to swap differ.
pub open spec fn only_swaps(pre: State, post: State) -> bool {
    post == (State { swap_requests: post.swap_requests, ..noted(pre, post) })
}

/// Whether only the absences differ.
pub open spec fn only_absences(pre: State, post: State) -> bool {
    post == (State { absences: post.absences, ..noted(pre, post) })
}

/// The place of a group.
pub open spec fn place_of(state: State, group_id: Seq<char>) -> int {
    first_index(state.cleaning_groups@, group_with_id(group_id))
}

/// Whether only one group differs, and it has become `g`.
pub open spec fn group_becomes(pre: State, post: State, group_id: Seq<char>, g: CleaningGroup) -> bool {
    only_groups(pre, post) && post.cleaning_groups@ == pre.cleaning_groups@.update(
        place_of(pre, group_id),
        g,
    )
}

/// A group as it is after the change.
pub open spec fn changed(pre: State, post: State, group_id: Seq<char>) -> CleaningGroup {
    post.cleaning_groups@[place_of(pre, group_id)]
}

/// A group as it was before the change.
pub open spec fn former(pre: State, group_id: Seq<char>) -> CleaningGroup {
    pre.cleaning_groups@[place_of(pre, group_id)]
}

/// Whether a group is new: without members, rooms and slots, cleaned every week, active.
pub open spec fn is_new_group(g: CleaningGroup, id: String, name: String) -> bool {
    &&& g.id == id
    &&& g.name == name
    &&& g.member_ids@.len() == 0
    &&& g.rotation_queue@.len() == 0
    &&& g.room_names@.len() == 0
    &&& g.room_weights@.len() == 0
    &&& g.slots@.len() == 0
    &&& g.weight.bits == NEUTRAL_WEIGHT
    &&& g.rhythm.every_weeks == Some(1u32)
    &&& g.rhythm.shift_starts@.len() == 0
    &&& g.is_active
}

/// Whether a slot is new: without rooms.
pub open spec fn is_new_slot(s: CleaningSlot, id: String, name: String) -> bool {
    &&& s.id == id
    &&& s.name == name
    &&& s.room_names@.len() == 0
    &&& s.room_weights@.len() == 0
    &&& s.weight.bits == NEUTRAL_WEIGHT
}

/// The groups with another id.
pub open spec fn other_group(id: Seq<char>) -> spec_fn(CleaningGroup) -> bool {
    |g: CleaningGroup| g.id@ != id
}

/// The assignments of other groups.
pub open spec fn assignment_elsewhere(id: Seq<char>) -> spec_fn(SlotAssignment) -> bool {
    |a: SlotAssignment| a.group_id@ != id
}

/// The marks of other groups.
pub open spec fn completion_elsewhere(id: Seq<char>) -> spec_fn(Completion) -> bool {
    |c: Completion| c.group_id@ != id
}

/// The requests to swap in other groups.
pub open spec fn swap_elsewhere(id: Seq<char>) -> spec_fn(SwapRequest) -> bool {
    |s: SwapRequest| s.group_id@ != id
}

/// The absences from other groups.
pub open spec fn absence_elsewhere(id: Seq<char>) -> spec_fn(Absence) -> bool {
    |a: Absence| a.group_id@ != id
}

/// The reminders for other groups.
pub open spec fn reminder_elsewhere(id: Seq<char>) -> spec_fn(SentReminder) -> bool {
    |r: SentReminder| r.group_id@ != id
}

/// The reactions that marked other groups.
pub open spec fn reaction_elsewhere(id: Seq<char>) -> spec_fn(ReactionDone) -> bool {
    |r: ReactionDone| r.group_id@ != id
}

/// Whether a group and all that refers to it is gone, and nothing else.
pub open spec fn group_gone(pre: State, post: State, id: Seq<char>) -> bool {
    &&& post == (State {
        cleaning_groups: post.cleaning_groups,
        slot_assignments: post.slot_assignments,
        completions: post.completions,
        swap_requests: post.swap_requests,
        absences: post.absences,
        sent_reminders: post.sent_reminders,
        reaction_dones: post.reaction_dones,
        ..noted(pre, post)
    })
    &&& post.cleaning_groups@ == pre.cleaning_groups@.filter(other_group(id))
    &&& post.slot_assignments@ == pre.slot_assignments@.filter(assignment_elsewhere(id))
    &&& post.completions@ == pre.completions@.filter(completion_elsewhere(id))
    &&& post.swap_requests@ == pre.swap_requests@.filter(swap_elsewhere(id))
    &&& post.absences@ == pre.absences@.filter(absence_elsewhere(id))
    &&& post.sent_reminders@ == pre.sent_reminders@.filter(reminder_elsewhere(id))
    &&& post.reaction_dones@ == pre.reaction_dones@.filter(reaction_elsewhere(id))
}

/// An assignment that is not the one of a slot of a turn.
pub open spec fn assignment_beside(
    group_id: Seq<char>,
    slot_index: int,
    turn: Turn,
) -> spec_fn(SlotAssignment) -> bool {
    |a: SlotAssignment| !assignment_of(group_id, slot_index, turn)(a)
}

/// The assignments that are not of a given slot of a group.
pub open spec fn not_of_slot(group_id: Seq<char>, index: int) -> spec_fn(SlotAssignment) -> bool {
    |a: SlotAssignment| !(a.group_id@ == group_id && a.slot_index == index)
}

/// An assignment that names the same slot once the one at `index` is gone.
pub open spec fn repointed(group_id: Seq<char>, index: int) -> spec_fn(SlotAssignment) -> SlotAssignment {
    |a: SlotAssignment|
        if a.group_id@ == group_id && a.slot_index > index {
            SlotAssignment { slot_index: (a.slot_index - 1) as usize, ..a }
        } else {
            a
        }
}

/// The rooms with another name.
pub open spec fn other_room(name: Seq<char>) -> spec_fn(String) -> bool {
    |r: String| r@ != name
}

/// The room factors of other rooms.
pub open spec fn weight_of_other_room(name: Seq<char>) -> spec_fn(RoomWeight) -> bool {
    |w: RoomWeight| w.room_name@ != name
}

/// Members other than this one.
pub open spec fn other_id(id: Seq<char>) -> spec_fn(String) -> bool {
    |m: String| m@ != id
}

/// The absences of others.
pub open spec fn absence_of_others(id: Seq<char>) -> spec_fn(Absence) -> bool {
    |a: Absence| a.person_id@ != id
}

/// Whether two optional texts say the same.
pub open spec fn same_option(a: Option<String>, b: Option<String>) -> bool {
    (a is None && b is None) || (a is Some && b is Some && a->0@ == b->0@)
}

/// The mark of a slot of a turn.
pub open spec fn mark_of(group_id: Seq<char>, slot_id: Option<String>, turn: Turn) -> spec_fn(
    Completion,
) -> bool {
    |c: Completion|
        c.group_id@ == group_id && c.iso_year == turn.year && c.iso_week == turn.week && c.shift
            == turn.shift && same_option(c.slot_id, slot_id)
}

/// The marks that taking back a week's marks leaves: those of other groups, weeks, shifts and
/// slots than the given ones, where `None` stands for all of them.
pub open spec fn not_undone(
    group_id: Seq<char>,
    year: i32,
    week: u32,
    shift: Option<u8>,
    slot_id: Option<String>,
) -> spec_fn(Completion) -> bool {
    |c: Completion|
        !(c.group_id@ == group_id && c.iso_year == year && c.iso_week == week && (shift is None
            || c.shift == shift->0) && (slot_id is None || same_option(c.slot_id, slot_id)))
}

/// Whether skipping a week's tasks concerns a slot of a shift.
pub open spec fn skips(
    group: CleaningGroup,
    shift: Option<u8>,
    slot_id: Option<String>,
    at_shift: int,
    at_slot: int,
) -> bool {
    &&& (shift is None || shift->0 == at_shift)
    &&& (slot_id is None || (0 <= at_slot < group.slots@.len() && group.slots@[at_slot].id@
        == slot_id->0@))
}

/// A mark that excuses a slot of a turn.
pub open spec fn is_excuse(
    c: Completion,
    group: CleaningGroup,
    slot: int,
    turn: Turn,
    by: Seq<char>,
    now: Timestamp,
) -> bool {
    &&& c.group_id@ == group.id@
    &&& (if group.slots@.len() == 0 {
        c.slot_id is None
    } else {
        c.slot_id is Some && c.slot_id->0@ == group.slots@[slot].id@
    })
    &&& c.completed_by_id@ == by
    &&& c.responsible_person_ids@.len() == 0
    &&& c.iso_year == turn.year
    &&& c.iso_week == turn.week
    &&& c.shift == turn.shift
    &&& c.completed_at == now
    &&& c.skipped
}

/// Whether a slot of a shift is among the given ones, or one with the same id is.
pub open spec fn is_place_of(
    places: Seq<(int, int)>,
    group: CleaningGroup,
    shift: int,
    slot: int,
) -> bool {
    exists|i: int|
        0 <= i < places.len() && (#[trigger] places[i]).0 == shift && (group.slots@.len() == 0
            || group.slots@[places[i].1].id@ == group.slots@[slot].id@)
}

/// The slots of a week's shifts that were open and that skipping concerns, shift by shift: those
/// of the shifts before `to_shift`, and of that one those before `to_slot`.
pub open spec fn open_places(
    pre: Seq<Completion>,
    group: CleaningGroup,
    year: i32,
    week: u32,
    shift: Option<u8>,
    slot_id: Option<String>,
    to_shift: int,
    to_slot: int,
) -> Seq<(int, int)>
    decreases to_shift, to_slot,
{
    if to_slot > 0 {
        let k = to_slot - 1;
        let r = open_places(pre, group, year, week, shift, slot_id, to_shift, k);
        let turn = Turn { year, week, shift: to_shift as u8 };
        if skips(group, shift, slot_id, to_shift, k) && !some(pre, completion_of(group, k, turn))
            && !is_place_of(r, group, to_shift, k) {
            r.push((to_shift, k))
        } else {
            r
        }
    } else if to_shift > 0 {
        open_places(
            pre,
            group,
            year,
            week,
            shift,
            slot_id,
            to_shift - 1,
            group.slot_count() as int,
        )
    } else {
        Seq::empty()
    }
}

/// Whether the marks are the given ones and one excuse for each of some slots of a week's shifts,
/// in their order.
pub open spec fn excuses_places(
    pre: Seq<Completion>,
    post: Seq<Completion>,
    group: CleaningGroup,
    year: i32,
    week: u32,
    places: Seq<(int, int)>,
    by: Seq<char>,
    now: Timestamp,
) -> bool {
    let more = post.skip(pre.len() as int);
    &&& post.len() == pre.len() + places.len()
    &&& post.take(pre.len() as int) == pre
    &&& forall|i: int|
        0 <= i < places.len() ==> is_excuse(
            #[trigger] more[i],
            group,
            places[i].1,
            Turn { year, week, shift: places[i].0 as u8 },
            by,
            now,
        )
}

/// Whether the marks are the given ones and one excuse for each slot of a week that was open and
/// that skipping concerns, in the order of shifts and slots.
pub open spec fn excuses_of(
    pre: Seq<Completion>,
    post: Seq<Completion>,
    group: CleaningGroup,
    year: i32,
    week: u32,
    shift: Option<u8>,
    slot_id: Option<String>,
    by: Seq<char>,
    now: Timestamp,
) -> bool {
    excuses_places(
        pre,
        post,
        group,
        year,
        week,
        open_places(
            pre,
            group,
            year,
            week,
            shift,
            slot_id,
            group.rhythm.week_shifts().len() as int,
            0,
        ),
        by,
        now,
    )
}

/// The request with this id.
pub open spec fn swap_with_id(id: u64) -> spec_fn(SwapRequest) -> bool {
    |s: SwapRequest| s.id == id
}

/// An id that no request has yet: one more than the largest.
pub open spec fn next_swap_id(s: Seq<SwapRequest>) -> int
    decreases s.len(),
{
    if s.len() == 0 {
        1
    } else {
        let r = next_swap_id(s.drop_last());
        if s.last().id + 1 > r {
            s.last().id + 1
        } else {
            r
        }
    }
}

/// The group that an event is about, when it has to exist.
pub open spec fn group_needed(e: DomainEvent) -> Option<Seq<char>> {
    match e {
        DomainEvent::GroupDisabled { group_id } => Some(group_id@),
        DomainEvent::GroupEnabled { group_id } => Some(group_id@),
        DomainEvent::SlotAdded { group_id, slot_id, slot_name } => Some(group_id@),
        DomainEvent::SlotRemoved { group_id, slot_id } => Some(group_id@),
        DomainEvent::RoomAdded { group_id, slot_id, room_name } => Some(group_id@),
        DomainEvent::RoomRemoved { group_id, slot_id, room_name } => Some(group_id@),
        DomainEvent::PersonJoinedGroup { person_id, group_id } => Some(group_id@),
        DomainEvent::PersonLeftGroup { person_id, group_id } => Some(group_id@),
        DomainEvent::RotationQueueSet { group_id, queue } => Some(group_id@),
        DomainEvent::RhythmSet { group_id, rhythm } => Some(group_id@),
        DomainEvent::GroupWeightSet { group_id, weight } => Some(group_id@),
        DomainEvent::RoomWeightSet { group_id, slot_id, room_name, weight } => Some(group_id@),
        DomainEvent::CleaningSkipped { group_id, skipper_id, iso_year, iso_week, shift, slot_id } => Some(
            group_id@,
        ),
        _ => None,
    }
}

/// Why an event cannot be applied, when it cannot: it is about a group, a person or a request
/// that is not there.
pub open spec fn refusal(state: State, e: DomainEvent) -> Option<StateError> {
    match group_needed(e) {
        Some(id) => if state.group(id) is Some {
            None
        } else {
            Some(StateError::UnknownGroup)
        },
        None => match e {
            DomainEvent::PersonMatrixLinked { person_id, matrix_id } => if state.person(
                person_id@,
            ) is Some {
                None
            } else {
                Some(StateError::UnknownPerson)
            },
            DomainEvent::SwapApproved {
                swap_id,
                group_id,
                requester_id,
                replacement_id,
                iso_year,
                iso_week,
                shift,
            } => if some(state.swap_requests@, swap_with_id(swap_id)) {
                None
            } else {
                Some(StateError::UnknownSwap)
            },
            DomainEvent::SwapRejected { swap_id } => if some(
                state.swap_requests@,
                swap_with_id(swap_id),
            ) {
                None
            } else {
                Some(StateError::UnknownSwap)
            },
            _ => None,
        },
    }
}

/// Rooms with one more, unless it is there already.
pub open spec fn with_room(rooms: Seq<String>, name: String) -> Seq<String> {
    if says(rooms, name@) {
        rooms
    } else {
        rooms.push(name)
    }
}

/// Room factors with that of one room set.
pub open spec fn with_weight(weights: Seq<RoomWeight>, name: String, weight: Weight) -> Seq<RoomWeight> {
    weights.filter(weight_of_other_room(name@)).push(RoomWeight { room_name: name, weight })
}

/// A slot with other rooms and room factors.
pub open spec fn slot_with_rooms(s: CleaningSlot, like: CleaningSlot) -> CleaningSlot {
    CleaningSlot { room_names: like.room_names, room_weights: like.room_weights, ..s }
}

/// Whether the rooms and room factors of a group, or of one of its slots, have become the given
/// ones, and nothing else has changed; nothing at all where there is no such slot.
pub open spec fn rooms_become(
    pre: State,
    post: State,
    group_id: Seq<char>,
    slot_id: Option<String>,
    rooms: spec_fn(Seq<String>) -> Seq<String>,
    weights: spec_fn(Seq<RoomWeight>) -> Seq<RoomWeight>,
) -> bool {
    let g = former(pre, group_id);
    let h = changed(pre, post, group_id);
    match slot_id {
        None => {
            &&& group_becomes(
                pre,
                post,
                group_id,
                CleaningGroup { room_names: h.room_names, room_weights: h.room_weights, ..g },
            )
            &&& h.room_names@ == rooms(g.room_names@)
            &&& h.room_weights@ == weights(g.room_weights@)
        },
        Some(id) => {
            let k = first_index(g.slots@, slot_with_id(id@));
            if k < g.slots@.len() {
                &&& group_becomes(pre, post, group_id, CleaningGroup { slots: h.slots, ..g })
                &&& h.slots@ == g.slots@.update(k, slot_with_rooms(g.slots@[k], h.slots@[k]))
                &&& h.slots@[k].room_names@ == rooms(g.slots@[k].room_names@)
                &&& h.slots@[k].room_weights@ == weights(g.slots@[k].room_weights@)
            } else {
                post == noted(pre, post)
            }
        },
    }
}

/// What an event does to a state besides being logged.
pub open spec fn effect(pre: State, post: State, e: DomainEvent, now: Timestamp) -> bool {
    match e {
        DomainEvent::GroupCreated { group_id, name } => if pre.group(group_id@) is Some {
            post == noted(pre, post)
        } else {
            &&& only_groups(pre, post)
            &&& post.cleaning_groups@.len() == pre.cleaning_groups@.len() + 1
            &&& post.cleaning_groups@.drop_last() == pre.cleaning_groups@
            &&& is_new_group(post.cleaning_groups@.last(), group_id, name)
        },
        DomainEvent::GroupDeleted { group_id } => group_gone(pre, post, group_id@),
        DomainEvent::GroupDisabled { group_id } => group_becomes(
            pre,
            post,
            group_id@,
            CleaningGroup { is_active: false, ..former(pre, group_id@) },
        ),
        DomainEvent::GroupEnabled { group_id } => group_becomes(
            pre,
            post,
            group_id@,
            CleaningGroup { is_active: true, ..former(pre, group_id@) },
        ),
        DomainEvent::SlotAdded { group_id, slot_id, slot_name } => {
            let g = former(pre, group_id@);
            let h = changed(pre, post, group_id@);
            &&& group_becomes(pre, post, group_id@, CleaningGroup { slots: h.slots, ..g })
            &&& h.slots@.len() == g.slots@.len() + 1
            &&& h.slots@.drop_last() == g.slots@
            &&& is_new_slot(h.slots@.last(), slot_id, slot_name)
        },
        DomainEvent::SlotRemoved { group_id, slot_id } => {
            let g = former(pre, group_id@);
            let h = changed(pre, post, group_id@);
            let k = first_index(g.slots@, slot_with_id(slot_id@));
            if k < g.slots@.len() {
                &&& post == (State {
                    cleaning_groups: post.cleaning_groups,
                    slot_assignments: post.slot_assignments,
                    ..noted(pre, post)
                })
                &&& post.cleaning_groups@ == pre.cleaning_groups@.update(
                    place_of(pre, group_id@),
                    CleaningGroup { slots: h.slots, ..g },
                )
                &&& h.slots@ == g.slots@.remove(k)
                &&& post.slot_assignments@ == pre.slot_assignments@.filter(
                    not_of_slot(group_id@, k),
                ).map_values(repointed(group_id@, k))
            } else {
                post == noted(pre, post)
            }
        },
        DomainEvent::SlotAssigned {
            group_id,
            slot_index,
            iso_year,
            iso_week,
            shift,
            person_id,
            source,
            actor_id,
            previous_person_id,
        } => {
            let a = SlotAssignment {
                group_id,
                slot_index,
                iso_year,
                iso_week,
                shift,
                person_id,
                source,
            };
            let turn = Turn { year: iso_year, week: iso_week, shift };
            &&& only_assignments(pre, post)
            &&& post.slot_assignments@ == pre.slot_assignments@.filter(
                assignment_beside(group_id@, slot_index as int, turn),
            ).push(a)
        },
        DomainEvent::RoomAdded { group_id, slot_id, room_name } => rooms_become(
            pre,
            post,
            group_id@,
            slot_id,
            |r: Seq<String>| with_room(r, room_name),
            |w: Seq<RoomWeight>| w,
        ),
        DomainEvent::RoomRemoved { group_id, slot_id, room_name } => rooms_become(
            pre,
            post,
            group_id@,
            slot_id,
            |r: Seq<String>| r.filter(other_room(room_name@)),
            |w: Seq<RoomWeight>| w.filter(weight_of_other_room(room_name@)),
        ),
        DomainEvent::PersonCreated { person_id, display_name, matrix_id } => if pre.person(
            person_id@,
        ) is Some || (matrix_id is Some && pre.person_of(matrix_id->0@) is Some) {
            post == noted(pre, post)
        } else {
            only_persons(pre, post) && post.persons@ == pre.persons@.push(
                Person { id: person_id, display_name, active: true, matrix_id },
            )
        },
        DomainEvent::PersonJoinedGroup { person_id, group_id } => {
            let g = former(pre, group_id@);
            let h = changed(pre, post, group_id@);
            &&& group_becomes(
                pre,
                post,
                group_id@,
                CleaningGroup { member_ids: h.member_ids, ..g },
            )
            &&& h.member_ids@ == if says(g.member_ids@, person_id@) {
                g.member_ids@
            } else {
                g.member_ids@.push(person_id)
            }
        },
        DomainEvent::PersonLeftGroup { person_id, group_id } => {
            let g = former(pre, group_id@);
            let h = changed(pre, post, group_id@);
            &&& group_becomes(
                pre,
                post,
                group_id@,
                CleaningGroup { member_ids: h.member_ids, ..g },
            )
            &&& h.member_ids@ == g.member_ids@.filter(other_id(person_id@))
        },
        DomainEvent::RotationQueueSet { group_id, queue } => {
            let g = former(pre, group_id@);
            let h = changed(pre, post, group_id@);
            &&& group_becomes(
                pre,
                post,
                group_id@,
                CleaningGroup { rotation_queue: h.rotation_queue, ..g },
            )
            &&& h.rotation_queue@ == queue@
        },
        DomainEvent::PersonMatrixLinked { person_id, matrix_id } => {
            let i = first_index(pre.persons@, person_with_id(person_id@));
            only_persons(pre, post) && post.persons@ == pre.persons@.update(
                i,
                Person { matrix_id: Some(matrix_id), ..pre.persons@[i] },
            )
        },
        DomainEvent::RhythmSet { group_id, rhythm } => {
            let h = changed(pre, post, group_id@);
            &&& group_becomes(
                pre,
                post,
                group_id@,
                CleaningGroup { rhythm: h.rhythm, ..former(pre, group_id@) },
            )
            &&& h.rhythm.same_as(rhythm)
        },
        DomainEvent::GroupWeightSet { group_id, weight } => group_becomes(
            pre,
            post,
            group_id@,
            CleaningGroup { weight, ..former(pre, group_id@) },
        ),
        DomainEvent::RoomWeightSet { group_id, slot_id, room_name, weight } => rooms_become(
            pre,
            post,
            group_id@,
            slot_id,
            |r: Seq<String>| r,
            |w: Seq<RoomWeight>| with_weight(w, room_name, weight),
        ),
        DomainEvent::CleaningCompleted {
            group_id,
            slot_id,
            person_id,
            responsible_person_ids,
            iso_year,
            iso_week,
            shift,
        } => {
            let turn = Turn { year: iso_year, week: iso_week, shift };
            if some(pre.completions@, mark_of(group_id@, slot_id, turn)) {
                post == noted(pre, post)
            } else {
                let c = post.completions@.last();
                &&& only_completions(pre, post)
                &&& post.completions@.len() == pre.completions@.len() + 1
                &&& post.completions@.drop_last() == pre.completions@
                &&& c.responsible_person_ids@ == responsible_person_ids@
                &&& c == (Completion {
                    group_id,
                    slot_id,
                    completed_by_id: person_id,
                    responsible_person_ids: c.responsible_person_ids,
                    iso_year,
                    iso_week,
                    shift,
                    completed_at: now,
                    skipped: false,
                })
            }
        },
        DomainEvent::CleaningSkipped { group_id, skipper_id, iso_year, iso_week, shift, slot_id } => {
            &&& only_completions(pre, post)
            &&& excuses_of(
                pre.completions@,
                post.completions@,
                former(pre, group_id@),
                iso_year,
                iso_week,
                shift,
                slot_id,
                skipper_id@,
                now,
            )
        },
        DomainEvent::CleaningUndone { group_id, iso_year, iso_week, shift, slot_id } => {
            &&& only_completions(pre, post)
            &&& post.completions@ == pre.completions@.filter(
                not_undone(group_id@, iso_year, iso_week, shift, slot_id),
            )
        },
        DomainEvent::SwapRequested {
            group_id,
            requester_mxid,
            target_mxid,
            iso_year,
            iso_week,
            shift,
            slot_index,
        } => {
            &&& only_swaps(pre, post)
            &&& post.swap_requests@ == pre.swap_requests@.push(
                SwapRequest {
                    id: next_swap_id(pre.swap_requests@) as u64,
                    requester: requester_mxid,
                    target: target_mxid,
                    group_id,
                    iso_year,
                    iso_week,
                    shift,
                    slot_index,
                    status: SwapStatus::Pending,
                    created_at: now,
                },
            )
        },
        DomainEvent::SwapApproved {
            swap_id,
            group_id,
            requester_id,
            replacement_id,
            iso_year,
            iso_week,
            shift,
        } => {
            let i = first_index(pre.swap_requests@, swap_with_id(swap_id));
            only_swaps(pre, post) && post.swap_requests@ == pre.swap_requests@.update(
                i,
                SwapRequest { status: SwapStatus::Accepted, ..pre.swap_requests@[i] },
            )
        },
        DomainEvent::SwapRejected { swap_id } => {
            let i = first_index(pre.swap_requests@, swap_with_id(swap_id));
            only_swaps(pre, post) && post.swap_requests@ == pre.swap_requests@.update(
                i,
                SwapRequest { status: SwapStatus::Rejected, ..pre.swap_requests@[i] },
            )
        },
        DomainEvent::AbsenceRecorded { person_id, group_id, from_year, from_week, duration_weeks } => {
            &&& only_absences(pre, post)
            &&& post.absences@ == pre.absences@.push(
                Absence { person_id, group_id, from_year, from_week, duration_weeks },
            )
        },
        DomainEvent::AbsenceCancelled { person_id } => {
            &&& only_absences(pre, post)
            &&& post.absences@ == pre.absences@.filter(absence_of_others(person_id@))
        },
    }
}

// ── Carrying out ─────────────────────────────────────────────────────────────

impl State {
    /// Takes a group and all that refers to it out.
    fn delete_group(&mut self, id: &str)
        ensures
            group_gone(*old(self), *final(self), id@),
            final(self).event_log == old(self).event_log,
            final(self).last_modified == old(self).last_modified,
    {
        let keep = |g: &CleaningGroup| -> (r: bool)
            ensures
                r == other_group(id@)(*g),
        { !same_text(g.id.as_str(), id) };
        retain(&mut self.cleaning_groups, keep, Ghost(other_group(id@)));
        let keep = |a: &SlotAssignment| -> (r: bool)
            ensures
                r == assignment_elsewhere(id@)(*a),
        { !same_text(a.group_id.as_str(), id) };
        retain(&mut self.slot_assignments, keep, Ghost(assignment_elsewhere(id@)));
        let keep = |c: &Completion| -> (r: bool)
            ensures
                r == completion_elsewhere(id@)(*c),
        { !same_text(c.group_id.as_str(), id) };
        retain(&mut self.completions, keep, Ghost(completion_elsewhere(id@)));
        let keep = |s: &SwapRequest| -> (r: bool)
            ensures
                r == swap_elsewhere(id@)(*s),
        { !same_text(s.group_id.as_str(), id) };
        retain(&mut self.swap_requests, keep, Ghost(swap_elsewhere(id@)));
        let keep = |a: &Absence| -> (r: bool)
            ensures
                r == absence_elsewhere(id@)(*a),
        { !same_text(a.group_id.as_str(), id) };
        retain(&mut self.absences, keep, Ghost(absence_elsewhere(id@)));
        let keep = |s: &SentReminder| -> (r: bool)
            ensures
                r == reminder_elsewhere(id@)(*s),
        { !same_text(s.group_id.as_str(), id) };
        retain(&mut self.sent_reminders, keep, Ghost(reminder_elsewhere(id@)));
        let keep = |d: &ReactionDone| -> (r: bool)
            ensures
                r == reaction_elsewhere(id@)(*d),
        { !same_text(d.group_id.as_str(), id) };
        retain(&mut self.reaction_dones, keep, Ghost(reaction_elsewhere(id@)));
    }

    /// Adds a slot to the group at a place.
    fn add_slot(&mut self, i: usize, slot_id: &String, slot_name: &String)
        requires
            i < old(self).cleaning_groups@.len(),
        ensures
            ({
                let g = old(self).cleaning_groups@[i as int];
                let h = final(self).cleaning_groups@[i as int];
                &&& *final(self) == (State {
                    cleaning_groups: final(self).cleaning_groups,
                    ..*old(self)
                })
                &&& final(self).cleaning_groups@ == old(self).cleaning_groups@.update(
                    i as int,
                    CleaningGroup { slots: h.slots, ..g },
                )
                &&& h.slots@.len() == g.slots@.len() + 1
                &&& h.slots@.drop_last() == g.slots@
                &&& is_new_slot(h.slots@.last(), *slot_id, *slot_name)
            }),
    {
        let slot = CleaningSlot {
            id: slot_id.clone(),
            name: slot_name.clone(),
            room_names: Vec::new(),
            room_weights: Vec::new(),
            weight: default_weight(),
        };
        self.cleaning_groups[i].slots.push(slot);
        assert(self.cleaning_groups@[i as int].slots@.drop_last() =~= old(
            self,
        ).cleaning_groups@[i as int].slots@);
    }

    /// Sets the room factor of a slot's room.
    fn set_slot_weight(&mut self, i: usize, k: usize, room: &String, weight: Weight)
        requires
            i < old(self).cleaning_groups@.len(),
            k < old(self).cleaning_groups@[i as int].slots@.len(),
        ensures
            ({
                let g = old(self).cleaning_groups@[i as int];
                let h = final(self).cleaning_groups@[i as int];
                &&& *final(self) == (State {
                    cleaning_groups: final(self).cleaning_groups,
                    ..*old(self)
                })
                &&& final(self).cleaning_groups@ == old(self).cleaning_groups@.update(
                    i as int,
                    CleaningGroup { slots: h.slots, ..g },
                )
                &&& h.slots@ == g.slots@.update(
                    k as int,
                    slot_with_rooms(g.slots@[k as int], h.slots@[k as int]),
                )
                &&& h.slots@[k as int].room_names@ == g.slots@[k as int].room_names@
                &&& h.slots@[k as int].room_weights@ == with_weight(
                    g.slots@[k as int].room_weights@,
                    *room,
                    weight,
                )
            }),
    {
        let keep = |w: &RoomWeight| -> (r: bool)
            ensures
                r == weight_of_other_room(room@)(*w),
        { !same_text(w.room_name.as_str(), room.as_str()) };
        retain(&mut self.cleaning_groups[i].slots[k].room_weights, keep, Ghost(weight_of_other_room(room@)));
        self.cleaning_groups[i].slots[k].room_weights.push(
            RoomWeight { room_name: room.clone(), weight },
        );
    }

    /// Sets the room factor of a group's room.
    fn set_group_weight(&mut self, i: usize, room: &String, weight: Weight)
        requires
            i < old(self).cleaning_groups@.len(),
        ensures
            ({
                let g = old(self).cleaning_groups@[i as int];
                let h = final(self).cleaning_groups@[i as int];
                &&& *final(self) == (State {
                    cleaning_groups: final(self).cleaning_groups,
                    ..*old(self)
                })
                &&& final(self).cleaning_groups@ == old(self).cleaning_groups@.update(
                    i as int,
                    CleaningGroup { room_weights: h.room_weights, ..g },
                )
                &&& h.room_weights@ == with_weight(g.room_weights@, *room, weight)
            }),
    {
        let keep = |w: &RoomWeight| -> (r: bool)
            ensures
                r == weight_of_other_room(room@)(*w),
        { !same_text(w.room_name.as_str(), room.as_str()) };
        retain(
            &mut self.cleaning_groups[i].room_weights,
            keep,
            Ghost(weight_of_other_room(room@)),
        );
        self.cleaning_groups[i].room_weights.push(RoomWeight { room_name: room.clone(), weight });
    }

    /// Adds a room to a slot, unless it is there.
    fn add_slot_room(&mut self, i: usize, k: usize, room: &String)
        requires
            i < old(self).cleaning_groups@.len(),
            k < old(self).cleaning_groups@[i as int].slots@.len(),
        ensures
            ({
                let g = old(self).cleaning_groups@[i as int];
                let h = final(self).cleaning_groups@[i as int];
                &&& *final(self) == (State {
                    cleaning_groups: final(self).cleaning_groups,
                    ..*old(self)
                })
                &&& final(self).cleaning_groups@ == old(self).cleaning_groups@.update(
                    i as int,
                    CleaningGroup { slots: h.slots, ..g },
                )
                &&& h.slots@ == g.slots@.update(
                    k as int,
                    slot_with_rooms(g.slots@[k as int], h.slots@[k as int]),
                )
                &&& h.slots@[k as int].room_names@ == with_room(
                    g.slots@[k as int].room_names@,
                    *room,
                )
                &&& h.slots@[k as int].room_weights@ == g.slots@[k as int].room_weights@
            }),
    {
        if !contains_text(&self.cleaning_groups[i].slots[k].room_names, room.as_str()) {
            self.cleaning_groups[i].slots[k].room_names.push(room.clone());
        } else {
            assert(self.cleaning_groups@ =~= old(self).cleaning_groups@.update(
                i as int,
                self.cleaning_groups@[i as int],
            ));
            assert(self.cleaning_groups@[i as int].slots@ =~= self.cleaning_groups@[i as int].slots@.update(
                k as int,
                self.cleaning_groups@[i as int].slots@[k as int],
            ));
        }
    }

    /// Adds a room to a group, unless it is there.
    fn add_group_room(&mut self, i: usize, room: &String)
        requires
            i < old(self).cleaning_groups@.len(),
        ensures
            ({
                let g = old(self).cleaning_groups@[i as int];
                let h = final(self).cleaning_groups@[i as int];
                &&& *final(self) == (State {
                    cleaning_groups: final(self).cleaning_groups,
                    ..*old(self)
                })
                &&& final(self).cleaning_groups@ == old(self).cleaning_groups@.update(
                    i as int,
                    CleaningGroup { room_names: h.room_names, ..g },
                )
                &&& h.room_names@ == with_room(g.room_names@, *room)
            }),
    {
        if !contains_text(&self.cleaning_groups[i].room_names, room.as_str()) {
            self.cleaning_groups[i].room_names.push(room.clone());
        } else {
            assert(self.cleaning_groups@ =~= old(self).cleaning_groups@.update(
                i as int,
                self.cleaning_groups@[i as int],
            ));
        }
    }

    /// Takes a room out of a slot, with its factor.
    fn remove_slot_room(&mut self, i: usize, k: usize, room: &String)
        requires
            i < old(self).cleaning_groups@.len(),
            k < old(self).cleaning_groups@[i as int].slots@.len(),
        ensures
            ({
                let g = old(self).cleaning_groups@[i as int];
                let h = final(self).cleaning_groups@[i as int];
                &&& *final(self) == (State {
                    cleaning_groups: final(self).cleaning_groups,
                    ..*old(self)
                })
                &&& final(self).cleaning_groups@ == old(self).cleaning_groups@.update(
                    i as int,
                    CleaningGroup { slots: h.slots, ..g },
                )
                &&& h.slots@ == g.slots@.update(
                    k as int,
                    slot_with_rooms(g.slots@[k as int], h.slots@[k as int]),
                )
                &&& h.slots@[k as int].room_names@ == g.slots@[k as int].room_names@.filter(
                    other_room(room@),
                )
                &&& h.slots@[k as int].room_weights@ == g.slots@[k as int].room_weights@.filter(
                    weight_of_other_room(room@),
                )
            }),
    {
        let keep = |r: &String| -> (b: bool)
            ensures
                b == other_room(room@)(*r),
        { !same_text(r.as_str(), room.as_str()) };
        retain(
            &mut self.cleaning_groups[i].slots[k].room_names,
            keep,
            Ghost(other_room(room@)),
        );
        let keep = |w: &RoomWeight| -> (r: bool)
            ensures
                r == weight_of_other_room(room@)(*w),
        { !same_text(w.room_name.as_str(), room.as_str()) };
        retain(
            &mut self.cleaning_groups[i].slots[k].room_weights,
            keep,
            Ghost(weight_of_other_room(room@)),
        );
    }

    /// Takes a room out of a group, with its factor.
    fn remove_group_room(&mut self, i: usize, room: &String)
        requires
            i < old(self).cleaning_groups@.len(),
        ensures
            ({
                let g = old(self).cleaning_groups@[i as int];
                let h = final(self).cleaning_groups@[i as int];
                &&& *final(self) == (State {
                    cleaning_groups: final(self).cleaning_groups,
                    ..*old(self)
                })
                &&& final(self).cleaning_groups@ == old(self).cleaning_groups@.update(
                    i as int,
                    CleaningGroup { room_names: h.room_names, room_weights: h.room_weights, ..g },
                )
                &&& h.room_names@ == g.room_names@.filter(other_room(room@))
                &&& h.room_weights@ == g.room_weights@.filter(weight_of_other_room(room@))
            }),
    {
        let keep = |r: &String| -> (b: bool)
            ensures
                b == other_room(room@)(*r),
        { !same_text(r.as_str(), room.as_str()) };
        retain(&mut self.cleaning_groups[i].room_names, keep, Ghost(other_room(room@)));
        let keep = |w: &RoomWeight| -> (r: bool)
            ensures
                r == weight_of_other_room(room@)(*w),
        { !same_text(w.room_name.as_str(), room.as_str()) };
        retain(
            &mut self.cleaning_groups[i].room_weights,
            keep,
            Ghost(weight_of_other_room(room@)),
        );
    }

    /// Takes a slot out of a group; the assignments of later slots keep naming the same slot.
    fn remove_slot(&mut self, i: usize, k: usize)
        requires
            i < old(self).cleaning_groups@.len(),
            k < old(self).cleaning_groups@[i as int].slots@.len(),
        ensures
            ({
                let g = old(self).cleaning_groups@[i as int];
                let h = final(self).cleaning_groups@[i as int];
                &&& *final(self) == (State {
                    cleaning_groups: final(self).cleaning_groups,
                    slot_assignments: final(self).slot_assignments,
                    ..*old(self)
                })
                &&& final(self).cleaning_groups@ == old(self).cleaning_groups@.update(
                    i as int,
                    CleaningGroup { slots: h.slots, ..g },
                )
                &&& h.slots@ == g.slots@.remove(k as int)
                &&& final(self).slot_assignments@ == old(self).slot_assignments@.filter(
                    not_of_slot(g.id@, k as int),
                ).map_values(repointed(g.id@, k as int))
            }),
    {
        let id = self.cleaning_groups[i].id.clone();
        self.cleaning_groups[i].slots.remove(k);
        let keep = |a: &SlotAssignment| -> (r: bool)
            ensures
                r == not_of_slot(id@, k as int)(*a),
        { !(a.slot_index == k && same_text(a.group_id.as_str(), id.as_str())) };
        retain(&mut self.slot_assignments, keep, Ghost(not_of_slot(id@, k as int)));
        let ghost kept = self.slot_assignments@;
        let ghost f = repointed(id@, k as int);
        let ghost mid = *self;
        let mut j: usize = 0;
        while j < self.slot_assignments.len()
            invariant
                j <= self.slot_assignments@.len(),
                self.slot_assignments@.len() == kept.len(),
                f == repointed(id@, k as int),
                *self == (State { slot_assignments: self.slot_assignments, ..mid }),
                forall|n: int| 0 <= n < j ==> #[trigger] self.slot_assignments@[n] == f(kept[n]),
                forall|n: int|
                    j <= n < kept.len() ==> #[trigger] self.slot_assignments@[n] == kept[n],
            decreases self.slot_assignments@.len() - j,
        {
            if self.slot_assignments[j].slot_index > k && same_text(
                self.slot_assignments[j].group_id.as_str(),
                id.as_str(),
            ) {
                let less: usize = self.slot_assignments[j].slot_index - 1;
                self.slot_assignments[j].slot_index = less;
            }
            j += 1;
        }
        assert(self.slot_assignments@ =~= kept.map_values(f));
    }

    /// Freezes who is responsible for one slot of one turn.
    fn assign(&mut self, a: SlotAssignment)
        ensures
            *final(self) == (State {
                slot_assignments: final(self).slot_assignments,
                ..*old(self)
            }),
            final(self).slot_assignments@ == old(self).slot_assignments@.filter(
                assignment_beside(
                    a.group_id@,
                    a.slot_index as int,
                    Turn { year: a.iso_year, week: a.iso_week, shift: a.shift },
                ),
            ).push(a),
    {
        let ghost turn = Turn { year: a.iso_year, week: a.iso_week, shift: a.shift };
        let ghost p = assignment_beside(a.group_id@, a.slot_index as int, turn);
        let keep = |x: &SlotAssignment| -> (k: bool)
            ensures
                k == p(*x),
            {
                x.slot_index != a.slot_index || x.iso_year != a.iso_year || x.iso_week != a.iso_week
                    || x.shift != a.shift || !same_text(x.group_id.as_str(), a.group_id.as_str())
            };
        retain(&mut self.slot_assignments, keep, Ghost(p));
        self.slot_assignments.push(a);
    }

    /// Whether a slot of a turn has a mark.
    fn has_mark(&self, group_id: &str, slot_id: &Option<String>, turn: Turn) -> (r: bool)
        ensures
            r == some(self.completions@, mark_of(group_id@, *slot_id, turn)),
    {
        let ghost p = mark_of(group_id@, *slot_id, turn);
        let mut i: usize = 0;
        while i < self.completions.len()
            invariant
                i <= self.completions.len(),
                p == mark_of(group_id@, *slot_id, turn),
                forall|k: int| 0 <= k < i ==> !p(#[trigger] self.completions@[k]),
            decreases self.completions.len() - i,
        {
            let c = &self.completions[i];
            if c.iso_year == turn.year && c.iso_week == turn.week && c.shift == turn.shift
                && is_same_option(&c.slot_id, slot_id) && same_text(c.group_id.as_str(), group_id) {
                proof {
                    lemma_first_index(self.completions@, p, i as int);
                }
                return true;
            }
            i += 1;
        }
        proof {
            lemma_first_index(self.completions@, p, i as int);
        }
        false
    }

    /// Takes marks of a week back.
    fn undo_marks(
        &mut self,
        group_id: &str,
        year: i32,
        week: u32,
        shift: Option<u8>,
        slot_id: &Option<String>,
    )
        ensures
            *final(self) == (State { completions: final(self).completions, ..*old(self) }),
            final(self).completions@ == old(self).completions@.filter(
                not_undone(group_id@, year, week, shift, *slot_id),
            ),
    {
        let keep = |c: &Completion| -> (r: bool)
            ensures
                r == not_undone(group_id@, year, week, shift, *slot_id)(*c),
        {
            let shift_fits = match shift {
                Some(s) => c.shift == s,
                None => true,
            };
            let slot_fits = slot_id.is_none() || is_same_option(&c.slot_id, slot_id);
            !(c.iso_year == year && c.iso_week == week && shift_fits && slot_fits && same_text(
                c.group_id.as_str(),
                group_id,
            ))
        };
        retain(
            &mut self.completions,
            keep,
            Ghost(not_undone(group_id@, year, week, shift, *slot_id)),
        );
    }

    /// The place of a request to swap.
    pub fn swap_position(&self, id: u64) -> (r: Option<usize>)
        ensures
            (r is Some) == some(self.swap_requests@, swap_with_id(id)),
            r is Some ==> r->0 == first_index(self.swap_requests@, swap_with_id(id)) && r->0
                < self.swap_requests@.len() && self.swap_requests@[r->0 as int].id == id,
    {
        let mut i: usize = 0;
        while i < self.swap_requests.len()
            invariant
                i <= self.swap_requests.len(),
                forall|k: int| 0 <= k < i ==> !swap_with_id(id)(#[trigger] self.swap_requests@[k]),
            decreases self.swap_requests.len() - i,
        {
            if self.swap_requests[i].id == id {
                proof {
                    lemma_first_index(self.swap_requests@, swap_with_id(id), i as int);
                }
                return Some(i);
            }
            i += 1;
        }
        proof {
            lemma_first_index(self.swap_requests@, swap_with_id(id), i as int);
        }
        None
    }

    /// An id that no request has yet.
    pub fn fresh_swap_id(&self) -> (r: u64)
        requires
            next_swap_id(self.swap_requests@) <= u64::MAX,
        ensures
            r == next_swap_id(self.swap_requests@),
    {
        let mut r: u64 = 1;
        let mut i: usize = 0;
        assert(self.swap_requests@.take(0) =~= Seq::<SwapRequest>::empty());
        while i < self.swap_requests.len()
            invariant
                i <= self.swap_requests.len(),
                next_swap_id(self.swap_requests@) <= u64::MAX,
                r == next_swap_id(self.swap_requests@.take(i as int)),
            decreases self.swap_requests.len() - i,
        {
            proof {
                let more = self.swap_requests@.take(i + 1);
                assert(more.drop_last() =~= self.swap_requests@.take(i as int));
                assert(more.last() == self.swap_requests@[i as int]);
                lemma_next_swap_id(self.swap_requests@, i + 1);
            }
            if self.swap_requests[i].id >= r {
                r = self.swap_requests[i].id + 1;
            }
            i += 1;
        }
        assert(self.swap_requests@.take(i as int) =~= self.swap_requests@);
        r
    }

    /// Excuses the open slots of a week.
    fn excuse_open(
        &mut self,
        i: usize,
        skipper: &String,
        year: i32,
        week: u32,
        shift: Option<u8>,
        slot_id: &Option<String>,
        now: Timestamp,
    )
        requires
            i < old(self).cleaning_groups@.len(),
        ensures
            *final(self) == (State { completions: final(self).completions, ..*old(self) }),
            excuses_of(
                old(self).completions@,
                final(self).completions@,
                old(self).cleaning_groups@[i as int],
                year,
                week,
                shift,
                *slot_id,
                skipper@,
                now,
            ),
    {
        let ghost group = self.cleaning_groups@[i as int];
        let ghost pre = self.completions@;
        let shifts = self.cleaning_groups[i].rhythm.shift_count();
        let slots = self.cleaning_groups[i].people_per_turn();
        let mut s: usize = 0;
        assert(pre.take(pre.len() as int) =~= pre);
        while s < shifts
            invariant
                s <= shifts <= 7,
                shifts == group.rhythm.week_shifts().len(),
                slots == group.slot_count(),
                *self == (State { completions: self.completions, ..*old(self) }),
                i < old(self).cleaning_groups@.len(),
                group == old(self).cleaning_groups@[i as int],
                pre == old(self).completions@,
                excuses_places(
                    pre,
                    self.completions@,
                    group,
                    year,
                    week,
                    open_places(pre, group, year, week, shift, *slot_id, s as int, 0),
                    skipper@,
                    now,
                ),
            decreases shifts - s,
        {
            let turn = Turn { year, week, shift: s as u8 };
            let mut k: usize = 0;
            while k < slots
                invariant
                    s < shifts <= 7,
                    shifts == group.rhythm.week_shifts().len(),
                    slots == group.slot_count(),
                    k <= slots,
                    turn == (Turn { year, week, shift: s as u8 }),
                    *self == (State { completions: self.completions, ..*old(self) }),
                    i < old(self).cleaning_groups@.len(),
                    group == old(self).cleaning_groups@[i as int],
                    pre == old(self).completions@,
                    excuses_places(
                        pre,
                        self.completions@,
                        group,
                        year,
                        week,
                        open_places(pre, group, year, week, shift, *slot_id, s as int, k as int),
                        skipper@,
                        now,
                    ),
                decreases slots - k,
            {
                let shift_fits = match shift {
                    Some(n) => n as usize == s,
                    None => true,
                };
                let slot_fits = match slot_id {
                    Some(id) => k < self.cleaning_groups[i].slots.len() && same_text(
                        self.cleaning_groups[i].slots[k].id.as_str(),
                        id.as_str(),
                    ),
                    None => true,
                };
                assert((shift_fits && slot_fits) == skips(
                    group,
                    shift,
                    *slot_id,
                    s as int,
                    k as int,
                ));
                let open = !self.is_turn_slot_done(&self.cleaning_groups[i], k, turn);
                let ghost before = self.completions@;
                let ghost places = open_places(
                    pre,
                    group,
                    year,
                    week,
                    shift,
                    *slot_id,
                    s as int,
                    k as int,
                );
                proof {
                    lemma_open_places(
                        pre,
                        group,
                        year,
                        week,
                        shift,
                        *slot_id,
                        s as int,
                        k as int,
                    );
                    lemma_still_open(
                        pre,
                        before,
                        group,
                        year,
                        week,
                        places,
                        skipper@,
                        now,
                        s as int,
                        k as int,
                    );
                }
                if shift_fits && slot_fits && open {
                    let slot: Option<String> = if self.cleaning_groups[i].slots.len() == 0 {
                        None
                    } else {
                        Some(self.cleaning_groups[i].slots[k].id.clone())
                    };
                    let group_id = self.cleaning_groups[i].id.clone();
                    self.completions.push(
                        Completion {
                            group_id,
                            slot_id: slot,
                            completed_by_id: skipper.clone(),
                            responsible_person_ids: Vec::new(),
                            iso_year: year,
                            iso_week: week,
                            shift: s as u8,
                            completed_at: now,
                            skipped: true,
                        },
                    );
                    proof {
                        let more = self.completions@.skip(pre.len() as int);
                        assert(more =~= before.skip(pre.len() as int).push(
                            self.completions@.last(),
                        ));
                        assert(self.completions@.take(pre.len() as int) =~= before.take(
                            pre.len() as int,
                        ));
                    }
                }
                k += 1;
            }
            s += 1;
        }
    }
}

/// Whether places are slots of the shifts up to one.
spec fn within_shifts(places: Seq<(int, int)>, group: CleaningGroup, to_shift: int) -> bool {
    forall|i: int|
        0 <= i < places.len() ==> 0 <= (#[trigger] places[i]).0 <= to_shift && 0 <= places[i].1
            < group.slot_count()
}

/// The open places are slots of shifts.
proof fn lemma_open_places(
    pre: Seq<Completion>,
    group: CleaningGroup,
    year: i32,
    week: u32,
    shift: Option<u8>,
    slot_id: Option<String>,
    to_shift: int,
    to_slot: int,
)
    requires
        0 <= to_shift,
        0 <= to_slot <= group.slot_count(),
    ensures
        within_shifts(
            open_places(pre, group, year, week, shift, slot_id, to_shift, to_slot),
            group,
            to_shift,
        ),
    decreases to_shift, to_slot,
{
    if to_slot > 0 {
        lemma_open_places(pre, group, year, week, shift, slot_id, to_shift, to_slot - 1);
        let r = open_places(pre, group, year, week, shift, slot_id, to_shift, to_slot - 1);
        assert(within_shifts(r.push((to_shift, to_slot - 1)), group, to_shift));
    } else if to_shift > 0 {
        lemma_open_places(
            pre,
            group,
            year,
            week,
            shift,
            slot_id,
            to_shift - 1,
            group.slot_count() as int,
        );
    }
}

/// While open slots are being excused, a slot is done if it was before or has been excused.
proof fn lemma_still_open(
    pre: Seq<Completion>,
    post: Seq<Completion>,
    group: CleaningGroup,
    year: i32,
    week: u32,
    places: Seq<(int, int)>,
    by: Seq<char>,
    now: Timestamp,
    s: int,
    k: int,
)
    requires
        excuses_places(pre, post, group, year, week, places, by, now),
        0 <= s < 256,
        0 <= k < group.slot_count(),
        within_shifts(places, group, 255),
    ensures
        some(post, completion_of(group, k, Turn { year, week, shift: s as u8 })) == (some(
            pre,
            completion_of(group, k, Turn { year, week, shift: s as u8 }),
        ) || is_place_of(places, group, s, k)),
{
    let p = completion_of(group, k, Turn { year, week, shift: s as u8 });
    let n = pre.len() as int;
    let more = post.skip(n);
    crate::lists::lemma_some(pre, p);
    crate::lists::lemma_some(post, p);
    if some(post, p) {
        let j = choose|j: int| 0 <= j < post.len() && p(#[trigger] post[j]);
        if j < n {
            assert(post.take(n)[j] == post[j]);
            assert(p(pre[j]));
        } else {
            assert(more[j - n] == post[j]);
            assert(places[j - n].0 == s);
        }
    }
    if some(pre, p) {
        let j = choose|j: int| 0 <= j < pre.len() && p(#[trigger] pre[j]);
        assert(post.take(n)[j] == post[j]);
    }
    if is_place_of(places, group, s, k) {
        let i = choose|i: int|
            0 <= i < places.len() && (#[trigger] places[i]).0 == s && (group.slots@.len() == 0
                || group.slots@[places[i].1].id@ == group.slots@[k].id@);
        assert(more[i] == post[n + i]);
        assert(p(post[n + i]));
    }
}

/// All slots that skipping concerns were done before or are among the open places.
proof fn lemma_no_place_missed(
    pre: Seq<Completion>,
    group: CleaningGroup,
    year: i32,
    week: u32,
    shift: Option<u8>,
    slot_id: Option<String>,
    to_shift: int,
    to_slot: int,
    s: int,
    k: int,
)
    requires
        0 <= s,
        s < to_shift || (s == to_shift && k < to_slot),
        0 <= k < group.slot_count(),
        0 <= to_slot <= group.slot_count(),
        skips(group, shift, slot_id, s, k),
    ensures
        some(pre, completion_of(group, k, Turn { year, week, shift: s as u8 })) || is_place_of(
            open_places(pre, group, year, week, shift, slot_id, to_shift, to_slot),
            group,
            s,
            k,
        ),
    decreases to_shift, to_slot,
{
    let places = open_places(pre, group, year, week, shift, slot_id, to_shift, to_slot);
    if to_slot > 0 {
        let r = open_places(pre, group, year, week, shift, slot_id, to_shift, to_slot - 1);
        if s == to_shift && k == to_slot - 1 {
            if places != r {
                assert(places[r.len() as int] == (s, k));
            }
        } else {
            lemma_no_place_missed(
                pre,
                group,
                year,
                week,
                shift,
                slot_id,
                to_shift,
                to_slot - 1,
                s,
                k,
            );
            if is_place_of(r, group, s, k) {
                let i = choose|i: int|
                    0 <= i < r.len() && (#[trigger] r[i]).0 == s && (group.slots@.len() == 0
                        || group.slots@[r[i].1].id@ == group.slots@[k].id@);
                assert(places[i] == r[i]);
            }
        }
    } else {
        lemma_no_place_missed(
            pre,
            group,
            year,
            week,
            shift,
            slot_id,
            to_shift - 1,
            group.slot_count() as int,
            s,
            k,
        );
    }
}

/// After skipping, all slots that it concerns are done.
pub proof fn lemma_excused(
    pre: Seq<Completion>,
    post: Seq<Completion>,
    group: CleaningGroup,
    year: i32,
    week: u32,
    shift: Option<u8>,
    slot_id: Option<String>,
    by: Seq<char>,
    now: Timestamp,
    s: int,
    k: int,
)
    requires
        excuses_of(pre, post, group, year, week, shift, slot_id, by, now),
        0 <= s < group.rhythm.week_shifts().len(),
        0 <= k < group.slot_count(),
        skips(group, shift, slot_id, s, k),
    ensures
        some(post, completion_of(group, k, Turn { year, week, shift: s as u8 })),
{
    let n = group.rhythm.week_shifts().len() as int;
    let places = open_places(pre, group, year, week, shift, slot_id, n, 0);
    crate::rhythm::lemma_shift_count(group.rhythm);
    lemma_open_places(pre, group, year, week, shift, slot_id, n, 0);
    lemma_no_place_missed(pre, group, year, week, shift, slot_id, n, 0, s, k);
    lemma_still_open(pre, post, group, year, week, places, by, now, s, k);
}

/// The next id only grows with more requests.
pub proof fn lemma_next_swap_id(s: Seq<SwapRequest>, i: int)
    requires
        0 <= i <= s.len(),
    ensures
        next_swap_id(s.take(i)) <= next_swap_id(s),
    decreases s.len(),
{
    if i == s.len() {
        assert(s.take(i) =~= s);
    } else {
        lemma_next_swap_id(s.drop_last(), i);
        assert(s.drop_last().take(i) =~= s.take(i));
    }
}

/// Whether two optional strings say the same.
pub fn is_same_option(a: &Option<String>, b: &Option<String>) -> (r: bool)
    ensures
        r == same_option(*a, *b),
{
    match a {
        Some(x) => match b {
            Some(y) => same_text(x.as_str(), y.as_str()),
            None => false,
        },
        None => b.is_none(),
    }
}

/// What an event does is not affected by logging it.
proof fn lemma_effect_logged(pre: State, mid: State, post: State, e: DomainEvent, now: Timestamp)
    requires
        effect(pre, mid, e, now),
        post == noted(mid, post),
    ensures
        effect(pre, post, e, now),
{
}

impl State {
    /// Why an event cannot be applied, when it cannot.
    pub fn refuse(&self, event: &DomainEvent) -> (r: Option<StateError>)
        ensures
            r == refusal(*self, *event),
    {
        let needed: Option<&String> = match event {
            DomainEvent::GroupDisabled { group_id } => Some(group_id),
            DomainEvent::GroupEnabled { group_id } => Some(group_id),
            DomainEvent::SlotAdded { group_id, .. } => Some(group_id),
            DomainEvent::SlotRemoved { group_id, .. } => Some(group_id),
            DomainEvent::RoomAdded { group_id, .. } => Some(group_id),
            DomainEvent::RoomRemoved { group_id, .. } => Some(group_id),
            DomainEvent::PersonJoinedGroup { group_id, .. } => Some(group_id),
            DomainEvent::PersonLeftGroup { group_id, .. } => Some(group_id),
            DomainEvent::RotationQueueSet { group_id, .. } => Some(group_id),
            DomainEvent::RhythmSet { group_id, .. } => Some(group_id),
            DomainEvent::GroupWeightSet { group_id, .. } => Some(group_id),
            DomainEvent::RoomWeightSet { group_id, .. } => Some(group_id),
            DomainEvent::CleaningSkipped { group_id, .. } => Some(group_id),
            _ => None,
        };
        match needed {
            Some(id) => {
                return if self.group_by_id(id.as_str()).is_some() {
                    None
                } else {
                    Some(StateError::UnknownGroup)
                };
            },
            None => {},
        }
        match event {
            DomainEvent::PersonMatrixLinked { person_id, .. } => if self.person_by_id(
                person_id.as_str(),
            ).is_some() {
                None
            } else {
                Some(StateError::UnknownPerson)
            },
            DomainEvent::SwapApproved { swap_id, .. } => if self.swap_position(*swap_id).is_some() {
                None
            } else {
                Some(StateError::UnknownSwap)
            },
            DomainEvent::SwapRejected { swap_id } => if self.swap_position(*swap_id).is_some() {
                None
            } else {
                Some(StateError::UnknownSwap)
            },
            _ => None,
        }
    }

    /// The place of the person with an id.
    fn person_place(&self, id: &str) -> (r: Option<usize>)
        ensures
            (r is Some) == some(self.persons@, person_with_id(id@)),
            r is Some ==> r->0 == first_index(self.persons@, person_with_id(id@)) && r->0
                < self.persons@.len(),
    {
        let mut i: usize = 0;
        while i < self.persons.len()
            invariant
                i <= self.persons.len(),
                forall|k: int| 0 <= k < i ==> !person_with_id(id@)(#[trigger] self.persons@[k]),
            decreases self.persons.len() - i,
        {
            if same_text(self.persons[i].id.as_str(), id) {
                proof {
                    lemma_first_index(self.persons@, person_with_id(id@), i as int);
                }
                return Some(i);
            }
            i += 1;
        }
        proof {
            lemma_first_index(self.persons@, person_with_id(id@), i as int);
        }
        None
    }

    /// Does what an event about one group that exists says.
    fn change_group(&mut self, event: &DomainEvent, i: usize, now: Timestamp)
        requires
            group_needed(*event) is Some,
            i < old(self).cleaning_groups@.len(),
            i == place_of(*old(self), group_needed(*event)->0),
            old(self).cleaning_groups@[i as int].id@ == group_needed(*event)->0,
        ensures
            effect(*old(self), *final(self), *event, now),
            final(self).event_log == old(self).event_log,
            final(self).last_modified == old(self).last_modified,
    {
        match event {
            DomainEvent::GroupDisabled { group_id } => {
                self.cleaning_groups[i].is_active = false;
            },
            DomainEvent::GroupEnabled { group_id } => {
                self.cleaning_groups[i].is_active = true;
            },
            DomainEvent::SlotAdded { group_id, slot_id, slot_name } => {
                self.add_slot(i, slot_id, slot_name);
            },
            DomainEvent::SlotRemoved { group_id, slot_id } => {
                match self.cleaning_groups[i].slot_position_by_id(slot_id.as_str()) {
                    Some(k) => {
                        self.remove_slot(i, k);
                    },
                    None => {
                        proof {
                            lemma_first_index_is(
                                self.cleaning_groups@[i as int].slots@,
                                slot_with_id(slot_id@),
                            );
                        }
                    },
                }
            },
            DomainEvent::RoomAdded { group_id, slot_id, room_name } => {
                match slot_id {
                    None => {
                        self.add_group_room(i, room_name);
                    },
                    Some(id) => {
                        match self.cleaning_groups[i].slot_position_by_id(id.as_str()) {
                            Some(k) => {
                                self.add_slot_room(i, k, room_name);
                            },
                            None => {
                                proof {
                                    lemma_first_index_is(
                                        self.cleaning_groups@[i as int].slots@,
                                        slot_with_id(id@),
                                    );
                                }
                            },
                        }
                    },
                }
            },
            DomainEvent::RoomRemoved { group_id, slot_id, room_name } => {
                match slot_id {
                    None => {
                        self.remove_group_room(i, room_name);
                    },
                    Some(id) => {
                        match self.cleaning_groups[i].slot_position_by_id(id.as_str()) {
                            Some(k) => {
                                self.remove_slot_room(i, k, room_name);
                            },
                            None => {
                                proof {
                                    lemma_first_index_is(
                                        self.cleaning_groups@[i as int].slots@,
                                        slot_with_id(id@),
                                    );
                                }
                            },
                        }
                    },
                }
            },
            DomainEvent::RoomWeightSet { group_id, slot_id, room_name, weight } => {
                match slot_id {
                    None => {
                        self.set_group_weight(i, room_name, *weight);
                    },
                    Some(id) => {
                        match self.cleaning_groups[i].slot_position_by_id(id.as_str()) {
                            Some(k) => {
                                self.set_slot_weight(i, k, room_name, *weight);
                            },
                            None => {
                                proof {
                                    lemma_first_index_is(
                                        self.cleaning_groups@[i as int].slots@,
                                        slot_with_id(id@),
                                    );
                                }
                            },
                        }
                    },
                }
            },
            DomainEvent::PersonJoinedGroup { person_id, group_id } => {
                if !contains_text(&self.cleaning_groups[i].member_ids, person_id.as_str()) {
                    self.cleaning_groups[i].member_ids.push(person_id.clone());
                } else {
                    assert(self.cleaning_groups@ =~= self.cleaning_groups@.update(
                        i as int,
                        self.cleaning_groups@[i as int],
                    ));
                }
            },
            DomainEvent::PersonLeftGroup { person_id, group_id } => {
                let keep = |m: &String| -> (r: bool)
                    ensures
                        r == other_id(person_id@)(*m),
                { !same_text(m.as_str(), person_id.as_str()) };
                retain(
                    &mut self.cleaning_groups[i].member_ids,
                    keep,
                    Ghost(other_id(person_id@)),
                );
            },
            DomainEvent::RotationQueueSet { group_id, queue } => {
                self.cleaning_groups[i].rotation_queue = copy_texts(queue);
            },
            DomainEvent::RhythmSet { group_id, rhythm } => {
                self.cleaning_groups[i].rhythm = rhythm.clone();
            },
            DomainEvent::GroupWeightSet { group_id, weight } => {
                self.cleaning_groups[i].weight = *weight;
            },
            DomainEvent::CleaningSkipped {
                group_id,
                skipper_id,
                iso_year,
                iso_week,
                shift,
                slot_id,
            } => {
                self.excuse_open(i, skipper_id, *iso_year, *iso_week, *shift, slot_id, now);
            },
            _ => {},
        }
    }

    /// Does what an event that needs no group to exist says.
    fn change_other(&mut self, event: &DomainEvent, now: Timestamp)
        requires
            group_needed(*event) is None,
            refusal(*old(self), *event) is None,
            *event is SwapRequested ==> next_swap_id(old(self).swap_requests@) <= u64::MAX,
        ensures
            effect(*old(self), *final(self), *event, now),
            final(self).event_log == old(self).event_log,
            final(self).last_modified == old(self).last_modified,
    {
        match event {
            DomainEvent::GroupCreated { group_id, name } => {
                if self.group_by_id(group_id.as_str()).is_none() {
                    let mut g = CleaningGroup::new(name.as_str());
                    g.id = group_id.clone();
                    g.name = name.clone();
                    self.cleaning_groups.push(g);
                    assert(self.cleaning_groups@.drop_last() =~= old(self).cleaning_groups@);
                }
            },
            DomainEvent::GroupDeleted { group_id } => {
                self.delete_group(group_id.as_str());
            },
            DomainEvent::SlotAssigned {
                group_id,
                slot_index,
                iso_year,
                iso_week,
                shift,
                person_id,
                source,
                actor_id,
                previous_person_id,
            } => {
                self.assign(
                    SlotAssignment {
                        group_id: group_id.clone(),
                        slot_index: *slot_index,
                        iso_year: *iso_year,
                        iso_week: *iso_week,
                        shift: *shift,
                        person_id: person_id.clone(),
                        source: *source,
                    },
                );
            },
            DomainEvent::PersonCreated { person_id, display_name, matrix_id } => {
                let known = match matrix_id {
                    Some(m) => self.person_by_matrix_id(m.as_str()).is_some(),
                    None => false,
                };
                if !known && self.person_by_id(person_id.as_str()).is_none() {
                    self.persons.push(
                        Person {
                            id: person_id.clone(),
                            display_name: display_name.clone(),
                            active: true,
                            matrix_id: matrix_id.clone(),
                        },
                    );
                }
            },
            DomainEvent::PersonMatrixLinked { person_id, matrix_id } => {
                match self.person_place(person_id.as_str()) {
                    Some(i) => {
                        self.persons[i].matrix_id = Some(matrix_id.clone());
                    },
                    None => {},
                }
            },
            DomainEvent::CleaningCompleted {
                group_id,
                slot_id,
                person_id,
                responsible_person_ids,
                iso_year,
                iso_week,
                shift,
            } => {
                let turn = Turn { year: *iso_year, week: *iso_week, shift: *shift };
                if !self.has_mark(group_id.as_str(), slot_id, turn) {
                    self.completions.push(
                        Completion {
                            group_id: group_id.clone(),
                            slot_id: slot_id.clone(),
                            completed_by_id: person_id.clone(),
                            responsible_person_ids: copy_texts(responsible_person_ids),
                            iso_year: *iso_year,
                            iso_week: *iso_week,
                            shift: *shift,
                            completed_at: now,
                            skipped: false,
                        },
                    );
                    assert(self.completions@.drop_last() =~= old(self).completions@);
                }
            },
            DomainEvent::CleaningUndone { group_id, iso_year, iso_week, shift, slot_id } => {
                self.undo_marks(group_id.as_str(), *iso_year, *iso_week, *shift, slot_id);
            },
            DomainEvent::SwapRequested {
                group_id,
                requester_mxid,
                target_mxid,
                iso_year,
                iso_week,
                shift,
                slot_index,
            } => {
                let id = self.fresh_swap_id();
                self.swap_requests.push(
                    SwapRequest {
                        id,
                        requester: requester_mxid.clone(),
                        target: target_mxid.clone(),
                        group_id: group_id.clone(),
                        iso_year: *iso_year,
                        iso_week: *iso_week,
                        shift: *shift,
                        slot_index: *slot_index,
                        status: SwapStatus::Pending,
                        created_at: now,
                    },
                );
            },
            DomainEvent::SwapApproved { swap_id, .. } => {
                match self.swap_position(*swap_id) {
                    Some(i) => {
                        self.swap_requests[i].status = SwapStatus::Accepted;
                    },
                    None => {},
                }
            },
            DomainEvent::SwapRejected { swap_id } => {
                match self.swap_position(*swap_id) {
                    Some(i) => {
                        self.swap_requests[i].status = SwapStatus::Rejected;
                    },
                    None => {},
                }
            },
            DomainEvent::AbsenceRecorded {
                person_id,
                group_id,
                from_year,
                from_week,
                duration_weeks,
            } => {
                self.absences.push(
                    Absence {
                        person_id: person_id.clone(),
                        group_id: group_id.clone(),
                        from_year: *from_year,
                        from_week: *from_week,
                        duration_weeks: *duration_weeks,
                    },
                );
            },
            DomainEvent::AbsenceCancelled { person_id } => {
                let keep = |a: &Absence| -> (r: bool)
                    ensures
                        r == absence_of_others(person_id@)(*a),
                { !same_text(a.person_id.as_str(), person_id.as_str()) };
                retain(&mut self.absences, keep, Ghost(absence_of_others(person_id@)));
            },
            _ => {},
        }
    }

    /// Applies an event that happens at a given time and logs it. An event about a group, person
    /// or request that is not there is refused and changes nothing.
    pub fn apply_event_at(&mut self, event: DomainEvent, now: Timestamp) -> (r: Result<
        (),
        StateError,
    >)
        requires
            event is SwapRequested ==> next_swap_id(old(self).swap_requests@) <= u64::MAX,
        ensures
            match r {
                Ok(_) => {
                    &&& refusal(*old(self), event) is None
                    &&& logged(*old(self), *final(self), event, now)
                    &&& effect(*old(self), *final(self), event, now)
                },
                Err(e) => refusal(*old(self), event) == Some(e) && *final(self) == *old(self),
            },
    {
        match self.refuse(&event) {
            Some(e) => {
                return Err(e);
            },
            None => {},
        }
        let place: Option<usize> = match &event {
            DomainEvent::GroupDisabled { group_id } => self.group_position(group_id.as_str()),
            DomainEvent::GroupEnabled { group_id } => self.group_position(group_id.as_str()),
            DomainEvent::SlotAdded { group_id, .. } => self.group_position(group_id.as_str()),
            DomainEvent::SlotRemoved { group_id, .. } => self.group_position(group_id.as_str()),
            DomainEvent::RoomAdded { group_id, .. } => self.group_position(group_id.as_str()),
            DomainEvent::RoomRemoved { group_id, .. } => self.group_position(group_id.as_str()),
            DomainEvent::PersonJoinedGroup { group_id, .. } => self.group_position(
                group_id.as_str(),
            ),
            DomainEvent::PersonLeftGroup { group_id, .. } => self.group_position(
                group_id.as_str(),
            ),
            DomainEvent::RotationQueueSet { group_id, .. } => self.group_position(
                group_id.as_str(),
            ),
            DomainEvent::RhythmSet { group_id, .. } => self.group_position(group_id.as_str()),
            DomainEvent::GroupWeightSet { group_id, .. } => self.group_position(group_id.as_str()),
            DomainEvent::RoomWeightSet { group_id, .. } => self.group_position(group_id.as_str()),
            DomainEvent::CleaningSkipped { group_id, .. } => self.group_position(
                group_id.as_str(),
            ),
            _ => None,
        };
        match place {
            Some(i) => {
                self.change_group(&event, i, now);
            },
            None => {
                self.change_other(&event, now);
            },
        }
        let ghost mid = *self;
        self.event_log.push(LoggedEvent::at(now, event));
        self.last_modified = Some(now);
        proof {
            assert(self.event_log@.drop_last() =~= old(self).event_log@);
            lemma_effect_logged(*old(self), mid, *self, event, now);
        }
        Ok(())
    }

    /// Applies an event that happens now and logs it.
    pub fn apply_event(&mut self, event: DomainEvent) -> (r: Result<(), StateError>)
        requires
            event is SwapRequested ==> next_swap_id(old(self).swap_requests@) <= u64::MAX,
        ensures
            match r {
                Ok(_) => {
                    &&& refusal(*old(self), event) is None
                    &&& exists|now: Timestamp| #[trigger]
                        logged(*old(self), *final(self), event, now) && effect(
                            *old(self),
                            *final(self),
                            event,
                            now,
                        )
                },
                Err(e) => refusal(*old(self), event) == Some(e) && *final(self) == *old(self),
            },
    {
        self.apply_event_at(event, crate::calendar::now())
    }
}

} // verus!
