//! What every event keeps.

use vstd::prelude::*;

use crate::analytics::DomainEvent;
use crate::calendar::Timestamp;
use crate::course::step;
use crate::commands::tasks::Task;
use crate::domain::{
    slot_with_id, CleaningGroup, Person, PersonId, RoomWeight, SlotAssignment,
};
use crate::greetings::{greeting_gone, greeting_noted, other_greeting, welcomes, Greeting};
use crate::journal::{
    assignment_beside, assignment_elsewhere, changed, completion_elsewhere, former, group_needed,
    is_excuse, mark_of, next_swap_id, not_of_slot, not_undone, open_places, other_group, other_id,
    place_of, reaction_elsewhere, repointed, same_option, swap_elsewhere, swap_with_id,
    weight_of_other_room, with_weight,
};
use crate::lists::{
    find, first_index, lemma_filter, lemma_filter_step, lemma_first_index_is, lemma_some, some,
};
use crate::reactions::{not_marked_by, noted, other_reaction, reaction_with_id, taken_back};
use crate::rhythm::{lemma_shift_count, Turn};
use crate::scheduler::{key_text, other_key, other_plan, plan_registered};
use crate::state::{
    assignment_of, completion_of, group_with_id, person_with_id, Completion, Entry, GreetingInfo,
    PlanEvent, ReactionDone, State, SwapRequest,
};
use crate::text::{says, views};

verus! {

// ── Lists without repetition ─────────────────────────────────────────────────

/// Whether no two elements of a list are the same in some respect.
pub open spec fn distinct<A>(s: Seq<A>, same: spec_fn(A, A) -> bool) -> bool {
    forall|i: int, j: int| 0 <= i < j < s.len() ==> !same(#[trigger] s[i], #[trigger] s[j])
}

/// Filtering brings no repetition.
proof fn lemma_filter_distinct<A>(
    s: Seq<A>,
    same: spec_fn(A, A) -> bool,
    p: spec_fn(A) -> bool,
    n: int,
)
    requires
        distinct(s, same),
        0 <= n <= s.len(),
    ensures
        distinct(s.take(n).filter(p), same),
    decreases n,
{
    if n == 0 {
        reveal(Seq::filter);
    } else {
        lemma_filter_distinct(s, same, p, n - 1);
        lemma_filter_step(s, p, n - 1);
        let u = s.take(n - 1);
        let r = u.filter(p);
        lemma_filter(u, p);
        assert forall|i: int| 0 <= i < r.len() implies !same(#[trigger] r[i], s[n - 1]) by {
            let k = choose|k: int| 0 <= k < u.len() && u[k] == r[i];
            assert(s[k] == r[i]);
        }
    }
}

/// The same for a whole list.
proof fn lemma_filtered_distinct<A>(s: Seq<A>, same: spec_fn(A, A) -> bool, p: spec_fn(A) -> bool)
    requires
        distinct(s, same),
    ensures
        distinct(s.filter(p), same),
{
    lemma_filter_distinct(s, same, p, s.len() as int);
    assert(s.take(s.len() as int) =~= s);
}

// ── Sound states ─────────────────────────────────────────────────────────────

/// Persons with the same id.
pub open spec fn same_person() -> spec_fn(Person, Person) -> bool {
    |a: Person, b: Person| a.id@ == b.id@
}

/// Groups with the same id.
pub open spec fn same_group() -> spec_fn(CleaningGroup, CleaningGroup) -> bool {
    |a: CleaningGroup, b: CleaningGroup| a.id@ == b.id@
}

/// The same member.
pub open spec fn same_member() -> spec_fn(PersonId, PersonId) -> bool {
    |a: PersonId, b: PersonId| a@ == b@
}

/// Assignments of the same slot of the same turn.
pub open spec fn same_place() -> spec_fn(SlotAssignment, SlotAssignment) -> bool {
    |a: SlotAssignment, b: SlotAssignment|
        a.group_id@ == b.group_id@ && a.slot_index == b.slot_index && a.iso_year == b.iso_year
            && a.iso_week == b.iso_week && a.shift == b.shift
}

/// Marks of the same slot of the same turn.
pub open spec fn same_mark() -> spec_fn(Completion, Completion) -> bool {
    |a: Completion, b: Completion|
        a.group_id@ == b.group_id@ && same_option(a.slot_id, b.slot_id) && a.iso_year
            == b.iso_year && a.iso_week == b.iso_week && a.shift == b.shift
}

/// Requests to swap with the same id.
pub open spec fn same_swap() -> spec_fn(SwapRequest, SwapRequest) -> bool {
    |a: SwapRequest, b: SwapRequest| a.id == b.id
}

/// Whether nobody is a member of a group twice.
pub open spec fn members_distinct(g: CleaningGroup) -> bool {
    distinct(g.member_ids@, same_member())
}

/// Messages of the same event.
pub open spec fn same_message() -> spec_fn(PlanEvent, PlanEvent) -> bool {
    |a: PlanEvent, b: PlanEvent| a.event_id@ == b.event_id@
}

/// Texts kept under the same key.
pub open spec fn same_key() -> spec_fn(Entry, Entry) -> bool {
    |a: Entry, b: Entry| a.key@ == b.key@
}

/// Marks that the same reaction made.
pub open spec fn same_reaction() -> spec_fn(ReactionDone, ReactionDone) -> bool {
    |a: ReactionDone, b: ReactionDone| a.event_id@ == b.event_id@
}

/// Greetings of the same event.
pub open spec fn same_greeting() -> spec_fn(GreetingInfo, GreetingInfo) -> bool {
    |a: GreetingInfo, b: GreetingInfo| a.event_id@ == b.event_id@
}

/// The same Matrix user.
pub open spec fn same_user() -> spec_fn(String, String) -> bool {
    |a: String, b: String| a@ == b@
}

/// Factors of the same room.
pub open spec fn same_room() -> spec_fn(RoomWeight, RoomWeight) -> bool {
    |a: RoomWeight, b: RoomWeight| a.room_name@ == b.room_name@
}

/// Whether no room of a group, or of one of its slots, has two factors.
pub open spec fn weights_distinct(g: CleaningGroup) -> bool {
    &&& distinct(g.room_weights@, same_room())
    &&& forall|k: int|
        0 <= k < g.slots@.len() ==> distinct((#[trigger] g.slots@[k]).room_weights@, same_room())
}

/// Whether nothing that is looked up by a key is there twice under the same one: no plan message,
/// no message or text of a week, no mark of a reaction, no greeting, nobody who was greeted, no
/// factor of a room.
pub open spec fn keyed(state: State) -> bool {
    &&& distinct(state.weekly_plan_event_ids@, same_message())
    &&& distinct(state.weekly_plan_canonical@, same_key())
    &&& distinct(state.weekly_plan_rendered@, same_key())
    &&& distinct(state.reaction_dones@, same_reaction())
    &&& distinct(state.greeting_event_ids@, same_greeting())
    &&& distinct(state.greeted_users@, same_user())
    &&& forall|i: int|
        0 <= i < state.cleaning_groups@.len() ==> weights_distinct(
            #[trigger] state.cleaning_groups@[i],
        )
}

/// Whether nothing is remembered twice.
pub open spec fn sound(state: State) -> bool {
    apart(state) && keyed(state)
}

/// Whether nothing that happened is remembered twice: no person, no group, no member of a group,
/// no assignment and no mark of a slot of a turn, no request to swap.
pub open spec fn apart(state: State) -> bool {
    &&& distinct(state.persons@, same_person())
    &&& distinct(state.cleaning_groups@, same_group())
    &&& forall|i: int|
        0 <= i < state.cleaning_groups@.len() ==> members_distinct(
            #[trigger] state.cleaning_groups@[i],
        )
    &&& distinct(state.slot_assignments@, same_place())
    &&& distinct(state.completions@, same_mark())
    &&& distinct(state.swap_requests@, same_swap())
}

/// All requests to swap have smaller ids than the next one.
proof fn lemma_swap_ids(s: Seq<SwapRequest>, i: int)
    requires
        0 <= i < s.len(),
    ensures
        s[i].id < next_swap_id(s),
    decreases s.len(),
{
    if i < s.len() - 1 {
        lemma_swap_ids(s.drop_last(), i);
    }
}

/// The open slots of a week are no two the same.
proof fn lemma_places_distinct(
    pre: Seq<Completion>,
    group: CleaningGroup,
    year: i32,
    week: u32,
    shift: Option<u8>,
    slot_id: Option<String>,
    to_shift: int,
    to_slot: int,
)
    requires
        0 <= to_shift,
        0 <= to_slot <= group.slot_count(),
    ensures
        open_and_distinct(
            pre,
            group,
            year,
            week,
            open_places(pre, group, year, week, shift, slot_id, to_shift, to_slot),
            to_shift,
        ),
    decreases to_shift, to_slot,
{
    if to_slot > 0 {
        lemma_places_distinct(pre, group, year, week, shift, slot_id, to_shift, to_slot - 1);
        let r = open_places(pre, group, year, week, shift, slot_id, to_shift, to_slot - 1);
        if open_places(pre, group, year, week, shift, slot_id, to_shift, to_slot) != r {
            let next = r.push((to_shift, to_slot - 1));
            assert forall|i: int, j: int| 0 <= i < j < next.len() implies !coincide(
                group,
                #[trigger] next[i],
                #[trigger] next[j],
            ) by {
                assert(next[i] == r[i]);
                if j < r.len() {
                    assert(next[j] == r[j]);
                } else {
                    assert(!(r[i].0 == to_shift && (group.slots@.len() == 0
                        || group.slots@[r[i].1].id@ == group.slots@[to_slot - 1].id@)));
                }
            }
            assert(open_and_distinct(pre, group, year, week, next, to_shift));
        }
    } else if to_shift > 0 {
        lemma_places_distinct(
            pre,
            group,
            year,
            week,
            shift,
            slot_id,
            to_shift - 1,
            group.slot_count() as int,
        );
    }
}

/// Whether two places are the same slot of the same shift.
spec fn coincide(group: CleaningGroup, a: (int, int), b: (int, int)) -> bool {
    a.0 == b.0 && (group.slots@.len() == 0 || group.slots@[a.1].id@ == group.slots@[b.1].id@)
}

/// Whether places are slots of shifts that are open, no two the same.
spec fn open_and_distinct(
    pre: Seq<Completion>,
    group: CleaningGroup,
    year: i32,
    week: u32,
    places: Seq<(int, int)>,
    to_shift: int,
) -> bool {
    &&& forall|i: int|
        0 <= i < places.len() ==> 0 <= (#[trigger] places[i]).0 <= to_shift && 0 <= places[i].1
            < group.slot_count() && !some(
            pre,
            completion_of(group, places[i].1, Turn { year, week, shift: places[i].0 as u8 }),
        )
    &&& forall|i: int, j: int|
        0 <= i < j < places.len() ==> !coincide(group, #[trigger] places[i], #[trigger] places[j])
}

/// Excusing open slots makes no mark twice.
proof fn lemma_skip_sound(pre: State, post: State, e: DomainEvent, now: Timestamp)
    requires
        apart(pre),
        step(pre, post, e, now),
        e is CleaningSkipped,
    ensures
        apart(post),
{
    match e {
        DomainEvent::CleaningSkipped { group_id, skipper_id, iso_year, iso_week, shift, slot_id } => {
            let g = former(pre, group_id@);
            let count = g.rhythm.week_shifts().len() as int;
            let s = pre.completions@;
            let t = post.completions@;
            let n = s.len() as int;
            let places = open_places(s, g, iso_year, iso_week, shift, slot_id, count, 0);
            lemma_shift_count(g.rhythm);
            lemma_places_distinct(s, g, iso_year, iso_week, shift, slot_id, count, 0);
            assert forall|i: int, j: int| 0 <= i < j < t.len() implies !same_mark()(
                #[trigger] t[i],
                #[trigger] t[j],
            ) by {
                if i < n {
                    assert(t.take(n)[i] == t[i]);
                }
                if j < n {
                    assert(t.take(n)[j] == t[j]);
                } else {
                    let b = places[j - n];
                    let turn = Turn { year: iso_year, week: iso_week, shift: b.0 as u8 };
                    assert(t.skip(n)[j - n] == t[j]);
                    assert(is_excuse(t[j], g, b.1, turn, skipper_id@, now));
                    if i < n {
                        let p = completion_of(g, b.1, turn);
                        lemma_some(s, p);
                        assert(!p(s[i]));
                    } else {
                        let a = places[i - n];
                        assert(t.skip(n)[i - n] == t[i]);
                        assert(is_excuse(
                            t[i],
                            g,
                            a.1,
                            Turn { year: iso_year, week: iso_week, shift: a.0 as u8 },
                            skipper_id@,
                            now,
                        ));
                        assert(!coincide(g, a, b));
                    }
                }
            }
        },
        _ => {},
    }
}

/// Events about a group keep what is remembered apart.
proof fn lemma_group_sound(pre: State, post: State, e: DomainEvent, now: Timestamp)
    requires
        apart(pre),
        step(pre, post, e, now),
        group_needed(e) is Some,
        !(e is CleaningSkipped),
    ensures
        apart(post),
{
    let id = group_needed(e)->0;
    let i = place_of(pre, id);
    let g = former(pre, id);
    let h = changed(pre, post, id);
    lemma_first_index_is(pre.cleaning_groups@, group_with_id(id));
    match e {
        DomainEvent::PersonJoinedGroup { person_id, group_id } => {
            if !says(g.member_ids@, person_id@) {
                assert(h.member_ids@ =~= g.member_ids@.push(person_id));
                assert forall|k: int| 0 <= k < g.member_ids@.len() implies (
                #[trigger] g.member_ids@[k])@ != person_id@ by {}
            }
            assert(members_distinct(h));
        },
        DomainEvent::PersonLeftGroup { person_id, group_id } => {
            lemma_filtered_distinct(g.member_ids@, same_member(), other_id(person_id@));
            assert(members_distinct(h));
        },
        DomainEvent::SlotRemoved { group_id, slot_id } => {
            let k = first_index(g.slots@, slot_with_id(slot_id@));
            lemma_first_index_is(g.slots@, slot_with_id(slot_id@));
            if k < g.slots@.len() {
                let kept = pre.slot_assignments@.filter(not_of_slot(group_id@, k));
                lemma_filter(pre.slot_assignments@, not_of_slot(group_id@, k));
                lemma_filtered_distinct(
                    pre.slot_assignments@,
                    same_place(),
                    not_of_slot(group_id@, k),
                );
                let f = repointed(group_id@, k);
                assert forall|x: int, y: int| 0 <= x < y < kept.len() implies !same_place()(
                    f(#[trigger] kept[x]),
                    f(#[trigger] kept[y]),
                ) by {
                    assert(not_of_slot(group_id@, k)(kept[x]));
                    assert(not_of_slot(group_id@, k)(kept[y]));
                }
                assert(distinct(kept.map_values(f), same_place()));
            }
        },
        _ => {},
    }
    let s = pre.cleaning_groups@;
    let t = post.cleaning_groups@;
    assert(t.len() == s.len());
    assert forall|x: int| 0 <= x < t.len() implies members_distinct(#[trigger] t[x]) && t[x].id
        == s[x].id by {
        assert(members_distinct(s[x]));
    }
    assert(distinct(t, same_group()));
}

/// Other events keep what is remembered apart.
proof fn lemma_other_sound(pre: State, post: State, e: DomainEvent, now: Timestamp)
    requires
        apart(pre),
        step(pre, post, e, now),
        group_needed(e) is None,
        e is SwapRequested ==> next_swap_id(pre.swap_requests@) <= u64::MAX,
    ensures
        apart(post),
{
    match e {
        DomainEvent::GroupCreated { group_id, name } => {
            let s = pre.cleaning_groups@;
            let t = post.cleaning_groups@;
            let p = group_with_id(group_id@);
            lemma_some(s, p);
            if !some(s, p) {
                assert(t =~= s.push(t.last()));
                assert forall|k: int| 0 <= k < s.len() implies (#[trigger] s[k]).id@
                    != group_id@ by {
                    assert(!p(s[k]));
                }
            }
        },
        DomainEvent::GroupDeleted { group_id } => {
            let id = group_id@;
            lemma_filtered_distinct(pre.cleaning_groups@, same_group(), other_group(id));
            lemma_filter(pre.cleaning_groups@, other_group(id));
            let t = post.cleaning_groups@;
            assert forall|x: int| 0 <= x < t.len() implies members_distinct(#[trigger] t[x]) by {
                let k = choose|k: int|
                    0 <= k < pre.cleaning_groups@.len() && pre.cleaning_groups@[k] == t[x];
                assert(members_distinct(pre.cleaning_groups@[k]));
            }
            lemma_filtered_distinct(pre.slot_assignments@, same_place(), assignment_elsewhere(id));
            lemma_filtered_distinct(pre.completions@, same_mark(), completion_elsewhere(id));
            lemma_filtered_distinct(pre.swap_requests@, same_swap(), swap_elsewhere(id));
        },
        DomainEvent::SlotAssigned { group_id, slot_index, iso_year, iso_week, shift, .. } => {
            let turn = Turn { year: iso_year, week: iso_week, shift };
            let q = assignment_beside(group_id@, slot_index as int, turn);
            lemma_filtered_distinct(pre.slot_assignments@, same_place(), q);
            lemma_filter(pre.slot_assignments@, q);
            let kept = pre.slot_assignments@.filter(q);
            assert forall|k: int| 0 <= k < kept.len() implies !assignment_of(
                group_id@,
                slot_index as int,
                turn,
            )(#[trigger] kept[k]) by {
                assert(q(kept[k]));
            }
        },
        DomainEvent::PersonCreated { person_id, display_name, matrix_id } => {
            let s = pre.persons@;
            let p = person_with_id(person_id@);
            lemma_some(s, p);
            if !some(s, p) {
                assert forall|k: int| 0 <= k < s.len() implies (#[trigger] s[k]).id@
                    != person_id@ by {
                    assert(!p(s[k]));
                }
            }
        },
        DomainEvent::PersonMatrixLinked { person_id, matrix_id } => {
            lemma_first_index_is(pre.persons@, person_with_id(person_id@));
        },
        DomainEvent::CleaningCompleted { group_id, slot_id, iso_year, iso_week, shift, .. } => {
            let s = pre.completions@;
            let t = post.completions@;
            let p = mark_of(group_id@, slot_id, Turn { year: iso_year, week: iso_week, shift });
            lemma_some(s, p);
            if !some(s, p) {
                assert(t =~= s.push(t.last()));
                assert forall|k: int| 0 <= k < s.len() implies !same_mark()(
                    #[trigger] s[k],
                    t.last(),
                ) by {
                    assert(!p(s[k]));
                }
            }
        },
        DomainEvent::CleaningUndone { group_id, iso_year, iso_week, shift, slot_id } => {
            lemma_filtered_distinct(
                pre.completions@,
                same_mark(),
                not_undone(group_id@, iso_year, iso_week, shift, slot_id),
            );
        },
        DomainEvent::SwapRequested { .. } => {
            let s = pre.swap_requests@;
            assert forall|k: int| 0 <= k < s.len() implies (#[trigger] s[k]).id < next_swap_id(
                s,
            ) by {
                lemma_swap_ids(s, k);
            }
        },
        DomainEvent::SwapApproved { swap_id, .. } => {
            lemma_first_index_is(pre.swap_requests@, swap_with_id(swap_id));
        },
        DomainEvent::SwapRejected { swap_id } => {
            lemma_first_index_is(pre.swap_requests@, swap_with_id(swap_id));
        },
        _ => {},
    }
}

/// Other factors of the rooms of a group keep no room with two.
proof fn lemma_rooms_keyed(pre: State, post: State, e: DomainEvent, now: Timestamp)
    requires
        keyed(pre),
        step(pre, post, e, now),
        e is RoomAdded || e is RoomRemoved || e is RoomWeightSet,
    ensures
        weights_distinct(changed(pre, post, group_needed(e)->0)),
{
    let id = group_needed(e)->0;
    let g = former(pre, id);
    let h = changed(pre, post, id);
    lemma_first_index_is(pre.cleaning_groups@, group_with_id(id));
    assert(weights_distinct(g));
    let slot_id = match e {
        DomainEvent::RoomAdded { slot_id, .. } => slot_id,
        DomainEvent::RoomRemoved { slot_id, .. } => slot_id,
        DomainEvent::RoomWeightSet { slot_id, .. } => slot_id,
        _ => None,
    };
    match slot_id {
        None => {
            lemma_weights(g.room_weights@, h.room_weights@, e);
        },
        Some(sid) => {
            let k = first_index(g.slots@, slot_with_id(sid@));
            lemma_first_index_is(g.slots@, slot_with_id(sid@));
            if k < g.slots@.len() {
                assert(distinct(g.slots@[k].room_weights@, same_room()));
                lemma_weights(g.slots@[k].room_weights@, h.slots@[k].room_weights@, e);
                assert forall|x: int| 0 <= x < h.slots@.len() implies distinct(
                    (#[trigger] h.slots@[x]).room_weights@,
                    same_room(),
                ) by {
                    assert(distinct(g.slots@[x].room_weights@, same_room()));
                }
            }
        },
    }
}

/// Factors with that of one room set, or without it, are of no room twice.
proof fn lemma_weights(a: Seq<RoomWeight>, b: Seq<RoomWeight>, e: DomainEvent)
    requires
        distinct(a, same_room()),
        match e {
            DomainEvent::RoomAdded { .. } => b == a,
            DomainEvent::RoomRemoved { room_name, .. } => b == a.filter(
                weight_of_other_room(room_name@),
            ),
            DomainEvent::RoomWeightSet { room_name, weight, .. } => b == with_weight(
                a,
                room_name,
                weight,
            ),
            _ => false,
        },
    ensures
        distinct(b, same_room()),
{
    match e {
        DomainEvent::RoomRemoved { room_name, .. } => {
            lemma_filtered_distinct(a, same_room(), weight_of_other_room(room_name@));
        },
        DomainEvent::RoomWeightSet { room_name, weight, .. } => {
            assert(b.drop_last() =~= a.filter(weight_of_other_room(room_name@)));
            lemma_replaced_distinct(a, b, same_room(), weight_of_other_room(room_name@));
        },
        _ => {},
    }
}

/// Putting an element in place of all that are the same in some respect brings no repetition.
proof fn lemma_replaced_distinct<A>(
    a: Seq<A>,
    b: Seq<A>,
    same: spec_fn(A, A) -> bool,
    other: spec_fn(A) -> bool,
)
    requires
        distinct(a, same),
        b.len() > 0,
        b.drop_last() == a.filter(other),
        forall|x: A| #[trigger] other(x) ==> !same(x, b.last()),
    ensures
        distinct(b, same),
{
    let kept = a.filter(other);
    lemma_filtered_distinct(a, same, other);
    lemma_filter(a, other);
    assert forall|i: int, j: int| 0 <= i < j < b.len() implies !same(
        #[trigger] b[i],
        #[trigger] b[j],
    ) by {
        assert(b[i] == kept[i]);
        assert(other(kept[i]));
        if j < kept.len() {
            assert(b[j] == kept[j]);
        }
    }
}

/// Events about a group keep the keys apart.
proof fn lemma_group_keyed(pre: State, post: State, e: DomainEvent, now: Timestamp)
    requires
        keyed(pre),
        step(pre, post, e, now),
        group_needed(e) is Some,
    ensures
        keyed(post),
{
    let id = group_needed(e)->0;
    let i = place_of(pre, id);
    let g = former(pre, id);
    let h = changed(pre, post, id);
    lemma_first_index_is(pre.cleaning_groups@, group_with_id(id));
    assert(weights_distinct(g));
    if e is RoomAdded || e is RoomRemoved || e is RoomWeightSet {
        lemma_rooms_keyed(pre, post, e, now);
    } else if e is SlotAdded {
        assert forall|k: int| 0 <= k < h.slots@.len() implies distinct(
            (#[trigger] h.slots@[k]).room_weights@,
            same_room(),
        ) by {
            if k < g.slots@.len() {
                assert(distinct(g.slots@[k].room_weights@, same_room()));
                assert(h.slots@.drop_last()[k] == h.slots@[k]);
            } else {
                assert(h.slots@[k] == h.slots@.last());
            }
        }
    } else {
        lemma_first_index_is(g.slots@, slot_with_id(e->SlotRemoved_slot_id@));
        assert forall|k: int| 0 <= k < h.slots@.len() implies distinct(
            (#[trigger] h.slots@[k]).room_weights@,
            same_room(),
        ) by {
            assert(distinct(g.slots@[k].room_weights@, same_room()));
            if k + 1 < g.slots@.len() {
                assert(distinct(g.slots@[k + 1].room_weights@, same_room()));
            }
        }
    }
    assert(weights_distinct(h));
    let s = pre.cleaning_groups@;
    let t = post.cleaning_groups@;
    assert forall|x: int| 0 <= x < t.len() implies weights_distinct(#[trigger] t[x]) by {
        assert(weights_distinct(s[x]));
    }
}

/// Other events keep the keys apart.
proof fn lemma_other_keyed(pre: State, post: State, e: DomainEvent, now: Timestamp)
    requires
        keyed(pre),
        step(pre, post, e, now),
        group_needed(e) is None,
        e is SwapRequested ==> next_swap_id(pre.swap_requests@) <= u64::MAX,
    ensures
        keyed(post),
{
    let s = pre.cleaning_groups@;
    let t = post.cleaning_groups@;
    match e {
        DomainEvent::GroupCreated { group_id, name } => {
            assert forall|x: int| 0 <= x < t.len() implies weights_distinct(#[trigger] t[x]) by {
                if x < s.len() {
                    assert(weights_distinct(s[x]));
                    assert(t[x] == t.drop_last()[x] || t == s);
                }
            }
        },
        DomainEvent::GroupDeleted { group_id } => {
            let id = group_id@;
            lemma_filter(s, other_group(id));
            assert forall|x: int| 0 <= x < t.len() implies weights_distinct(#[trigger] t[x]) by {
                let k = choose|k: int| 0 <= k < s.len() && s[k] == t[x];
                assert(weights_distinct(s[k]));
            }
            lemma_filtered_distinct(pre.reaction_dones@, same_reaction(), reaction_elsewhere(id));
        },
        _ => {},
    }
}

/// Every event keeps a state sound: whatever happens, no person, group, member, assignment, mark
/// or request to swap is remembered twice, and nothing that is looked up by a key is there twice
/// under the same one.
pub proof fn law_events_keep_a_state_sound(pre: State, post: State, e: DomainEvent, now: Timestamp)
    requires
        sound(pre),
        step(pre, post, e, now),
        e is SwapRequested ==> next_swap_id(pre.swap_requests@) <= u64::MAX,
    ensures
        sound(post),
{
    if e is CleaningSkipped {
        lemma_skip_sound(pre, post, e, now);
        lemma_group_keyed(pre, post, e, now);
    } else if group_needed(e) is Some {
        lemma_group_sound(pre, post, e, now);
        lemma_group_keyed(pre, post, e, now);
    } else {
        lemma_other_sound(pre, post, e, now);
        lemma_other_keyed(pre, post, e, now);
    }
}

/// Nothing remembered is nothing remembered twice.
pub proof fn law_an_empty_state_is_sound(state: State)
    requires
        state.persons@.len() == 0,
        state.cleaning_groups@.len() == 0,
        state.completions@.len() == 0,
        state.swap_requests@.len() == 0,
        state.slot_assignments@.len() == 0,
        state.weekly_plan_event_ids@.len() == 0,
        state.weekly_plan_canonical@.len() == 0,
        state.weekly_plan_rendered@.len() == 0,
        state.reaction_dones@.len() == 0,
        state.greeting_event_ids@.len() == 0,
        state.greeted_users@.len() == 0,
    ensures
        sound(state),
{
}

/// Making a message the one that shows the plan of a week keeps a state sound.
pub proof fn law_plan_messages_keep_a_state_sound(
    pre: State,
    post: State,
    year: i32,
    week: u32,
    text: Seq<char>,
    event_id: Seq<char>,
)
    requires
        sound(pre),
        plan_registered(pre, post, year, week, text, event_id),
    ensures
        sound(post),
{
    let key = key_text(year as int, week as int);
    lemma_replaced_distinct(
        pre.weekly_plan_event_ids@,
        post.weekly_plan_event_ids@,
        same_message(),
        other_plan(year, week, event_id),
    );
    lemma_replaced_distinct(
        pre.weekly_plan_canonical@,
        post.weekly_plan_canonical@,
        same_key(),
        other_key(key),
    );
    lemma_replaced_distinct(
        pre.weekly_plan_rendered@,
        post.weekly_plan_rendered@,
        same_key(),
        other_key(key),
    );
}

/// Noting what a reaction marked keeps a state sound.
pub proof fn law_noted_reactions_keep_a_state_sound(
    pre: State,
    post: State,
    tasks: Seq<Task>,
    person_id: PersonId,
    reaction_id: Seq<char>,
    week: (i32, u32),
)
    requires
        sound(pre),
        noted(pre, post, tasks, person_id, reaction_id, week),
    ensures
        sound(post),
{
    if tasks.len() > 0 {
        lemma_replaced_distinct(
            pre.reaction_dones@,
            post.reaction_dones@,
            same_reaction(),
            other_reaction(reaction_id),
        );
    }
}

/// Taking a reaction back keeps a state sound.
pub proof fn law_reactions_taken_back_keep_a_state_sound(
    pre: State,
    post: State,
    r: Option<(i32, u32)>,
    event_id: Seq<char>,
)
    requires
        sound(pre),
        taken_back(pre, post, r, event_id),
    ensures
        sound(post),
{
    match find(pre.reaction_dones@, reaction_with_id(event_id)) {
        Some(d) => {
            lemma_filtered_distinct(
                pre.reaction_dones@,
                same_reaction(),
                other_reaction(event_id),
            );
            lemma_filtered_distinct(pre.completions@, same_mark(), not_marked_by(d));
        },
        None => {},
    }
}

/// Noting a greeting, and forgetting it, keeps a state sound.
pub proof fn law_greetings_keep_a_state_sound(pre: State, post: State, event_id: Seq<char>)
    requires
        sound(pre),
        greeting_noted(pre, post, event_id) || greeting_gone(pre, post, event_id),
    ensures
        sound(post),
{
    if greeting_gone(pre, post, event_id) {
        lemma_filtered_distinct(
            pre.greeting_event_ids@,
            same_greeting(),
            other_greeting(event_id),
        );
    } else {
        lemma_replaced_distinct(
            pre.greeting_event_ids@,
            post.greeting_event_ids@,
            same_greeting(),
            other_greeting(event_id),
        );
    }
}

/// Welcoming somebody keeps a state sound: nobody is welcomed twice.
pub proof fn law_welcoming_keeps_a_state_sound(
    pre: State,
    post: State,
    r: Option<Greeting>,
    user: Seq<char>,
)
    requires
        sound(pre),
        welcomes(pre, post, r, user),
    ensures
        sound(post),
{
    if !says(pre.greeted_users@, user) {
        let a = pre.greeted_users@;
        let b = post.greeted_users@;
        assert(views(b).len() == views(a).len() + 1);
        assert forall|i: int| 0 <= i < b.len() implies (#[trigger] b[i])@ == if i < a.len() {
            a[i]@
        } else {
            user
        } by {
            assert(views(b)[i] == b[i]@);
            if i < a.len() {
                assert(views(a)[i] == a[i]@);
            }
        }
        assert forall|i: int| 0 <= i < a.len() implies (#[trigger] a[i])@ != user by {}
    }
}

} // verus!
