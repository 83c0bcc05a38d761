//! What each event does to the entries of a state.

use vstd::prelude::*;

use crate::analytics::DomainEvent;
use crate::calendar::Timestamp;
use crate::course::step;
use crate::domain::{CleaningGroup, GroupId, SlotAssignment};
use crate::journal::{
    absence_of_others, assignment_beside, former, mark_of, not_of_slot, not_undone, open_places,
    place_of, repointed, swap_with_id,
};
use crate::lists::{lemma_filter, lemma_first_index_is, lemma_some};
use crate::plain::{assigns, covers, is_away, is_marked, lemma_marked, marks, places};
use crate::rhythm::{Rhythm, Turn};
use crate::state::{
    group_with_id, Absence, Completion, State, SwapRequest, SwapStatus,
};
use crate::text::says;

verus! {

/// The parts of a state that an event may change.
pub enum Part {
    Persons,
    Groups,
    Assignments,
    Marks,
    Swaps,
    Absences,
}

/// Whether all parts of a state but one are as before.
pub open spec fn rest_is_kept(pre: State, post: State, part: Part) -> bool {
    &&& part is Persons || post.persons == pre.persons
    &&& part is Groups || post.cleaning_groups == pre.cleaning_groups
    &&& part is Assignments || post.slot_assignments == pre.slot_assignments
    &&& part is Marks || post.completions == pre.completions
    &&& part is Swaps || post.swap_requests == pre.swap_requests
    &&& part is Absences || post.absences == pre.absences
    &&& post.sent_reminders == pre.sent_reminders
    &&& post.created_at == pre.created_at
}

/// Whether one list holds the entries of another that are not `gone`, and no others.
pub open spec fn loses<A>(before: Seq<A>, after: Seq<A>, gone: spec_fn(A) -> bool) -> bool {
    &&& forall|i: int|
        0 <= i < before.len() && !gone(#[trigger] before[i]) ==> after.contains(before[i])
    &&& forall|i: int|
        0 <= i < after.len() ==> before.contains(#[trigger] after[i]) && !gone(after[i])
}

/// Filtering loses what is not kept.
pub proof fn lemma_loses<A>(before: Seq<A>, keep: spec_fn(A) -> bool, gone: spec_fn(A) -> bool)
    requires
        forall|x: A| #[trigger] keep(x) == !gone(x),
    ensures
        loses(before, before.filter(keep), gone),
{
    lemma_filter(before, keep);
    let after = before.filter(keep);
    assert forall|i: int| 0 <= i < before.len() && !gone(#[trigger] before[i]) implies after.contains(
        before[i],
    ) by {
        assert(keep(before[i]));
    }
    assert forall|i: int| 0 <= i < after.len() implies before.contains(#[trigger] after[i]) && !gone(
        after[i],
    ) by {
        assert(keep(after[i]));
    }
}

// ── Marks ────────────────────────────────────────────────────────────────────

/// Marking a slot of a turn adds one mark with who cleaned it, at the end, unless the slot has one;
/// the marks there were stay.
pub proof fn law_completing_adds_one_mark(
    pre: State,
    post: State,
    group_id: GroupId,
    slot_id: Option<String>,
    person_id: String,
    responsible_person_ids: Vec<String>,
    turn: Turn,
    now: Timestamp,
)
    requires
        step(
            pre,
            post,
            (DomainEvent::CleaningCompleted {
                group_id,
                slot_id,
                person_id,
                responsible_person_ids,
                iso_year: turn.year,
                iso_week: turn.week,
                shift: turn.shift,
            }),
            now,
        ),
    ensures
        rest_is_kept(pre, post, Part::Marks),
        (exists|i: int|
            0 <= i < pre.completions@.len() && is_mark_under(
                #[trigger] pre.completions@[i],
                group_id@,
                slot_id,
                turn,
            )) ==> post.completions == pre.completions,
        !(exists|i: int|
            0 <= i < pre.completions@.len() && is_mark_under(
                #[trigger] pre.completions@[i],
                group_id@,
                slot_id,
                turn,
            )) ==> {
            let c = post.completions@.last();
            &&& post.completions@ == pre.completions@.push(c)
            &&& is_mark_under(c, group_id@, slot_id, turn)
            &&& c.completed_by_id@ == person_id@
            &&& c.responsible_person_ids@ == responsible_person_ids@
            &&& c.completed_at == now
            &&& !c.skipped
        },
{
    let s = pre.completions@;
    let m = mark_of(group_id@, slot_id, turn);
    lemma_some(s, m);
    assert forall|i: int| 0 <= i < s.len() implies m(#[trigger] s[i]) == is_mark_under(
        s[i],
        group_id@,
        slot_id,
        turn,
    ) by {}
    if !crate::lists::some(s, m) {
        let t = post.completions@;
        assert(t =~= s.push(t.last()));
    }
}

/// Whether a mark is of the slot with an id, or of a turn without slots.
pub open spec fn is_mark_under(
    c: Completion,
    group_id: Seq<char>,
    slot_id: Option<String>,
    turn: Turn,
) -> bool {
    &&& c.group_id@ == group_id
    &&& c.iso_year == turn.year
    &&& c.iso_week == turn.week
    &&& c.shift == turn.shift
    &&& match (c.slot_id, slot_id) {
        (Some(a), Some(b)) => a@ == b@,
        (None, None) => true,
        _ => false,
    }
}

/// The marks that taking back is about: those of the group and week, and of the shift and the slot
/// where these are given.
pub open spec fn is_taken_back(
    group_id: Seq<char>,
    year: i32,
    week: u32,
    shift: Option<u8>,
    slot_id: Option<String>,
) -> spec_fn(Completion) -> bool {
    |c: Completion|
        {
            &&& c.group_id@ == group_id
            &&& c.iso_year == year
            &&& c.iso_week == week
            &&& shift is Some ==> c.shift == shift->0
            &&& slot_id is Some ==> c.slot_id is Some && c.slot_id->0@ == slot_id->0@
        }
}

/// Taking marks back takes those of the week, of all shifts and slots or of the given ones, whoever
/// made them, and no others.
pub proof fn law_undoing_takes_back_those_marks(
    pre: State,
    post: State,
    group_id: GroupId,
    year: i32,
    week: u32,
    shift: Option<u8>,
    slot_id: Option<String>,
    now: Timestamp,
)
    requires
        step(
            pre,
            post,
            (DomainEvent::CleaningUndone {
                group_id,
                iso_year: year,
                iso_week: week,
                shift,
                slot_id,
            }),
            now,
        ),
    ensures
        rest_is_kept(pre, post, Part::Marks),
        loses(
            pre.completions@,
            post.completions@,
            is_taken_back(group_id@, year, week, shift, slot_id),
        ),
{
    lemma_loses(
        pre.completions@,
        not_undone(group_id@, year, week, shift, slot_id),
        is_taken_back(group_id@, year, week, shift, slot_id),
    );
}

// ── Assignments ──────────────────────────────────────────────────────────────

/// Assigning a slot of a turn puts that assignment in place of the one the slot had; the others
/// stay.
pub proof fn law_assigning_replaces_one_assignment(
    pre: State,
    post: State,
    a: SlotAssignment,
    actor_id: Option<String>,
    previous_person_id: Option<String>,
    now: Timestamp,
)
    requires
        step(
            pre,
            post,
            (DomainEvent::SlotAssigned {
                group_id: a.group_id,
                slot_index: a.slot_index,
                iso_year: a.iso_year,
                iso_week: a.iso_week,
                shift: a.shift,
                person_id: a.person_id,
                source: a.source,
                actor_id,
                previous_person_id,
            }),
            now,
        ),
    ensures
        rest_is_kept(pre, post, Part::Assignments),
        post.slot_assignments@.len() > 0,
        post.slot_assignments@.last() == a,
        loses(
            pre.slot_assignments@,
            post.slot_assignments@.drop_last(),
            |b: SlotAssignment|
                assigns(
                    b,
                    a.group_id@,
                    a.slot_index as int,
                    (Turn { year: a.iso_year, week: a.iso_week, shift: a.shift }),
                ),
        ),
{
    let turn = Turn { year: a.iso_year, week: a.iso_week, shift: a.shift };
    let keep = assignment_beside(a.group_id@, a.slot_index as int, turn);
    let gone = |b: SlotAssignment| assigns(b, a.group_id@, a.slot_index as int, turn);
    lemma_loses(pre.slot_assignments@, keep, gone);
    let kept = pre.slot_assignments@.filter(keep);
    assert(kept.push(a).drop_last() =~= kept);
}

/// The assignment of the same slot and turn after the slot at `index` of a group is gone: the slots
/// after it move up.
pub open spec fn follows_slot(before: SlotAssignment, after: SlotAssignment, group_id: Seq<char>, index: int) -> bool {
    &&& after.group_id == before.group_id
    &&& after.iso_year == before.iso_year
    &&& after.iso_week == before.iso_week
    &&& after.shift == before.shift
    &&& after.person_id == before.person_id
    &&& after.source == before.source
    &&& after.slot_index == if before.group_id@ == group_id && before.slot_index > index {
        before.slot_index - 1
    } else {
        before.slot_index as int
    }
}

/// Whether an assignment is that of a slot that stays.
pub open spec fn comes_from(
    before: Seq<SlotAssignment>,
    after: SlotAssignment,
    group_id: Seq<char>,
    index: int,
) -> bool {
    exists|i: int|
        0 <= i < before.len() && !(before[i].group_id@ == group_id && before[i].slot_index == index)
            && follows_slot(#[trigger] before[i], after, group_id, index)
}

/// Taking a slot out takes its assignments out, and every other assignment keeps naming the same
/// slot.
pub proof fn law_assignments_follow_their_slots(
    pre: State,
    post: State,
    group_id: GroupId,
    slot_id: String,
    index: int,
    now: Timestamp,
)
    requires
        step(pre, post, (DomainEvent::SlotRemoved { group_id, slot_id }), now),
        pre.group(group_id@) is Some,
        0 <= index < pre.group(group_id@)->0.slots@.len(),
        pre.group(group_id@)->0.slots@[index].id@ == slot_id@,
        forall|k: int|
            0 <= k < index ==> (#[trigger] pre.group(group_id@)->0.slots@[k]).id@ != slot_id@,
    ensures
        post.completions == pre.completions,
        post.persons == pre.persons,
        post.group(group_id@) is Some,
        post.group(group_id@)->0.slots@ == pre.group(group_id@)->0.slots@.remove(index),
        forall|i: int|
            0 <= i < pre.slot_assignments@.len() && !((
            #[trigger] pre.slot_assignments@[i]).group_id@ == group_id@
                && pre.slot_assignments@[i].slot_index == index) ==> exists|j: int|
                0 <= j < post.slot_assignments@.len() && follows_slot(
                    pre.slot_assignments@[i],
                    #[trigger] post.slot_assignments@[j],
                    group_id@,
                    index,
                ),
        forall|j: int|
            0 <= j < post.slot_assignments@.len() ==> comes_from(
                pre.slot_assignments@,
                #[trigger] post.slot_assignments@[j],
                group_id@,
                index,
            ),
{
    let p = group_with_id(group_id@);
    let n = place_of(pre, group_id@);
    lemma_first_index_is(pre.cleaning_groups@, p);
    let g = former(pre, group_id@);
    assert(pre.group(group_id@) == Some(g));
    let q = crate::domain::slot_with_id(slot_id@);
    crate::lists::lemma_first_index(g.slots@, q, index);
    let s = pre.slot_assignments@;
    let keep = not_of_slot(group_id@, index);
    let f = repointed(group_id@, index);
    let kept = s.filter(keep);
    let t = post.slot_assignments@;
    lemma_filter(s, keep);
    assert(t == kept.map_values(f));
    let after = post.cleaning_groups@;
    assert forall|k: int| 0 <= k < n implies !p(#[trigger] after[k]) by {
        assert(after[k] == pre.cleaning_groups@[k]);
        assert(!p(pre.cleaning_groups@[k]));
    }
    assert(p(after[n]));
    crate::lists::lemma_first_index(after, p, n);
    assert forall|i: int|
        0 <= i < s.len() && !((#[trigger] s[i]).group_id@ == group_id@ && s[i].slot_index
            == index) implies exists|j: int|
        0 <= j < t.len() && follows_slot(s[i], #[trigger] t[j], group_id@, index) by {
        assert(keep(s[i]));
        let j = choose|j: int| 0 <= j < kept.len() && kept[j] == s[i];
        assert(t[j] == f(kept[j]));
        assert(follows_slot(s[i], t[j], group_id@, index));
    }
    assert forall|j: int| 0 <= j < t.len() implies comes_from(s, #[trigger] t[j], group_id@, index) by {
        assert(keep(kept[j]) && s.contains(kept[j]));
        let i = choose|i: int| 0 <= i < s.len() && s[i] == kept[j];
        assert(t[j] == f(kept[j]));
        assert(follows_slot(s[i], t[j], group_id@, index));
    }
}

// ── Absences ─────────────────────────────────────────────────────────────────

/// Whoever says that they are away is away in as many weeks as they say, from the one they name on;
/// what was known of absences stays.
pub proof fn law_absence_lasts_its_weeks(
    pre: State,
    post: State,
    a: Absence,
    now: Timestamp,
    person: Seq<char>,
    group: Seq<char>,
    year: i32,
    week: u32,
)
    requires
        step(
            pre,
            post,
            (DomainEvent::AbsenceRecorded {
                person_id: a.person_id,
                group_id: a.group_id,
                from_year: a.from_year,
                from_week: a.from_week,
                duration_weeks: a.duration_weeks,
            }),
            now,
        ),
    ensures
        rest_is_kept(pre, post, Part::Absences),
        is_away(post, person, group, year, week) == (is_away(pre, person, group, year, week)
            || covers(a, person, group, year, week)),
{
    let s = pre.absences@;
    let t = post.absences@;
    assert(t == s.push(a));
    if is_away(pre, person, group, year, week) {
        let i = choose|i: int|
            0 <= i < s.len() && covers(#[trigger] s[i], person, group, year, week);
        assert(t[i] == s[i]);
    }
    if covers(a, person, group, year, week) {
        assert(t[t.len() - 1] == a);
    }
    if is_away(post, person, group, year, week) {
        let i = choose|i: int|
            0 <= i < t.len() && covers(#[trigger] t[i], person, group, year, week);
        if i < s.len() {
            assert(t[i] == s[i]);
        }
    }
}

/// Whoever is back is away from no group in no week; others are as before.
pub proof fn law_cancelled_absences_are_over(
    pre: State,
    post: State,
    person_id: String,
    now: Timestamp,
    person: Seq<char>,
    group: Seq<char>,
    year: i32,
    week: u32,
)
    requires
        step(pre, post, (DomainEvent::AbsenceCancelled { person_id }), now),
    ensures
        rest_is_kept(pre, post, Part::Absences),
        is_away(post, person, group, year, week) == (person != person_id@ && is_away(
            pre,
            person,
            group,
            year,
            week,
        )),
{
    let s = pre.absences@;
    let keep = absence_of_others(person_id@);
    let t = post.absences@;
    lemma_filter(s, keep);
    assert(t == s.filter(keep));
    if is_away(post, person, group, year, week) {
        let i = choose|i: int|
            0 <= i < t.len() && covers(#[trigger] t[i], person, group, year, week);
        assert(keep(t[i]) && s.contains(t[i]));
        let k = choose|k: int| 0 <= k < s.len() && s[k] == t[i];
        assert(covers(s[k], person, group, year, week));
    }
    if person != person_id@ && is_away(pre, person, group, year, week) {
        let i = choose|i: int|
            0 <= i < s.len() && covers(#[trigger] s[i], person, group, year, week);
        assert(keep(s[i]));
        let k = choose|k: int| 0 <= k < t.len() && t[k] == s[i];
        assert(covers(t[k], person, group, year, week));
    }
}

// ── Requests to swap ─────────────────────────────────────────────────────────

proof fn lemma_fresh_id(s: Seq<SwapRequest>, i: int)
    requires
        0 <= i < s.len(),
    ensures
        s[i].id < crate::journal::next_swap_id(s),
    decreases s.len(),
{
    if i < s.len() - 1 {
        lemma_fresh_id(s.drop_last(), i);
        assert(s.drop_last()[i] == s[i]);
    }
}

/// A request to swap is open, says who asks whom for which turn, and has an id that no other
/// request has.
pub proof fn law_requests_are_told_apart(
    pre: State,
    post: State,
    group_id: GroupId,
    requester: String,
    target: String,
    turn: Turn,
    slot_index: usize,
    now: Timestamp,
)
    requires
        step(
            pre,
            post,
            (DomainEvent::SwapRequested {
                group_id,
                requester_mxid: requester,
                target_mxid: target,
                iso_year: turn.year,
                iso_week: turn.week,
                shift: turn.shift,
                slot_index,
            }),
            now,
        ),
        forall|i: int|
            0 <= i < pre.swap_requests@.len() ==> (#[trigger] pre.swap_requests@[i]).id < u64::MAX,
    ensures
        rest_is_kept(pre, post, Part::Swaps),
        post.swap_requests@.drop_last() == pre.swap_requests@,
        ({
            let s = post.swap_requests@.last();
            &&& post.swap_requests@.len() == pre.swap_requests@.len() + 1
            &&& s.status is Pending
            &&& s.requester@ == requester@
            &&& s.target@ == target@
            &&& s.group_id@ == group_id@
            &&& s.iso_year == turn.year
            &&& s.iso_week == turn.week
            &&& s.shift == turn.shift
            &&& s.slot_index == slot_index
            &&& forall|i: int|
                0 <= i < pre.swap_requests@.len() ==> (#[trigger] pre.swap_requests@[i]).id != s.id
        }),
{
    let s = pre.swap_requests@;
    let n = crate::journal::next_swap_id(s);
    lemma_next_id_bound(s);
    assert forall|i: int| 0 <= i < s.len() implies (#[trigger] s[i]).id != n as u64 by {
        lemma_fresh_id(s, i);
    }
    assert(post.swap_requests@.drop_last() =~= s);
}

proof fn lemma_next_id_bound(s: Seq<SwapRequest>)
    requires
        forall|i: int| 0 <= i < s.len() ==> (#[trigger] s[i]).id < u64::MAX,
    ensures
        1 <= crate::journal::next_swap_id(s) <= u64::MAX,
    decreases s.len(),
{
    if s.len() > 0 {
        let r = s.drop_last();
        assert forall|i: int| 0 <= i < r.len() implies (#[trigger] r[i]).id < u64::MAX by {
            assert(r[i] == s[i]);
        }
        lemma_next_id_bound(r);
        assert(s[s.len() - 1].id < u64::MAX);
    }
}

/// Whether a request is another one with another state.
pub open spec fn is_answered(before: SwapRequest, after: SwapRequest, status: SwapStatus) -> bool {
    &&& after.status == status
    &&& after.id == before.id
    &&& after.requester == before.requester
    &&& after.target == before.target
    &&& after.group_id == before.group_id
    &&& after.iso_year == before.iso_year
    &&& after.iso_week == before.iso_week
    &&& after.shift == before.shift
    &&& after.slot_index == before.slot_index
}

/// Accepting or turning down a request changes what became of that request, and of no other.
pub proof fn law_one_request_is_answered(
    pre: State,
    post: State,
    e: DomainEvent,
    id: u64,
    now: Timestamp,
    i: int,
)
    requires
        step(pre, post, e, now),
        e is SwapRejected ==> e->SwapRejected_swap_id == id,
        e is SwapApproved ==> e->SwapApproved_swap_id == id,
        e is SwapRejected || e is SwapApproved,
        0 <= i < pre.swap_requests@.len(),
        forall|k: int| 0 <= k < i ==> (#[trigger] pre.swap_requests@[k]).id != id,
    ensures
        rest_is_kept(pre, post, Part::Swaps),
        post.swap_requests@.len() == pre.swap_requests@.len(),
        forall|k: int|
            0 <= k < pre.swap_requests@.len() && pre.swap_requests@[k].id != id ==>
                #[trigger] post.swap_requests@[k] == pre.swap_requests@[k],
        pre.swap_requests@[i].id == id ==> is_answered(
            pre.swap_requests@[i],
            post.swap_requests@[i],
            if e is SwapApproved {
                SwapStatus::Accepted
            } else {
                SwapStatus::Rejected
            },
        ),
{
    let s = pre.swap_requests@;
    let p = swap_with_id(id);
    lemma_some(s, p);
    lemma_first_index_is(s, p);
    if s[i].id == id {
        assert forall|k: int| 0 <= k < i implies !p(#[trigger] s[k]) by {
            assert(s[k].id != id);
        }
        crate::lists::lemma_first_index(s, p, i);
    }
}

// ── Skipping ─────────────────────────────────────────────────────────────────

/// Whether a mark excuses a slot of a week that was open, on behalf of whoever skipped it.
pub open spec fn is_new_excuse(
    pre: State,
    c: Completion,
    group: CleaningGroup,
    by: Seq<char>,
    year: i32,
    week: u32,
    shift: Option<u8>,
    slot_id: Option<String>,
) -> bool {
    &&& c.skipped
    &&& c.completed_by_id@ == by
    &&& c.group_id@ == group.id@
    &&& c.iso_year == year
    &&& c.iso_week == week
    &&& shift is Some ==> c.shift == shift->0
    &&& slot_id is Some ==> c.slot_id is Some && c.slot_id->0@ == slot_id->0@
    &&& exists|k: int|
        0 <= k < places(group) && marks(c, group, k, Turn { year, week, shift: c.shift })
            && !#[trigger] is_marked(pre, group, k, Turn { year, week, shift: c.shift })
}

/// What places of a week are open and are to be excused.
proof fn lemma_places_open(
    pre: State,
    group: CleaningGroup,
    year: i32,
    week: u32,
    shift: Option<u8>,
    slot_id: Option<String>,
    to_shift: int,
    to_slot: int,
    i: int,
)
    requires
        0 <= to_shift <= 7,
        0 <= to_slot <= group.slot_count(),
        to_slot > 0 ==> to_shift < 7,
        0 <= i < open_places(pre.completions@, group, year, week, shift, slot_id, to_shift, to_slot).len(),
    ensures
        ({
            let at = open_places(
                pre.completions@,
                group,
                year,
                week,
                shift,
                slot_id,
                to_shift,
                to_slot,
            )[i];
            &&& 0 <= at.0 < 7
            &&& 0 <= at.1 < group.slot_count()
            &&& shift is Some ==> at.0 == shift->0
            &&& slot_id is Some ==> at.1 < group.slots@.len() && group.slots@[at.1].id@
                == slot_id->0@
            &&& !is_marked(pre, group, at.1, Turn { year, week, shift: at.0 as u8 })
        }),
    decreases to_shift, to_slot,
{
    let c = pre.completions@;
    if to_slot > 0 {
        let r = open_places(c, group, year, week, shift, slot_id, to_shift, to_slot - 1);
        if i < r.len() {
            lemma_places_open(pre, group, year, week, shift, slot_id, to_shift, to_slot - 1, i);
        } else {
            lemma_marked(
                pre,
                group,
                to_slot - 1,
                Turn { year, week, shift: to_shift as u8 },
            );
        }
    } else if to_shift > 0 {
        lemma_places_open(
            pre,
            group,
            year,
            week,
            shift,
            slot_id,
            to_shift - 1,
            group.slot_count() as int,
            i,
        );
    }
}

/// Skipping excuses every open slot of the week, of all shifts or of the given one, of all slots or
/// of the given one, and no others; the marks there were stay.
pub proof fn law_skipping_excuses_what_is_open(
    pre: State,
    post: State,
    group_id: GroupId,
    skipper_id: String,
    year: i32,
    week: u32,
    shift: Option<u8>,
    slot_id: Option<String>,
    now: Timestamp,
)
    requires
        step(
            pre,
            post,
            (DomainEvent::CleaningSkipped {
                group_id,
                skipper_id,
                iso_year: year,
                iso_week: week,
                shift,
                slot_id,
            }),
            now,
        ),
    ensures
        rest_is_kept(pre, post, Part::Marks),
        pre.group(group_id@) is Some,
        post.completions@.len() >= pre.completions@.len(),
        forall|i: int|
            0 <= i < pre.completions@.len() ==> #[trigger] post.completions@[i]
                == pre.completions@[i],
        forall|i: int|
            pre.completions@.len() <= i < post.completions@.len() ==> is_new_excuse(
                pre,
                #[trigger] post.completions@[i],
                pre.group(group_id@)->0,
                skipper_id@,
                year,
                week,
                shift,
                slot_id,
            ),
        forall|s: int, k: int|
            0 <= s < pre.group(group_id@)->0.rhythm.week_shifts().len() && 0 <= k < places(
                pre.group(group_id@)->0,
            ) && (shift is Some ==> s == shift->0) && (slot_id is Some ==> k < pre.group(
                group_id@,
            )->0.slots@.len() && pre.group(group_id@)->0.slots@[k].id@ == slot_id->0@)
                ==> #[trigger] is_marked(
                post,
                pre.group(group_id@)->0,
                k,
                Turn { year, week, shift: s as u8 },
            ),
{
    lemma_first_index_is(pre.cleaning_groups@, group_with_id(group_id@));
    let g = former(pre, group_id@);
    assert(pre.group(group_id@) == Some(g));
    let s = pre.completions@;
    let t = post.completions@;
    let n = g.rhythm.week_shifts().len() as int;
    crate::rhythm::lemma_shift_count(g.rhythm);
    let at = open_places(s, g, year, week, shift, slot_id, n, 0);
    let more = t.skip(s.len() as int);
    assert(g.slot_count() == places(g));
    assert forall|i: int| 0 <= i < s.len() implies #[trigger] t[i] == s[i] by {
        assert(t.take(s.len() as int)[i] == t[i]);
    }
    assert forall|i: int| s.len() <= i < t.len() implies is_new_excuse(
        pre,
        #[trigger] t[i],
        g,
        skipper_id@,
        year,
        week,
        shift,
        slot_id,
    ) by {
        let j = i - s.len();
        lemma_places_open(pre, g, year, week, shift, slot_id, n, 0, j);
        assert(more[j] == t[i]);
        let turn = Turn { year, week, shift: t[i].shift };
        assert(t[i].shift == at[j].0 as u8);
        assert(marks(t[i], g, at[j].1, turn));
        assert(!is_marked(pre, g, at[j].1, turn));
    }
    assert forall|h: int, k: int|
        0 <= h < n && 0 <= k < places(g) && (shift is Some ==> h == shift->0) && (slot_id is Some
            ==> k < g.slots@.len() && g.slots@[k].id@ == slot_id->0@) implies #[trigger] is_marked(
        post,
        g,
        k,
        Turn { year, week, shift: h as u8 },
    ) by {
        crate::journal::lemma_excused(s, t, g, year, week, shift, slot_id, skipper_id@, now, h, k);
        lemma_marked(post, g, k, Turn { year, week, shift: h as u8 });
    }
}

// ── Groups ───────────────────────────────────────────────────────────────────

/// What an event makes of its group, where it changes the group alone.
pub open spec fn becomes(before: CleaningGroup, after: CleaningGroup, e: DomainEvent) -> bool {
    &&& after.id == before.id
    &&& after.name == before.name
    &&& match e {
        DomainEvent::PersonJoinedGroup { person_id, group_id } => {
            &&& forall|p: Seq<char>| #[trigger]
                says(after.member_ids@, p) == (says(before.member_ids@, p) || p == person_id@)
            &&& after.rotation_queue == before.rotation_queue
            &&& after.slots == before.slots
            &&& after.rhythm == before.rhythm
            &&& after.is_active == before.is_active
        },
        DomainEvent::PersonLeftGroup { person_id, group_id } => {
            &&& forall|p: Seq<char>| #[trigger]
                says(after.member_ids@, p) == (says(before.member_ids@, p) && p != person_id@)
            &&& after.rotation_queue == before.rotation_queue
            &&& after.slots == before.slots
            &&& after.rhythm == before.rhythm
            &&& after.is_active == before.is_active
        },
        DomainEvent::RotationQueueSet { group_id, queue } => {
            &&& after.rotation_queue@ == queue@
            &&& after.member_ids == before.member_ids
            &&& after.slots == before.slots
            &&& after.rhythm == before.rhythm
            &&& after.is_active == before.is_active
        },
        DomainEvent::RhythmSet { group_id, rhythm } => {
            &&& after.rhythm.every_weeks == rhythm.every_weeks
            &&& after.rhythm.shift_starts@ == rhythm.shift_starts@
            &&& after.rotation_queue == before.rotation_queue
            &&& after.member_ids == before.member_ids
            &&& after.slots == before.slots
            &&& after.is_active == before.is_active
        },
        DomainEvent::GroupDisabled { group_id } => {
            &&& !after.is_active
            &&& after.rotation_queue == before.rotation_queue
            &&& after.member_ids == before.member_ids
            &&& after.slots == before.slots
            &&& after.rhythm == before.rhythm
        },
        DomainEvent::GroupEnabled { group_id } => {
            &&& after.is_active
            &&& after.rotation_queue == before.rotation_queue
            &&& after.member_ids == before.member_ids
            &&& after.slots == before.slots
            &&& after.rhythm == before.rhythm
        },
        _ => true,
    }
}

/// Whether an event changes its group alone.
pub open spec fn is_of_group(e: DomainEvent, id: Seq<char>) -> bool {
    match e {
        DomainEvent::PersonJoinedGroup { person_id, group_id } => group_id@ == id,
        DomainEvent::PersonLeftGroup { person_id, group_id } => group_id@ == id,
        DomainEvent::RotationQueueSet { group_id, queue } => group_id@ == id,
        DomainEvent::RhythmSet { group_id, rhythm } => group_id@ == id,
        DomainEvent::GroupDisabled { group_id } => group_id@ == id,
        DomainEvent::GroupEnabled { group_id } => group_id@ == id,
        _ => false,
    }
}

proof fn lemma_joined(before: Seq<String>, after: Seq<String>, person: String)
    requires
        after == if says(before, person@) {
            before
        } else {
            before.push(person)
        },
    ensures
        forall|p: Seq<char>| #[trigger]
            says(after, p) == (says(before, p) || p == person@),
{
    assert forall|p: Seq<char>| #[trigger] says(after, p) == (says(before, p) || p == person@) by {
        if says(before, p) {
            let i = choose|i: int| 0 <= i < before.len() && (#[trigger] before[i])@ == p;
            assert(after[i] == before[i]);
        }
        if p == person@ && !says(before, p) {
            assert(after[after.len() - 1] == person);
        }
        if says(after, p) {
            let i = choose|i: int| 0 <= i < after.len() && (#[trigger] after[i])@ == p;
            if i < before.len() {
                assert(before[i] == after[i]);
            }
        }
    }
}

proof fn lemma_left(before: Seq<String>, person: Seq<char>)
    ensures
        forall|p: Seq<char>| #[trigger]
            says(before.filter(crate::journal::other_id(person)), p) == (says(before, p) && p
                != person),
{
    let keep = crate::journal::other_id(person);
    let after = before.filter(keep);
    lemma_filter(before, keep);
    assert forall|p: Seq<char>| #[trigger] says(after, p) == (says(before, p) && p != person) by {
        if says(after, p) {
            let i = choose|i: int| 0 <= i < after.len() && (#[trigger] after[i])@ == p;
            assert(keep(after[i]) && before.contains(after[i]));
            let k = choose|k: int| 0 <= k < before.len() && before[k] == after[i];
            assert(before[k]@ == p);
        }
        if says(before, p) && p != person {
            let i = choose|i: int| 0 <= i < before.len() && (#[trigger] before[i])@ == p;
            assert(keep(before[i]));
            let k = choose|k: int| 0 <= k < after.len() && after[k] == before[i];
            assert(after[k]@ == p);
        }
    }
}

/// An event of a group changes that group as it says, and no other group.
pub proof fn law_one_group_changes(
    pre: State,
    post: State,
    e: DomainEvent,
    id: Seq<char>,
    now: Timestamp,
    k: int,
)
    requires
        step(pre, post, e, now),
        is_of_group(e, id),
        0 <= k < pre.cleaning_groups@.len(),
        pre.cleaning_groups@[k].id@ == id,
        forall|i: int| 0 <= i < k ==> (#[trigger] pre.cleaning_groups@[i]).id@ != id,
    ensures
        rest_is_kept(pre, post, Part::Groups),
        post.cleaning_groups@.len() == pre.cleaning_groups@.len(),
        forall|i: int|
            0 <= i < pre.cleaning_groups@.len() && i != k ==> #[trigger] post.cleaning_groups@[i]
                == pre.cleaning_groups@[i],
        becomes(pre.cleaning_groups@[k], post.cleaning_groups@[k], e),
{
    let gs = pre.cleaning_groups@;
    let p = group_with_id(id);
    assert forall|i: int| 0 <= i < k implies !p(#[trigger] gs[i]) by {
        assert(gs[i].id@ != id);
    }
    crate::lists::lemma_first_index(gs, p, k);
    let g = gs[k];
    let h = post.cleaning_groups@[k];
    match e {
        DomainEvent::PersonJoinedGroup { person_id, group_id } => {
            lemma_joined(g.member_ids@, h.member_ids@, person_id);
        },
        DomainEvent::PersonLeftGroup { person_id, group_id } => {
            lemma_left(g.member_ids@, person_id@);
        },
        _ => {},
    }
}

/// A shift of the week starts on Monday and on each of the weekdays that the rhythm names, and on
/// no other.
pub proof fn law_shifts_start_where_the_rhythm_says(rhythm: Rhythm, weekday: int)
    requires
        0 <= weekday < 7,
    ensures
        (exists|i: int|
            0 <= i < rhythm.week_shifts().len() && (#[trigger] rhythm.week_shifts()[i]).start
                == weekday) == (weekday == 0 || rhythm.shift_starts@.contains(weekday as u8)),
{
    lemma_starts(rhythm.shift_starts@, 0, weekday);
    let s = rhythm.week_shifts();
    let t = crate::rhythm::shifts_from(rhythm.shift_starts@, 0);
    if exists|i: int| 0 <= i < s.len() && (#[trigger] s[i]).start == weekday {
        let i = choose|i: int| 0 <= i < s.len() && (#[trigger] s[i]).start == weekday;
        assert(t[i].start == weekday);
    }
    if exists|i: int| 0 <= i < t.len() && (#[trigger] t[i]).start == weekday {
        let i = choose|i: int| 0 <= i < t.len() && (#[trigger] t[i]).start == weekday;
        assert(s[i].start == weekday);
    }
}

proof fn lemma_starts(starts: Seq<u8>, d: int, weekday: int)
    requires
        0 <= d <= 7,
        0 <= weekday < 7,
    ensures
        (exists|i: int|
            0 <= i < crate::rhythm::shifts_from(starts, d).len() && (
            #[trigger] crate::rhythm::shifts_from(starts, d)[i]).start == weekday) == (d <= weekday
            && (weekday == 0 || starts.contains(weekday as u8))),
    decreases 7 - d,
{
    if d < 7 {
        lemma_starts(starts, d + 1, weekday);
        let s = crate::rhythm::shifts_from(starts, d);
        let r = crate::rhythm::shifts_from(starts, d + 1);
        if crate::rhythm::is_start(starts, d) {
            assert forall|i: int| 0 <= i < r.len() implies #[trigger] r[i] == s[i + 1] by {}
            if d == weekday {
                assert(s[0].start == weekday);
            }
            if exists|i: int| 0 <= i < r.len() && (#[trigger] r[i]).start == weekday {
                let i = choose|i: int| 0 <= i < r.len() && (#[trigger] r[i]).start == weekday;
                assert(s[i + 1].start == weekday);
            }
            if exists|i: int| 0 <= i < s.len() && (#[trigger] s[i]).start == weekday {
                let i = choose|i: int| 0 <= i < s.len() && (#[trigger] s[i]).start == weekday;
                if i > 0 {
                    assert(r[i - 1].start == weekday);
                }
            }
        }
    }
}

// ── Persons ──────────────────────────────────────────────────────────────────

/// Whether an id or a Matrix id is somebody's.
pub open spec fn is_taken_id(state: State, id: Seq<char>, mxid: Option<String>) -> bool {
    exists|i: int|
        0 <= i < state.persons@.len() && ((#[trigger] state.persons@[i]).id@ == id || (mxid is Some
            && state.persons@[i].matrix_id is Some && state.persons@[i].matrix_id->0@ == mxid->0@))
}

/// A person is added to those there are, unless the id or the Matrix id is taken: then nobody is.
pub proof fn law_persons_are_added_once(
    pre: State,
    post: State,
    person_id: String,
    display_name: String,
    matrix_id: Option<String>,
    now: Timestamp,
)
    requires
        step(
            pre,
            post,
            (DomainEvent::PersonCreated { person_id, display_name, matrix_id }),
            now,
        ),
    ensures
        rest_is_kept(pre, post, Part::Persons),
        is_taken_id(pre, person_id@, matrix_id) ==> post.persons == pre.persons,
        !is_taken_id(pre, person_id@, matrix_id) ==> {
            let p = post.persons@.last();
            &&& post.persons@ == pre.persons@.push(p)
            &&& p.id@ == person_id@
            &&& p.display_name@ == display_name@
            &&& p.matrix_id == matrix_id
            &&& p.active
        },
{
    let s = pre.persons@;
    let q = crate::state::person_with_id(person_id@);
    lemma_some(s, q);
    if matrix_id is Some {
        let w = crate::state::person_with_mxid(matrix_id->0@);
        lemma_some(s, w);
        if crate::lists::some(s, w) {
            let i = choose|i: int| 0 <= i < s.len() && w(#[trigger] s[i]);
            assert(is_taken_id(pre, person_id@, matrix_id));
        }
    }
    if crate::lists::some(s, q) {
        let i = choose|i: int| 0 <= i < s.len() && q(#[trigger] s[i]);
        assert(is_taken_id(pre, person_id@, matrix_id));
    }
    if is_taken_id(pre, person_id@, matrix_id) {
        let i = choose|i: int|
            0 <= i < s.len() && ((#[trigger] s[i]).id@ == person_id@ || (matrix_id is Some
                && s[i].matrix_id is Some && s[i].matrix_id->0@ == matrix_id->0@));
        if s[i].id@ == person_id@ {
            assert(q(s[i]));
        } else {
            assert(crate::state::person_with_mxid(matrix_id->0@)(s[i]));
        }
    }
}

/// Linking gives one person a Matrix id, and changes nothing else of anybody.
pub proof fn law_linking_changes_one_person(
    pre: State,
    post: State,
    person_id: String,
    matrix_id: String,
    now: Timestamp,
    i: int,
)
    requires
        step(pre, post, (DomainEvent::PersonMatrixLinked { person_id, matrix_id }), now),
        0 <= i < pre.persons@.len(),
        pre.persons@[i].id@ == person_id@,
        forall|k: int| 0 <= k < i ==> (#[trigger] pre.persons@[k]).id@ != person_id@,
    ensures
        rest_is_kept(pre, post, Part::Persons),
        post.persons@.len() == pre.persons@.len(),
        forall|k: int|
            0 <= k < pre.persons@.len() && k != i ==> #[trigger] post.persons@[k]
                == pre.persons@[k],
        post.persons@[i].id == pre.persons@[i].id,
        post.persons@[i].display_name == pre.persons@[i].display_name,
        post.persons@[i].active == pre.persons@[i].active,
        post.persons@[i].matrix_id is Some,
        post.persons@[i].matrix_id->0@ == matrix_id@,
{
    let s = pre.persons@;
    let q = crate::state::person_with_id(person_id@);
    assert forall|k: int| 0 <= k < i implies !q(#[trigger] s[k]) by {
        assert(s[k].id@ != person_id@);
    }
    crate::lists::lemma_first_index(s, q, i);
}

// ── Setting groups up ────────────────────────────────────────────────────────

/// A new group comes last, active, cleaned every week, with nobody and nothing in it; one whose id
/// is there already is not made again.
pub proof fn law_new_groups_are_empty_and_weekly(
    pre: State,
    post: State,
    group_id: GroupId,
    name: String,
    now: Timestamp,
)
    requires
        step(pre, post, (DomainEvent::GroupCreated { group_id, name }), now),
    ensures
        rest_is_kept(pre, post, Part::Groups),
        (exists|i: int|
            0 <= i < pre.cleaning_groups@.len() && (#[trigger] pre.cleaning_groups@[i]).id@
                == group_id@) ==> post.cleaning_groups == pre.cleaning_groups,
        !(exists|i: int|
            0 <= i < pre.cleaning_groups@.len() && (#[trigger] pre.cleaning_groups@[i]).id@
                == group_id@) ==> {
            let g = post.cleaning_groups@.last();
            &&& post.cleaning_groups@ == pre.cleaning_groups@.push(g)
            &&& g.id@ == group_id@
            &&& g.name@ == name@
            &&& g.is_active
            &&& g.member_ids@.len() == 0
            &&& g.slots@.len() == 0
            &&& g.rhythm.every_weeks == Some(1u32)
            &&& g.rhythm.week_shifts().len() == 1
        },
{
    let s = pre.cleaning_groups@;
    let q = group_with_id(group_id@);
    lemma_some(s, q);
    if exists|i: int| 0 <= i < s.len() && (#[trigger] s[i]).id@ == group_id@ {
        let i = choose|i: int| 0 <= i < s.len() && (#[trigger] s[i]).id@ == group_id@;
        assert(q(s[i]));
    } else {
        let t = post.cleaning_groups@;
        assert(t =~= s.push(t.last()));
        lemma_one_shift(t.last().rhythm.shift_starts@);
    }
}

proof fn lemma_one_shift(starts: Seq<u8>)
    requires
        starts.len() == 0,
    ensures
        crate::rhythm::shifts_from(starts, 0).len() == 1,
{
    reveal_with_fuel(crate::rhythm::shifts_from, 9);
}

/// A slot is added at the end of a group's slots, so that the places of the others stay.
pub proof fn law_slots_are_added_last(
    pre: State,
    post: State,
    group_id: GroupId,
    slot_id: String,
    slot_name: String,
    now: Timestamp,
    k: int,
)
    requires
        step(pre, post, (DomainEvent::SlotAdded { group_id, slot_id, slot_name }), now),
        0 <= k < pre.cleaning_groups@.len(),
        pre.cleaning_groups@[k].id@ == group_id@,
        forall|i: int| 0 <= i < k ==> (#[trigger] pre.cleaning_groups@[i]).id@ != group_id@,
    ensures
        rest_is_kept(pre, post, Part::Groups),
        post.cleaning_groups@.len() == pre.cleaning_groups@.len(),
        forall|i: int|
            0 <= i < pre.cleaning_groups@.len() && i != k ==> #[trigger] post.cleaning_groups@[i]
                == pre.cleaning_groups@[i],
        ({
            let g = pre.cleaning_groups@[k];
            let h = post.cleaning_groups@[k];
            &&& h.slots@ == g.slots@.push(h.slots@.last())
            &&& h.slots@.last().id@ == slot_id@
            &&& h.slots@.last().name@ == slot_name@
            &&& h.member_ids == g.member_ids
            &&& h.rotation_queue == g.rotation_queue
            &&& h.rhythm == g.rhythm
            &&& h.is_active == g.is_active
        }),
{
    let gs = pre.cleaning_groups@;
    let p = group_with_id(group_id@);
    assert forall|i: int| 0 <= i < k implies !p(#[trigger] gs[i]) by {
        assert(gs[i].id@ != group_id@);
    }
    crate::lists::lemma_first_index(gs, p, k);
    let g = gs[k];
    let h = post.cleaning_groups@[k];
    assert(h.slots@ =~= g.slots@.push(h.slots@.last()));
}

/// The rooms of a group, or of the slot with an id.
pub open spec fn rooms_of(g: CleaningGroup, slot_id: Option<String>, k: int) -> Seq<String> {
    match slot_id {
        None => g.room_names@,
        Some(_) => g.slots@[k].room_names@,
    }
}

/// Adding a room to a group or to a slot adds it to the rooms there are, taking one out takes that
/// one out; the rooms elsewhere stay.
pub proof fn law_rooms_come_and_go(
    pre: State,
    post: State,
    group_id: GroupId,
    slot_id: Option<String>,
    room_name: String,
    adds: bool,
    now: Timestamp,
    k: int,
    s: int,
    t: Seq<char>,
)
    requires
        adds ==> step(pre, post, (DomainEvent::RoomAdded { group_id, slot_id, room_name }), now),
        !adds ==> step(
            pre,
            post,
            (DomainEvent::RoomRemoved { group_id, slot_id, room_name }),
            now,
        ),
        0 <= k < pre.cleaning_groups@.len(),
        pre.cleaning_groups@[k].id@ == group_id@,
        forall|i: int| 0 <= i < k ==> (#[trigger] pre.cleaning_groups@[i]).id@ != group_id@,
        slot_id is Some ==> 0 <= s < pre.cleaning_groups@[k].slots@.len()
            && pre.cleaning_groups@[k].slots@[s].id@ == slot_id->0@ && (forall|i: int|
            0 <= i < s ==> (#[trigger] pre.cleaning_groups@[k].slots@[i]).id@ != slot_id->0@),
    ensures
        rest_is_kept(pre, post, Part::Groups),
        says(rooms_of(post.cleaning_groups@[k], slot_id, s), t) == if adds {
            says(rooms_of(pre.cleaning_groups@[k], slot_id, s), t) || t == room_name@
        } else {
            says(rooms_of(pre.cleaning_groups@[k], slot_id, s), t) && t != room_name@
        },
        slot_id is Some ==> post.cleaning_groups@[k].room_names
            == pre.cleaning_groups@[k].room_names,
        slot_id is None ==> post.cleaning_groups@[k].slots == pre.cleaning_groups@[k].slots,
        post.cleaning_groups@[k].member_ids == pre.cleaning_groups@[k].member_ids,
        post.cleaning_groups@.len() == pre.cleaning_groups@.len(),
        forall|i: int|
            0 <= i < pre.cleaning_groups@.len() && i != k ==> #[trigger] post.cleaning_groups@[i]
                == pre.cleaning_groups@[i],
{
    let gs = pre.cleaning_groups@;
    let p = group_with_id(group_id@);
    assert forall|i: int| 0 <= i < k implies !p(#[trigger] gs[i]) by {
        assert(gs[i].id@ != group_id@);
    }
    crate::lists::lemma_first_index(gs, p, k);
    let g = gs[k];
    let h = post.cleaning_groups@[k];
    if slot_id is Some {
        let q = crate::domain::slot_with_id(slot_id->0@);
        assert forall|i: int| 0 <= i < s implies !q(#[trigger] g.slots@[i]) by {
            assert(g.slots@[i].id@ != slot_id->0@);
        }
        crate::lists::lemma_first_index(g.slots@, q, s);
    }
    let before = rooms_of(g, slot_id, s);
    let after = rooms_of(h, slot_id, s);
    if adds {
        assert(after == crate::journal::with_room(before, room_name));
        lemma_joined(before, after, room_name);
        assert(says(after, t) == (says(before, t) || t == room_name@));
    } else {
        let keep = crate::journal::other_room(room_name@);
        assert(keep =~= crate::journal::other_id(room_name@));
        assert(after == before.filter(keep));
        lemma_left(before, room_name@);
        assert(says(before.filter(crate::journal::other_id(room_name@)), t) == (says(before, t) && t
            != room_name@));
    }
}

} // verus!
