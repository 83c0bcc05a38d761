//! What comes of applying the same events again.

use vstd::prelude::*;

use crate::analytics::{DomainEvent, LoggedEvent};
use crate::calendar::Timestamp;
use crate::course::step;
use crate::domain::{slot_with_id, CleaningGroup, CleaningSlot};
use crate::journal::{
    changed, completion_elsewhere, former, group_needed, is_excuse, is_place_of, mark_of,
    next_swap_id, not_undone, open_places, other_group, place_of, refusal, same_option, skips,
    swap_elsewhere, swap_with_id,
};
use crate::lists::{
    first_index, lemma_filtered, lemma_first_index_is, lemma_index_matched, matched, some,
};
use crate::rhythm::Turn;
use crate::state::{completion_of, group_with_id, Completion, State, SwapRequest};

verus! {

// ── States that are alike ────────────────────────────────────────────────────

/// Whether two slots are the same in all that they hold.
pub open spec fn slots_alike() -> spec_fn(CleaningSlot, CleaningSlot) -> bool {
    |a: CleaningSlot, b: CleaningSlot|
        a.id == b.id && a.name == b.name && a.room_names@ == b.room_names@ && a.room_weights@
            == b.room_weights@ && a.weight == b.weight
}

/// Whether two groups are the same in all that they hold.
pub open spec fn groups_alike() -> spec_fn(CleaningGroup, CleaningGroup) -> bool {
    |a: CleaningGroup, b: CleaningGroup|
        {
            &&& a.id == b.id
            &&& a.name == b.name
            &&& a.member_ids@ == b.member_ids@
            &&& a.rotation_queue@ == b.rotation_queue@
            &&& a.room_names@ == b.room_names@
            &&& a.room_weights@ == b.room_weights@
            &&& matched(a.slots@, b.slots@, slots_alike())
            &&& a.weight == b.weight
            &&& a.rhythm.same_as(b.rhythm)
            &&& a.is_active == b.is_active
        }
}

/// Whether two marks are the same but for the time they were made at.
pub open spec fn marks_alike() -> spec_fn(Completion, Completion) -> bool {
    |a: Completion, b: Completion|
        {
            &&& a.group_id@ == b.group_id@
            &&& same_option(a.slot_id, b.slot_id)
            &&& a.completed_by_id@ == b.completed_by_id@
            &&& a.responsible_person_ids@ == b.responsible_person_ids@
            &&& a.iso_year == b.iso_year
            &&& a.iso_week == b.iso_week
            &&& a.shift == b.shift
            &&& a.skipped == b.skipped
        }
}

/// Whether two requests to swap are the same but for the time they were made at.
pub open spec fn swaps_alike() -> spec_fn(SwapRequest, SwapRequest) -> bool {
    |a: SwapRequest, b: SwapRequest| a == (SwapRequest { created_at: a.created_at, ..b })
}

/// Whether two states hold the same persons, groups with members and turn orders, assignments,
/// marks, swaps and absences, whenever they came about.
pub open spec fn alike(a: State, b: State) -> bool {
    &&& a.persons@ == b.persons@
    &&& matched(a.cleaning_groups@, b.cleaning_groups@, groups_alike())
    &&& a.slot_assignments@ == b.slot_assignments@
    &&& matched(a.completions@, b.completions@, marks_alike())
    &&& matched(a.swap_requests@, b.swap_requests@, swaps_alike())
    &&& a.absences@ == b.absences@
}

/// A group stands at the same place.
proof fn lemma_place_alike(a: State, b: State, id: Seq<char>)
    requires
        alike(a, b),
    ensures
        place_of(a, id) == place_of(b, id),
        (a.group(id) is Some) == (b.group(id) is Some),
        a.group(id) is Some ==> groups_alike()(former(a, id), former(b, id)),
{
    let p = group_with_id(id);
    lemma_index_matched(a.cleaning_groups@, b.cleaning_groups@, groups_alike(), p, p);
    lemma_first_index_is(a.cleaning_groups@, p);
}

/// A slot stands at the same place.
proof fn lemma_slot_alike(g: CleaningGroup, h: CleaningGroup, id: Seq<char>)
    requires
        groups_alike()(g, h),
    ensures
        first_index(g.slots@, slot_with_id(id)) == first_index(h.slots@, slot_with_id(id)),
        some(g.slots@, slot_with_id(id)) ==> slots_alike()(
            g.slots@[first_index(g.slots@, slot_with_id(id))],
            h.slots@[first_index(g.slots@, slot_with_id(id))],
        ),
        0 <= first_index(g.slots@, slot_with_id(id)) <= g.slots@.len(),
{
    let p = slot_with_id(id);
    lemma_index_matched(g.slots@, h.slots@, slots_alike(), p, p);
    lemma_first_index_is(g.slots@, p);
}

/// A request to swap stands at the same place.
proof fn lemma_swap_alike(a: State, b: State, id: u64)
    requires
        alike(a, b),
    ensures
        first_index(a.swap_requests@, swap_with_id(id)) == first_index(
            b.swap_requests@,
            swap_with_id(id),
        ),
{
    let p = swap_with_id(id);
    lemma_index_matched(a.swap_requests@, b.swap_requests@, swaps_alike(), p, p);
}

/// The next request to swap gets the same id.
proof fn lemma_next_swap_alike(s: Seq<SwapRequest>, t: Seq<SwapRequest>)
    requires
        matched(s, t, swaps_alike()),
    ensures
        next_swap_id(s) == next_swap_id(t),
    decreases s.len(),
{
    if s.len() > 0 {
        assert(matched(s.drop_last(), t.drop_last(), swaps_alike()));
        lemma_next_swap_alike(s.drop_last(), t.drop_last());
        assert(swaps_alike()(s[s.len() - 1], t[s.len() - 1]));
    }
}

/// Slots that are open in one state are open in the other.
proof fn lemma_places_alike(
    s: Seq<Completion>,
    t: Seq<Completion>,
    g: CleaningGroup,
    h: CleaningGroup,
    year: i32,
    week: u32,
    shift: Option<u8>,
    slot_id: Option<String>,
    to_shift: int,
    to_slot: int,
)
    requires
        matched(s, t, marks_alike()),
        groups_alike()(g, h),
        0 <= to_slot <= g.slot_count(),
    ensures
        open_places(s, g, year, week, shift, slot_id, to_shift, to_slot) == open_places(
            t,
            h,
            year,
            week,
            shift,
            slot_id,
            to_shift,
            to_slot,
        ),
        forall|i: int|
            0 <= i < open_places(s, g, year, week, shift, slot_id, to_shift, to_slot).len()
                ==> 0 <= (#[trigger] open_places(
                s,
                g,
                year,
                week,
                shift,
                slot_id,
                to_shift,
                to_slot,
            )[i]).1 < g.slot_count(),
    decreases to_shift, to_slot,
{
    if to_slot > 0 {
        let k = to_slot - 1;
        lemma_places_alike(s, t, g, h, year, week, shift, slot_id, to_shift, k);
        let turn = Turn { year, week, shift: to_shift as u8 };
        let r = open_places(s, g, year, week, shift, slot_id, to_shift, k);
        if g.slots@.len() > 0 {
            assert(slots_alike()(g.slots@[k], h.slots@[k]));
        }
        lemma_index_matched(
            s,
            t,
            marks_alike(),
            completion_of(g, k, turn),
            completion_of(h, k, turn),
        );
        assert(skips(g, shift, slot_id, to_shift, k) == skips(h, shift, slot_id, to_shift, k));
        assert forall|i: int| 0 <= i < r.len() && g.slots@.len() > 0 implies g.slots@[(
        #[trigger] r[i]).1].id == h.slots@[r[i].1].id by {
            assert(slots_alike()(g.slots@[r[i].1], h.slots@[r[i].1]));
        }
        assert(is_place_of(r, g, to_shift, k) == is_place_of(r, h, to_shift, k));
        assert(r.push((to_shift, k))[r.len() as int].1 == k);
    } else if to_shift > 0 {
        lemma_places_alike(
            s,
            t,
            g,
            h,
            year,
            week,
            shift,
            slot_id,
            to_shift - 1,
            g.slot_count() as int,
        );
    }
}

// ── The laws ─────────────────────────────────────────────────────────────────

/// States that are alike refuse the same events, for the same reasons.
pub proof fn law_events_are_refused_alike(a: State, b: State, e: DomainEvent)
    requires
        alike(a, b),
    ensures
        refusal(a, e) == refusal(b, e),
{
    match group_needed(e) {
        Some(id) => lemma_place_alike(a, b, id),
        None => match e {
            DomainEvent::SwapApproved { swap_id, .. } => lemma_swap_alike(a, b, swap_id),
            DomainEvent::SwapRejected { swap_id } => lemma_swap_alike(a, b, swap_id),
            _ => {},
        },
    }
}

/// Events about groups act alike.
proof fn lemma_group_event(
    a: State,
    b: State,
    c: State,
    d: State,
    e: DomainEvent,
    now: Timestamp,
    later: Timestamp,
)
    requires
        alike(a, b),
        step(a, c, e, now),
        step(b, d, e, later),
        group_needed(e) is Some,
        !(e is CleaningSkipped),
    ensures
        alike(c, d),
{
    let id = group_needed(e)->0;
    lemma_place_alike(a, b, id);
    let g = former(a, id);
    let h = former(b, id);
    let x = changed(a, c, id);
    let y = changed(b, d, id);
    lemma_first_index_is(a.cleaning_groups@, group_with_id(id));
    match e {
        DomainEvent::SlotAdded { group_id, slot_id, slot_name } => {
            let n = g.slots@.len() as int;
            assert(x.slots@[n].room_names@ =~= y.slots@[n].room_names@);
            assert(x.slots@[n].room_weights@ =~= y.slots@[n].room_weights@);
            assert(x.slots@ =~= g.slots@.push(x.slots@[n]));
            assert(y.slots@ =~= h.slots@.push(y.slots@[n]));
            assert(matched(x.slots@, y.slots@, slots_alike()));
        },
        DomainEvent::SlotRemoved { group_id, slot_id } => {
            lemma_slot_alike(g, h, slot_id@);
            if some(g.slots@, slot_with_id(slot_id@)) {
                assert(matched(x.slots@, y.slots@, slots_alike()));
            }
        },
        DomainEvent::RoomAdded { group_id, slot_id: Some(slot_id), room_name } => {
            lemma_slot_alike(g, h, slot_id@);
            if some(g.slots@, slot_with_id(slot_id@)) {
                assert(matched(x.slots@, y.slots@, slots_alike()));
            }
        },
        DomainEvent::RoomRemoved { group_id, slot_id: Some(slot_id), room_name } => {
            lemma_slot_alike(g, h, slot_id@);
            if some(g.slots@, slot_with_id(slot_id@)) {
                assert(matched(x.slots@, y.slots@, slots_alike()));
            }
        },
        DomainEvent::RoomWeightSet { group_id, slot_id: Some(slot_id), room_name, weight } => {
            lemma_slot_alike(g, h, slot_id@);
            if some(g.slots@, slot_with_id(slot_id@)) {
                assert(matched(x.slots@, y.slots@, slots_alike()));
            }
        },
        _ => {},
    }
    assert(groups_alike()(x, y));
    assert(matched(c.cleaning_groups@, d.cleaning_groups@, groups_alike()));
}

/// Other events act alike.
proof fn lemma_other_event(
    a: State,
    b: State,
    c: State,
    d: State,
    e: DomainEvent,
    now: Timestamp,
    later: Timestamp,
)
    requires
        alike(a, b),
        step(a, c, e, now),
        step(b, d, e, later),
        group_needed(e) is None || e is CleaningSkipped,
    ensures
        alike(c, d),
{
    match e {
        DomainEvent::GroupCreated { group_id, name } => {
            lemma_place_alike(a, b, group_id@);
            if a.group(group_id@) is None {
                let n = a.cleaning_groups@.len() as int;
                let x = c.cleaning_groups@.last();
                let y = d.cleaning_groups@.last();
                assert(x.member_ids@ =~= y.member_ids@);
                assert(x.rotation_queue@ =~= y.rotation_queue@);
                assert(x.room_names@ =~= y.room_names@);
                assert(x.room_weights@ =~= y.room_weights@);
                assert(x.rhythm.shift_starts@ =~= y.rhythm.shift_starts@);
                assert(groups_alike()(c.cleaning_groups@[n], d.cleaning_groups@[n]));
                assert forall|i: int| 0 <= i < n implies groups_alike()(
                    #[trigger] c.cleaning_groups@[i],
                    d.cleaning_groups@[i],
                ) by {
                    assert(c.cleaning_groups@.drop_last()[i] == c.cleaning_groups@[i]);
                    assert(d.cleaning_groups@.drop_last()[i] == d.cleaning_groups@[i]);
                }
            }
        },
        DomainEvent::GroupDeleted { group_id } => {
            lemma_filtered(
                a.cleaning_groups@,
                b.cleaning_groups@,
                groups_alike(),
                other_group(group_id@),
            );
            lemma_filtered(
                a.completions@,
                b.completions@,
                marks_alike(),
                completion_elsewhere(group_id@),
            );
            lemma_filtered(
                a.swap_requests@,
                b.swap_requests@,
                swaps_alike(),
                swap_elsewhere(group_id@),
            );
        },
        DomainEvent::CleaningCompleted {
            group_id,
            slot_id,
            person_id,
            responsible_person_ids,
            iso_year,
            iso_week,
            shift,
        } => {
            let p = mark_of(
                group_id@,
                slot_id,
                Turn { year: iso_year, week: iso_week, shift },
            );
            lemma_index_matched(a.completions@, b.completions@, marks_alike(), p, p);
            if !some(a.completions@, p) {
                assert(c.completions@ =~= a.completions@.push(c.completions@.last()));
                assert(d.completions@ =~= b.completions@.push(d.completions@.last()));
            }
        },
        DomainEvent::CleaningSkipped { group_id, skipper_id, iso_year, iso_week, shift, slot_id } => {
            lemma_skip_alike(a, b, c, d, e, now, later);
        },
        DomainEvent::CleaningUndone { group_id, iso_year, iso_week, shift, slot_id } => {
            lemma_filtered(
                a.completions@,
                b.completions@,
                marks_alike(),
                not_undone(group_id@, iso_year, iso_week, shift, slot_id),
            );
        },
        DomainEvent::SwapRequested { .. } => {
            lemma_next_swap_alike(a.swap_requests@, b.swap_requests@);
        },
        DomainEvent::SwapApproved { swap_id, .. } => {
            lemma_swap_alike(a, b, swap_id);
            lemma_first_index_is(a.swap_requests@, swap_with_id(swap_id));
        },
        DomainEvent::SwapRejected { swap_id } => {
            lemma_swap_alike(a, b, swap_id);
            lemma_first_index_is(a.swap_requests@, swap_with_id(swap_id));
        },
        _ => {},
    }
}

/// Skipping acts alike.
proof fn lemma_skip_alike(
    a: State,
    b: State,
    c: State,
    d: State,
    e: DomainEvent,
    now: Timestamp,
    later: Timestamp,
)
    requires
        alike(a, b),
        step(a, c, e, now),
        step(b, d, e, later),
        e is CleaningSkipped,
    ensures
        alike(c, d),
{
    match e {
        DomainEvent::CleaningSkipped { group_id, skipper_id, iso_year, iso_week, shift, slot_id } => {
            lemma_place_alike(a, b, group_id@);
            let g = former(a, group_id@);
            let h = former(b, group_id@);
            let count = g.rhythm.week_shifts().len() as int;
            assert(h.rhythm.week_shifts() == g.rhythm.week_shifts());
            lemma_places_alike(
                a.completions@,
                b.completions@,
                g,
                h,
                iso_year,
                iso_week,
                shift,
                slot_id,
                count,
                0,
            );
            let places = open_places(
                a.completions@,
                g,
                iso_year,
                iso_week,
                shift,
                slot_id,
                count,
                0,
            );
            let n = a.completions@.len() as int;
            assert forall|i: int| 0 <= i < c.completions@.len() implies marks_alike()(
                #[trigger] c.completions@[i],
                d.completions@[i],
            ) by {
                if i < n {
                    assert(c.completions@.take(n)[i] == c.completions@[i]);
                    assert(d.completions@.take(n)[i] == d.completions@[i]);
                } else {
                    let k = places[i - n].1;
                    let turn = Turn {
                        year: iso_year,
                        week: iso_week,
                        shift: places[i - n].0 as u8,
                    };
                    assert(c.completions@.skip(n)[i - n] == c.completions@[i]);
                    assert(d.completions@.skip(n)[i - n] == d.completions@[i]);
                    assert(is_excuse(c.completions@[i], g, k, turn, skipper_id@, now));
                    assert(is_excuse(d.completions@[i], h, k, turn, skipper_id@, later));
                    assert(c.completions@[i].responsible_person_ids@
                        =~= d.completions@[i].responsible_person_ids@);
                    if g.slots@.len() > 0 {
                        assert(slots_alike()(g.slots@[k], h.slots@[k]));
                    }
                }
            }
        },
        _ => {},
    }
}

/// An event makes states that are alike alike again, at whatever times it is applied.
pub proof fn law_events_act_alike(
    a: State,
    b: State,
    c: State,
    d: State,
    e: DomainEvent,
    now: Timestamp,
    later: Timestamp,
)
    requires
        alike(a, b),
        step(a, c, e, now),
        step(b, d, e, later),
    ensures
        alike(c, d),
{
    if group_needed(e) is Some && !(e is CleaningSkipped) {
        lemma_group_event(a, b, c, d, e, now, later);
    } else {
        lemma_other_event(a, b, c, d, e, now, later);
    }
}

/// Whether states follow each other by the events of a log.
pub open spec fn follows(h: Seq<State>, log: Seq<LoggedEvent>) -> bool {
    &&& h.len() == log.len() + 1
    &&& forall|i: int|
        0 <= i < log.len() ==> step(
            h[i],
            h[i + 1],
            (#[trigger] log[i]).event,
            log[i].timestamp,
        )
}

/// Whether two logs hold the same events.
pub open spec fn same_events(a: Seq<LoggedEvent>, b: Seq<LoggedEvent>) -> bool {
    &&& a.len() == b.len()
    &&& forall|i: int|
        #![trigger a[i]]
        #![trigger b[i]]
        0 <= i < a.len() ==> a[i].event == b[i].event
}

/// What happened to a state is what its log says.
pub proof fn law_the_log_tells_what_happened(h: Seq<State>, log: Seq<LoggedEvent>)
    requires
        follows(h, log),
        h[0].event_log@.len() == 0,
    ensures
        same_events(h.last().event_log@, log),
    decreases log.len(),
{
    if log.len() > 0 {
        let n = log.len() - 1;
        let before = h.drop_last();
        let rest = log.drop_last();
        assert forall|i: int| 0 <= i < rest.len() implies step(
            before[i],
            before[i + 1],
            (#[trigger] rest[i]).event,
            rest[i].timestamp,
        ) by {
            assert(rest[i] == log[i]);
        }
        law_the_log_tells_what_happened(before, rest);
        assert(step(h[n], h[n + 1], log[n].event, log[n].timestamp));
        let t = h.last().event_log@;
        assert forall|i: int| 0 <= i < log.len() implies (#[trigger] t[i]).event
            == log[i].event by {
            if i < n {
                assert(t.drop_last()[i] == t[i]);
                assert(rest[i] == log[i]);
            }
        }
    }
}

/// Applying the same events again, at whatever times, from states that are alike leads to states
/// that are alike.
proof fn lemma_replay(
    h: Seq<State>,
    log: Seq<LoggedEvent>,
    r: Seq<State>,
    again: Seq<LoggedEvent>,
    n: int,
)
    requires
        follows(h, log),
        follows(r, again),
        same_events(log, again),
        alike(h[0], r[0]),
        0 <= n < h.len(),
    ensures
        alike(h[n], r[n]),
    decreases n,
{
    if n > 0 {
        lemma_replay(h, log, r, again, n - 1);
        assert(step(h[n - 1], h[n], log[n - 1].event, log[n - 1].timestamp));
        assert(step(r[n - 1], r[n], again[n - 1].event, again[n - 1].timestamp));
        law_events_act_alike(
            h[n - 1],
            r[n - 1],
            h[n],
            r[n],
            log[n - 1].event,
            log[n - 1].timestamp,
            again[n - 1].timestamp,
        );
    }
}

/// Replaying the log of a state that came about by events alone, from where it began, gives the
/// same persons, groups, turn orders, assignments, marks, swaps and absences.
pub proof fn law_replaying_the_log_gives_the_same_state(
    h: Seq<State>,
    log: Seq<LoggedEvent>,
    r: Seq<State>,
    again: Seq<LoggedEvent>,
)
    requires
        follows(h, log),
        h[0].event_log@.len() == 0,
        follows(r, again),
        same_events(h.last().event_log@, again),
        alike(h[0], r[0]),
    ensures
        alike(h.last(), r.last()),
{
    law_the_log_tells_what_happened(h, log);
    lemma_replay(h, log, r, again, h.len() - 1);
}

} // verus!
