//! What holds of imports of plans.

use vstd::prelude::*;

use crate::analytics::{turn_of, DomainEvent};
use crate::calendar::{is_today, Date, Timestamp};
use crate::commands::base::{answered, Answer, CommandError, Request, Target};
use crate::commands::import::{
    additions, claim, claims, clash, complaint, entries, fate, import_answer, import_event,
    import_of, import_target, import_turn, no_option, obstacle, read_entry, readings, replacements,
    unchanged, week_ok, wish, Fate, Import,
};
use crate::course::{freezes_at, law_assignment_reads_back, lemma_ran_pop, plans, ran};
use crate::domain::{AssignmentSource, SlotAssignment};
use crate::journal::assignment_beside;
use crate::lists::{
    filter_map, lemma_filter_out, lemma_filter_push, lemma_filter_through, lemma_first_index_is,
};
use crate::planning::this_week;
use crate::rhythm::Turn;
use crate::state::{assignment_of, State};
use crate::text::{decimal, says};

verus! {

// ── Lists ────────────────────────────────────────────────────────────────────

/// What is made of an element is in the list, and all in the list is made of an element.
pub proof fn lemma_filter_map_has<A, B>(s: Seq<A>, f: spec_fn(A) -> Option<B>)
    ensures
        forall|k: int|
            0 <= k < s.len() && f(#[trigger] s[k]) is Some ==> filter_map(s, f).contains(
                f(s[k])->0,
            ),
        forall|i: int|
            0 <= i < filter_map(s, f).len() ==> exists|k: int|
                0 <= k < s.len() && f(#[trigger] s[k]) == Some(#[trigger] filter_map(s, f)[i]),
    decreases s.len(),
{
    if s.len() > 0 {
        let u = s.drop_last();
        lemma_filter_map_has(u, f);
        let r = filter_map(u, f);
        let t = filter_map(s, f);
        assert forall|k: int| 0 <= k < s.len() && f(#[trigger] s[k]) is Some implies t.contains(
            f(s[k])->0,
        ) by {
            if k < u.len() {
                assert(u[k] == s[k]);
                assert(r.contains(f(u[k])->0));
                let i = choose|i: int| 0 <= i < r.len() && r[i] == f(u[k])->0;
                assert(t[i] == r[i]);
            } else {
                assert(t.last() == f(s[k])->0);
                assert(t[t.len() - 1] == f(s[k])->0);
            }
        }
        assert forall|i: int| 0 <= i < t.len() implies exists|k: int|
            0 <= k < s.len() && f(#[trigger] s[k]) == Some(#[trigger] t[i]) by {
            if i < r.len() {
                assert(t[i] == r[i]);
                let k = choose|k: int|
                    0 <= k < u.len() && f(#[trigger] u[k]) == Some(#[trigger] r[i]);
                assert(s[k] == u[k]);
                assert(f(s[k]) == Some(t[i]));
            } else {
                assert(f(s[s.len() - 1]) == Some(t[i]));
            }
        }
    }
}

/// Nothing comes of elements of which nothing is made.
proof fn lemma_filter_map_none<A, B>(s: Seq<A>, f: spec_fn(A) -> Option<B>)
    requires
        forall|k: int| 0 <= k < s.len() ==> f(#[trigger] s[k]) is None,
    ensures
        filter_map(s, f).len() == 0,
{
    lemma_filter_map_has(s, f);
    if filter_map(s, f).len() > 0 {
        let t = filter_map(s, f);
        let k = choose|k: int| 0 <= k < s.len() && f(#[trigger] s[k]) == Some(#[trigger] t[0]);
        assert(f(s[k]) is None);
    }
}

/// Something comes of every element of which something is made.
proof fn lemma_filter_map_all<A, B>(s: Seq<A>, f: spec_fn(A) -> Option<B>)
    requires
        forall|k: int| 0 <= k < s.len() ==> f(#[trigger] s[k]) is Some,
    ensures
        filter_map(s, f).len() == s.len(),
    decreases s.len(),
{
    if s.len() > 0 {
        let u = s.drop_last();
        assert forall|k: int| 0 <= k < u.len() implies f(#[trigger] u[k]) is Some by {
            assert(u[k] == s[k]);
        }
        lemma_filter_map_all(u, f);
        assert(f(s[s.len() - 1]) is Some);
    }
}

/// When nobody complains of claims, no two entries claim the same for different persons.
proof fn lemma_no_clash(s: Seq<Import>, n: int, i: int, j: int)
    requires
        0 <= i < n <= s.len(),
        i < j < s.len(),
        claims(s, n).len() == 0,
    ensures
        !clash(s[i], s[j]),
    decreases n,
{
    let f = claim(s[n - 1]);
    assert(filter_map(s.skip(n), f).len() == 0);
    assert(claims(s, n - 1).len() == 0);
    if i == n - 1 {
        lemma_filter_map_has(s.skip(n), f);
        assert(s.skip(n)[j - n] == s[j]);
        assert(f(s.skip(n)[j - n]) is None);
    } else {
        lemma_no_clash(s, n - 1, i, j);
    }
}

// ── Events of an import ──────────────────────────────────────────────────────

/// The person that an event gives a turn to.
pub open spec fn given_to(e: DomainEvent) -> Option<String> {
    match e {
        DomainEvent::SlotAssigned {
            group_id,
            slot_index,
            iso_year,
            iso_week,
            shift,
            person_id,
            source,
            actor_id,
            previous_person_id,
        } => person_id,
        _ => None,
    }
}

/// Events that give out turns.
pub open spec fn all_give(events: Seq<DomainEvent>) -> bool {
    forall|i: int| 0 <= i < events.len() ==> (#[trigger] events[i]) is SlotAssigned
}

/// Whether two states differ by nothing but assignments and the log.
pub open spec fn same_people(pre: State, post: State) -> bool {
    post == State {
        slot_assignments: post.slot_assignments,
        event_log: post.event_log,
        last_modified: post.last_modified,
        ..pre
    }
}

/// Giving out turns changes nothing but assignments; a slot of a turn is as it was, or as one of
/// the events that give it out says.
proof fn lemma_given(
    pre: State,
    post: State,
    events: Seq<DomainEvent>,
    now: Timestamp,
    group: Seq<char>,
    slot: int,
    turn: Turn,
)
    requires
        ran(pre, post, events, now),
        all_give(events),
    ensures
        same_people(pre, post),
        ({
            ||| post.assignment(group, slot, turn) == pre.assignment(group, slot, turn) && forall|
                i: int,
            |
                0 <= i < events.len() ==> !freezes_at(#[trigger] events[i], group, slot, turn)
            ||| post.assignment(group, slot, turn) is Some && exists|i: int|
                0 <= i < events.len() && freezes_at(#[trigger] events[i], group, slot, turn)
                    && post.assignment(group, slot, turn)->0.person_id == given_to(events[i])
        }),
    decreases events.len(),
{
    if events.len() == 0 {
        let h = choose|h: Seq<State>| #[trigger]
            crate::course::history(h, events, now) && h[0] == pre && h.last() == post;
        assert(h.len() == 1);
    } else {
        let mid = lemma_ran_pop(pre, post, events, now);
        let es = events.drop_last();
        let e = events.last();
        assert(e == events[events.len() - 1]);
        assert forall|i: int| 0 <= i < es.len() implies (#[trigger] es[i]) is SlotAssigned by {
            assert(es[i] == events[i]);
        }
        lemma_given(pre, mid, es, now, group, slot, turn);
        let a = SlotAssignment {
            group_id: e->SlotAssigned_group_id,
            slot_index: e->SlotAssigned_slot_index,
            iso_year: e->SlotAssigned_iso_year,
            iso_week: e->SlotAssigned_iso_week,
            shift: e->SlotAssigned_shift,
            person_id: e->SlotAssigned_person_id,
            source: e->SlotAssigned_source,
        };
        law_assignment_reads_back(
            mid,
            post,
            a,
            e->SlotAssigned_actor_id,
            e->SlotAssigned_previous_person_id,
            now,
            group,
            slot,
            turn,
        );
        if freezes_at(e, group, slot, turn) {
            assert(turn_of(a) == turn);
            assert(post.assignment(group, slot, turn) == Some(a));
            assert(freezes_at(events[events.len() - 1], group, slot, turn));
        } else {
            assert((group, slot, turn) != (a.group_id@, a.slot_index as int, turn_of(a)));
            if exists|i: int|
                0 <= i < es.len() && freezes_at(#[trigger] es[i], group, slot, turn) && mid.assignment(
                    group,
                    slot,
                    turn,
                )->0.person_id == given_to(es[i]) {
                let i = choose|i: int|
                    0 <= i < es.len() && freezes_at(#[trigger] es[i], group, slot, turn)
                        && mid.assignment(group, slot, turn)->0.person_id == given_to(es[i]);
                assert(events[i] == es[i]);
                assert(freezes_at(events[i], group, slot, turn));
            } else {
                assert forall|i: int| 0 <= i < events.len() implies !freezes_at(
                    #[trigger] events[i],
                    group,
                    slot,
                    turn,
                ) by {
                    if i < es.len() {
                        assert(events[i] == es[i]);
                    }
                }
            }
        }
    }
}

/// The assignments of a slot of a turn that are on record.
pub open spec fn records(state: State, group: Seq<char>, slot: int, turn: Turn) -> Seq<
    SlotAssignment,
> {
    state.slot_assignments@.filter(assignment_of(group, slot, turn))
}

/// The assignment that an event makes.
pub open spec fn made_by(e: DomainEvent) -> SlotAssignment {
    SlotAssignment {
        group_id: e->SlotAssigned_group_id,
        slot_index: e->SlotAssigned_slot_index,
        iso_year: e->SlotAssigned_iso_year,
        iso_week: e->SlotAssigned_iso_week,
        shift: e->SlotAssigned_shift,
        person_id: e->SlotAssigned_person_id,
        source: e->SlotAssigned_source,
    }
}

/// Giving out turns leaves the records of a slot of a turn as they were, or leaves exactly the one
/// that one of the events makes.
proof fn lemma_recorded(
    pre: State,
    post: State,
    events: Seq<DomainEvent>,
    now: Timestamp,
    group: Seq<char>,
    slot: int,
    turn: Turn,
)
    requires
        ran(pre, post, events, now),
        all_give(events),
    ensures
        ({
            ||| records(post, group, slot, turn) == records(pre, group, slot, turn) && forall|
                i: int,
            |
                0 <= i < events.len() ==> !freezes_at(#[trigger] events[i], group, slot, turn)
            ||| exists|i: int|
                0 <= i < events.len() && freezes_at(#[trigger] events[i], group, slot, turn)
                    && records(post, group, slot, turn) == seq![made_by(events[i])]
        }),
    decreases events.len(),
{
    if events.len() == 0 {
        let h = choose|h: Seq<State>| #[trigger]
            crate::course::history(h, events, now) && h[0] == pre && h.last() == post;
        assert(h.len() == 1);
    } else {
        let mid = lemma_ran_pop(pre, post, events, now);
        let n = events.len() - 1;
        let es = events.drop_last();
        let e = events.last();
        assert(e == events[n]);
        assert forall|i: int| 0 <= i < es.len() implies (#[trigger] es[i]) is SlotAssigned by {
            assert(es[i] == events[i]);
        }
        lemma_recorded(pre, mid, es, now, group, slot, turn);
        let a = made_by(e);
        let s = mid.slot_assignments@;
        let p = assignment_beside(a.group_id@, a.slot_index as int, turn_of(a));
        let q = assignment_of(group, slot, turn);
        assert(post.slot_assignments@ == s.filter(p).push(a));
        lemma_filter_push(s.filter(p), a, q);
        if freezes_at(e, group, slot, turn) {
            assert(turn_of(a) == turn);
            lemma_filter_out(s, p, q);
            assert(records(post, group, slot, turn) =~= seq![a]);
            assert(freezes_at(events[n], group, slot, turn));
        } else {
            assert forall|x: SlotAssignment| #[trigger] q(x) implies p(x) by {
                assert(!q(a));
            }
            lemma_filter_through(s, p, q);
            if exists|i: int|
                0 <= i < es.len() && freezes_at(#[trigger] es[i], group, slot, turn) && records(
                    mid,
                    group,
                    slot,
                    turn,
                ) == seq![made_by(es[i])] {
                let i = choose|i: int|
                    0 <= i < es.len() && freezes_at(#[trigger] es[i], group, slot, turn)
                        && records(mid, group, slot, turn) == seq![made_by(es[i])];
                assert(events[i] == es[i]);
                assert(freezes_at(events[i], group, slot, turn));
            } else {
                assert forall|i: int| 0 <= i < events.len() implies !freezes_at(
                    #[trigger] events[i],
                    group,
                    slot,
                    turn,
                ) by {
                    if i < es.len() {
                        assert(events[i] == es[i]);
                    }
                }
            }
        }
    }
}

/// Entries read the same in the same week when nothing but assignments changed.
proof fn lemma_same_reading(
    pre: State,
    post: State,
    today: Date,
    later: Date,
    chunks: Seq<Seq<String>>,
)
    requires
        same_people(pre, post),
        this_week(later) == this_week(today),
    ensures
        readings(post, later, chunks) == readings(pre, today, chunks),
{
    assert forall|i: int| 0 <= i < chunks.len() implies read_entry(post, later, #[trigger] chunks[i])
        == read_entry(pre, today, chunks[i]) by {
        let c = chunks[i];
        assert(import_target(post, c[1]@, c.skip(2)) == import_target(pre, c[1]@, c.skip(2)));
    }
    assert(readings(post, later, chunks) =~= readings(pre, today, chunks));
}

/// Whether a wish is for a slot that there is, in a week whose days can be represented.
pub open spec fn has_place(x: Import) -> bool {
    0 <= x.slot <= usize::MAX && week_ok(x.week)
}

/// The slots of wishes are ones that there are.
proof fn lemma_wish_places(state: State, today: Date, chunks: Seq<Seq<String>>)
    ensures
        forall|k: int|
            0 <= k < filter_map(readings(state, today, chunks), wish()).len() ==> has_place(
                #[trigger] filter_map(readings(state, today, chunks), wish())[k],
            ),
{
    let rs = readings(state, today, chunks);
    let ws = filter_map(rs, wish());
    lemma_filter_map_has(rs, wish());
    assert forall|k: int| 0 <= k < ws.len() implies has_place(#[trigger] ws[k]) by {
        let i = choose|i: int| 0 <= i < rs.len() && wish()(#[trigger] rs[i]) == Some(ws[k]);
        let c = chunks[i];
        assert(rs[i] == read_entry(state, today, c));
        match import_target(state, c[1]@, c.skip(2)) {
            Target::Found(g, slot, used) => {
                let t = c[1]@;
                let at = crate::text::first_at(t, '/');
                let one = crate::domain::slot_named(c.skip(2)[0]@);
                let two = crate::domain::slot_named(t.skip(at + 1));
                lemma_first_index_is(g.slots@, one);
                lemma_first_index_is(g.slots@, two);
                assert(g.slots@.len() == g.slots.len());
                assert(ws[k].slot == slot);
            },
            Target::Wrong(t) => {},
        }
    }
}

/// After an import, what every entry asks for is in the plan.
proof fn lemma_imported(
    pre: State,
    post: State,
    req: Request,
    replace: bool,
    wishes: Seq<Import>,
    k: int,
)
    requires
        claims(wishes, wishes.len() as int).len() == 0,
        filter_map(wishes, obstacle(pre, req.today, replace)).len() == 0,
        forall|i: int| 0 <= i < wishes.len() ==> has_place(#[trigger] wishes[i]),
        ran(
            pre,
            post,
            filter_map(wishes, additions(pre, req, replace)) + filter_map(
                wishes,
                replacements(pre, req, replace),
            ),
            req.now,
        ),
        0 <= k < wishes.len(),
    ensures
        same_people(pre, post),
        fate(post, req.today, replace, wishes[k]) is Same,
{
    let x = wishes[k];
    let turn = import_turn(x, req.today);
    let fa = additions(pre, req, replace);
    let fr = replacements(pre, req, replace);
    let added = filter_map(wishes, fa);
    let moved = filter_map(wishes, fr);
    let events = added + moved;
    lemma_filter_map_has(wishes, fa);
    lemma_filter_map_has(wishes, fr);
    assert forall|i: int| 0 <= i < events.len() implies #[trigger] from_wish(
        events[i],
        wishes,
        req,
    ) by {
        if i < added.len() {
            assert(events[i] == added[i]);
            let j = choose|j: int|
                0 <= j < wishes.len() && fa(#[trigger] wishes[j]) == Some(#[trigger] added[i]);
            assert(events[i] == import_event(req, wishes[j]));
        } else {
            assert(events[i] == moved[i - added.len()]);
            let j = choose|j: int|
                0 <= j < wishes.len() && fr(#[trigger] wishes[j]) == Some(
                    #[trigger] moved[i - added.len()],
                );
            assert(events[i] == import_event(req, wishes[j]));
        }
    }
    assert forall|i: int| 0 <= i < events.len() implies (#[trigger] events[i]) is SlotAssigned by {
        assert(from_wish(events[i], wishes, req));
    }
    lemma_given(pre, post, events, req.now, x.group.id@, x.slot, turn);
    if exists|i: int| 0 <= i < events.len() && freezes_at(
        #[trigger] events[i],
        x.group.id@,
        x.slot,
        turn,
    ) && post.assignment(x.group.id@, x.slot, turn)->0.person_id == given_to(events[i]) {
        let i = choose|i: int|
            0 <= i < events.len() && freezes_at(#[trigger] events[i], x.group.id@, x.slot, turn)
                && post.assignment(x.group.id@, x.slot, turn)->0.person_id == given_to(events[i]);
        assert(from_wish(events[i], wishes, req));
        let j = choose|j: int|
            0 <= j < wishes.len() && events[i] == import_event(req, #[trigger] wishes[j]);
        let y = wishes[j];
        assert(has_place(y));
        assert(y.slot == x.slot);
        assert(y.week == x.week);
        if j < k {
            lemma_no_clash(wishes, wishes.len() as int, j, k);
        } else if k < j {
            lemma_no_clash(wishes, wishes.len() as int, k, j);
        }
        assert(y.person.id@ == x.person.id@);
    } else {
        assert(post.assignment(x.group.id@, x.slot, turn) == pre.assignment(
            x.group.id@,
            x.slot,
            turn,
        ));
        assert(has_place(x));
        lemma_filter_map_has(wishes, obstacle(pre, req.today, replace));
        assert(obstacle(pre, req.today, replace)(wishes[k]) is None);
        assert(freezes_at(import_event(req, x), x.group.id@, x.slot, turn));
        match fate(pre, req.today, replace, x) {
            Fate::Same => {},
            Fate::Fill => {
                assert(fa(wishes[k]) == Some(import_event(req, x)));
                let i = choose|i: int| 0 <= i < added.len() && added[i] == import_event(req, x);
                assert(events[i] == added[i]);
            },
            Fate::Replace(p) => {
                assert(fr(wishes[k]) == Some(import_event(req, x)));
                let i = choose|i: int| 0 <= i < moved.len() && moved[i] == import_event(req, x);
                assert(events[added.len() + i] == moved[i]);
            },
            Fate::Blocked(t) => {},
        }
    }
}

/// Whether an event takes over an entry.
pub open spec fn from_wish(e: DomainEvent, wishes: Seq<Import>, req: Request) -> bool {
    exists|j: int| 0 <= j < wishes.len() && e == import_event(req, #[trigger] wishes[j])
}

/// What the entries of an import ask for.
pub open spec fn wishes_of(state: State, today: Date, args: Seq<String>) -> Seq<Import> {
    filter_map(readings(state, today, entries(args.filter(no_option()))), wish())
}

/// Whether an entry is taken over: it fills an open place or replaces somebody.
pub open spec fn taken_over(state: State, req: Request, args: Seq<String>, x: Import) -> bool {
    fate(state, req.today, says(args, "--replace"@), x) is Fill || fate(
        state,
        req.today,
        says(args, "--replace"@),
        x,
    ) is Replace
}

/// Whether an entry asks for a slot of a turn.
pub open spec fn asks_for(x: Import, today: Date, group: Seq<char>, slot: int, turn: Turn) -> bool {
    x.group.id@ == group && x.slot == slot && import_turn(x, today) == turn
}

/// What is said when all entries are in the plan already.
pub open spec fn nothing_to_do(n: nat) -> Seq<char> {
    "✅ Nothing to do — all "@ + decimal(n) + " entr"@ + (if n == 1 {
        "y"@
    } else {
        "ies"@
    }) + " already imported."@
}

/// The events of an import take over its entries.
proof fn lemma_import_events(pre: State, req: Request, args: Seq<String>)
    ensures
        ({
            let replace = says(args, "--replace"@);
            let wishes = wishes_of(pre, req.today, args);
            let events = filter_map(wishes, additions(pre, req, replace)) + filter_map(
                wishes,
                replacements(pre, req, replace),
            );
            &&& forall|i: int|
                0 <= i < events.len() ==> (#[trigger] events[i]) is SlotAssigned
                    && exists|j: int|
                    0 <= j < wishes.len() && events[i] == import_event(req, #[trigger] wishes[j])
                        && taken_over(pre, req, args, wishes[j])
            &&& forall|j: int|
                0 <= j < wishes.len() && taken_over(pre, req, args, #[trigger] wishes[j])
                    ==> events.contains(import_event(req, wishes[j]))
        }),
{
    let replace = says(args, "--replace"@);
    let wishes = wishes_of(pre, req.today, args);
    let fa = additions(pre, req, replace);
    let fr = replacements(pre, req, replace);
    let added = filter_map(wishes, fa);
    let moved = filter_map(wishes, fr);
    let events = added + moved;
    lemma_filter_map_has(wishes, fa);
    lemma_filter_map_has(wishes, fr);
    assert forall|i: int| 0 <= i < events.len() implies (#[trigger] events[i]) is SlotAssigned
        && exists|j: int|
        0 <= j < wishes.len() && events[i] == import_event(req, #[trigger] wishes[j])
            && taken_over(pre, req, args, wishes[j]) by {
        if i < added.len() {
            assert(events[i] == added[i]);
            let j = choose|j: int|
                0 <= j < wishes.len() && fa(#[trigger] wishes[j]) == Some(#[trigger] added[i]);
            assert(events[i] == import_event(req, wishes[j]) && taken_over(
                pre,
                req,
                args,
                wishes[j],
            ));
        } else {
            assert(events[i] == moved[i - added.len()]);
            let j = choose|j: int|
                0 <= j < wishes.len() && fr(#[trigger] wishes[j]) == Some(
                    #[trigger] moved[i - added.len()],
                );
            assert(events[i] == import_event(req, wishes[j]) && taken_over(
                pre,
                req,
                args,
                wishes[j],
            ));
        }
    }
    assert forall|j: int|
        0 <= j < wishes.len() && taken_over(pre, req, args, #[trigger] wishes[j]) implies events.contains(
        import_event(req, wishes[j]),
    ) by {
        let e = import_event(req, wishes[j]);
        if fa(wishes[j]) is Some {
            let i = choose|i: int| 0 <= i < added.len() && added[i] == e;
            assert(events[i] == e);
        } else {
            assert(fr(wishes[j]) is Some);
            let i = choose|i: int| 0 <= i < moved.len() && moved[i] == e;
            assert(events[added.len() + i] == e);
        }
    }
}

/// An import that was carried out leaves exactly one record of every slot of a turn that it takes
/// over, for the person that the entry names and marked as imported. It takes over nothing that
/// is done, and changes no other assignment, no group, turn order, person or mark.
pub proof fn law_import_records_its_entries(
    pre: State,
    post: State,
    r: Result<String, CommandError>,
    req: Request,
    args: Seq<String>,
)
    requires
        answered(pre, post, r, import_answer(pre, req, args), req.now),
        import_answer(pre, req, args) is Runs,
    ensures
        post.cleaning_groups == pre.cleaning_groups,
        post.persons == pre.persons,
        post.completions == pre.completions,
        forall|k: int|
            0 <= k < wishes_of(pre, req.today, args).len() && taken_over(
                pre,
                req,
                args,
                #[trigger] wishes_of(pre, req.today, args)[k],
            ) ==> {
                let x = wishes_of(pre, req.today, args)[k];
                let turn = import_turn(x, req.today);
                let found = records(post, x.group.id@, x.slot, turn);
                &&& !pre.slot_done(x.group, x.slot, turn)
                &&& found.len() == 1
                &&& found[0].person_id is Some
                &&& found[0].person_id->0@ == x.person.id@
                &&& found[0].source == AssignmentSource::Import
            },
        forall|group: Seq<char>, slot: int, turn: Turn|
            (forall|k: int|
                0 <= k < wishes_of(pre, req.today, args).len() && taken_over(
                    pre,
                    req,
                    args,
                    #[trigger] wishes_of(pre, req.today, args)[k],
                ) ==> !asks_for(
                    wishes_of(pre, req.today, args)[k],
                    req.today,
                    group,
                    slot,
                    turn,
                )) ==> #[trigger] records(post, group, slot, turn) == records(
                pre,
                group,
                slot,
                turn,
            ),
{
    let chunks = entries(args.filter(no_option()));
    let replace = says(args, "--replace"@);
    let wishes = wishes_of(pre, req.today, args);
    let events = filter_map(wishes, additions(pre, req, replace)) + filter_map(
        wishes,
        replacements(pre, req, replace),
    );
    assert(ran(pre, post, events, req.now));
    lemma_import_events(pre, req, args);
    lemma_wish_places(pre, req.today, chunks);
    assert(all_give(events));
    lemma_given(pre, post, events, req.now, Seq::empty(), 0, Turn { year: 0, week: 0, shift: 0 });
    assert forall|k: int|
        0 <= k < wishes.len() && taken_over(pre, req, args, #[trigger] wishes[k]) implies ({
        let x = wishes[k];
        let turn = import_turn(x, req.today);
        let found = records(post, x.group.id@, x.slot, turn);
        &&& !pre.slot_done(x.group, x.slot, turn)
        &&& found.len() == 1
        &&& found[0].person_id is Some
        &&& found[0].person_id->0@ == x.person.id@
        &&& found[0].source == AssignmentSource::Import
    }) by {
        let x = wishes[k];
        let turn = import_turn(x, req.today);
        assert(has_place(x));
        assert(freezes_at(import_event(req, x), x.group.id@, x.slot, turn));
        assert(events.contains(import_event(req, x)));
        lemma_recorded(pre, post, events, req.now, x.group.id@, x.slot, turn);
        let m = choose|m: int| 0 <= m < events.len() && events[m] == import_event(req, x);
        assert(freezes_at(events[m], x.group.id@, x.slot, turn));
        let i = choose|i: int|
            0 <= i < events.len() && freezes_at(#[trigger] events[i], x.group.id@, x.slot, turn)
                && records(post, x.group.id@, x.slot, turn) == seq![made_by(events[i])];
        let j = choose|j: int|
            0 <= j < wishes.len() && events[i] == import_event(req, #[trigger] wishes[j])
                && taken_over(pre, req, args, wishes[j]);
        let y = wishes[j];
        assert(has_place(y));
        assert(y.slot == x.slot && y.week == x.week && y.group.id@ == x.group.id@);
        if j < k {
            lemma_no_clash(wishes, wishes.len() as int, j, k);
        } else if k < j {
            lemma_no_clash(wishes, wishes.len() as int, k, j);
        }
        assert(records(post, x.group.id@, x.slot, turn)[0] == made_by(events[i]));
    }
    assert forall|group: Seq<char>, slot: int, turn: Turn|
        (forall|k: int|
            0 <= k < wishes.len() && taken_over(pre, req, args, #[trigger] wishes[k])
                ==> !asks_for(wishes[k], req.today, group, slot, turn)) implies #[trigger] records(
        post,
        group,
        slot,
        turn,
    ) == records(pre, group, slot, turn) by {
        lemma_recorded(pre, post, events, req.now, group, slot, turn);
        assert forall|i: int| 0 <= i < events.len() implies !freezes_at(
            #[trigger] events[i],
            group,
            slot,
            turn,
        ) by {
            let j = choose|j: int|
                0 <= j < wishes.len() && events[i] == import_event(req, #[trigger] wishes[j])
                    && taken_over(pre, req, args, wishes[j]);
            assert(has_place(wishes[j]));
            assert(!asks_for(wishes[j], req.today, group, slot, turn));
        }
    }
}

/// Doing an import again, in the same week and while every entry means the same turn, changes
/// nothing: every entry is in the plan already, and the answer says so.
pub proof fn law_importing_again_changes_nothing(
    pre: State,
    post: State,
    last: State,
    r: Result<String, CommandError>,
    s: Result<String, CommandError>,
    req: Request,
    again: Request,
    args: Seq<String>,
)
    requires
        answered(pre, post, r, import_answer(pre, req, args), req.now),
        import_answer(pre, req, args) is Runs,
        again.is_admin,
        is_today(again.today.day as int),
        this_week(again.today) == this_week(req.today),
        forall|k: int|
            0 <= k < wishes_of(pre, req.today, args).len() ==> import_turn(
                #[trigger] wishes_of(pre, req.today, args)[k],
                again.today,
            ) == import_turn(wishes_of(pre, req.today, args)[k], req.today),
        answered(post, last, s, import_answer(post, again, args), again.now),
    ensures
        last == post,
        s is Ok,
        s->Ok_0@ == nothing_to_do(wishes_of(pre, req.today, args).len()),
{
    let chunks = entries(args.filter(no_option()));
    let replace = says(args, "--replace"@);
    let rs = readings(pre, req.today, chunks);
    let wishes = wishes_of(pre, req.today, args);
    lemma_wish_places(pre, req.today, chunks);
    let added = filter_map(wishes, additions(pre, req, replace));
    let moved = filter_map(wishes, replacements(pre, req, replace));
    assert(ran(pre, post, added + moved, req.now));
    assert(wishes.len() > 0) by {
        if wishes.len() == 0 {
            assert(added.len() == 0);
            assert(moved.len() == 0);
        }
    }
    lemma_imported(pre, post, req, replace, wishes, 0);
    lemma_same_reading(pre, post, req.today, again.today, chunks);
    let more = additions(post, again, replace);
    let others = replacements(post, again, replace);
    let stops = obstacle(post, again.today, replace);
    let same = unchanged(post, again.today, replace);
    assert forall|k: int| 0 <= k < wishes.len() implies fate(
        post,
        again.today,
        replace,
        #[trigger] wishes[k],
    ) is Same by {
        lemma_imported(pre, post, req, replace, wishes, k);
        assert(import_turn(wishes[k], again.today) == import_turn(wishes[k], req.today));
    }
    assert forall|k: int| 0 <= k < wishes.len() implies more(#[trigger] wishes[k]) is None by {
        assert(fate(post, again.today, replace, wishes[k]) is Same);
    }
    assert forall|k: int| 0 <= k < wishes.len() implies others(#[trigger] wishes[k]) is None by {
        assert(fate(post, again.today, replace, wishes[k]) is Same);
    }
    assert forall|k: int| 0 <= k < wishes.len() implies stops(#[trigger] wishes[k]) is None by {
        assert(fate(post, again.today, replace, wishes[k]) is Same);
    }
    assert forall|k: int| 0 <= k < wishes.len() implies same(#[trigger] wishes[k]) is Some by {
        assert(fate(post, again.today, replace, wishes[k]) is Same);
    }
    lemma_filter_map_none(wishes, more);
    lemma_filter_map_none(wishes, others);
    lemma_filter_map_none(wishes, stops);
    lemma_filter_map_all(wishes, same);
    assert(import_of(post, again, replace, rs) == Answer::Says(nothing_to_do(wishes.len())));
}

/// An import with a problem in any of its entries changes nothing at all.
pub proof fn law_import_is_all_or_nothing(
    pre: State,
    post: State,
    r: Result<String, CommandError>,
    req: Request,
    args: Seq<String>,
    i: int,
)
    requires
        answered(pre, post, r, import_answer(pre, req, args), req.now),
        ({
            let rs = readings(pre, req.today, entries(args.filter(no_option())));
            let wishes = filter_map(rs, wish());
            ||| 0 <= i < rs.len() && rs[i] is Bad
            ||| 0 <= i < wishes.len() && fate(
                pre,
                req.today,
                says(args, "--replace"@),
                wishes[i],
            ) is Blocked
        }),
    ensures
        post == pre,
{
    let rs = readings(pre, req.today, entries(args.filter(no_option())));
    let wishes = filter_map(rs, wish());
    let replace = says(args, "--replace"@);
    lemma_filter_map_has(rs, complaint());
    lemma_filter_map_has(wishes, obstacle(pre, req.today, replace));
    if 0 <= i < rs.len() && rs[i] is Bad {
        assert(complaint()(rs[i]) is Some);
    } else {
        assert(obstacle(pre, req.today, replace)(wishes[i]) is Some);
    }
}

/// Whether a turn is of a week before the current one.
pub open spec fn is_past(turn: Turn, today: Date) -> bool {
    let now = this_week(today);
    turn.year < now.0 || (turn.year == now.0 && turn.week < now.1)
}

/// The entries of an import are of weeks that are not past.
proof fn lemma_wish_weeks(state: State, today: Date, chunks: Seq<Seq<String>>, k: int)
    requires
        0 <= k < filter_map(readings(state, today, chunks), wish()).len(),
    ensures
        ({
            let x = filter_map(readings(state, today, chunks), wish())[k];
            !crate::commands::import::earlier_week(x.week, this_week(today))
        }),
{
    let rs = readings(state, today, chunks);
    let ws = filter_map(rs, wish());
    lemma_filter_map_has(rs, wish());
    let i = choose|i: int| 0 <= i < rs.len() && wish()(#[trigger] rs[i]) == Some(ws[k]);
    assert(rs[i] == read_entry(state, today, chunks[i]));
}

/// An import changes no assignment of a past week, none of a slot that is marked, and, without being
/// told to replace, none that names somebody or nobody already. What it assigns is marked as
/// imported.
pub proof fn law_import_overrides_nothing(
    pre: State,
    post: State,
    r: Result<String, CommandError>,
    req: Request,
    args: Seq<String>,
    a: SlotAssignment,
)
    requires
        answered(pre, post, r, import_answer(pre, req, args), req.now),
    ensures
        ({
            let turn = Turn { year: a.iso_year, week: a.iso_week, shift: a.shift };
            let slot = a.slot_index as int;
            &&& pre.slot_assignments@.contains(a) && (is_past(turn, req.today) || !says(
                args,
                "--replace"@,
            ) || (forall|k: int|
                0 <= k < pre.cleaning_groups@.len() && (#[trigger] pre.cleaning_groups@[k]).id@
                    == a.group_id@ ==> crate::plain::is_marked(
                    pre,
                    pre.cleaning_groups@[k],
                    slot,
                    turn,
                ))) ==> post.slot_assignments@.contains(a)
            &&& post.slot_assignments@.contains(a) && !pre.slot_assignments@.contains(a) ==> a.source
                == AssignmentSource::Import && a.person_id is Some && !is_past(turn, req.today)
        }),
{
    let turn = Turn { year: a.iso_year, week: a.iso_week, shift: a.shift };
    let slot = a.slot_index as int;
    let id = a.group_id@;
    if import_answer(pre, req, args) is Runs {
        law_import_records_its_entries(pre, post, r, req, args);
        let chunks = entries(args.filter(no_option()));
        let wishes = wishes_of(pre, req.today, args);
        let p = assignment_of(id, slot, turn);
        let s = pre.slot_assignments@;
        let t = post.slot_assignments@;
        crate::lists::lemma_filter(s, p);
        crate::lists::lemma_filter(t, p);
        crate::lists::lemma_some(s, p);
        if s.contains(a) {
            let i = choose|i: int| 0 <= i < s.len() && s[i] == a;
            assert(p(s[i]));
            assert(records(pre, id, slot, turn).contains(s[i]));
        }
        if t.contains(a) {
            let i = choose|i: int| 0 <= i < t.len() && t[i] == a;
            assert(p(t[i]));
            assert(records(post, id, slot, turn).contains(t[i]));
        }
        let untouched = forall|k: int|
            0 <= k < wishes.len() && taken_over(pre, req, args, #[trigger] wishes[k]) ==> !asks_for(
                wishes[k],
                req.today,
                id,
                slot,
                turn,
            );
        if untouched {
            assert(records(post, id, slot, turn) == records(pre, id, slot, turn));
            if s.contains(a) {
                let f = records(post, id, slot, turn);
                let i = choose|i: int| 0 <= i < f.len() && f[i] == a;
                assert(t.contains(f[i]));
            }
            if t.contains(a) {
                let f = records(pre, id, slot, turn);
                let i = choose|i: int| 0 <= i < f.len() && f[i] == a;
                assert(s.contains(f[i]));
            }
        } else {
            let k = choose|k: int|
                0 <= k < wishes.len() && taken_over(pre, req, args, #[trigger] wishes[k])
                    && asks_for(wishes[k], req.today, id, slot, turn);
            let x = wishes[k];
            lemma_wish_weeks(pre, req.today, chunks, k);
            lemma_wish_places(pre, req.today, chunks);
            let found = records(post, id, slot, turn);
            assert(found.len() == 1 && found[0].source == AssignmentSource::Import);
            if t.contains(a) {
                let i = choose|i: int| 0 <= i < found.len() && found[i] == a;
                assert(i == 0);
            }
            if s.contains(a) {
                assert(pre.assignment(id, slot, turn) is Some);
                assert(fate(pre, req.today, says(args, "--replace"@), x) is Replace);
            }
            crate::plain::lemma_marked(pre, x.group, slot, turn);
            lemma_wish_group(pre, req.today, chunks, k);
            let g = choose|g: int|
                0 <= g < pre.cleaning_groups@.len() && pre.cleaning_groups@[g] == x.group;
            assert(pre.cleaning_groups@[g].id@ == id);
        }
    }
}

/// The entries of an import are of groups of the state.
proof fn lemma_wish_group(state: State, today: Date, chunks: Seq<Seq<String>>, k: int)
    requires
        0 <= k < filter_map(readings(state, today, chunks), wish()).len(),
    ensures
        state.cleaning_groups@.contains(
            filter_map(readings(state, today, chunks), wish())[k].group,
        ),
{
    let rs = readings(state, today, chunks);
    let ws = filter_map(rs, wish());
    lemma_filter_map_has(rs, wish());
    let i = choose|i: int| 0 <= i < rs.len() && wish()(#[trigger] rs[i]) == Some(ws[k]);
    let c = chunks[i];
    assert(rs[i] == read_entry(state, today, c));
    let t = c[1]@;
    let at = crate::text::first_at(t, '/');
    lemma_first_index_is(state.cleaning_groups@, crate::state::group_named(t));
    lemma_first_index_is(
        state.cleaning_groups@,
        crate::state::group_named(t.subrange(0, at)),
    );
}

} // verus!
