//! Linking persons with Matrix accounts.

use vstd::prelude::*;

use crate::analytics::DomainEvent;
use crate::commands::base::{answered, says_only, Answer, CommandError, Request};
use crate::course::step;
use crate::domain::{CleaningGroup, Person, SlotAssignment};
use crate::ids::{is_user_id, reads_as_user_id};
use crate::journal::StateError;
use crate::lists::{first_index, lemma_first_index, lemma_first_index_is, retain, some};
use crate::names::{is_telling, tells_name};
use crate::planning::{is_known, known, leave_group, left};
use crate::state::{group_with_member, person_with_id, Completion, State};
use crate::text::{
    chars_of, contains_text, find_char, join, join_texts, lemma_views_push, option_is, same_text,
    says, views,
};

verus! {

/// An assignment of somebody.
pub open spec fn turn_of_person(id: Seq<char>) -> spec_fn(SlotAssignment) -> bool {
    |a: SlotAssignment| a.person_id is Some && a.person_id->0@ == id
}

/// A mark that somebody made.
pub open spec fn mark_by(id: Seq<char>) -> spec_fn(Completion) -> bool {
    |c: Completion| c.completed_by_id@ == id
}

/// Whether somebody takes part: as a member, with a turn or with a mark.
pub open spec fn takes_part(state: State, id: Seq<char>) -> bool {
    some(state.cleaning_groups@, group_with_member(id)) || some(
        state.slot_assignments@,
        turn_of_person(id),
    ) || some(state.completions@, mark_by(id))
}

/// Whether somebody has made a mark.
fn has_history(state: &State, id: &str) -> (r: bool)
    ensures
        r == some(state.completions@, mark_by(id@)),
{
    let ghost p = mark_by(id@);
    let mut i: usize = 0;
    while i < state.completions.len()
        invariant
            i <= state.completions.len(),
            p == mark_by(id@),
            forall|k: int| 0 <= k < i ==> !p(#[trigger] state.completions@[k]),
        decreases state.completions.len() - i,
    {
        if same_text(state.completions[i].completed_by_id.as_str(), id) {
            proof {
                lemma_first_index(state.completions@, p, i as int);
            }
            return true;
        }
        i += 1;
    }
    proof {
        lemma_first_index(state.completions@, p, i as int);
    }
    false
}

/// Whether somebody takes part: as a member, with a turn or with a mark.
pub fn person_has_activity(state: &State, person_id: &str) -> (r: bool)
    ensures
        r == takes_part(*state, person_id@),
{
    let ghost p = group_with_member(person_id@);
    let mut i: usize = 0;
    while i < state.cleaning_groups.len()
        invariant
            i <= state.cleaning_groups.len(),
            p == group_with_member(person_id@),
            forall|k: int| 0 <= k < i ==> !p(#[trigger] state.cleaning_groups@[k]),
        decreases state.cleaning_groups.len() - i,
    {
        if contains_text(&state.cleaning_groups[i].member_ids, person_id) {
            proof {
                lemma_first_index(state.cleaning_groups@, p, i as int);
            }
            return true;
        }
        i += 1;
    }
    proof {
        lemma_first_index(state.cleaning_groups@, p, i as int);
    }
    let ghost q = turn_of_person(person_id@);
    let mut j: usize = 0;
    while j < state.slot_assignments.len()
        invariant
            j <= state.slot_assignments.len(),
            q == turn_of_person(person_id@),
            forall|k: int| 0 <= k < j ==> !q(#[trigger] state.slot_assignments@[k]),
        decreases state.slot_assignments.len() - j,
    {
        if option_is(&state.slot_assignments[j].person_id, person_id) {
            proof {
                lemma_first_index(state.slot_assignments@, q, j as int);
            }
            return true;
        }
        j += 1;
    }
    proof {
        lemma_first_index(state.slot_assignments@, q, j as int);
    }
    has_history(state, person_id)
}

// ── Whom a name means ────────────────────────────────────────────────────────

/// Whether a name means somebody: it is their id, Matrix id or display name.
pub open spec fn is_meant(p: Person, name: Seq<char>) -> bool {
    p.id@ == name || p.is_called(name)
}

/// The first places of persons whom a name means.
pub open spec fn meant(persons: Seq<Person>, name: Seq<char>, n: nat) -> Seq<int>
    decreases n,
{
    if n == 0 {
        Seq::empty()
    } else {
        let r = meant(persons, name, (n - 1) as nat);
        if is_meant(persons[n - 1], name) {
            r.push(n - 1)
        } else {
            r
        }
    }
}

/// Whether the person at a place has no Matrix account, or none with a valid id; `valid` tells for
/// each person whether their Matrix id is valid.
pub open spec fn unlinked(persons: Seq<Person>, valid: Seq<bool>) -> spec_fn(int) -> bool {
    |i: int| persons[i].matrix_id is None || !valid[i]
}

/// Whether the person at a place takes part.
pub open spec fn taking_part(state: State) -> spec_fn(int) -> bool {
    |i: int| takes_part(state, state.persons@[i].id@)
}

/// Whom to link.
pub enum Candidate {
    /// The person at a place.
    Found(int),
    /// Nobody, and what to say about it.
    Nobody(Seq<char>),
}

/// The person whom a name means and who can be linked. Of several it is the only one who takes
/// part, or, when nobody does, the first; between several who take part nobody is chosen.
pub open spec fn candidate(state: State, name: Seq<char>, valid: Seq<bool>) -> Candidate {
    let all = meant(state.persons@, name, state.persons@.len());
    let open = all.filter(unlinked(state.persons@, valid));
    let busy = open.filter(taking_part(state));
    if all.len() == 0 {
        Candidate::Nobody("No person named «"@ + name + "» found."@)
    } else if open.len() == 0 {
        Candidate::Nobody(
            "«"@ + state.persons@[all[0]].display_name@
                + "» already has a Matrix account linked."@,
        )
    } else if open.len() == 1 || busy.len() == 0 {
        Candidate::Found(open[0])
    } else if busy.len() == 1 {
        Candidate::Found(busy[0])
    } else {
        Candidate::Nobody(
            "Multiple people named «"@ + name
                + "» need a Matrix link and more than one has real activity (group membership, an assignment, or a completion) — refusing to guess. Re-run with the exact PersonId instead of the name: "@
                + join(busy.map_values(|i: int| state.persons@[i].id@), ", "@),
        )
    }
}

/// Finds the person whom a name means and who can be linked.
fn find_candidate(state: &State, name: &str, valid: &Vec<bool>) -> (r: Result<usize, String>)
    requires
        valid@.len() == state.persons@.len(),
    ensures
        match candidate(*state, name@, valid@) {
            Candidate::Found(i) => r is Ok && r->Ok_0 == i && 0 <= i < state.persons@.len(),
            Candidate::Nobody(t) => r is Err && r->Err_0@ == t,
        },
{
    let ghost p = unlinked(state.persons@, valid@);
    let ghost q = taking_part(*state);
    let ghost f = |i: int| state.persons@[i].id@;
    let mut first: Option<usize> = None;
    let mut open: Vec<usize> = Vec::new();
    let mut busy: Vec<usize> = Vec::new();
    let mut ids: Vec<String> = Vec::new();
    let mut i: usize = 0;
    proof {
        reveal(Seq::filter);
        assert(open@.map_values(|k: usize| k as int) =~= Seq::<int>::empty());
        assert(Seq::<int>::empty().filter(p) =~= Seq::<int>::empty());
        assert(Seq::<int>::empty().filter(q) =~= Seq::<int>::empty());
        assert(views(ids@) =~= Seq::<int>::empty().map_values(f));
    }
    while i < state.persons.len()
        invariant
            i <= state.persons.len(),
            valid@.len() == state.persons@.len(),
            p == unlinked(state.persons@, valid@),
            q == taking_part(*state),
            f == (|i: int| state.persons@[i].id@),
            (first is Some) == (meant(state.persons@, name@, i as nat).len() > 0),
            first is Some ==> first->0 < state.persons@.len() && first->0 == meant(
                state.persons@,
                name@,
                i as nat,
            )[0],
            forall|k: int| 0 <= k < open@.len() ==> #[trigger] open@[k] < state.persons@.len(),
            forall|k: int| 0 <= k < busy@.len() ==> #[trigger] busy@[k] < state.persons@.len(),
            open@.map_values(|k: usize| k as int) == meant(
                state.persons@,
                name@,
                i as nat,
            ).filter(p),
            busy@.map_values(|k: usize| k as int) == meant(
                state.persons@,
                name@,
                i as nat,
            ).filter(p).filter(q),
            views(ids@) == meant(state.persons@, name@, i as nat).filter(p).filter(q).map_values(f),
        decreases state.persons.len() - i,
    {
        let x = &state.persons[i];
        let ghost all = meant(state.persons@, name@, i as nat);
        if same_text(x.id.as_str(), name) || x.matches(name) {
            proof {
                lemma_filter_push(all, p, i as int);
            }
            if first.is_none() {
                first = Some(i);
            }
            if x.matrix_id.is_none() || !valid[i] {
                proof {
                    lemma_filter_push(all.filter(p), q, i as int);
                    assert(open@.push(i).map_values(|k: usize| k as int) =~= open@.map_values(
                        |k: usize| k as int,
                    ).push(i as int));
                }
                open.push(i);
                if person_has_activity(state, x.id.as_str()) {
                    let id = x.id.clone();
                    proof {
                        let before = all.filter(p).filter(q);
                        assert(busy@.push(i).map_values(|k: usize| k as int) =~= busy@.map_values(
                            |k: usize| k as int,
                        ).push(i as int));
                        lemma_views_push(ids@, id);
                        assert(before.push(i as int).map_values(f) =~= before.map_values(f).push(
                            id@,
                        ));
                    }
                    busy.push(i);
                    ids.push(id);
                }
            }
        }
        i += 1;
    }
    proof {
        let all = meant(state.persons@, name@, state.persons@.len());
        assert(open@.map_values(|k: usize| k as int).len() == open@.len());
        assert(busy@.map_values(|k: usize| k as int).len() == busy@.len());
        if open@.len() > 0 {
            assert(open@.map_values(|k: usize| k as int)[0] == open@[0]);
        }
        if busy@.len() > 0 {
            assert(busy@.map_values(|k: usize| k as int)[0] == busy@[0]);
        }
    }
    match first {
        None => Err("No person named «".to_owned().concat(name).concat("» found.")),
        Some(k) => if open.len() == 0 {
            Err(
                "«".to_owned().concat(state.persons[k].display_name.as_str()).concat(
                    "» already has a Matrix account linked.",
                ),
            )
        } else if open.len() == 1 || busy.len() == 0 {
            Ok(open[0])
        } else if busy.len() == 1 {
            Ok(busy[0])
        } else {
            Err(
                "Multiple people named «".to_owned().concat(name).concat(
                    "» need a Matrix link and more than one has real activity (group membership, an assignment, or a completion) — refusing to guess. Re-run with the exact PersonId instead of the name: ",
                ).concat(join_texts(&ids, ", ").as_str()),
            )
        },
    }
}

/// Filtering with one element more at the end.
proof fn lemma_filter_push(s: Seq<int>, p: spec_fn(int) -> bool, x: int)
    ensures
        s.push(x).filter(p) == if p(x) {
            s.filter(p).push(x)
        } else {
            s.filter(p)
        },
{
    reveal(Seq::filter);
    assert(s.push(x).drop_last() =~= s);
}

// ── Linking ──────────────────────────────────────────────────────────────────

/// The ids of the groups that somebody is in.
pub open spec fn group_ids_of(state: State, id: Seq<char>) -> Seq<Seq<char>> {
    state.groups_of(id).map_values(|g: CleaningGroup| g.id@)
}

/// Whether states follow each other by somebody leaving groups, one after another.
pub open spec fn leaves_all(
    h: Seq<State>,
    ids: Seq<Seq<char>>,
    person_id: Seq<char>,
    req: Request,
) -> bool {
    &&& 0 < h.len() <= ids.len() + 1
    &&& forall|i: int|
        0 <= i < h.len() - 1 ==> leaves_one(#[trigger] h[i], h[i + 1], ids[i], person_id, req)
}

/// Whether a state became another by somebody leaving a group.
pub open spec fn leaves_one(
    pre: State,
    post: State,
    group_id: Seq<char>,
    person_id: Seq<char>,
    req: Request,
) -> bool {
    match pre.group(group_id) {
        Some(g) => left(pre, post, g, person_id, req.today, req.now),
        None => post == pre,
    }
}

/// Takes somebody out of groups.
fn leave_all(state: &mut State, person_id: &String, ids: &Vec<String>, req: &Request)
    requires
        known(*old(state), req.today),
    ensures
        exists|h: Seq<State>|
            {
                &&& #[trigger] leaves_all(h, views(ids@), person_id@, *req)
                &&& h.len() == ids@.len() + 1
                &&& h[0] == *old(state)
                &&& h.last() == *final(state)
            },
{
    let ghost mut h: Seq<State> = seq![*state];
    let mut i: usize = 0;
    while i < ids.len()
        invariant
            i <= ids.len(),
            known(*state, req.today),
            h.len() == i + 1,
            h[0] == *old(state),
            h.last() == *state,
            leaves_all(h, views(ids@), person_id@, *req),
        decreases ids.len() - i,
    {
        let ghost pre = *state;
        assert(views(ids@)[i as int] == ids@[i as int]@);
        let gone = leave_group(state, person_id, &ids[i], req.today, req.now);
        proof {
            assert(leaves_one(pre, *state, views(ids@)[i as int], person_id@, *req));
            let g = h.push(*state);
            assert forall|k: int| 0 <= k < g.len() - 1 implies leaves_one(
                #[trigger] g[k],
                g[k + 1],
                views(ids@)[k],
                person_id@,
                *req,
            ) by {
                if k < h.len() - 1 {
                    assert(g[k] == h[k]);
                    assert(leaves_one(h[k], h[k + 1], views(ids@)[k], person_id@, *req));
                }
            }
            h = g;
        }
        i += 1;
    }
}

/// Somebody else.
pub open spec fn person_not(id: Seq<char>) -> spec_fn(Person) -> bool {
    |p: Person| p.id@ != id
}

/// Whether the unused record with an account was taken out: it left its groups, one after another,
/// and is gone.
pub open spec fn merged_by(h: Seq<State>, pre: State, mid: State, stub_id: Seq<char>, req: Request) -> bool {
    &&& leaves_all(h, group_ids_of(pre, stub_id), stub_id, req)
    &&& h.len() == group_ids_of(pre, stub_id).len() + 1
    &&& h[0] == pre
    &&& mid == (State { persons: mid.persons, ..h.last() })
    &&& mid.persons@ == h.last().persons@.filter(person_not(stub_id))
}

/// The event that links somebody with an account.
pub open spec fn links(person_id: String, mxid: String) -> DomainEvent {
    DomainEvent::PersonMatrixLinked { person_id, matrix_id: mxid }
}

/// Whether somebody was linked with an account and, when a name is given, renamed.
pub open spec fn linked(
    pre: State,
    post: State,
    person_id: String,
    mxid: String,
    display_name: Option<String>,
    now: crate::calendar::Timestamp,
) -> bool {
    exists|mid: State|
        {
            &&& #[trigger] step(pre, mid, links(person_id, mxid), now)
            &&& match display_name {
                None => post == mid,
                Some(n) => {
                    let i = first_index(mid.persons@, person_with_id(person_id@));
                    &&& post == (State { persons: post.persons, ..mid })
                    &&& post.persons@ == mid.persons@.update(
                        i,
                        Person { display_name: n, ..mid.persons@[i] },
                    )
                },
            }
        }
}

/// What is said of somebody who was linked.
pub open spec fn link_text(name: Seq<char>, mxid: Seq<char>, display_name: Option<String>, repair: bool) -> Seq<char> {
    "✅ "@ + (match display_name {
        Some(n) => n@,
        None => name,
    }) + " ("@ + mxid + ") "@ + (if repair {
        "repaired"@
    } else {
        "linked"@
    }) + ". All previous history preserved."@
}

/// What linking the person with an id does once nobody else has the account.
pub open spec fn link_or_fail(
    pre: State,
    post: State,
    r: Result<String, CommandError>,
    req: Request,
    person: Person,
    name: Seq<char>,
    mxid: String,
    display_name: Option<String>,
) -> bool {
    if pre.person(person.id@) is Some {
        &&& r is Ok
        &&& r->Ok_0@ == link_text(name, mxid@, display_name, person.matrix_id is Some)
        &&& linked(pre, post, person.id, mxid, display_name, req.now)
    } else {
        r == Err::<String, CommandError>(CommandError::Refused(StateError::UnknownPerson)) && post
            == pre
    }
}

/// What `!linkmatrix` does: a person whom a name means gets an account, when they have none with a
/// valid id. A record that has the account already and no mark is taken out first.
pub open spec fn did_link(
    pre: State,
    post: State,
    r: Result<String, CommandError>,
    req: Request,
    name: Seq<char>,
    mxid: String,
    display_name: Option<String>,
    valid: Seq<bool>,
) -> bool {
    if !known(pre, req.today) {
        answered(pre, post, r, Answer::Fails(CommandError::OutOfRange), req.now)
    } else {
        match candidate(pre, name, valid) {
            Candidate::Nobody(t) => says_only(pre, post, r, t),
            Candidate::Found(i) => match pre.person_of(mxid@) {
                None => link_or_fail(
                    pre,
                    post,
                    r,
                    req,
                    pre.persons@[i],
                    name,
                    mxid,
                    display_name,
                ),
                Some(stub) => if some(pre.completions@, mark_by(stub.id@)) {
                    says_only(
                        pre,
                        post,
                        r,
                        mxid@
                            + " is linked to another person who already has cleaning history. Cannot auto-merge."@,
                    )
                } else {
                    merged_and_linked(
                        pre,
                        post,
                        r,
                        req,
                        pre.persons@[i],
                        stub.id@,
                        name,
                        mxid,
                        display_name,
                    )
                },
            },
        }
    }
}

/// What linking somebody does when an unused record has the account: that is taken out first.
pub open spec fn merged_and_linked(
    pre: State,
    post: State,
    r: Result<String, CommandError>,
    req: Request,
    person: Person,
    stub_id: Seq<char>,
    name: Seq<char>,
    mxid: String,
    display_name: Option<String>,
) -> bool {
    exists|h: Seq<State>, mid: State| #[trigger]
        merged_by(h, pre, mid, stub_id, req) && link_or_fail(
            mid,
            post,
            r,
            req,
            person,
            name,
            mxid,
            display_name,
        )
}

/// Links somebody with an account.
fn link(
    state: &mut State,
    req: &Request,
    person: &Person,
    name: &str,
    mxid: &String,
    display_name: &Option<String>,
) -> (r: Result<String, CommandError>)
    ensures
        link_or_fail(
            *old(state),
            *final(state),
            r,
            *req,
            *person,
            name@,
            *mxid,
            *display_name,
        ),
{
    let ghost pre = *state;
    let event = DomainEvent::PersonMatrixLinked {
        person_id: person.id.clone(),
        matrix_id: mxid.clone(),
    };
    match state.apply_event_at(event, req.now) {
        Ok(_) => {},
        Err(e) => {
            return Err(CommandError::Refused(e));
        },
    }
    let ghost mid = *state;
    proof {
        assert(step(pre, mid, links(person.id, *mxid), req.now));
        let p = person_with_id(person.id@);
        lemma_first_index_is(pre.persons@, p);
        let i = first_index(pre.persons@, p);
        assert forall|k: int| 0 <= k < i implies !p(#[trigger] mid.persons@[k]) by {
            assert(!p(pre.persons@[k]));
        }
        lemma_first_index(mid.persons@, p, i);
    }
    let shown: String = match display_name {
        Some(n) => {
            rename(state, person.id.as_str(), n);
            n.clone()
        },
        None => name.to_owned(),
    };
    let verb: &str = if person.matrix_id.is_some() {
        "repaired"
    } else {
        "linked"
    };
    Ok(
        "✅ ".to_owned().concat(shown.as_str()).concat(" (").concat(mxid.as_str()).concat(
            ") ",
        ).concat(verb).concat(". All previous history preserved."),
    )
}

/// Gives the first person with an id a display name.
fn rename(state: &mut State, id: &str, name: &String)
    requires
        old(state).person(id@) is Some,
    ensures
        *final(state) == (State { persons: final(state).persons, ..*old(state) }),
        ({
            let i = first_index(old(state).persons@, person_with_id(id@));
            final(state).persons@ == old(state).persons@.update(
                i,
                Person { display_name: *name, ..old(state).persons@[i] },
            )
        }),
{
    let ghost p = person_with_id(id@);
    let mut i: usize = 0;
    proof {
        lemma_first_index_is(state.persons@, p);
    }
    while !same_text(state.persons[i].id.as_str(), id)
        invariant
            *state == *old(state),
            i < state.persons@.len(),
            p == person_with_id(id@),
            i <= first_index(state.persons@, p) < state.persons@.len(),
            p(state.persons@[first_index(state.persons@, p)]),
            forall|k: int| 0 <= k < i ==> !p(#[trigger] state.persons@[k]),
        decreases state.persons.len() - i,
    {
        i += 1;
    }
    proof {
        lemma_first_index(state.persons@, p, i as int);
    }
    let old_person = &state.persons[i];
    let x = Person {
        id: old_person.id.clone(),
        display_name: name.clone(),
        active: old_person.active,
        matrix_id: old_person.matrix_id.clone(),
    };
    state.persons.set(i, x);
}

/// Lists the ids of the groups that somebody is in.
fn list_group_ids(state: &State, id: &str) -> (r: Vec<String>)
    ensures
        views(r@) == group_ids_of(*state, id@),
{
    let groups = state.groups_for_person(id);
    let ghost all = group_ids_of(*state, id@);
    let mut r: Vec<String> = Vec::new();
    let mut i: usize = 0;
    assert(views(r@) =~= all.take(0));
    while i < groups.len()
        invariant
            i <= groups.len(),
            all == group_ids_of(*state, id@),
            groups@.len() == all.len(),
            forall|k: int|
                0 <= k < groups@.len() ==> *(#[trigger] groups@[k]) == state.groups_of(id@)[k],
            views(r@) == all.take(i as int),
        decreases groups.len() - i,
    {
        let x = groups[i].id.clone();
        proof {
            lemma_views_push(r@, x);
            assert(all.take(i + 1) =~= all.take(i as int).push(x@));
        }
        r.push(x);
        i += 1;
    }
    assert(all.take(i as int) =~= all);
    r
}

/// Links a person whom a name means with an account; `valid` tells for each person whether their
/// Matrix id is valid.
pub fn link_checked(
    state: &mut State,
    req: &Request,
    name: &str,
    mxid: &String,
    display_name: &Option<String>,
    valid: &Vec<bool>,
) -> (r: Result<String, CommandError>)
    requires
        valid@.len() == old(state).persons@.len(),
    ensures
        did_link(
            *old(state),
            *final(state),
            r,
            *req,
            name@,
            *mxid,
            *display_name,
            valid@,
        ),
{
    if !is_known(state, req.today) {
        return Err(CommandError::OutOfRange);
    }
    let i = match find_candidate(state, name, valid) {
        Ok(i) => i,
        Err(t) => {
            return Ok(t);
        },
    };
    let person = state.persons[i].copy();
    let stub_id = match state.person_by_matrix_id(mxid.as_str()) {
        Some(p) => p.id.clone(),
        None => {
            return link(state, req, &person, name, mxid, display_name);
        },
    };
    if has_history(state, stub_id.as_str()) {
        return Ok(
            mxid.clone().concat(
                " is linked to another person who already has cleaning history. Cannot auto-merge.",
            ),
        );
    }
    let ghost pre = *state;
    let ids = list_group_ids(state, stub_id.as_str());
    leave_all(state, &stub_id, &ids, req);
    let ghost h = choose|h: Seq<State>|
        {
            &&& #[trigger] leaves_all(h, views(ids@), stub_id@, *req)
            &&& h.len() == ids@.len() + 1
            &&& h[0] == pre
            &&& h.last() == *state
        };
    let keep = |p: &Person| -> (b: bool)
        ensures
            b == person_not(stub_id@)(*p),
        { !same_text(p.id.as_str(), stub_id.as_str()) };
    retain(&mut state.persons, keep, Ghost(person_not(stub_id@)));
    proof {
        assert(views(ids@).len() == ids@.len());
        assert(merged_by(h, pre, *state, stub_id@, *req));
    }
    link(state, req, &person, name, mxid, display_name)
}

/// For each person whether they have a valid Matrix id.
pub open spec fn valid_ids(persons: Seq<Person>) -> Seq<bool> {
    persons.map_values(|p: Person| p.matrix_id is Some && is_user_id(p.matrix_id->0@))
}

/// Links a person whom a name means with an account, under the display name that the account has.
pub fn apply_linkmatrix(
    state: &mut State,
    req: &Request,
    name: &str,
    mxid: &String,
    display_name: &Option<String>,
) -> (r: Result<String, CommandError>)
    ensures
        did_link(
            *old(state),
            *final(state),
            r,
            *req,
            name@,
            *mxid,
            *display_name,
            valid_ids(old(state).persons@),
        ),
{
    let mut valid: Vec<bool> = Vec::new();
    let mut i: usize = 0;
    assert(valid@ =~= valid_ids(state.persons@).take(0));
    while i < state.persons.len()
        invariant
            i <= state.persons.len(),
            *state == *old(state),
            valid@ == valid_ids(state.persons@).take(i as int),
        decreases state.persons.len() - i,
    {
        let ok: bool = match &state.persons[i].matrix_id {
            Some(m) => reads_as_user_id(m.as_str()),
            None => false,
        };
        assert(valid_ids(state.persons@).take(i + 1) =~= valid_ids(state.persons@).take(
            i as int,
        ).push(ok));
        valid.push(ok);
        i += 1;
    }
    assert(valid_ids(state.persons@).take(i as int) =~= valid_ids(state.persons@));
    link_checked(state, req, name, mxid, display_name, &valid)
}

// ── !member link ─────────────────────────────────────────────────────────────

/// How `!member link` is used.
pub const LINK_USAGE: &'static str = "Usage: !member link <name> <@user:server>";

/// Whether a text looks like a Matrix id.
pub open spec fn looks_like_id(t: Seq<char>) -> bool {
    t.len() > 0 && t[0] == '@' && t.contains(':')
}

/// What is wrong with the arguments of `!member link`, if anything.
pub open spec fn link_fault(args: Seq<String>) -> Option<Seq<char>> {
    if args.len() < 2 {
        Some(LINK_USAGE@)
    } else if !looks_like_id(args[1]@) {
        Some("«"@ + args[1]@ + "» does not look like a Matrix ID (@user:server)."@)
    } else {
        None
    }
}

/// The name that goes with a link: the one that was fetched, unless it says no more than the id.
pub open spec fn link_name(fetched: Option<String>, mxid: Seq<char>) -> Option<String> {
    match fetched {
        Some(n) => if tells_name(n@, mxid) {
            Some(n)
        } else {
            None
        },
        None => None,
    }
}

/// What is wrong with the arguments of `!member link`, if anything.
pub fn find_link_fault(args: &Vec<String>) -> (r: Option<String>)
    ensures
        (r is Some) == (link_fault(args@) is Some),
        r is Some ==> r->0@ == link_fault(args@)->0,
{
    if args.len() < 2 {
        return Some(LINK_USAGE.to_owned());
    }
    let v = chars_of(args[1].as_str());
    let at = find_char(&v, 0, ':');
    proof {
        if v@.contains(':') {
            let k = choose|k: int| 0 <= k < v@.len() && v@[k] == ':';
            assert(k >= at);
        }
        if at < v@.len() {
            assert(v@[at as int] == ':');
        }
    }
    if v.len() > 0 && v[0] == '@' && at < v.len() {
        None
    } else {
        Some(
            "«".to_owned().concat(args[1].as_str()).concat(
                "» does not look like a Matrix ID (@user:server).",
            ),
        )
    }
}

/// What `!member link` does.
pub open spec fn did_link_command(
    pre: State,
    post: State,
    r: Result<String, CommandError>,
    req: Request,
    args: Seq<String>,
    fetched: Option<String>,
    valid: Seq<bool>,
) -> bool {
    if !req.is_admin {
        answered(pre, post, r, Answer::Fails(CommandError::NotAdmin), req.now)
    } else {
        match link_fault(args) {
            Some(t) => says_only(pre, post, r, t),
            None => did_link(
                pre,
                post,
                r,
                req,
                args[0]@,
                args[1],
                link_name(fetched, args[1]@),
                valid,
            ),
        }
    }
}

/// Links somebody on the plan with a Matrix account; `fetched` is the name of that account.
pub fn cmd_linkmatrix(state: &mut State, req: &Request, args: &Vec<String>, fetched: &Option<String>) -> (r:
    Result<String, CommandError>)
    ensures
        did_link_command(
            *old(state),
            *final(state),
            r,
            *req,
            args@,
            *fetched,
            valid_ids(old(state).persons@),
        ),
{
    if !req.is_admin {
        return Err(CommandError::NotAdmin);
    }
    match find_link_fault(args) {
        Some(t) => {
            return Ok(t);
        },
        None => {},
    }
    let name: Option<String> = match fetched {
        Some(n) => if is_telling(n.as_str(), args[1].as_str()) {
            Some(n.clone())
        } else {
            None
        },
        None => None,
    };
    apply_linkmatrix(state, req, args[0].as_str(), &args[1], &name)
}

} // verus!
