//! Whom linking an account changes.

use vstd::prelude::*;

use crate::analytics::DomainEvent;
use crate::calendar::{Date, Timestamp};
use crate::commands::base::{CommandError, Request};
use crate::commands::link::{
    candidate, did_link, group_ids_of, is_meant, leaves_all, leaves_one, link_or_fail, linked,
    links, mark_by, meant, merged_by, person_not, taking_part, takes_part, turn_of_person, unlinked,
    Candidate,
};
use crate::course::step;
use crate::domain::{CleaningGroup, Person};
use crate::event_laws::law_linking_changes_one_person;
use crate::lists::{lemma_filter, lemma_first_index_is, lemma_some};
use crate::member_laws::{lemma_horizon, lemma_planned_keeps};
use crate::planning::{
    departs_by, horizon_of, known, left, lemma_known, member_removed, removes_member,
};
use crate::state::{group_with_member, person_with_id, person_with_mxid, State};
use crate::text::{same_name, says};

verus! {

/// Whether the person at a place goes by a name and has no account with a valid id.
pub open spec fn is_linkable(state: State, name: Seq<char>, valid: Seq<bool>, i: int) -> bool {
    let p = state.persons@[i];
    &&& 0 <= i < state.persons@.len()
    &&& p.id@ == name || (p.matrix_id is Some && p.matrix_id->0@ == name) || same_name(
        p.display_name@,
        name,
    )
    &&& p.matrix_id is None || !valid[i]
}

/// Whether somebody is in a group, has a turn or has cleaned.
pub open spec fn is_active(state: State, id: Seq<char>) -> bool {
    ||| exists|k: int|
        0 <= k < state.cleaning_groups@.len() && says(
            (#[trigger] state.cleaning_groups@[k]).member_ids@,
            id,
        )
    ||| exists|k: int|
        0 <= k < state.slot_assignments@.len() && (#[trigger] state.slot_assignments@[k]).person_id
            is Some && state.slot_assignments@[k].person_id->0@ == id
    ||| has_cleaned(state, id)
}

/// Whether somebody has cleaned.
pub open spec fn has_cleaned(state: State, id: Seq<char>) -> bool {
    exists|k: int|
        0 <= k < state.completions@.len() && (#[trigger] state.completions@[k]).completed_by_id@
            == id
}

/// Whether the person at a place is the one to link: nobody else who could be is active, and
/// where they are not active either nobody who could be comes before them.
pub open spec fn is_choice(state: State, name: Seq<char>, valid: Seq<bool>, i: int) -> bool {
    &&& is_linkable(state, name, valid, i)
    &&& forall|j: int| #[trigger]
        is_linkable(state, name, valid, j) && j != i ==> !is_active(state, state.persons@[j].id@)
            && (i < j || is_active(state, state.persons@[i].id@))
}

/// Whether the persons are those of before, but for one who got an account and for records with
/// that account of somebody who never cleaned.
pub open spec fn only_links(pre: State, post: State, id: Seq<char>, mxid: Seq<char>) -> bool {
    &&& exists|k: int|
        0 <= k < post.persons@.len() && (#[trigger] post.persons@[k]).id@ == id
            && post.persons@[k].matrix_id is Some && post.persons@[k].matrix_id->0@ == mxid
    &&& forall|k: int|
        0 <= k < post.persons@.len() && (#[trigger] post.persons@[k]).id@ != id
            ==> pre.persons@.contains(post.persons@[k])
    &&& forall|k: int|
        0 <= k < pre.persons@.len() && (#[trigger] pre.persons@[k]).id@ != id
            ==> post.persons@.contains(pre.persons@[k]) || (is_record_of(
            pre,
            pre.persons@[k].id@,
            mxid,
        ) && !has_cleaned(pre, pre.persons@[k].id@))
}

/// Whether a record of somebody has an account.
pub open spec fn is_record_of(state: State, id: Seq<char>, mxid: Seq<char>) -> bool {
    exists|k: int|
        0 <= k < state.persons@.len() && (#[trigger] state.persons@[k]).id@ == id
            && state.persons@[k].matrix_id is Some && state.persons@[k].matrix_id->0@ == mxid
}

/// Taking part is being active.
proof fn lemma_active(state: State, id: Seq<char>)
    ensures
        takes_part(state, id) == is_active(state, id),
        crate::lists::some(state.completions@, mark_by(id)) == has_cleaned(state, id),
{
    let p = group_with_member(id);
    let q = turn_of_person(id);
    let m = mark_by(id);
    lemma_some(state.cleaning_groups@, p);
    lemma_some(state.slot_assignments@, q);
    lemma_some(state.completions@, m);
    assert forall|k: int| 0 <= k < state.cleaning_groups@.len() implies p(
        #[trigger] state.cleaning_groups@[k],
    ) == says(state.cleaning_groups@[k].member_ids@, id) by {}
    if has_cleaned(state, id) {
        let k = choose|k: int|
            0 <= k < state.completions@.len() && (
            #[trigger] state.completions@[k]).completed_by_id@ == id;
        assert(m(state.completions@[k]));
    }
    if takes_part(state, id) {
        if crate::lists::some(state.cleaning_groups@, p) {
            let k = choose|k: int|
                0 <= k < state.cleaning_groups@.len() && p(#[trigger] state.cleaning_groups@[k]);
            assert(says(state.cleaning_groups@[k].member_ids@, id));
        }
    }
    if is_active(state, id) && !has_cleaned(state, id) {
        if exists|k: int|
            0 <= k < state.cleaning_groups@.len() && says(
                (#[trigger] state.cleaning_groups@[k]).member_ids@,
                id,
            ) {
            let k = choose|k: int|
                0 <= k < state.cleaning_groups@.len() && says(
                    (#[trigger] state.cleaning_groups@[k]).member_ids@,
                    id,
                );
            assert(p(state.cleaning_groups@[k]));
        } else {
            let k = choose|k: int|
                0 <= k < state.slot_assignments@.len() && (
                #[trigger] state.slot_assignments@[k]).person_id is Some
                    && state.slot_assignments@[k].person_id->0@ == id;
            assert(q(state.slot_assignments@[k]));
        }
    }
}

/// The places of persons whom a name means, in their order.
proof fn lemma_meant(persons: Seq<Person>, name: Seq<char>, n: nat)
    requires
        n <= persons.len(),
    ensures
        forall|k: int|
            0 <= k < meant(persons, name, n).len() ==> 0 <= #[trigger] meant(persons, name, n)[k]
                < n && is_meant(persons[meant(persons, name, n)[k]], name),
        forall|j: int|
            0 <= j < n && is_meant(#[trigger] persons[j], name) ==> meant(
                persons,
                name,
                n,
            ).contains(j),
        forall|k: int, l: int|
            0 <= k < l < meant(persons, name, n).len() ==> #[trigger] meant(persons, name, n)[k]
                < #[trigger] meant(persons, name, n)[l],
    decreases n,
{
    if n > 0 {
        lemma_meant(persons, name, (n - 1) as nat);
        let a = meant(persons, name, (n - 1) as nat);
        let b = meant(persons, name, n);
        assert forall|j: int| 0 <= j < n && is_meant(#[trigger] persons[j], name) implies b.contains(
            j,
        ) by {
            if j < n - 1 {
                assert(a.contains(j));
                let k = choose|k: int| 0 <= k < a.len() && a[k] == j;
                assert(b[k] == j);
            } else {
                assert(b[b.len() - 1] == j);
            }
        }
    }
}

/// Filtering keeps the order.
proof fn lemma_rising(s: Seq<int>, p: spec_fn(int) -> bool)
    requires
        forall|k: int, l: int| 0 <= k < l < s.len() ==> #[trigger] s[k] < #[trigger] s[l],
    ensures
        forall|k: int, l: int|
            0 <= k < l < s.filter(p).len() ==> #[trigger] s.filter(p)[k] < #[trigger] s.filter(
                p,
            )[l],
    decreases s.len(),
{
    reveal(Seq::filter);
    if s.len() > 0 {
        let u = s.drop_last();
        lemma_rising(u, p);
        lemma_filter(u, p);
        let f = s.filter(p);
        assert forall|k: int, l: int| 0 <= k < l < f.len() implies #[trigger] f[k]
            < #[trigger] f[l] by {
            if l < u.filter(p).len() {
                assert(f[k] == u.filter(p)[k] && f[l] == u.filter(p)[l]);
            } else {
                assert(f[k] == u.filter(p)[k]);
                assert(u.contains(f[k]));
                let m = choose|m: int| 0 <= m < u.len() && u[m] == f[k];
                assert(s[m] < s[s.len() - 1]);
            }
        }
    }
}

/// The one who is chosen.
proof fn lemma_choice(state: State, name: Seq<char>, valid: Seq<bool>, i: int)
    requires
        candidate(state, name, valid) == Candidate::Found(i),
    ensures
        is_choice(state, name, valid, i),
{
    let persons = state.persons@;
    let p = unlinked(persons, valid);
    let q = taking_part(state);
    let all = meant(persons, name, persons.len());
    let open = all.filter(p);
    let busy = open.filter(q);
    lemma_meant(persons, name, persons.len());
    lemma_filter(all, p);
    lemma_rising(all, p);
    lemma_filter(open, q);
    if open.len() == 1 || busy.len() == 0 {
        assert(open[0] == i);
    } else {
        assert(busy[0] == i);
        assert(open.contains(i));
    }
    assert(open.contains(i));
    let o = choose|o: int| 0 <= o < open.len() && open[o] == i;
    assert(p(open[o]) && all.contains(open[o]));
    let m = choose|m: int| 0 <= m < all.len() && all[m] == i;
    assert(is_meant(persons[all[m]], name));
    assert(is_linkable(state, name, valid, i));
    lemma_active(state, persons[i].id@);
    assert forall|j: int| #[trigger]
        is_linkable(state, name, valid, j) && j != i implies !is_active(state, persons[j].id@) && (
    i < j || is_active(state, persons[i].id@)) by {
        lemma_active(state, persons[j].id@);
        assert(is_meant(persons[j], name));
        assert(all.contains(j));
        let a = choose|a: int| 0 <= a < all.len() && all[a] == j;
        assert(p(all[a]));
        assert(open.contains(j));
        let b = choose|b: int| 0 <= b < open.len() && open[b] == j;
        if is_active(state, persons[j].id@) {
            assert(q(open[b]));
            assert(busy.contains(j));
            let c = choose|c: int| 0 <= c < busy.len() && busy[c] == j;
            assert(busy.len() == 1);
            assert(false);
        }
        if open.len() == 1 {
            assert(false);
        } else if busy.len() == 0 {
            assert(open[0] < open[b]);
        } else {
            assert(q(busy[0]));
        }
    }
}

/// Leaving a group changes neither persons nor marks.
proof fn lemma_left_keeps(
    pre: State,
    post: State,
    group: CleaningGroup,
    person_id: Seq<char>,
    today: Date,
    now: Timestamp,
)
    requires
        left(pre, post, group, person_id, today, now),
        today.in_week(),
    ensures
        post.persons == pre.persons,
        post.completions == pre.completions,
{
    let id = group.id@;
    let mid = choose|mid: State| #[trigger]
        member_removed(pre, mid, id, person_id, now) && crate::planning::departed(
            mid,
            post,
            mid.group(id)->0,
            person_id,
            today,
            now,
        );
    let e = choose|e: DomainEvent| #[trigger]
        removes_member(e, id, person_id) && step(pre, mid, e, now);
    let g = mid.group(id)->0;
    let (s, b) = choose|s: State, b: State| #[trigger]
        departs_by(mid, s, b, post, g, person_id, today, now);
    let f = choose|f: DomainEvent| #[trigger]
        crate::resolver::stores_queue(f, g.id@, crate::resolver::turn_order(s, g)) && step(
            s,
            b,
            f,
            now,
        );
    lemma_horizon(b, b.group(g.id@)->0, today);
    lemma_planned_keeps(b, post, today, horizon_of(b, b.group(g.id@)->0, today), now);
}

/// Leaving groups changes neither persons nor marks.
proof fn lemma_leaves_keep(h: Seq<State>, ids: Seq<Seq<char>>, person_id: Seq<char>, req: Request, n: int)
    requires
        leaves_all(h, ids, person_id, req),
        req.today.in_week(),
        0 <= n < h.len(),
    ensures
        h[n].persons == h[0].persons,
        h[n].completions == h[0].completions,
    decreases n,
{
    if n > 0 {
        lemma_leaves_keep(h, ids, person_id, req, n - 1);
        assert(leaves_one(h[n - 1], h[n - 1 + 1], ids[n - 1], person_id, req));
        match h[n - 1].group(ids[n - 1]) {
            Some(g) => lemma_left_keeps(h[n - 1], h[n], g, person_id, req.today, req.now),
            None => {},
        }
    }
}

/// Linking changes one person.
proof fn lemma_linked(
    pre: State,
    post: State,
    person_id: String,
    mxid: String,
    display_name: Option<String>,
    now: Timestamp,
) -> (i: int)
    requires
        linked(pre, post, person_id, mxid, display_name, now),
        pre.person(person_id@) is Some,
    ensures
        post.completions == pre.completions,
        post.cleaning_groups == pre.cleaning_groups,
        post.slot_assignments == pre.slot_assignments,
        0 <= i < pre.persons@.len(),
        post.persons@.len() == pre.persons@.len(),
        post.persons@[i].id@ == person_id@,
        pre.persons@[i].id@ == person_id@,
        post.persons@[i].matrix_id is Some,
        post.persons@[i].matrix_id->0@ == mxid@,
        forall|k: int|
            0 <= k < pre.persons@.len() && k != i ==> #[trigger] post.persons@[k]
                == pre.persons@[k],
{
    let mid = choose|mid: State|
        {
            &&& #[trigger] step(pre, mid, links(person_id, mxid), now)
            &&& match display_name {
                None => post == mid,
                Some(n) => {
                    let i = crate::lists::first_index(mid.persons@, person_with_id(person_id@));
                    &&& post == (State { persons: post.persons, ..mid })
                    &&& post.persons@ == mid.persons@.update(
                        i,
                        Person { display_name: n, ..mid.persons@[i] },
                    )
                },
            }
        };
    let q = person_with_id(person_id@);
    lemma_first_index_is(pre.persons@, q);
    let i = crate::lists::first_index(pre.persons@, q);
    assert forall|k: int| 0 <= k < i implies (#[trigger] pre.persons@[k]).id@ != person_id@ by {
        assert(!q(pre.persons@[k]));
    }
    law_linking_changes_one_person(pre, mid, person_id, mxid, now, i);
    assert forall|k: int| 0 <= k < i implies !q(#[trigger] mid.persons@[k]) by {
        assert(mid.persons@[k] == pre.persons@[k]);
    }
    crate::lists::lemma_first_index(mid.persons@, q, i);
    assert forall|k: int| 0 <= k < pre.persons@.len() && k != i implies #[trigger] post.persons@[k]
        == pre.persons@[k] by {
        assert(mid.persons@[k] == pre.persons@[k]);
    }
    i
}

/// Linking leaves everybody else alone.
proof fn lemma_links_one(pre: State, mid: State, post: State, id: Seq<char>, mxid: Seq<char>, i: int)
    requires
        0 <= i < mid.persons@.len(),
        post.persons@.len() == mid.persons@.len(),
        post.persons@[i].id@ == id,
        mid.persons@[i].id@ == id,
        post.persons@[i].matrix_id is Some,
        post.persons@[i].matrix_id->0@ == mxid,
        forall|k: int|
            0 <= k < mid.persons@.len() && k != i ==> #[trigger] post.persons@[k]
                == mid.persons@[k],
        forall|k: int|
            0 <= k < mid.persons@.len() ==> pre.persons@.contains(#[trigger] mid.persons@[k]),
        forall|k: int|
            0 <= k < pre.persons@.len() && !mid.persons@.contains(#[trigger] pre.persons@[k])
                ==> is_record_of(pre, pre.persons@[k].id@, mxid) && !has_cleaned(
                pre,
                pre.persons@[k].id@,
            ),
    ensures
        only_links(pre, post, id, mxid),
{
    assert forall|k: int|
        0 <= k < post.persons@.len() && (#[trigger] post.persons@[k]).id@
            != id implies pre.persons@.contains(post.persons@[k]) by {
        assert(k != i);
        assert(post.persons@[k] == mid.persons@[k]);
    }
    assert forall|k: int|
        0 <= k < pre.persons@.len() && (#[trigger] pre.persons@[k]).id@
            != id implies post.persons@.contains(pre.persons@[k]) || (is_record_of(
        pre,
        pre.persons@[k].id@,
        mxid,
    ) && !has_cleaned(pre, pre.persons@[k].id@)) by {
        if mid.persons@.contains(pre.persons@[k]) {
            let m = choose|m: int|
                0 <= m < mid.persons@.len() && mid.persons@[m] == pre.persons@[k];
            assert(m != i);
            assert(post.persons@[m] == mid.persons@[m]);
        }
    }
}

/// An account goes to somebody who goes by the name, who has none that is valid, and besides whom
/// nobody like that is in a group, has a turn or has cleaned. All marks stay, and so does everybody
/// else, but for records of the account itself that never cleaned.
pub proof fn law_accounts_go_to_who_was_meant(
    pre: State,
    post: State,
    r: Result<String, CommandError>,
    req: Request,
    name: Seq<char>,
    mxid: String,
    display_name: Option<String>,
    valid: Seq<bool>,
)
    requires
        did_link(pre, post, r, req, name, mxid, display_name, valid),
        r is Ok,
        post != pre,
    ensures
        exists|i: int| #[trigger]
            is_choice(pre, name, valid, i) && only_links(pre, post, pre.persons@[i].id@, mxid@),
        post.completions == pre.completions,
{
    lemma_known(pre, req.today);
    let i = match candidate(pre, name, valid) {
        Candidate::Found(i) => i,
        Candidate::Nobody(t) => 0,
    };
    lemma_choice(pre, name, valid, i);
    let person = pre.persons@[i];
    match pre.person_of(mxid@) {
        None => {
            let k = lemma_linked(pre, post, person.id, mxid, display_name, req.now);
            lemma_links_one(pre, pre, post, person.id@, mxid@, k);
        },
        Some(stub) => {
            lemma_active(pre, stub.id@);
            let (h, mid) = choose|h: Seq<State>, mid: State| #[trigger]
                merged_by(h, pre, mid, stub.id@, req) && link_or_fail(
                    mid,
                    post,
                    r,
                    req,
                    person,
                    name,
                    mxid,
                    display_name,
                );
            lemma_leaves_keep(h, group_ids_of(pre, stub.id@), stub.id@, req, h.len() - 1);
            let keep = person_not(stub.id@);
            lemma_filter(pre.persons@, keep);
            lemma_first_index_is(pre.persons@, person_with_mxid(mxid@));
            let s = crate::lists::first_index(pre.persons@, person_with_mxid(mxid@));
            assert(pre.persons@[s] == stub);
            assert(is_record_of(pre, stub.id@, mxid@));
            assert forall|k: int|
                0 <= k < pre.persons@.len() && !mid.persons@.contains(
                    #[trigger] pre.persons@[k],
                ) implies is_record_of(pre, pre.persons@[k].id@, mxid@) && !has_cleaned(
                pre,
                pre.persons@[k].id@,
            ) by {
                assert(!keep(pre.persons@[k]));
            }
            let k = lemma_linked(mid, post, person.id, mxid, display_name, req.now);
            lemma_links_one(pre, mid, post, person.id@, mxid@, k);
        },
    }
}

/// Where there is one to choose, they are chosen.
proof fn lemma_chosen(state: State, name: Seq<char>, valid: Seq<bool>, i: int)
    requires
        is_choice(state, name, valid, i),
    ensures
        candidate(state, name, valid) == Candidate::Found(i),
{
    let persons = state.persons@;
    let p = unlinked(persons, valid);
    let q = taking_part(state);
    let all = meant(persons, name, persons.len());
    let open = all.filter(p);
    let busy = open.filter(q);
    lemma_meant(persons, name, persons.len());
    lemma_filter(all, p);
    lemma_rising(all, p);
    lemma_filter(open, q);
    lemma_rising(open, q);
    assert(is_meant(persons[i], name));
    assert(all.contains(i));
    let a = choose|a: int| 0 <= a < all.len() && all[a] == i;
    assert(p(all[a]));
    assert(open.contains(i));
    if busy.len() >= 2 {
        assert(busy[0] < busy[1]);
        let x = if busy[0] == i {
            busy[1]
        } else {
            busy[0]
        };
        assert(busy.contains(x));
        let c = choose|c: int| 0 <= c < busy.len() && busy[c] == x;
        assert(q(busy[c]) && open.contains(busy[c]));
        let b = choose|b: int| 0 <= b < open.len() && open[b] == x;
        assert(p(open[b]) && all.contains(open[b]));
        let m = choose|m: int| 0 <= m < all.len() && all[m] == x;
        assert(is_meant(persons[all[m]], name));
        assert(is_linkable(state, name, valid, x));
        lemma_active(state, persons[x].id@);
        assert(false);
    }
    match candidate(state, name, valid) {
        Candidate::Found(j) => {
            lemma_choice(state, name, valid, j);
            if i != j {
                assert(is_linkable(state, name, valid, i));
                assert(is_linkable(state, name, valid, j));
            }
        },
        Candidate::Nobody(t) => {
            assert(open.len() > 0);
        },
    }
}

/// An account that nobody has goes to whoever is the one to link.
pub proof fn law_whoever_is_meant_gets_the_account(
    pre: State,
    post: State,
    r: Result<String, CommandError>,
    req: Request,
    name: Seq<char>,
    mxid: String,
    display_name: Option<String>,
    valid: Seq<bool>,
    i: int,
)
    requires
        did_link(pre, post, r, req, name, mxid, display_name, valid),
        known(pre, req.today),
        is_choice(pre, name, valid, i),
        forall|k: int|
            0 <= k < pre.persons@.len() ==> !((#[trigger] pre.persons@[k]).matrix_id is Some
                && pre.persons@[k].matrix_id->0@ == mxid@),
    ensures
        r is Ok,
        only_links(pre, post, pre.persons@[i].id@, mxid@),
        post.completions == pre.completions,
        post.cleaning_groups == pre.cleaning_groups,
        post.slot_assignments == pre.slot_assignments,
{
    lemma_chosen(pre, name, valid, i);
    let person = pre.persons@[i];
    lemma_first_index_is(pre.persons@, person_with_mxid(mxid@));
    assert(pre.person_of(mxid@) is None);
    lemma_first_index_is(pre.persons@, person_with_id(person.id@));
    let k = lemma_linked(pre, post, person.id, mxid, display_name, req.now);
    lemma_links_one(pre, pre, post, person.id@, mxid@, k);
}

} // verus!
