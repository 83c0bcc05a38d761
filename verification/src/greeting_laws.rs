//! What welcoming somebody leads to, and what joining makes of them.

use vstd::prelude::*;

use crate::analytics::DomainEvent;
use crate::calendar::{Date, Timestamp};
use crate::commands::base::{CommandError, Request};
use crate::commands::link_laws::only_links;
use crate::course::{only_plan, step};
use crate::domain::{CleaningGroup, Person};
use crate::event_laws::{law_linking_changes_one_person, law_one_group_changes};
use crate::greetings::{
    answers_greeting, choice_with, greeting_gone, greeting_with_id, linked_to, unlinked, welcomes,
    Greeting, GreetingAnswer, MOST_CHOICES,
};
use crate::journal::refusal;
use crate::lists::{lemma_filter, lemma_first_index, lemma_first_index_is};
use crate::member_laws::{groups_differ, lemma_horizon, lemma_planned_keeps};
use crate::planning::{
    adds_member, join_cycles, joined, joins_by, known, lemma_froze_week, lemma_known,
    lemma_left_free, lemma_queue_set, order_with,
};
use crate::state::{person_with_id, GreetingChoice, State};
use crate::text::says;

verus! {

/// Whether somebody takes part and has no account.
pub open spec fn waits_for_account(p: Person) -> bool {
    p.active && p.matrix_id is None
}

/// Whether a choice leads to somebody who takes part and has no account, under their name.
pub open spec fn leads_to(c: GreetingChoice, p: Person) -> bool {
    c.person_id is Some && c.person_id->0@ == p.id@ && c.group_name@ == p.display_name@
}

/// Whoever is new is asked, once, whether they are one of those without an account, each of whom
/// they can choose as far as there are signs; and where there are none of those, for a group, each
/// of which they can choose likewise.
pub proof fn law_newcomers_choose_who_they_are(
    pre: State,
    post: State,
    r: Option<Greeting>,
    user: Seq<char>,
    i: int,
)
    requires
        welcomes(pre, post, r, user),
    ensures
        says(pre.greeted_users@, user) ==> r is None,
        says(post.greeted_users@, user),
        r is Some && r->0.is_linking && 0 <= i < r->0.choices@.len() && r->0.choices@[i].person_id
            is Some ==> exists|k: int|
            0 <= k < pre.persons@.len() && waits_for_account(#[trigger] pre.persons@[k])
                && leads_to(r->0.choices@[i], pre.persons@[k]),
        r is Some && r->0.is_linking && r->0.choices@.len() <= MOST_CHOICES && 0 <= i
            < pre.persons@.len() && waits_for_account(pre.persons@[i]) ==> exists|k: int|
            0 <= k < r->0.choices@.len() && leads_to(
                #[trigger] r->0.choices@[k],
                pre.persons@[i],
            ),
        !says(pre.greeted_users@, user) && 0 <= i < pre.persons@.len() && waits_for_account(
            pre.persons@[i],
        ) ==> r is Some && r->0.is_linking,
        r is Some && !r->0.is_linking && 0 <= i < r->0.choices@.len() ==> i
            < pre.cleaning_groups@.len() && r->0.choices@[i].group_id@
            == pre.cleaning_groups@[i].id@ && r->0.choices@[i].group_name@
            == pre.cleaning_groups@[i].name@,
        r is Some && !r->0.is_linking && 0 <= i < pre.cleaning_groups@.len() && i < MOST_CHOICES
            ==> i < r->0.choices@.len(),
{
    let p = unlinked();
    let all = pre.persons@;
    let open = all.filter(p);
    lemma_filter(all, p);
    if !says(pre.greeted_users@, user) {
        let n = pre.greeted_users@.len() as int;
        let met = crate::text::views(post.greeted_users@);
        assert(crate::text::views(pre.greeted_users@).len() == n);
        assert(met.len() == post.greeted_users@.len());
        assert(met[n] == user);
        assert(post.greeted_users@[n]@ == user);
    }
    if 0 <= i < all.len() && waits_for_account(all[i]) {
        assert(p(all[i]));
        assert(open.contains(all[i]));
    }
    if r is Some && r->0.is_linking {
        let cs = r->0.choices@;
        if 0 <= i < cs.len() && cs[i].person_id is Some {
            assert(p(open[i]) && all.contains(open[i]));
            let k = choose|k: int| 0 <= k < all.len() && all[k] == open[i];
            assert(waits_for_account(all[k]) && leads_to(cs[i], all[k]));
        }
        if cs.len() <= MOST_CHOICES && 0 <= i < all.len() && waits_for_account(all[i]) {
            let k = choose|k: int| 0 <= k < open.len() && open[k] == all[i];
            assert(leads_to(cs[k], all[i]));
        }
    }
}

/// A greeting that waits under a message, and the first of its choices with a sign.
pub open spec fn is_answer(
    state: State,
    message_id: Seq<char>,
    sign: Seq<char>,
    g: int,
    c: int,
) -> bool {
    let info = state.greeting_event_ids@[g];
    &&& 0 <= g < state.greeting_event_ids@.len()
    &&& info.event_id@ == message_id
    &&& forall|k: int|
        0 <= k < g ==> (#[trigger] state.greeting_event_ids@[k]).event_id@ != message_id
    &&& 0 <= c < info.choices@.len()
    &&& info.choices@[c].emoji@ == sign
    &&& forall|k: int| 0 <= k < c ==> (#[trigger] info.choices@[k]).emoji@ != sign
}

/// Whoever answers a greeting that asks who they are gets their account linked to the person that
/// their choice leads to, and nothing of anybody else changes; a greeting of somebody else is not
/// theirs to answer.
pub proof fn law_answering_links_the_sender(
    pre: State,
    post: State,
    r: Result<GreetingAnswer, CommandError>,
    req: Request,
    message_id: Seq<char>,
    sign: Seq<char>,
    id: String,
    g: int,
    c: int,
)
    requires
        answers_greeting(pre, post, r, req, message_id, sign, id),
        known(pre, req.today),
        is_answer(pre, message_id, sign, g, c),
    ensures
        pre.greeting_event_ids@[g].for_user@ != req.sender@ ==> post == pre,
        ({
            let info = pre.greeting_event_ids@[g];
            let choice = info.choices@[c];
            info.for_user@ == req.sender@ && info.is_linking ==> {
                &&& r is Ok
                &&& choice.person_id is Some && (exists|k: int|
                    0 <= k < pre.persons@.len() && (#[trigger] pre.persons@[k]).id@
                        == choice.person_id->0@) ==> only_links(
                    pre,
                    post,
                    choice.person_id->0@,
                    req.sender@,
                )
                &&& choice.person_id is None ==> post.persons == pre.persons
                &&& post.cleaning_groups == pre.cleaning_groups
                &&& post.completions == pre.completions
                &&& post.slot_assignments == pre.slot_assignments
                &&& forall|k: int|
                    0 <= k < post.greeting_event_ids@.len() ==> (
                    #[trigger] post.greeting_event_ids@[k]).event_id@ != message_id
            }
        }),
{
    let info = pre.greeting_event_ids@[g];
    let choice = info.choices@[c];
    let p = greeting_with_id(message_id);
    let q = choice_with(sign);
    assert forall|k: int| 0 <= k < g implies !p(#[trigger] pre.greeting_event_ids@[k]) by {
        assert(pre.greeting_event_ids@[k].event_id@ != message_id);
    }
    lemma_first_index(pre.greeting_event_ids@, p, g);
    assert forall|k: int| 0 <= k < c implies !q(#[trigger] info.choices@[k]) by {
        assert(info.choices@[k].emoji@ != sign);
    }
    lemma_first_index(info.choices@, q, c);
    lemma_filter(pre.greeting_event_ids@, crate::greetings::other_greeting(message_id));
    if info.for_user@ == req.sender@ && info.is_linking {
        match choice.person_id {
            Some(who) => {
                let mid = choose|mid: State| #[trigger]
                    greeting_gone(pre, mid, message_id) && linked_to(
                        mid,
                        post,
                        r,
                        choice,
                        who,
                        req,
                    );
                lemma_waiting(mid, message_id, pre);
                let w = person_with_id(who@);
                lemma_first_index_is(mid.persons@, w);
                let e = DomainEvent::PersonMatrixLinked { person_id: who, matrix_id: req.sender };
                if exists|k: int|
                    0 <= k < pre.persons@.len() && (#[trigger] pre.persons@[k]).id@ == who@ {
                    let k = choose|k: int|
                        0 <= k < pre.persons@.len() && (#[trigger] pre.persons@[k]).id@ == who@;
                    assert(w(mid.persons@[k]));
                    assert(refusal(mid, e) is None);
                    let i = crate::lists::first_index(mid.persons@, w);
                    assert forall|k: int| 0 <= k < i implies (#[trigger] mid.persons@[k]).id@
                        != who@ by {
                        assert(!w(mid.persons@[k]));
                    }
                    law_linking_changes_one_person(mid, post, who, req.sender, req.now, i);
                    assert(only_links(pre, post, who@, req.sender@)) by {
                        assert forall|k: int|
                            0 <= k < post.persons@.len() && (#[trigger] post.persons@[k]).id@
                                != who@ implies pre.persons@.contains(post.persons@[k]) by {
                            assert(k != i);
                            assert(post.persons@[k] == mid.persons@[k]);
                        }
                        assert forall|k: int|
                            0 <= k < pre.persons@.len() && (#[trigger] pre.persons@[k]).id@
                                != who@ implies post.persons@.contains(pre.persons@[k]) by {
                            assert(k != i);
                            assert(post.persons@[k] == mid.persons@[k]);
                        }
                    }
                }
            },
            None => {
                lemma_waiting(post, message_id, pre);
            },
        }
    }
}

/// A greeting that is gone waits no longer.
proof fn lemma_waiting(post: State, message_id: Seq<char>, pre: State)
    requires
        greeting_gone(pre, post, message_id),
    ensures
        forall|k: int|
            0 <= k < post.greeting_event_ids@.len() ==> (
            #[trigger] post.greeting_event_ids@[k]).event_id@ != message_id,
{
    let p = crate::greetings::other_greeting(message_id);
    lemma_filter(pre.greeting_event_ids@, p);
    assert forall|k: int| 0 <= k < post.greeting_event_ids@.len() implies (
    #[trigger] post.greeting_event_ids@[k]).event_id@ != message_id by {
        assert(p(post.greeting_event_ids@[k]));
    }
}

/// Whoever joined a group is a member of it, next to those who were; other groups keep their
/// members, and persons and marks stay as they are.
pub proof fn law_whoever_joined_is_a_member(
    pre: State,
    post: State,
    group: CleaningGroup,
    person: String,
    today: Date,
    usual: int,
    now: Timestamp,
    k: int,
    p: Seq<char>,
)
    requires
        joined(pre, post, group, person, today, usual, now),
        usual >= 0,
        known(pre, today),
        groups_differ(pre),
        0 <= k < pre.cleaning_groups@.len(),
        pre.cleaning_groups@[k] == group,
    ensures
        post.persons == pre.persons,
        post.completions == pre.completions,
        post.cleaning_groups@.len() == pre.cleaning_groups@.len(),
        says(post.cleaning_groups@[k].member_ids@, p) == (says(group.member_ids@, p) || p
            == person@),
        forall|i: int|
            0 <= i < pre.cleaning_groups@.len() && i != k ==> (
            #[trigger] post.cleaning_groups@[i]).member_ids == pre.cleaning_groups@[i].member_ids,
{
    let (a, b, c, d) = choose|a: State, b: State, c: State, d: State| #[trigger]
        joins_by(pre, a, b, c, d, post, group, person, today, usual, now);
    let id = group.id@;
    lemma_known(pre, today);
    lemma_froze_week(pre, a, group, today, now);
    lemma_queue_set(a, b, id, order_with(a, a.group(id)->0, person), now);
    lemma_plans_only(pre, a);
    lemma_plans_only(a, b);
    let e = choose|e: DomainEvent| #[trigger]
        adds_member(e, id, person@) && step(b, c, e, now);
    assert forall|i: int| 0 <= i < k implies (#[trigger] b.cleaning_groups@[i]).id@ != id by {
        assert(b.cleaning_groups@[i].id@ == a.cleaning_groups@[i].id@);
        assert(a.cleaning_groups@[i].id@ == pre.cleaning_groups@[i].id@);
        assert(pre.cleaning_groups@[i].id@ != pre.cleaning_groups@[k].id@);
    }
    assert(b.cleaning_groups@[k].id@ == a.cleaning_groups@[k].id@);
    law_one_group_changes(b, c, e, id, now, k);
    assert(says(c.cleaning_groups@[k].member_ids@, p) == (says(
        b.cleaning_groups@[k].member_ids@,
        p,
    ) || p == person@));
    if group.member_ids@.len() == 0 {
        lemma_left_free(c, d, c.group(id)->0, today, now);
        lemma_plans_only(c, d);
    }
    let dg = d.group(id)->0;
    lemma_horizon(d, dg, today);
    lemma_planned_keeps(d, post, today, join_cycles(d, dg, today, usual), now);
    assert(post.cleaning_groups@[k].member_ids == d.cleaning_groups@[k].member_ids);
    assert(d.cleaning_groups@[k].member_ids == c.cleaning_groups@[k].member_ids);
    assert(b.cleaning_groups@[k].member_ids == a.cleaning_groups@[k].member_ids);
    assert forall|i: int| 0 <= i < pre.cleaning_groups@.len() && i != k implies (
    #[trigger] post.cleaning_groups@[i]).member_ids == pre.cleaning_groups@[i].member_ids by {
        assert(post.cleaning_groups@[i].member_ids == d.cleaning_groups@[i].member_ids);
        assert(d.cleaning_groups@[i].member_ids == c.cleaning_groups@[i].member_ids);
        assert(c.cleaning_groups@[i] == b.cleaning_groups@[i]);
        assert(b.cleaning_groups@[i].member_ids == a.cleaning_groups@[i].member_ids);
        assert(a.cleaning_groups@[i].member_ids == pre.cleaning_groups@[i].member_ids);
    }
}

/// Changes of the plan keep persons, marks, ids and members.
proof fn lemma_plans_only(pre: State, post: State)
    requires
        only_plan(pre, post),
    ensures
        post.persons == pre.persons,
        post.completions == pre.completions,
        post.cleaning_groups@.len() == pre.cleaning_groups@.len(),
        forall|i: int|
            0 <= i < pre.cleaning_groups@.len() ==> (#[trigger] post.cleaning_groups@[i]).id
                == pre.cleaning_groups@[i].id && post.cleaning_groups@[i].member_ids
                == pre.cleaning_groups@[i].member_ids,
{
}

} // verus!
