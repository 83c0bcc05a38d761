//! Keeping the names of persons as they are in the room.

use vstd::prelude::*;

use crate::domain::Person;
use crate::lists::{first_index, some};
use crate::state::{lookup, person_with_mxid, value_under, Entry, State};
use crate::text::{put_text, same_text, views};

verus! {

/// Whether a name that was fetched says more than the Matrix id.
pub open spec fn tells_name(name: Seq<char>, mxid: Seq<char>) -> bool {
    name.len() > 0 && name != mxid
}

/// Whether a name that was fetched says more than the Matrix id.
pub fn is_telling(name: &str, mxid: &str) -> (r: bool)
    ensures
        r == tells_name(name@, mxid@),
{
    proof {
        reveal_strlit("");
        if name@.len() == 0 {
            assert(name@ =~= ""@);
        }
    }
    !same_text(name, "") && !same_text(name, mxid)
}

/// The name that somebody goes by, given the names of Matrix ids.
pub open spec fn name_now(p: Person, names: Seq<Entry>) -> Seq<char> {
    match p.matrix_id {
        Some(m) => match value_under(names, m@) {
            Some(n) => if tells_name(n, m@) {
                n
            } else {
                p.display_name@
            },
            None => p.display_name@,
        },
        None => p.display_name@,
    }
}

/// Whether persons go by the names of their Matrix ids, and nothing else changed.
pub open spec fn renamed(pre: State, post: State, names: Seq<Entry>) -> bool {
    &&& post == State { persons: post.persons, ..pre }
    &&& post.persons@.len() == pre.persons@.len()
    &&& forall|i: int|
        0 <= i < pre.persons@.len() ==> (#[trigger] post.persons@[i]) == (Person {
            display_name: post.persons@[i].display_name,
            ..pre.persons@[i]
        }) && post.persons@[i].display_name@ == name_now(pre.persons@[i], names)
}

/// The Matrix ids of all persons.
pub open spec fn matrix_ids(persons: Seq<Person>) -> Seq<Seq<char>>
    decreases persons.len(),
{
    if persons.len() == 0 {
        Seq::empty()
    } else {
        let r = matrix_ids(persons.drop_last());
        match persons.last().matrix_id {
            Some(m) => r.push(m@),
            None => r,
        }
    }
}

/// The Matrix ids whose names are to be fetched.
pub fn known_matrix_ids(state: &State) -> (r: Vec<String>)
    ensures
        views(r@) == matrix_ids(state.persons@),
{
    let all = &state.persons;
    let mut r: Vec<String> = Vec::new();
    let mut i: usize = 0;
    proof {
        assert(views(r@) =~= Seq::<Seq<char>>::empty());
        assert(all@.take(0) =~= Seq::<Person>::empty());
    }
    while i < all.len()
        invariant
            i <= all.len(),
            all == &state.persons,
            views(r@) == matrix_ids(all@.take(i as int)),
        decreases all.len() - i,
    {
        proof {
            assert(all@.take(i + 1).drop_last() =~= all@.take(i as int));
            assert(all@.take(i + 1).last() == all@[i as int]);
        }
        match &all[i].matrix_id {
            Some(m) => {
                put_text(&mut r, m.clone());
            },
            None => {},
        }
        i += 1;
    }
    assert(all@.take(i as int) =~= all@);
    r
}

/// Lets persons go by the names of their Matrix ids, as far as those were fetched.
pub fn refresh_display_names(state: &mut State, names: &Vec<Entry>)
    ensures
        renamed(*old(state), *final(state), names@),
{
    let ghost pre = *state;
    let n = state.persons.len();
    let mut i: usize = 0;
    while i < n
        invariant
            i <= n,
            n == state.persons@.len(),
            n == pre.persons@.len(),
            *state == (State { persons: state.persons, ..pre }),
            forall|k: int|
                0 <= k < i ==> (#[trigger] state.persons@[k]) == (Person {
                    display_name: state.persons@[k].display_name,
                    ..pre.persons@[k]
                }) && state.persons@[k].display_name@ == name_now(pre.persons@[k], names@),
            forall|k: int| i <= k < n ==> #[trigger] state.persons@[k] == pre.persons@[k],
        decreases n - i,
    {
        let mut fresh: Option<String> = None;
        match &state.persons[i].matrix_id {
            Some(m) => match lookup(names, m.as_str()) {
                Some(name) => {
                    if is_telling(name.as_str(), m.as_str()) {
                        fresh = Some(name.clone());
                    }
                },
                None => {},
            },
            None => {},
        }
        match fresh {
            Some(name) => {
                state.persons[i].display_name = name;
            },
            None => {},
        }
        i += 1;
    }
}

/// Whether the first person with a Matrix id goes by a name now, if it says more than the id.
pub open spec fn renamed_one(pre: State, post: State, mxid: Seq<char>, name: String) -> bool {
    let p = person_with_mxid(mxid);
    if tells_name(name@, mxid) && some(pre.persons@, p) {
        let i = first_index(pre.persons@, p);
        &&& post == State { persons: post.persons, ..pre }
        &&& post.persons@ == pre.persons@.update(
            i,
            Person { display_name: name, ..pre.persons@[i] },
        )
    } else {
        post == pre
    }
}

/// Lets the person with a Matrix id go by a name that was fetched.
pub fn rename_sender(state: &mut State, mxid: &str, name: &String)
    ensures
        renamed_one(*old(state), *final(state), mxid@, *name),
{
    if !is_telling(name.as_str(), mxid) {
        return;
    }
    match state.person_position(mxid) {
        Some(i) => {
            state.persons[i].display_name = name.clone();
        },
        None => {},
    }
}

/// Fetching names changes nobody's id, Matrix id or whether they take part.
pub proof fn law_renaming_keeps_everything_else(pre: State, post: State, names: Seq<Entry>, i: int)
    requires
        renamed(pre, post, names),
        0 <= i < pre.persons@.len(),
    ensures
        post.persons@[i].id == pre.persons@[i].id,
        post.persons@[i].matrix_id == pre.persons@[i].matrix_id,
        post.persons@[i].active == pre.persons@[i].active,
        post.cleaning_groups == pre.cleaning_groups,
        post.slot_assignments == pre.slot_assignments,
        post.completions == pre.completions,
{
    let q = post.persons@[i];
    assert(q == (Person { display_name: q.display_name, ..pre.persons@[i] }));
}

} // verus!
