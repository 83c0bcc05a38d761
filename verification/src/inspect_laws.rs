//! When a state is found to be in order.

use vstd::prelude::*;

use crate::domain::{CleaningGroup, Person, PersonId};
use crate::inspect::{
    doubled_groups, doubled_members, doubled_persons, group_warnings, groups_errors, groups_warnings,
    lost_members, mark_warnings, marks_warnings, state_errors, state_warnings,
};
use crate::lists::lemma_some;
use crate::state::{group_with_id, person_with_id, Completion, State};

verus! {

/// Whether an id is that of a person.
pub open spec fn is_known_person(state: State, id: Seq<char>) -> bool {
    exists|i: int| 0 <= i < state.persons@.len() && (#[trigger] state.persons@[i]).id@ == id
}

/// Whether an id is that of a group.
pub open spec fn is_known_group(state: State, id: Seq<char>) -> bool {
    exists|i: int|
        0 <= i < state.cleaning_groups@.len() && (#[trigger] state.cleaning_groups@[i]).id@ == id
}

/// Whether no two ids in a list are the same.
pub open spec fn all_differ(ids: Seq<PersonId>) -> bool {
    forall|i: int, j: int| 0 <= i < j < ids.len() ==> (#[trigger] ids[i])@ != (#[trigger] ids[j])@
}

proof fn lemma_known_person(state: State, id: Seq<char>)
    ensures
        (state.person(id) is Some) == is_known_person(state, id),
{
    let s = state.persons@;
    lemma_some(s, person_with_id(id));
    if is_known_person(state, id) {
        let i = choose|i: int| 0 <= i < s.len() && (#[trigger] s[i]).id@ == id;
        assert(person_with_id(id)(s[i]));
    }
}

proof fn lemma_known_group(state: State, id: Seq<char>)
    ensures
        (state.group(id) is Some) == is_known_group(state, id),
{
    let s = state.cleaning_groups@;
    lemma_some(s, group_with_id(id));
    if is_known_group(state, id) {
        let i = choose|i: int| 0 <= i < s.len() && (#[trigger] s[i]).id@ == id;
        assert(group_with_id(id)(s[i]));
    }
}

proof fn lemma_doubled_persons(s: Seq<Person>)
    ensures
        (doubled_persons(s).len() == 0) == (forall|i: int, j: int|
            0 <= i < j < s.len() ==> (#[trigger] s[i]).id@ != (#[trigger] s[j]).id@),
    decreases s.len(),
{
    if s.len() > 0 {
        let u = s.drop_last();
        let n = s.len() - 1;
        lemma_doubled_persons(u);
        let q = person_with_id(s.last().id@);
        lemma_some(u, q);
        if doubled_persons(s).len() == 0 {
            assert forall|i: int, j: int| 0 <= i < j < s.len() implies (#[trigger] s[i]).id@ != (
            #[trigger] s[j]).id@ by {
                assert(u[i] == s[i]);
                if j < n {
                    assert(u[j] == s[j]);
                } else {
                    assert(!q(u[i]));
                }
            }
        }
        if forall|i: int, j: int|
            0 <= i < j < s.len() ==> (#[trigger] s[i]).id@ != (#[trigger] s[j]).id@ {
            assert forall|i: int, j: int| 0 <= i < j < u.len() implies (#[trigger] u[i]).id@ != (
            #[trigger] u[j]).id@ by {
                assert(u[i] == s[i] && u[j] == s[j]);
            }
            assert forall|i: int| 0 <= i < u.len() implies !q(#[trigger] u[i]) by {
                assert(u[i] == s[i]);
                assert(s[i].id@ != s[n].id@);
            }
        }
    }
}

proof fn lemma_doubled_groups(s: Seq<CleaningGroup>)
    ensures
        (doubled_groups(s).len() == 0) == (forall|i: int, j: int|
            0 <= i < j < s.len() ==> (#[trigger] s[i]).id@ != (#[trigger] s[j]).id@),
    decreases s.len(),
{
    if s.len() > 0 {
        let u = s.drop_last();
        let n = s.len() - 1;
        lemma_doubled_groups(u);
        let q = group_with_id(s.last().id@);
        lemma_some(u, q);
        if doubled_groups(s).len() == 0 {
            assert forall|i: int, j: int| 0 <= i < j < s.len() implies (#[trigger] s[i]).id@ != (
            #[trigger] s[j]).id@ by {
                assert(u[i] == s[i]);
                if j < n {
                    assert(u[j] == s[j]);
                } else {
                    assert(!q(u[i]));
                }
            }
        }
        if forall|i: int, j: int|
            0 <= i < j < s.len() ==> (#[trigger] s[i]).id@ != (#[trigger] s[j]).id@ {
            assert forall|i: int, j: int| 0 <= i < j < u.len() implies (#[trigger] u[i]).id@ != (
            #[trigger] u[j]).id@ by {
                assert(u[i] == s[i] && u[j] == s[j]);
            }
            assert forall|i: int| 0 <= i < u.len() implies !q(#[trigger] u[i]) by {
                assert(u[i] == s[i]);
                assert(s[i].id@ != s[n].id@);
            }
        }
    }
}

proof fn lemma_lost_members(state: State, group: CleaningGroup, ids: Seq<PersonId>)
    ensures
        (lost_members(state, group, ids).len() == 0) == (forall|i: int|
            0 <= i < ids.len() ==> is_known_person(state, (#[trigger] ids[i])@)),
    decreases ids.len(),
{
    if ids.len() > 0 {
        let u = ids.drop_last();
        lemma_lost_members(state, group, u);
        lemma_known_person(state, ids.last()@);
        assert(ids[ids.len() - 1] == ids.last());
        if forall|i: int| 0 <= i < u.len() ==> is_known_person(state, (#[trigger] u[i])@) {
            assert forall|i: int| 0 <= i < u.len() implies is_known_person(
                state,
                (#[trigger] ids[i])@,
            ) by {
                assert(ids[i] == u[i]);
            }
        }
        if forall|i: int| 0 <= i < ids.len() ==> is_known_person(state, (#[trigger] ids[i])@) {
            assert forall|i: int| 0 <= i < u.len() implies is_known_person(
                state,
                (#[trigger] u[i])@,
            ) by {
                assert(ids[i] == u[i]);
            }
        }
    }
}

proof fn lemma_doubled_members(group: CleaningGroup, ids: Seq<PersonId>)
    ensures
        (doubled_members(group, ids).len() == 0) == all_differ(ids),
    decreases ids.len(),
{
    if ids.len() > 0 {
        let u = ids.drop_last();
        let n = ids.len() - 1;
        lemma_doubled_members(group, u);
        if doubled_members(group, ids).len() == 0 {
            assert forall|i: int, j: int| 0 <= i < j < ids.len() implies (#[trigger] ids[i])@ != (
            #[trigger] ids[j])@ by {
                assert(u[i] == ids[i]);
                if j < n {
                    assert(u[j] == ids[j]);
                }
            }
        }
        if all_differ(ids) {
            assert forall|i: int, j: int| 0 <= i < j < u.len() implies (#[trigger] u[i])@ != (
            #[trigger] u[j])@ by {
                assert(u[i] == ids[i] && u[j] == ids[j]);
            }
            assert forall|i: int| 0 <= i < u.len() implies (#[trigger] u[i])@ != ids.last()@ by {
                assert(u[i] == ids[i]);
                assert(ids[i]@ != ids[n]@);
            }
        }
    }
}

/// Whether all members of a group are known.
pub open spec fn members_are_known(state: State, g: CleaningGroup) -> bool {
    forall|i: int| 0 <= i < g.member_ids@.len() ==> is_known_person(state, (#[trigger] g.member_ids@[i])@)
}

proof fn lemma_groups_errors(state: State, groups: Seq<CleaningGroup>)
    ensures
        (groups_errors(state, groups).len() == 0) == (forall|i: int|
            0 <= i < groups.len() ==> members_are_known(state, #[trigger] groups[i])),
    decreases groups.len(),
{
    if groups.len() > 0 {
        let u = groups.drop_last();
        let g = groups.last();
        lemma_groups_errors(state, u);
        lemma_lost_members(state, g, g.member_ids@);
        assert(groups[groups.len() - 1] == g);
        assert((lost_members(state, g, g.member_ids@).len() == 0) == members_are_known(state, g));
        if forall|i: int| 0 <= i < u.len() ==> members_are_known(state, #[trigger] u[i]) {
            assert forall|i: int| 0 <= i < u.len() implies members_are_known(
                state,
                #[trigger] groups[i],
            ) by {
                assert(groups[i] == u[i]);
            }
        }
        if forall|i: int| 0 <= i < groups.len() ==> members_are_known(state, #[trigger] groups[i]) {
            assert forall|i: int| 0 <= i < u.len() implies members_are_known(
                state,
                #[trigger] u[i],
            ) by {
                assert(groups[i] == u[i]);
            }
        }
    }
}

/// Whether a group has members, nobody twice.
pub open spec fn has_members_once(g: CleaningGroup) -> bool {
    g.member_ids@.len() > 0 && all_differ(g.member_ids@)
}

proof fn lemma_groups_warnings(groups: Seq<CleaningGroup>)
    ensures
        (groups_warnings(groups).len() == 0) == (forall|i: int|
            0 <= i < groups.len() ==> has_members_once(#[trigger] groups[i])),
    decreases groups.len(),
{
    if groups.len() > 0 {
        let u = groups.drop_last();
        let g = groups.last();
        lemma_groups_warnings(u);
        lemma_doubled_members(g, g.member_ids@);
        assert(groups[groups.len() - 1] == g);
        assert((group_warnings(g).len() == 0) == has_members_once(g));
        if forall|i: int| 0 <= i < u.len() ==> has_members_once(#[trigger] u[i]) {
            assert forall|i: int| 0 <= i < u.len() implies has_members_once(#[trigger] groups[i]) by {
                assert(groups[i] == u[i]);
            }
        }
        if forall|i: int| 0 <= i < groups.len() ==> has_members_once(#[trigger] groups[i]) {
            assert forall|i: int| 0 <= i < u.len() implies has_members_once(#[trigger] u[i]) by {
                assert(groups[i] == u[i]);
            }
        }
    }
}

/// Whether a mark is of a known group and by a known person.
pub open spec fn mark_is_known(state: State, c: Completion) -> bool {
    is_known_group(state, c.group_id@) && is_known_person(state, c.completed_by_id@)
}

proof fn lemma_marks_warnings(state: State, marks: Seq<Completion>)
    ensures
        (marks_warnings(state, marks).len() == 0) == (forall|i: int|
            0 <= i < marks.len() ==> mark_is_known(state, #[trigger] marks[i])),
    decreases marks.len(),
{
    if marks.len() > 0 {
        let u = marks.drop_last();
        let c = marks.last();
        lemma_marks_warnings(state, u);
        lemma_known_group(state, c.group_id@);
        lemma_known_person(state, c.completed_by_id@);
        assert(marks[marks.len() - 1] == c);
        assert((mark_warnings(state, marks.len() - 1, c).len() == 0) == mark_is_known(state, c));
        if forall|i: int| 0 <= i < u.len() ==> mark_is_known(state, #[trigger] u[i]) {
            assert forall|i: int| 0 <= i < u.len() implies mark_is_known(
                state,
                #[trigger] marks[i],
            ) by {
                assert(marks[i] == u[i]);
            }
        }
        if forall|i: int| 0 <= i < marks.len() ==> mark_is_known(state, #[trigger] marks[i]) {
            assert forall|i: int| 0 <= i < u.len() implies mark_is_known(state, #[trigger] u[i]) by {
                assert(marks[i] == u[i]);
            }
        }
    }
}

/// Nothing is wrong with a state if and only if no two persons and no two groups share an id and all
/// members of groups are known.
pub proof fn law_errors_are_found_where_ids_clash_or_members_are_unknown(state: State)
    ensures
        (state_errors(state).len() == 0) == ({
            &&& forall|i: int, j: int|
                0 <= i < j < state.persons@.len() ==> (#[trigger] state.persons@[i]).id@ != (
                #[trigger] state.persons@[j]).id@
            &&& forall|i: int, j: int|
                0 <= i < j < state.cleaning_groups@.len() ==> (
                #[trigger] state.cleaning_groups@[i]).id@ != (
                #[trigger] state.cleaning_groups@[j]).id@
            &&& forall|i: int|
                0 <= i < state.cleaning_groups@.len() ==> members_are_known(
                    state,
                    #[trigger] state.cleaning_groups@[i],
                )
        }),
{
    lemma_doubled_persons(state.persons@);
    lemma_doubled_groups(state.cleaning_groups@);
    lemma_groups_errors(state, state.cleaning_groups@);
}

/// There is nothing to warn of in a state if and only if every group has members, nobody twice, and
/// every mark is of a known group and by a known person.
pub proof fn law_warnings_are_of_empty_groups_and_unknown_marks(state: State)
    ensures
        (state_warnings(state).len() == 0) == ({
            &&& forall|i: int|
                0 <= i < state.cleaning_groups@.len() ==> has_members_once(
                    #[trigger] state.cleaning_groups@[i],
                )
            &&& forall|i: int|
                0 <= i < state.completions@.len() ==> mark_is_known(
                    state,
                    #[trigger] state.completions@[i],
                )
        }),
{
    lemma_groups_warnings(state.cleaning_groups@);
    lemma_marks_warnings(state, state.completions@);
}

} // verus!
