//! Looking for problems in a saved state.

use vstd::prelude::*;

use crate::domain::{CleaningGroup, Person, PersonId};
use crate::lists::{lemma_first_index, some};
use crate::state::{group_with_id, person_with_id, Completion, State};
use crate::text::{
    contains_text, decimal, join, join_texts, put_text, put_texts, same_text, says, show, views,
};

verus! {

/// What was found in a state.
#[derive(Clone, Debug)]
pub struct Report {
    pub errors: Vec<String>,
    pub warnings: Vec<String>,
}

// ── What is wrong ────────────────────────────────────────────────────────────

/// Persons whose id an earlier one has.
pub open spec fn doubled_persons(persons: Seq<Person>) -> Seq<Seq<char>>
    decreases persons.len(),
{
    if persons.len() == 0 {
        Seq::empty()
    } else {
        let r = doubled_persons(persons.drop_last());
        let p = persons.last();
        if some(persons.drop_last(), person_with_id(p.id@)) {
            r.push("Duplicate PersonId: "@ + p.id@ + " ("@ + p.display_name@ + ")"@)
        } else {
            r
        }
    }
}

/// Groups whose id an earlier one has.
pub open spec fn doubled_groups(groups: Seq<CleaningGroup>) -> Seq<Seq<char>>
    decreases groups.len(),
{
    if groups.len() == 0 {
        Seq::empty()
    } else {
        let r = doubled_groups(groups.drop_last());
        let g = groups.last();
        if some(groups.drop_last(), group_with_id(g.id@)) {
            r.push("Duplicate GroupId: "@ + g.id@ + " ("@ + g.name@ + ")"@)
        } else {
            r
        }
    }
}

/// Members of a group that nobody is.
pub open spec fn lost_members(state: State, group: CleaningGroup, ids: Seq<PersonId>) -> Seq<Seq<char>>
    decreases ids.len(),
{
    if ids.len() == 0 {
        Seq::empty()
    } else {
        let r = lost_members(state, group, ids.drop_last());
        if state.person(ids.last()@) is None {
            r.push("Group «"@ + group.name@ + "» → unknown PersonId "@ + ids.last()@)
        } else {
            r
        }
    }
}

/// Members that a group has more than once.
pub open spec fn doubled_members(group: CleaningGroup, ids: Seq<PersonId>) -> Seq<Seq<char>>
    decreases ids.len(),
{
    if ids.len() == 0 {
        Seq::empty()
    } else {
        let r = doubled_members(group, ids.drop_last());
        if says(ids.drop_last(), ids.last()@) {
            r.push("Group «"@ + group.name@ + "» has duplicate member "@ + ids.last()@)
        } else {
            r
        }
    }
}

/// What is worth a warning about a group.
pub open spec fn group_warnings(group: CleaningGroup) -> Seq<Seq<char>> {
    (if group.member_ids@.len() == 0 {
        seq!["Group «"@ + group.name@ + "» has no members"@]
    } else {
        Seq::empty()
    }) + doubled_members(group, group.member_ids@)
}

/// What is wrong in groups.
pub open spec fn groups_errors(state: State, groups: Seq<CleaningGroup>) -> Seq<Seq<char>>
    decreases groups.len(),
{
    if groups.len() == 0 {
        Seq::empty()
    } else {
        groups_errors(state, groups.drop_last()) + lost_members(
            state,
            groups.last(),
            groups.last().member_ids@,
        )
    }
}

/// What is worth a warning about groups.
pub open spec fn groups_warnings(groups: Seq<CleaningGroup>) -> Seq<Seq<char>>
    decreases groups.len(),
{
    if groups.len() == 0 {
        Seq::empty()
    } else {
        groups_warnings(groups.drop_last()) + group_warnings(groups.last())
    }
}

/// What is worth a warning about a mark.
pub open spec fn mark_warnings(state: State, i: int, c: Completion) -> Seq<Seq<char>> {
    (if state.group(c.group_id@) is None {
        seq!["Completion #"@ + decimal(i as nat) + " → unknown GroupId "@ + c.group_id@]
    } else {
        Seq::empty()
    }) + (if state.person(c.completed_by_id@) is None {
        seq!["Completion #"@ + decimal(i as nat) + " → unknown PersonId "@ + c.completed_by_id@]
    } else {
        Seq::empty()
    })
}

/// What is worth a warning about marks.
pub open spec fn marks_warnings(state: State, marks: Seq<Completion>) -> Seq<Seq<char>>
    decreases marks.len(),
{
    if marks.len() == 0 {
        Seq::empty()
    } else {
        marks_warnings(state, marks.drop_last()) + mark_warnings(
            state,
            marks.len() - 1,
            marks.last(),
        )
    }
}

/// Ids that occur twice, and members that nobody is.
pub open spec fn state_errors(state: State) -> Seq<Seq<char>> {
    doubled_persons(state.persons@) + doubled_groups(state.cleaning_groups@) + groups_errors(
        state,
        state.cleaning_groups@,
    )
}

/// Groups without members, members that are listed twice, and marks of unknown groups or persons.
pub open spec fn state_warnings(state: State) -> Seq<Seq<char>> {
    groups_warnings(state.cleaning_groups@) + marks_warnings(state, state.completions@)
}

// ── Looking ──────────────────────────────────────────────────────────────────

/// Persons whose id an earlier one has.
fn list_doubled_persons(state: &State) -> (r: Vec<String>)
    ensures
        views(r@) == doubled_persons(state.persons@),
{
    let all = &state.persons;
    let mut r: Vec<String> = Vec::new();
    let mut i: usize = 0;
    proof {
        assert(views(r@) =~= Seq::<Seq<char>>::empty());
        assert(all@.take(0) =~= Seq::<Person>::empty());
    }
    while i < all.len()
        invariant
            i <= all.len(),
            all == &state.persons,
            views(r@) == doubled_persons(all@.take(i as int)),
        decreases all.len() - i,
    {
        let ghost before = all@.take(i as int);
        let p = &all[i];
        proof {
            assert(all@.take(i + 1).drop_last() =~= before);
            assert(all@.take(i + 1).last() == *p);
        }
        let ghost same = person_with_id(p.id@);
        let mut k: usize = 0;
        while k < i && !same_text(all[k].id.as_str(), p.id.as_str())
            invariant
                k <= i < all.len(),
                p == &all[i as int],
                same == person_with_id(p.id@),
                before == all@.take(i as int),
                forall|j: int| 0 <= j < k ==> !same(#[trigger] before[j]),
            decreases i - k,
        {
            assert(before[k as int] == all@[k as int]);
            k += 1;
        }
        proof {
            if k < i {
                assert(before[k as int] == all@[k as int]);
            }
            lemma_first_index(before, same, k as int);
        }
        if k < i {
            put_text(
                &mut r,
                "Duplicate PersonId: ".to_owned().concat(p.id.as_str()).concat(" (").concat(
                    p.display_name.as_str(),
                ).concat(")"),
            );
        }
        i += 1;
    }
    assert(all@.take(i as int) =~= all@);
    r
}

/// Groups whose id an earlier one has.
fn list_doubled_groups(state: &State) -> (r: Vec<String>)
    ensures
        views(r@) == doubled_groups(state.cleaning_groups@),
{
    let all = &state.cleaning_groups;
    let mut r: Vec<String> = Vec::new();
    let mut i: usize = 0;
    proof {
        assert(views(r@) =~= Seq::<Seq<char>>::empty());
        assert(all@.take(0) =~= Seq::<CleaningGroup>::empty());
    }
    while i < all.len()
        invariant
            i <= all.len(),
            all == &state.cleaning_groups,
            views(r@) == doubled_groups(all@.take(i as int)),
        decreases all.len() - i,
    {
        let ghost before = all@.take(i as int);
        let g = &all[i];
        proof {
            assert(all@.take(i + 1).drop_last() =~= before);
            assert(all@.take(i + 1).last() == *g);
        }
        let ghost same = group_with_id(g.id@);
        let mut k: usize = 0;
        while k < i && !same_text(all[k].id.as_str(), g.id.as_str())
            invariant
                k <= i < all.len(),
                g == &all[i as int],
                same == group_with_id(g.id@),
                before == all@.take(i as int),
                forall|j: int| 0 <= j < k ==> !same(#[trigger] before[j]),
            decreases i - k,
        {
            assert(before[k as int] == all@[k as int]);
            k += 1;
        }
        proof {
            if k < i {
                assert(before[k as int] == all@[k as int]);
            }
            lemma_first_index(before, same, k as int);
        }
        if k < i {
            put_text(
                &mut r,
                "Duplicate GroupId: ".to_owned().concat(g.id.as_str()).concat(" (").concat(
                    g.name.as_str(),
                ).concat(")"),
            );
        }
        i += 1;
    }
    assert(all@.take(i as int) =~= all@);
    r
}

/// Members of a group that nobody is.
fn list_lost_members(state: &State, group: &CleaningGroup) -> (r: Vec<String>)
    ensures
        views(r@) == lost_members(*state, *group, group.member_ids@),
{
    let ids = &group.member_ids;
    let mut r: Vec<String> = Vec::new();
    let mut i: usize = 0;
    proof {
        assert(views(r@) =~= Seq::<Seq<char>>::empty());
        assert(ids@.take(0) =~= Seq::<PersonId>::empty());
    }
    while i < ids.len()
        invariant
            i <= ids.len(),
            ids == &group.member_ids,
            views(r@) == lost_members(*state, *group, ids@.take(i as int)),
        decreases ids.len() - i,
    {
        proof {
            assert(ids@.take(i + 1).drop_last() =~= ids@.take(i as int));
            assert(ids@.take(i + 1).last() == ids@[i as int]);
        }
        if state.person_by_id(ids[i].as_str()).is_none() {
            put_text(
                &mut r,
                "Group «".to_owned().concat(group.name.as_str()).concat(
                    "» → unknown PersonId ",
                ).concat(ids[i].as_str()),
            );
        }
        i += 1;
    }
    assert(ids@.take(i as int) =~= ids@);
    r
}

/// What is worth a warning about a group.
fn list_group_warnings(group: &CleaningGroup) -> (r: Vec<String>)
    ensures
        views(r@) == group_warnings(*group),
{
    let ids = &group.member_ids;
    let mut r: Vec<String> = Vec::new();
    assert(views(r@) =~= Seq::<Seq<char>>::empty());
    if ids.len() == 0 {
        put_text(
            &mut r,
            "Group «".to_owned().concat(group.name.as_str()).concat("» has no members"),
        );
    }
    let ghost head = views(r@);
    let mut before: Vec<String> = Vec::new();
    let mut i: usize = 0;
    proof {
        assert(ids@.take(0) =~= Seq::<PersonId>::empty());
        assert(before@ =~= ids@.take(0));
        assert(views(r@) =~= head + doubled_members(*group, ids@.take(0)));
    }
    while i < ids.len()
        invariant
            i <= ids.len(),
            ids == &group.member_ids,
            before@ == ids@.take(i as int),
            views(r@) == head + doubled_members(*group, ids@.take(i as int)),
        decreases ids.len() - i,
    {
        proof {
            assert(ids@.take(i + 1).drop_last() =~= ids@.take(i as int));
            assert(ids@.take(i + 1).last() == ids@[i as int]);
        }
        let ghost so_far = views(r@);
        if contains_text(&before, ids[i].as_str()) {
            put_text(
                &mut r,
                "Group «".to_owned().concat(group.name.as_str()).concat(
                    "» has duplicate member ",
                ).concat(ids[i].as_str()),
            );
        }
        before.push(ids[i].clone());
        proof {
            assert(before@ =~= ids@.take(i + 1));
            assert(views(r@) =~= head + doubled_members(*group, ids@.take(i + 1)));
        }
        i += 1;
    }
    assert(ids@.take(i as int) =~= ids@);
    assert(views(r@) =~= group_warnings(*group));
    r
}

/// What is worth a warning about marks.
fn list_mark_warnings(state: &State) -> (r: Vec<String>)
    ensures
        views(r@) == marks_warnings(*state, state.completions@),
{
    let all = &state.completions;
    let mut r: Vec<String> = Vec::new();
    let mut i: usize = 0;
    proof {
        assert(views(r@) =~= Seq::<Seq<char>>::empty());
        assert(all@.take(0) =~= Seq::<Completion>::empty());
    }
    while i < all.len()
        invariant
            i <= all.len(),
            all == &state.completions,
            views(r@) == marks_warnings(*state, all@.take(i as int)),
        decreases all.len() - i,
    {
        proof {
            assert(all@.take(i + 1).drop_last() =~= all@.take(i as int));
            assert(all@.take(i + 1).last() == all@[i as int]);
        }
        let ghost before = views(r@);
        let c = &all[i];
        if state.group_by_id(c.group_id.as_str()).is_none() {
            put_text(
                &mut r,
                "Completion #".to_owned().concat(show(i as u64).as_str()).concat(
                    " → unknown GroupId ",
                ).concat(c.group_id.as_str()),
            );
        }
        if state.person_by_id(c.completed_by_id.as_str()).is_none() {
            put_text(
                &mut r,
                "Completion #".to_owned().concat(show(i as u64).as_str()).concat(
                    " → unknown PersonId ",
                ).concat(c.completed_by_id.as_str()),
            );
        }
        assert(views(r@) =~= before + mark_warnings(*state, i as int, *c));
        i += 1;
    }
    assert(all@.take(i as int) =~= all@);
    r
}

/// Looks for ids that occur twice and for references to nothing.
pub fn validate_state(state: &State) -> (r: Report)
    ensures
        views(r.errors@) == state_errors(*state),
        views(r.warnings@) == state_warnings(*state),
{
    let groups = &state.cleaning_groups;
    let mut errors = list_doubled_persons(state);
    let doubled = list_doubled_groups(state);
    put_texts(&mut errors, &doubled);
    let ghost head = views(errors@);
    let mut warnings: Vec<String> = Vec::new();
    let mut i: usize = 0;
    proof {
        assert(views(warnings@) =~= Seq::<Seq<char>>::empty());
        assert(groups@.take(0) =~= Seq::<CleaningGroup>::empty());
        assert(views(errors@) =~= head + groups_errors(*state, groups@.take(0)));
    }
    while i < groups.len()
        invariant
            i <= groups.len(),
            groups == &state.cleaning_groups,
            views(errors@) == head + groups_errors(*state, groups@.take(i as int)),
            views(warnings@) == groups_warnings(groups@.take(i as int)),
        decreases groups.len() - i,
    {
        proof {
            assert(groups@.take(i + 1).drop_last() =~= groups@.take(i as int));
            assert(groups@.take(i + 1).last() == groups@[i as int]);
        }
        let lost = list_lost_members(state, &groups[i]);
        put_texts(&mut errors, &lost);
        let more = list_group_warnings(&groups[i]);
        put_texts(&mut warnings, &more);
        assert(views(errors@) =~= head + groups_errors(*state, groups@.take(i + 1)));
        i += 1;
    }
    assert(groups@.take(i as int) =~= groups@);
    let marks = list_mark_warnings(state);
    put_texts(&mut warnings, &marks);
    Report { errors, warnings }
}

impl Report {
    /// What was found, in words.
    pub open spec fn text(self) -> Seq<char> {
        if self.errors@.len() == 0 && self.warnings@.len() == 0 {
            "✅ No issues found."@
        } else {
            join(
                views(self.errors@).map_values(|t: Seq<char>| "❌ "@ + t) + views(
                    self.warnings@,
                ).map_values(|t: Seq<char>| "⚠️  "@ + t),
                "\n"@,
            )
        }
    }

    /// What was found, in words.
    pub fn summary(&self) -> (r: String)
        ensures
            r@ == self.text(),
    {
        if self.errors.len() == 0 && self.warnings.len() == 0 {
            return "✅ No issues found.".to_owned();
        }
        let mut lines: Vec<String> = Vec::new();
        let ghost e = views(self.errors@).map_values(|t: Seq<char>| "❌ "@ + t);
        let ghost w = views(self.warnings@).map_values(|t: Seq<char>| "⚠️  "@ + t);
        let mut i: usize = 0;
        assert(views(lines@) =~= e.take(0));
        while i < self.errors.len()
            invariant
                i <= self.errors.len(),
                e == views(self.errors@).map_values(|t: Seq<char>| "❌ "@ + t),
                views(lines@) == e.take(i as int),
            decreases self.errors.len() - i,
        {
            let line = "❌ ".to_owned().concat(self.errors[i].as_str());
            assert(e.take(i + 1) =~= e.take(i as int).push(line@));
            put_text(&mut lines, line);
            i += 1;
        }
        let mut i: usize = 0;
        assert(views(lines@) =~= e + w.take(0));
        while i < self.warnings.len()
            invariant
                i <= self.warnings.len(),
                w == views(self.warnings@).map_values(|t: Seq<char>| "⚠️  "@ + t),
                views(lines@) == e + w.take(i as int),
            decreases self.warnings.len() - i,
        {
            let line = "⚠️  ".to_owned().concat(self.warnings[i].as_str());
            assert(e + w.take(i + 1) =~= (e + w.take(i as int)).push(line@));
            put_text(&mut lines, line);
            i += 1;
        }
        assert(w.take(i as int) =~= w);
        join_texts(&lines, "\n")
    }
}

} // verus!
