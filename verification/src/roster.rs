//! Who is responsible for which turn, and which turns are over, done or missed.

use vstd::prelude::*;

use crate::calendar::{
    add_weeks, is_day, is_today, is_week, is_year, lemma_week_start, lemma_whole_week, planning_day,
    week_at, week_number, week_of, week_start, weeks_between, Date, Timestamp,
};
use crate::domain::{CleaningGroup, Person};
use crate::lists::{lemma_filter_step, lemma_first_index, some};
use crate::resolver::{
    preview, preview_slot_assignee_at,
};
use crate::rhythm::Turn;
use crate::state::{Completion, State};
use crate::text::same_text;

verus! {

/// A mark of any slot of a group in a week.
pub open spec fn mark_in_week(group_id: Seq<char>, year: i32, week: u32) -> spec_fn(Completion) -> bool {
    |c: Completion| c.group_id@ == group_id && c.iso_year == year && c.iso_week == week
}

/// A mark of a group that somebody cleaned.
pub open spec fn cleaned_in(group_id: Seq<char>) -> spec_fn(Completion) -> bool {
    |c: Completion| c.group_id@ == group_id && !c.skipped
}

/// Whether a point in time comes after another.
pub open spec fn after(a: Timestamp, b: Timestamp) -> bool {
    a.secs > b.secs || (a.secs == b.secs && a.nanos > b.nanos)
}

/// Whether a point in time comes after another.
pub fn is_after(a: Timestamp, b: Timestamp) -> (r: bool)
    ensures
        r == after(a, b),
{
    a.secs > b.secs || (a.secs == b.secs && a.nanos > b.nanos)
}

/// Whether the mark at `i` is the latest cleaning of a group, the last one of equally late ones.
pub open spec fn is_latest(marks: Seq<Completion>, group_id: Seq<char>, i: int) -> bool {
    &&& 0 <= i < marks.len()
    &&& cleaned_in(group_id)(marks[i])
    &&& forall|k: int|
        0 <= k < marks.len() && cleaned_in(group_id)(#[trigger] marks[k]) ==> !after(
            marks[k].completed_at,
            marks[i].completed_at,
        ) && (k > i ==> after(marks[i].completed_at, marks[k].completed_at))
}

impl State {
    /// The ids of a list as the persons that they belong to, leaving out those of nobody.
    pub open spec fn persons_of(self, ids: Seq<String>) -> Seq<Person>
        decreases ids.len(),
    {
        if ids.len() == 0 {
            Seq::empty()
        } else {
            let r = self.persons_of(ids.drop_last());
            match self.person(ids.last()@) {
                Some(p) => r.push(p),
                None => r,
            }
        }
    }

    /// The members of a group in their order.
    pub fn members_of(&self, group: &CleaningGroup) -> (r: Vec<&Person>)
        ensures
            r@.len() == self.persons_of(group.member_ids@).len(),
            forall|i: int|
                0 <= i < r@.len() ==> *(#[trigger] r@[i]) == self.persons_of(group.member_ids@)[i],
    {
        let mut r: Vec<&Person> = Vec::new();
        let mut i: usize = 0;
        assert(group.member_ids@.take(0) =~= Seq::<String>::empty());
        while i < group.member_ids.len()
            invariant
                i <= group.member_ids.len(),
                r@.len() == self.persons_of(group.member_ids@.take(i as int)).len(),
                forall|k: int|
                    0 <= k < r@.len() ==> *(#[trigger] r@[k]) == self.persons_of(
                        group.member_ids@.take(i as int),
                    )[k],
            decreases group.member_ids.len() - i,
        {
            proof {
                let more = group.member_ids@.take(i + 1);
                assert(more.drop_last() =~= group.member_ids@.take(i as int));
                assert(more.last() == group.member_ids@[i as int]);
            }
            match self.person_by_id(group.member_ids[i].as_str()) {
                Some(p) => {
                    r.push(p);
                },
                None => {},
            }
            i += 1;
        }
        assert(group.member_ids@.take(i as int) =~= group.member_ids@);
        r
    }

    /// Who is responsible for one slot of one turn: whoever it is frozen for, and else whoever
    /// would be drawn.
    pub open spec fn responsible_id(
        self,
        group: CleaningGroup,
        slot: int,
        turn: Turn,
        today: Date,
    ) -> Option<String> {
        match self.assignment(group.id@, slot, turn) {
            Some(a) => a.person_id,
            None => preview(self, group, slot, turn, today),
        }
    }

    /// The person responsible for one slot of one turn.
    pub open spec fn assignee(self, group: CleaningGroup, slot: int, turn: Turn, today: Date) -> Option<
        Person,
    > {
        match self.responsible_id(group, slot, turn, today) {
            Some(id) => self.person(id@),
            None => None,
        }
    }

    /// The person responsible for one slot of one turn, seen from a day.
    pub fn slot_assignee_at(
        &self,
        group: &CleaningGroup,
        slot_index: usize,
        turn: Turn,
        today: Date,
    ) -> (r: Option<&Person>)
        requires
            self.wf(),
            today.in_week(),
            turn.wf(),
        ensures
            (r is Some) == (self.assignee(*group, slot_index as int, turn, today) is Some),
            r is Some ==> *r->0 == self.assignee(*group, slot_index as int, turn, today)->0,
    {
        match self.assignment_position(group.id.as_str(), slot_index, turn) {
            Some(i) => match &self.slot_assignments[i].person_id {
                Some(id) => self.person_by_id(id.as_str()),
                None => None,
            },
            None => match preview_slot_assignee_at(self, group, slot_index, turn, today) {
                Some(id) => self.person_by_id(id.as_str()),
                None => None,
            },
        }
    }

    /// The person responsible for one slot of one turn. The day is read from the clock.
    pub fn slot_assignee(&self, group: &CleaningGroup, slot_index: usize, turn: Turn) -> (r: Option<
        &Person,
    >)
        requires
            self.wf(),
            turn.wf(),
        ensures
            exists|today: Date|
                is_today(today.day as int) && (r is Some) == (#[trigger] self.assignee(
                    *group,
                    slot_index as int,
                    turn,
                    today,
                ) is Some) && (r is Some ==> *r->0 == self.assignee(
                    *group,
                    slot_index as int,
                    turn,
                    today,
                )->0),
    {
        let day = planning_day();
        self.slot_assignee_at(group, slot_index, turn, day)
    }

    /// The persons responsible for the slots of a turn, in the order of the slots.
    pub fn turn_assignees(&self, group: &CleaningGroup, turn: Turn, today: Date) -> (r: Vec<
        Option<&Person>,
    >)
        requires
            self.wf(),
            today.in_week(),
            turn.wf(),
        ensures
            r@.len() == group.slot_count(),
            forall|i: int|
                0 <= i < r@.len() ==> ((#[trigger] r@[i]) is Some) == (self.assignee(
                    *group,
                    i,
                    turn,
                    today,
                ) is Some) && (r@[i] is Some ==> *r@[i]->0 == self.assignee(
                    *group,
                    i,
                    turn,
                    today,
                )->0),
    {
        let n = group.people_per_turn();
        let mut r: Vec<Option<&Person>> = Vec::new();
        let mut i: usize = 0;
        while i < n
            invariant
                i <= n,
                n == group.slot_count(),
                self.wf(),
                today.in_week(),
                turn.wf(),
                r@.len() == i,
                forall|k: int|
                    0 <= k < i ==> ((#[trigger] r@[k]) is Some) == (self.assignee(
                        *group,
                        k,
                        turn,
                        today,
                    ) is Some) && (r@[k] is Some ==> *r@[k]->0 == self.assignee(
                        *group,
                        k,
                        turn,
                        today,
                    )->0),
            decreases n - i,
        {
            r.push(self.slot_assignee_at(group, i, turn, today));
            i += 1;
        }
        r
    }

    /// Whether a group is shown in a week's plan: an active group that is due in the week or has
    /// a mark in it.
    pub open spec fn in_plan(self, group: CleaningGroup, today: Date, year: i32, week: u32) -> bool {
        group.is_active && (self.due(group, today, year as int, week as int) || some(
            self.completions@,
            mark_in_week(group.id@, year, week),
        ))
    }

    /// Whether a group is shown in a week's plan.
    pub fn belongs_in_weekly_plan(
        &self,
        group: &CleaningGroup,
        today: Date,
        year: i32,
        week: u32,
    ) -> (r: bool)
        requires
            self.wf(),
            today.in_week(),
            is_year(year as int),
        ensures
            r == self.in_plan(*group, today, year, week),
    {
        if !group.is_active {
            return false;
        }
        if self.is_due_week(group, today, year, week) {
            return true;
        }
        let ghost p = mark_in_week(group.id@, year, week);
        let mut i: usize = 0;
        while i < self.completions.len()
            invariant
                i <= self.completions.len(),
                p == mark_in_week(group.id@, year, week),
                group.is_active,
                forall|k: int| 0 <= k < i ==> !p(#[trigger] self.completions@[k]),
            decreases self.completions.len() - i,
        {
            let c = &self.completions[i];
            if c.iso_year == year && c.iso_week == week && same_text(
                c.group_id.as_str(),
                group.id.as_str(),
            ) {
                proof {
                    lemma_first_index(self.completions@, p, i as int);
                }
                return true;
            }
            i += 1;
        }
        proof {
            lemma_first_index(self.completions@, p, i as int);
        }
        false
    }

    /// Whether every turn of a group in a week is done.
    pub open spec fn week_done(self, group: CleaningGroup, year: i32, week: u32) -> bool {
        forall|s: int|
            0 <= s < group.rhythm.week_shifts().len() ==> self.turn_done(
                group,
                #[trigger] week_turn(year, week, s),
            )
    }

    /// Whether every turn of a group in a week is done.
    pub fn is_week_done(&self, group: &CleaningGroup, year: i32, week: u32) -> (r: bool)
        ensures
            r == self.week_done(*group, year, week),
    {
        let n = group.rhythm.shift_count();
        let mut s: usize = 0;
        while s < n
            invariant
                s <= n <= 7,
                n == group.rhythm.week_shifts().len(),
                forall|k: int|
                    0 <= k < s ==> self.turn_done(*group, #[trigger] week_turn(year, week, k)),
            decreases n - s,
        {
            let turn = Turn { year, week, shift: s as u8 };
            assert(turn == week_turn(year, week, s as int));
            if !self.is_turn_done(group, turn) {
                return false;
            }
            s += 1;
        }
        true
    }

    /// Whether every slot of every shift of a group's week is done.
    pub fn is_completed(&self, group_id: &str, year: i32, week: u32) -> (r: bool)
        ensures
            r == (self.group(group_id@) is Some && self.week_done(
                self.group(group_id@)->0,
                year,
                week,
            )),
    {
        match self.group_by_id(group_id) {
            Some(g) => self.is_week_done(g, year, week),
            None => false,
        }
    }

    // ── Past turns ──

    /// The turns of a group in `n` weeks from the one at place `from` on.
    pub open spec fn turns_from(self, group: CleaningGroup, today: Date, from: int, n: nat) -> Seq<Turn>
        decreases n,
    {
        if n == 0 {
            Seq::empty()
        } else {
            let week = week_at(from + n - 1);
            self.turns_from(group, today, from, (n - 1) as nat) + self.week_turns(
                group,
                today,
                week.0 as i32,
                week.1 as u32,
            )
        }
    }

    /// The turns of a group in `n` weeks from a given one on, in order.
    pub fn turns_in_weeks(&self, group: &CleaningGroup, today: Date, from: (i32, u32), n: usize) -> (r: Vec<
        Turn,
    >)
        requires
            self.wf(),
            today.in_week(),
            is_week(from.0 as int, from.1 as int),
            is_year(from.0 as int),
            week_start(from.0 as int, from.1 as int) == 7 * week_number(
                from.0 as int,
                from.1 as int,
            ) + 1,
            n > 0 ==> is_day(7 * (week_number(from.0 as int, from.1 as int) + n - 1) + 7),
        ensures
            r@ == self.turns_from(
                *group,
                today,
                week_number(from.0 as int, from.1 as int),
                n as nat,
            ),
            forall|i: int| 0 <= i < r@.len() ==> (#[trigger] r@[i]).wf(),
    {
        let ghost no = week_number(from.0 as int, from.1 as int);
        let mut r: Vec<Turn> = Vec::new();
        let mut i: usize = 0;
        while i < n
            invariant
                i <= n,
                no == week_number(from.0 as int, from.1 as int),
                self.wf(),
                today.in_week(),
                is_week(from.0 as int, from.1 as int),
                is_year(from.0 as int),
                week_start(from.0 as int, from.1 as int) == 7 * no + 1,
                n > 0 ==> is_day(7 * (no + n - 1) + 7),
                r@ == self.turns_from(*group, today, no, i as nat),
                forall|k: int| 0 <= k < r@.len() ==> (#[trigger] r@[k]).wf(),
            decreases n - i,
        {
            proof {
                lemma_week_start(from.0 as int, from.1 as int);
                reveal(crate::calendar::january_first);
            }
            let (year, week) = add_weeks(from.0, from.1, i as i64);
            proof {
                assert((7 * no + 1 + 7 * (i as i64) - 1) / 7 == no + i);
                lemma_whole_week(7 * (no + i) + 1, year as int, week as int);
            }
            let mut more = self.turns_in_week(group, today, year, week);
            let ghost before = r@;
            let ghost new = more@;
            proof {
                assert forall|k: int| 0 <= k < new.len() implies (#[trigger] new[k]).wf() by {
                    assert(new[k].year == year && new[k].week == week);
                }
            }
            r.append(&mut more);
            proof {
                assert forall|k: int| 0 <= k < r@.len() implies (#[trigger] r@[k]).wf() by {
                    if k < before.len() {
                        assert(r@[k] == before[k]);
                    } else {
                        assert(r@[k] == new[k - before.len()]);
                    }
                }
            }
            i += 1;
        }
        r
    }

    /// Whether a turn of a group is over: its last day has passed.
    pub open spec fn over(self, group: CleaningGroup, today: Date) -> spec_fn(Turn) -> bool {
        |t: Turn| t.last_day(group.rhythm) < today.day
    }

    /// Whether a turn of a group is over on a day.
    pub fn turn_over_at(&self, group: &CleaningGroup, turn: Turn, today: Date) -> (r: bool)
        requires
            turn.wf(),
        ensures
            r == self.over(*group, today)(turn),
    {
        let (_, end) = turn.dates(&group.rhythm);
        end.day < today.day
    }

    /// Whether a turn of a group is over. The day is read from the clock.
    pub fn turn_over(&self, group: &CleaningGroup, turn: Turn) -> (r: bool)
        requires
            turn.wf(),
        ensures
            exists|today: Date|
                is_today(today.day as int) && r == #[trigger] self.over(*group, today)(turn),
    {
        let day = planning_day();
        self.turn_over_at(group, turn, day)
    }

    /// How many weeks there are from the one that tracking started in to the current one.
    pub open spec fn tracked_weeks(self, today: Date) -> int {
        if today.week_no() < self.start_no(today) {
            0
        } else {
            today.week_no() - self.start_no(today) + 1
        }
    }

    /// The turns of a group since tracking started that are over.
    pub open spec fn past_turns(self, group: CleaningGroup, today: Date) -> Seq<Turn> {
        self.turns_from(
            group,
            today,
            self.start_no(today),
            self.tracked_weeks(today) as nat,
        ).filter(self.over(group, today))
    }

    /// The turns of a group since tracking started that are over on a day, in order.
    pub fn closed_turns_at(&self, group: &CleaningGroup, today: Date) -> (r: Vec<Turn>)
        requires
            self.wf(),
            today.in_week(),
        ensures
            r@ == self.past_turns(*group, today),
            forall|i: int| 0 <= i < r@.len() ==> (#[trigger] r@[i]).wf(),
    {
        let start = self.tracking_start(today);
        let now = week_of(today);
        proof {
            lemma_whole_week(today.day as int, now.0 as int, now.1 as int);
        }
        let ahead = weeks_between(start, now);
        if ahead < 0 {
            assert(self.past_turns(*group, today) =~= Seq::<Turn>::empty()) by {
                reveal(Seq::filter);
            }
            return Vec::new();
        }
        let n: usize = ahead as usize + 1;
        let turns = self.turns_in_weeks(group, today, start, n);
        let ghost p = self.over(*group, today);
        let mut r: Vec<Turn> = Vec::new();
        let mut i: usize = 0;
        assert(turns@.take(0).filter(p) =~= Seq::<Turn>::empty()) by {
            reveal(Seq::filter);
        }
        while i < turns.len()
            invariant
                i <= turns.len(),
                p == self.over(*group, today),
                forall|k: int| 0 <= k < turns@.len() ==> (#[trigger] turns@[k]).wf(),
                r@ == turns@.take(i as int).filter(p),
                forall|k: int| 0 <= k < r@.len() ==> (#[trigger] r@[k]).wf(),
            decreases turns.len() - i,
        {
            proof {
                lemma_filter_step(turns@, p, i as int);
            }
            if self.turn_over_at(group, turns[i], today) {
                r.push(turns[i]);
            }
            i += 1;
        }
        assert(turns@.take(i as int) =~= turns@);
        r
    }

    /// The turns of a group since tracking started that are over. The day is read from the clock.
    pub fn closed_turns(&self, group: &CleaningGroup) -> (r: Vec<Turn>)
        requires
            self.wf(),
        ensures
            exists|today: Date|
                is_today(today.day as int) && r@ == #[trigger] self.past_turns(*group, today),
    {
        let day = planning_day();
        self.closed_turns_at(group, day)
    }

    /// The turns of a group that are over and not done.
    pub open spec fn not_done(self, group: CleaningGroup) -> spec_fn(Turn) -> bool {
        |t: Turn| !self.turn_done(group, t)
    }

    /// The turns of a group that are over and were neither cleaned nor excused, in order.
    pub fn missed_turns(&self, group: &CleaningGroup, today: Date) -> (r: Vec<Turn>)
        requires
            self.wf(),
            today.in_week(),
        ensures
            r@ == self.past_turns(*group, today).filter(self.not_done(*group)),
            forall|i: int| 0 <= i < r@.len() ==> (#[trigger] r@[i]).wf(),
    {
        let turns = self.closed_turns_at(group, today);
        let ghost p = self.not_done(*group);
        let mut r: Vec<Turn> = Vec::new();
        let mut i: usize = 0;
        assert(turns@.take(0).filter(p) =~= Seq::<Turn>::empty()) by {
            reveal(Seq::filter);
        }
        while i < turns.len()
            invariant
                i <= turns.len(),
                p == self.not_done(*group),
                forall|k: int| 0 <= k < turns@.len() ==> (#[trigger] turns@[k]).wf(),
                r@ == turns@.take(i as int).filter(p),
                forall|k: int| 0 <= k < r@.len() ==> (#[trigger] r@[k]).wf(),
            decreases turns.len() - i,
        {
            proof {
                lemma_filter_step(turns@, p, i as int);
            }
            if !self.is_turn_done(group, turns[i]) {
                r.push(turns[i]);
            }
            i += 1;
        }
        assert(turns@.take(i as int) =~= turns@);
        r
    }

    /// How many turns in a row, up to the last of a sequence, were cleaned; excused ones in
    /// between neither count nor break the row.
    pub open spec fn streak(self, group: CleaningGroup, turns: Seq<Turn>) -> nat
        decreases turns.len(),
    {
        if turns.len() == 0 {
            0
        } else {
            let before = self.streak(group, turns.drop_last());
            if self.turn_cleaned(group, turns.last()) {
                before + 1
            } else if self.turn_done(group, turns.last()) {
                before
            } else {
                0
            }
        }
    }

    /// How many of a group's most recent past turns in a row were cleaned.
    pub fn streak_for(&self, group: &CleaningGroup, today: Date) -> (r: usize)
        requires
            self.wf(),
            today.in_week(),
        ensures
            r == self.streak(*group, self.past_turns(*group, today)),
    {
        let turns = self.closed_turns_at(group, today);
        let mut r: usize = 0;
        let mut i: usize = 0;
        assert(turns@.take(0) =~= Seq::<Turn>::empty());
        while i < turns.len()
            invariant
                i <= turns.len(),
                r <= i,
                r == self.streak(*group, turns@.take(i as int)),
            decreases turns.len() - i,
        {
            proof {
                assert(turns@.take(i + 1).drop_last() =~= turns@.take(i as int));
                assert(turns@.take(i + 1).last() == turns@[i as int]);
            }
            if self.is_turn_cleaned(group, turns[i]) {
                r += 1;
            } else if !self.is_turn_done(group, turns[i]) {
                r = 0;
            }
            i += 1;
        }
        assert(turns@.take(i as int) =~= turns@);
        r
    }

    /// The latest cleaning of a group.
    pub fn last_completion(&self, group_id: &str) -> (r: Option<&Completion>)
        ensures
            r is Some ==> exists|i: int|
                #[trigger] is_latest(self.completions@, group_id@, i) && *r->0
                    == self.completions@[i],
            r is None ==> forall|i: int|
                0 <= i < self.completions@.len() ==> !cleaned_in(group_id@)(
                    #[trigger] self.completions@[i],
                ),
    {
        let ghost p = cleaned_in(group_id@);
        let mut best: Option<usize> = None;
        let mut i: usize = 0;
        while i < self.completions.len()
            invariant
                i <= self.completions.len(),
                p == cleaned_in(group_id@),
                best is None ==> forall|k: int|
                    0 <= k < i ==> !p(#[trigger] self.completions@[k]),
                best is Some ==> best->0 < i && is_latest(
                    self.completions@.take(i as int),
                    group_id@,
                    best->0 as int,
                ),
            decreases self.completions.len() - i,
        {
            let ghost before = self.completions@.take(i as int);
            let ghost more = self.completions@.take(i + 1);
            assert(forall|k: int| 0 <= k < i ==> #[trigger] more[k] == before[k]);
            let c = &self.completions[i];
            assert(more[i as int] == *c);
            if !c.skipped && same_text(c.group_id.as_str(), group_id) {
                match best {
                    Some(b) => {
                        if !is_after(self.completions[b].completed_at, c.completed_at) {
                            best = Some(i);
                            assert(is_latest(more, group_id@, i as int)) by {
                                assert forall|k: int|
                                    0 <= k < more.len() && p(#[trigger] more[k]) implies !after(
                                    more[k].completed_at,
                                    more[i as int].completed_at,
                                ) && (k > i ==> after(
                                    more[i as int].completed_at,
                                    more[k].completed_at,
                                )) by {
                                    if k < i {
                                        assert(before[k] == more[k]);
                                        assert(before[b as int] == more[b as int]);
                                    }
                                }
                            }
                        } else {
                            assert(is_latest(more, group_id@, b as int)) by {
                                assert forall|k: int|
                                    0 <= k < more.len() && p(#[trigger] more[k]) implies !after(
                                    more[k].completed_at,
                                    more[b as int].completed_at,
                                ) && (k > b ==> after(
                                    more[b as int].completed_at,
                                    more[k].completed_at,
                                )) by {
                                    if k < i {
                                        assert(before[k] == more[k]);
                                    }
                                }
                            }
                        }
                    },
                    None => {
                        best = Some(i);
                        assert(is_latest(more, group_id@, i as int)) by {
                            assert forall|k: int|
                                0 <= k < more.len() && p(#[trigger] more[k]) implies !after(
                                more[k].completed_at,
                                more[i as int].completed_at,
                            ) && (k > i ==> after(
                                more[i as int].completed_at,
                                more[k].completed_at,
                            )) by {
                                if k < i {
                                    assert(self.completions@[k] == more[k]);
                                }
                            }
                        }
                    },
                }
            } else if best.is_some() {
                proof {
                    let b = best->0 as int;
                    assert forall|k: int|
                        0 <= k < more.len() && p(#[trigger] more[k]) implies !after(
                        more[k].completed_at,
                        more[b].completed_at,
                    ) && (k > b ==> after(more[b].completed_at, more[k].completed_at)) by {
                        assert(before[k] == more[k]);
                    }
                    assert(before[b] == more[b]);
                }
            }
            i += 1;
        }
        assert(self.completions@.take(i as int) =~= self.completions@);
        match best {
            Some(b) => Some(&self.completions[b]),
            None => None,
        }
    }
}

/// A shift of a week.
pub open spec fn week_turn(year: i32, week: u32, shift: int) -> Turn {
    Turn { year, week, shift: shift as u8 }
}

} // verus!
