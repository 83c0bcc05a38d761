//! What somebody has to do in a week.

use vstd::prelude::*;

use crate::analytics::Duty;
use crate::calendar::{is_day, is_year, week_start, Date};
use crate::commands::base::CommandError;
use crate::domain::{CleaningGroup, SlotAssignment};
use crate::lists::{lemma_filter, lemma_filter_step, lemma_first_index, some};
use crate::planning::{is_known, known};
use crate::rhythm::Turn;
use crate::state::State;
use crate::text::same_text;

verus! {

/// One slot of a turn of the group at a place.
#[derive(Clone, Copy, Debug)]
pub struct Task {
    pub group: usize,
    pub slot: usize,
    pub turn: Turn,
}

/// A frozen assignment of a group in a week.
pub open spec fn frozen_in(group_id: Seq<char>, week: (i32, u32)) -> spec_fn(SlotAssignment) -> bool {
    |a: SlotAssignment| a.group_id@ == group_id && a.iso_year == week.0 && a.iso_week == week.1
}

/// Whether there is something to do for a group in a week: it is due, or something is frozen.
pub open spec fn live(state: State, group: CleaningGroup, week: (i32, u32), today: Date) -> bool {
    state.due(group, today, week.0 as int, week.1 as int) || some(
        state.slot_assignments@,
        frozen_in(group.id@, week),
    )
}

/// Whether somebody is responsible for one slot of a turn.
pub open spec fn responsible(
    state: State,
    group: CleaningGroup,
    slot: int,
    turn: Turn,
    person_id: Seq<char>,
    today: Date,
) -> bool {
    match state.assignee(group, slot, turn, today) {
        Some(p) => p.id@ == person_id,
        None => false,
    }
}

/// The tasks of somebody among the first slots of a turn.
pub open spec fn slot_tasks(
    state: State,
    k: int,
    turn: Turn,
    person_id: Seq<char>,
    today: Date,
    n: nat,
) -> Seq<Task>
    decreases n,
{
    if n == 0 {
        Seq::empty()
    } else {
        let r = slot_tasks(state, k, turn, person_id, today, (n - 1) as nat);
        if responsible(state, state.cleaning_groups@[k], n - 1, turn, person_id, today) {
            r.push(Task { group: k as usize, slot: (n - 1) as usize, turn })
        } else {
            r
        }
    }
}

/// The tasks of somebody in the first shifts of a week.
pub open spec fn shift_tasks(
    state: State,
    k: int,
    week: (i32, u32),
    person_id: Seq<char>,
    today: Date,
    n: nat,
) -> Seq<Task>
    decreases n,
{
    if n == 0 {
        Seq::empty()
    } else {
        shift_tasks(state, k, week, person_id, today, (n - 1) as nat) + slot_tasks(
            state,
            k,
            Turn { year: week.0, week: week.1, shift: (n - 1) as u8 },
            person_id,
            today,
            state.cleaning_groups@[k].slot_count(),
        )
    }
}

/// The tasks of somebody in a week of the group at a place.
pub open spec fn own_tasks(
    state: State,
    k: int,
    week: (i32, u32),
    person_id: Seq<char>,
    today: Date,
) -> Seq<Task> {
    if live(state, state.cleaning_groups@[k], week, today) {
        shift_tasks(
            state,
            k,
            week,
            person_id,
            today,
            state.cleaning_groups@[k].rhythm.week_shifts().len(),
        )
    } else {
        Seq::empty()
    }
}

/// Whether a group is looked at: the one with an id, or every active one.
pub open spec fn looked_at(group: CleaningGroup, only: Option<String>) -> bool {
    match only {
        Some(id) => group.id@ == id@,
        None => group.is_active,
    }
}

/// The tasks of somebody in a week of the first groups.
pub open spec fn all_own(
    state: State,
    week: (i32, u32),
    person_id: Seq<char>,
    only: Option<String>,
    today: Date,
    n: nat,
) -> Seq<Task>
    decreases n,
{
    if n == 0 {
        Seq::empty()
    } else {
        let r = all_own(state, week, person_id, only, today, (n - 1) as nat);
        if looked_at(state.cleaning_groups@[n - 1], only) {
            r + own_tasks(state, n - 1, week, person_id, today)
        } else {
            r
        }
    }
}

/// Whether a task is still open.
pub open spec fn is_open(state: State) -> spec_fn(Task) -> bool {
    |t: Task| !state.slot_done(state.cleaning_groups@[t.group as int], t.slot as int, t.turn)
}

/// The first day of a task.
pub open spec fn start_of(state: State, t: Task) -> int {
    t.turn.first_day(state.cleaning_groups@[t.group as int].rhythm)
}

/// Whether a task has begun.
pub open spec fn has_begun(state: State, today: Date) -> spec_fn(Task) -> bool {
    |t: Task| start_of(state, t) <= today.day
}

/// Whether a task begins on a day.
pub open spec fn begins_on(state: State, day: int) -> spec_fn(Task) -> bool {
    |t: Task| start_of(state, t) == day
}

/// The earliest first day of tasks.
pub open spec fn earliest(state: State, tasks: Seq<Task>) -> int
    decreases tasks.len(),
{
    if tasks.len() <= 1 {
        start_of(state, tasks[0])
    } else {
        let r = earliest(state, tasks.drop_last());
        if start_of(state, tasks.last()) < r {
            start_of(state, tasks.last())
        } else {
            r
        }
    }
}

/// The tasks that can be marked as done: the open ones that have begun, or, when none has, the
/// ones that begin first.
pub open spec fn markable(state: State, tasks: Seq<Task>, today: Date) -> Seq<Task> {
    let open = tasks.filter(is_open(state));
    let begun = open.filter(has_begun(state, today));
    if begun.len() > 0 {
        begun
    } else {
        open.filter(begins_on(state, earliest(state, open)))
    }
}

/// Whether tasks are slots of turns that can be represented, of groups that there are.
pub open spec fn are_tasks(state: State, tasks: Seq<Task>) -> bool {
    forall|i: int|
        0 <= i < tasks.len() ==> (#[trigger] tasks[i]).group < state.cleaning_groups@.len()
            && tasks[i].turn.wf()
}

/// Whether there is something to do for a group in a week.
fn is_live(state: &State, group: &CleaningGroup, week: (i32, u32), today: Date) -> (r: bool)
    requires
        state.wf(),
        today.in_week(),
        is_year(week.0 as int),
    ensures
        r == live(*state, *group, week, today),
{
    if state.is_due_week(group, today, week.0, week.1) {
        return true;
    }
    let ghost p = frozen_in(group.id@, week);
    let mut i: usize = 0;
    while i < state.slot_assignments.len()
        invariant
            i <= state.slot_assignments.len(),
            p == frozen_in(group.id@, week),
            forall|k: int| 0 <= k < i ==> !p(#[trigger] state.slot_assignments@[k]),
        decreases state.slot_assignments.len() - i,
    {
        let a = &state.slot_assignments[i];
        if a.iso_year == week.0 && a.iso_week == week.1 && same_text(
            a.group_id.as_str(),
            group.id.as_str(),
        ) {
            proof {
                lemma_first_index(state.slot_assignments@, p, i as int);
            }
            return true;
        }
        i += 1;
    }
    proof {
        lemma_first_index(state.slot_assignments@, p, i as int);
    }
    false
}

/// Lists the tasks of somebody in a week of the group at a place.
pub fn list_own_tasks(state: &State, k: usize, week: (i32, u32), person_id: &str, today: Date) -> (r:
    Vec<Task>)
    requires
        known(*state, today),
        k < state.cleaning_groups@.len(),
        is_year(week.0 as int),
        is_day(week_start(week.0 as int, week.1 as int) + 6),
    ensures
        r@ == own_tasks(*state, k as int, week, person_id@, today),
        are_tasks(*state, r@),
{
    let mut r: Vec<Task> = Vec::new();
    proof {
        crate::planning::lemma_known(*state, today);
    }
    let group = &state.cleaning_groups[k];
    if !is_live(state, group, week, today) {
        return r;
    }
    let n = group.rhythm.shift_count();
    let slots = group.people_per_turn();
    let mut s: usize = 0;
    while s < n
        invariant
            s <= n <= 7,
            n == group.rhythm.week_shifts().len(),
            slots == group.slot_count(),
            k < state.cleaning_groups@.len(),
            *group == state.cleaning_groups@[k as int],
            is_year(week.0 as int),
            is_day(week_start(week.0 as int, week.1 as int) + 6),
            state.wf(),
            today.in_week(),
            r@ == shift_tasks(*state, k as int, week, person_id@, today, s as nat),
            are_tasks(*state, r@),
        decreases n - s,
    {
        let turn = Turn { year: week.0, week: week.1, shift: s as u8 };
        let ghost before = r@;
        let mut i: usize = 0;
        assert(r@ =~= before + slot_tasks(*state, k as int, turn, person_id@, today, 0));
        while i < slots
            invariant
                i <= slots,
                slots == group.slot_count(),
                k < state.cleaning_groups@.len(),
                *group == state.cleaning_groups@[k as int],
                turn.wf(),
                state.wf(),
                today.in_week(),
                r@ == before + slot_tasks(
                    *state,
                    k as int,
                    turn,
                    person_id@,
                    today,
                    i as nat,
                ),
                are_tasks(*state, r@),
            decreases slots - i,
        {
            let mine: bool = match state.slot_assignee_at(group, i, turn, today) {
                Some(p) => same_text(p.id.as_str(), person_id),
                None => false,
            };
            if mine {
                r.push(Task { group: k, slot: i, turn });
            }
            proof {
                assert(r@ =~= before + slot_tasks(
                    *state,
                    k as int,
                    turn,
                    person_id@,
                    today,
                    (i + 1) as nat,
                ));
            }
            i += 1;
        }
        s += 1;
    }
    r
}

/// Lists the tasks of somebody in a week, of the group with an id or of all active groups.
pub fn list_all_own(
    state: &State,
    week: (i32, u32),
    person_id: &str,
    only: &Option<String>,
    today: Date,
) -> (r: Vec<Task>)
    requires
        known(*state, today),
        is_year(week.0 as int),
        is_day(week_start(week.0 as int, week.1 as int) + 6),
    ensures
        r@ == all_own(
            *state,
            week,
            person_id@,
            *only,
            today,
            state.cleaning_groups@.len(),
        ),
        are_tasks(*state, r@),
{
    let mut r: Vec<Task> = Vec::new();
    let mut k: usize = 0;
    while k < state.cleaning_groups.len()
        invariant
            k <= state.cleaning_groups.len(),
            known(*state, today),
            is_year(week.0 as int),
            is_day(week_start(week.0 as int, week.1 as int) + 6),
            r@ == all_own(*state, week, person_id@, *only, today, k as nat),
            are_tasks(*state, r@),
        decreases state.cleaning_groups.len() - k,
    {
        let wanted: bool = match only {
            Some(id) => same_text(state.cleaning_groups[k].id.as_str(), id.as_str()),
            None => state.cleaning_groups[k].is_active,
        };
        if wanted {
            let mut more = list_own_tasks(state, k, week, person_id, today);
            let ghost a = r@;
            let ghost b = more@;
            r.append(&mut more);
            assert forall|i: int| 0 <= i < r@.len() implies (#[trigger] r@[i]).group
                < state.cleaning_groups@.len() && r@[i].turn.wf() by {
                if i < a.len() {
                    assert(r@[i] == a[i]);
                } else {
                    assert(r@[i] == b[i - a.len()]);
                }
            }
        }
        k += 1;
    }
    r
}

/// Whether a task is still open.
pub fn task_open(state: &State, t: &Task) -> (r: bool)
    requires
        t.group < state.cleaning_groups@.len(),
    ensures
        r == is_open(*state)(*t),
{
    !state.is_turn_slot_done(&state.cleaning_groups[t.group], t.slot, t.turn)
}

/// The tasks that are still open.
pub fn open_tasks(state: &State, tasks: &Vec<Task>) -> (r: Vec<Task>)
    requires
        are_tasks(*state, tasks@),
    ensures
        r@ == tasks@.filter(is_open(*state)),
        are_tasks(*state, r@),
{
    let ghost p = is_open(*state);
    let mut r: Vec<Task> = Vec::new();
    let mut i: usize = 0;
    assert(tasks@.take(0).filter(p) =~= Seq::<Task>::empty()) by {
        reveal(Seq::filter);
    }
    while i < tasks.len()
        invariant
            i <= tasks.len(),
            p == is_open(*state),
            are_tasks(*state, tasks@),
            r@ == tasks@.take(i as int).filter(p),
            are_tasks(*state, r@),
        decreases tasks.len() - i,
    {
        proof {
            lemma_filter_step(tasks@, p, i as int);
        }
        let t = tasks[i];
        if task_open(state, &t) {
            r.push(t);
        }
        i += 1;
    }
    assert(tasks@.take(i as int) =~= tasks@);
    r
}

/// The tasks that begin on a day, or no later than on it.
fn tasks_by_start(state: &State, tasks: &Vec<Task>, day: i32, exact: bool) -> (r: Vec<Task>)
    requires
        are_tasks(*state, tasks@),
    ensures
        exact ==> r@ == tasks@.filter(begins_on(*state, day as int)),
        !exact ==> r@ == tasks@.filter(has_begun(*state, Date { day })),
        are_tasks(*state, r@),
{
    let ghost p = if exact {
        begins_on(*state, day as int)
    } else {
        has_begun(*state, Date { day })
    };
    let mut r: Vec<Task> = Vec::new();
    let mut i: usize = 0;
    assert(tasks@.take(0).filter(p) =~= Seq::<Task>::empty()) by {
        reveal(Seq::filter);
    }
    while i < tasks.len()
        invariant
            i <= tasks.len(),
            p == if exact {
                begins_on(*state, day as int)
            } else {
                has_begun(*state, Date { day })
            },
            are_tasks(*state, tasks@),
            r@ == tasks@.take(i as int).filter(p),
            are_tasks(*state, r@),
        decreases tasks.len() - i,
    {
        proof {
            lemma_filter_step(tasks@, p, i as int);
        }
        let t = tasks[i];
        let (first, _) = t.turn.dates(&state.cleaning_groups[t.group].rhythm);
        if (exact && first.day == day) || (!exact && first.day <= day) {
            r.push(t);
        }
        i += 1;
    }
    assert(tasks@.take(i as int) =~= tasks@);
    r
}

/// The tasks that can be marked as done.
pub fn pick_markable(state: &State, tasks: &Vec<Task>, today: Date) -> (r: Vec<Task>)
    requires
        are_tasks(*state, tasks@),
    ensures
        r@ == markable(*state, tasks@, today),
        are_tasks(*state, r@),
{
    let open = open_tasks(state, tasks);
    let begun = tasks_by_start(state, &open, today.day, false);
    assert(Date { day: today.day } == today);
    if begun.len() > 0 || open.len() == 0 {
        assert(open@.len() == 0 ==> begun@ =~= open@.filter(
            begins_on(*state, earliest(*state, open@)),
        )) by {
            reveal(Seq::filter);
        }
        return begun;
    }
    let (first, _) = open[0].turn.dates(&state.cleaning_groups[open[0].group].rhythm);
    let mut day: i32 = first.day;
    let mut i: usize = 1;
    assert(open@.take(1).len() == 1);
    while i < open.len()
        invariant
            1 <= i <= open.len(),
            are_tasks(*state, open@),
            day == earliest(*state, open@.take(i as int)),
        decreases open.len() - i,
    {
        proof {
            let more = open@.take(i + 1);
            assert(more.drop_last() =~= open@.take(i as int));
            assert(more.last() == open@[i as int]);
        }
        let t = open[i];
        let (start, _) = t.turn.dates(&state.cleaning_groups[t.group].rhythm);
        if start.day < day {
            day = start.day;
        }
        i += 1;
    }
    assert(open@.take(i as int) =~= open@);
    tasks_by_start(state, &open, day, true)
}

/// When something can be marked as open or begun at all, something can be marked as done.
pub proof fn lemma_markable(state: State, tasks: Seq<Task>, today: Date)
    requires
        tasks.filter(is_open(state)).len() > 0,
    ensures
        markable(state, tasks, today).len() > 0,
{
    let open = tasks.filter(is_open(state));
    lemma_earliest(state, open);
    let day = earliest(state, open);
    let i = choose|i: int| 0 <= i < open.len() && start_of(state, open[i]) == day;
    lemma_filter(open, begins_on(state, day));
    assert(begins_on(state, day)(open[i]));
    assert(open.filter(begins_on(state, day)).contains(open[i]));
}

/// The earliest first day is that of a task.
proof fn lemma_earliest(state: State, tasks: Seq<Task>)
    requires
        tasks.len() > 0,
    ensures
        exists|i: int| 0 <= i < tasks.len() && start_of(state, tasks[i]) == earliest(state, tasks),
    decreases tasks.len(),
{
    if tasks.len() > 1 {
        let front = tasks.drop_last();
        lemma_earliest(state, front);
        let i = choose|i: int|
            0 <= i < front.len() && start_of(state, front[i]) == earliest(state, front);
        assert(start_of(state, tasks[i]) == earliest(state, front));
        assert(start_of(state, tasks[tasks.len() - 1]) == start_of(state, tasks.last()));
    } else {
        assert(start_of(state, tasks[0]) == earliest(state, tasks));
    }
}

/// A task by the id of its group.
pub open spec fn duty_of(state: State, t: Task) -> Duty {
    Duty {
        group_id: state.cleaning_groups@[t.group as int].id,
        slot_index: t.slot,
        turn: t.turn,
    }
}

/// The tasks of somebody in a week that can be marked as done, of the group with an id or of all
/// active groups.
pub fn markable_duties(
    state: &State,
    person_id: &str,
    week: (i32, u32),
    only: &Option<String>,
    today: Date,
) -> (r: Result<Vec<Duty>, CommandError>)
    ensures
        (r is Ok) == (known(*state, today) && Turn {
            year: week.0,
            week: week.1,
            shift: 0,
        }.wf()),
        r is Err ==> r->Err_0 == CommandError::OutOfRange,
        r is Ok ==> r->Ok_0@ == markable(
            *state,
            all_own(*state, week, person_id@, *only, today, state.cleaning_groups@.len()),
            today,
        ).map_values(|t: Task| duty_of(*state, t)),
{
    if !is_known(state, today) || !crate::planning::turn_fits(
        Turn { year: week.0, week: week.1, shift: 0 },
    ) {
        return Err(CommandError::OutOfRange);
    }
    let own = list_all_own(state, week, person_id, only, today);
    let tasks = pick_markable(state, &own, today);
    let mut r: Vec<Duty> = Vec::new();
    let mut i: usize = 0;
    while i < tasks.len()
        invariant
            i <= tasks.len(),
            are_tasks(*state, tasks@),
            r@ =~= tasks@.take(i as int).map_values(|t: Task| duty_of(*state, t)),
        decreases tasks.len() - i,
    {
        let t = tasks[i];
        r.push(
            Duty {
                group_id: state.cleaning_groups[t.group].id.clone(),
                slot_index: t.slot,
                turn: t.turn,
            },
        );
        i += 1;
    }
    assert(tasks@.take(i as int) =~= tasks@);
    Ok(r)
}

} // verus!
