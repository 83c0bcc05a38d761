//! Read-only overviews of the week and of the groups.

use vstd::prelude::*;

use crate::calendar::{
    is_day, is_year, lemma_today, lemma_whole_week, week_at, week_dates, week_no_of, week_of,
    week_start, week_text, Date, LAST_WEEK,
};
use crate::commands::base::{current_week, meant_turn, turn_meant, CommandError};
use crate::commands::people::active;
use crate::domain::{CleaningGroup, Person};
use crate::lists::lemma_filter_step;
use crate::planning::{is_known, lemma_known, known, this_week};
use crate::resolver::{first_due_no, first_due_number};
use crate::rhythm::Turn;
use crate::roster::week_turn;
use crate::scheduler::{shift_part, slot_part};
use crate::state::{Completion, State};
use crate::text::{
    decimal, join, join_texts, lemma_views_push, put_text, put_texts, same_text, show, views,
};

verus! {

// ── Names ────────────────────────────────────────────────────────────────────

/// Somebody by name, without mentioning them.
pub open spec fn plain_name(p: Person) -> Seq<char> {
    match p.matrix_id {
        Some(_) => p.display_name@,
        None => p.display_name@ + " (no Matrix)"@,
    }
}

/// Somebody by name, without mentioning them.
pub fn show_name(p: &Person) -> (r: String)
    ensures
        r@ == plain_name(*p),
{
    match &p.matrix_id {
        Some(_) => p.display_name.clone(),
        None => p.display_name.clone().concat(" (no Matrix)"),
    }
}

/// Somebody by name, or that nobody is assigned.
pub open spec fn name_or_nobody(p: Option<Person>) -> Seq<char> {
    match p {
        Some(p) => plain_name(p),
        None => "nobody assigned"@,
    }
}

/// The sign of somebody who is away from a group in a week.
pub open spec fn away_sign(state: State, p: Person, group_id: Seq<char>, week: (i32, u32)) -> Seq<char> {
    if state.away(p.id@, group_id, week.0, week.1) {
        " 🌴 away"@
    } else {
        ""@
    }
}

/// The sign of somebody who is away from a group in a week.
pub fn show_away(state: &State, p: &Person, group_id: &str, week: (i32, u32)) -> (r: &'static str)
    requires
        state.wf(),
        is_year(week.0 as int),
    ensures
        r@ == away_sign(*state, *p, group_id@, week),
{
    if state.is_absent(p.id.as_str(), group_id, week.0, week.1) {
        " 🌴 away"
    } else {
        ""
    }
}

// ── Tasks of a week ──────────────────────────────────────────────────────────

/// The sign of the turn that runs today, in groups with several shifts a week.
pub open spec fn now_sign(group: CleaningGroup, turn: Turn, today: Date) -> Seq<char> {
    if group.rhythm.week_shifts().len() > 1 && turn == turn_meant(group, this_week(today), today) {
        " ← now"@
    } else {
        ""@
    }
}

/// Who marked a task, when it was somebody else.
pub open spec fn done_by(state: State, p: Option<Person>, c: Completion) -> Seq<char> {
    if p is Some && p->0.id@ == c.completed_by_id@ {
        ""@
    } else {
        match state.person(c.completed_by_id@) {
            Some(q) => " (done by "@ + q.display_name@ + ")"@,
            None => ""@,
        }
    }
}

/// Whether a slot of a turn is done, and the line about it.
pub open spec fn task_line(state: State, group: CleaningGroup, turn: Turn, slot: int, today: Date) -> (
    bool,
    Seq<char>,
) {
    let p = state.assignee(group, slot, turn, today);
    let what = shift_part(group, turn) + slot_part(group, slot) + name_or_nobody(p);
    let now = now_sign(group, turn, today);
    match state.completion(group, slot, turn) {
        Some(c) => if c.skipped {
            (true, "⏭️ "@ + what + " · skipped"@ + now)
        } else {
            (true, "✅ "@ + what + done_by(state, p, c) + now)
        },
        None => (
            false,
            "⬜ "@ + what + (match p {
                Some(p) => away_sign(state, p, group.id@, (turn.year, turn.week)),
                None => ""@,
            }) + now,
        ),
    }
}

/// The lines about the first slots of a turn.
pub open spec fn slots_lines(state: State, group: CleaningGroup, turn: Turn, today: Date, n: nat) -> Seq<
    (bool, Seq<char>),
>
    decreases n,
{
    if n == 0 {
        Seq::empty()
    } else {
        slots_lines(state, group, turn, today, (n - 1) as nat).push(
            task_line(state, group, turn, n - 1, today),
        )
    }
}

/// The lines about the first shifts of the current week.
pub open spec fn shifts_lines(state: State, group: CleaningGroup, today: Date, n: nat) -> Seq<
    (bool, Seq<char>),
>
    decreases n,
{
    if n == 0 {
        Seq::empty()
    } else {
        shifts_lines(state, group, today, (n - 1) as nat) + slots_lines(
            state,
            group,
            week_turn(this_week(today).0, this_week(today).1, n - 1),
            today,
            group.slot_count(),
        )
    }
}

/// The lines about the current week of a group: one for each slot of each shift.
pub open spec fn week_lines(state: State, group: CleaningGroup, today: Date) -> Seq<(bool, Seq<char>)> {
    shifts_lines(state, group, today, group.rhythm.week_shifts().len())
}

/// The texts of lines.
pub open spec fn line_texts(lines: Seq<(bool, Seq<char>)>) -> Seq<Seq<char>> {
    lines.map_values(|l: (bool, Seq<char>)| l.1)
}

/// The number of lines about something done.
pub open spec fn done_count(lines: Seq<(bool, Seq<char>)>) -> nat
    decreases lines.len(),
{
    if lines.len() == 0 {
        0
    } else {
        done_count(lines.drop_last()) + if lines.last().0 {
            1nat
        } else {
            0nat
        }
    }
}

/// A line about a task.
#[derive(Clone, Debug)]
pub struct TaskLine {
    pub done: bool,
    pub text: String,
}

/// What lines say.
pub open spec fn said_lines(lines: Seq<TaskLine>) -> Seq<(bool, Seq<char>)> {
    lines.map_values(|l: TaskLine| (l.done, l.text@))
}

/// The line about a slot of a turn.
fn show_task_line(
    state: &State,
    group: &CleaningGroup,
    turn: Turn,
    slot: usize,
    running: Turn,
    today: Date,
) -> (r: TaskLine)
    requires
        state.wf(),
        today.in_week(),
        turn.wf(),
        running == turn_meant(*group, this_week(today), today),
    ensures
        (r.done, r.text@) == task_line(*state, *group, turn, slot as int, today),
{
    let p = state.slot_assignee_at(group, slot, turn, today);
    let who: String = match p {
        Some(p) => show_name(p),
        None => "nobody assigned".to_owned(),
    };
    let shift: String = match turn.shift_label(&group.rhythm) {
        Some(t) => t.concat(" · "),
        None => "".to_owned(),
    };
    let place: String = if slot < group.slots.len() {
        group.slots[slot].name.clone().concat(" · ")
    } else {
        "".to_owned()
    };
    let what = shift.concat(place.as_str()).concat(who.as_str());
    let now: &str = if group.rhythm.is_split() && turn.year == running.year && turn.week
        == running.week && turn.shift == running.shift {
        " ← now"
    } else {
        ""
    };
    match state.completion_for(group, slot, turn) {
        Some(c) => if c.skipped {
            TaskLine {
                done: true,
                text: "⏭️ ".to_owned().concat(what.as_str()).concat(" · skipped").concat(now),
            }
        } else {
            let own: bool = match p {
                Some(p) => same_text(p.id.as_str(), c.completed_by_id.as_str()),
                None => false,
            };
            let by: String = if own {
                "".to_owned()
            } else {
                match state.person_by_id(c.completed_by_id.as_str()) {
                    Some(q) => " (done by ".to_owned().concat(q.display_name.as_str()).concat(")"),
                    None => "".to_owned(),
                }
            };
            TaskLine {
                done: true,
                text: "✅ ".to_owned().concat(what.as_str()).concat(by.as_str()).concat(now),
            }
        },
        None => {
            let away: &str = match p {
                Some(p) => show_away(state, p, group.id.as_str(), (turn.year, turn.week)),
                None => "",
            };
            TaskLine {
                done: false,
                text: "⬜ ".to_owned().concat(what.as_str()).concat(away).concat(now),
            }
        },
    }
}

/// The lines about the current week of a group: one for each slot of each shift.
pub fn week_task_lines(state: &State, group: &CleaningGroup, today: Date) -> (r: Vec<TaskLine>)
    requires
        known(*state, today),
    ensures
        said_lines(r@) == week_lines(*state, *group, today),
{
    let week = current_week(today);
    let running = meant_turn(group, week, today);
    let n = group.rhythm.shift_count();
    let slots = group.people_per_turn();
    let mut r: Vec<TaskLine> = Vec::new();
    let mut s: usize = 0;
    proof {
        lemma_today(today.day as int);
        assert(said_lines(r@) =~= Seq::<(bool, Seq<char>)>::empty());
    }
    while s < n
        invariant
            s <= n <= 7,
            n == group.rhythm.week_shifts().len(),
            slots == group.slot_count(),
            state.wf(),
            today.in_week(),
            week == this_week(today),
            is_year(week.0 as int),
            is_day(week_start(week.0 as int, week.1 as int) + 6),
            running == turn_meant(*group, week, today),
            said_lines(r@) == shifts_lines(*state, *group, today, s as nat),
        decreases n - s,
    {
        let turn = Turn { year: week.0, week: week.1, shift: s as u8 };
        assert(turn == week_turn(week.0, week.1, s as int));
        let ghost before = said_lines(r@);
        let mut i: usize = 0;
        assert(said_lines(r@) =~= before + slots_lines(*state, *group, turn, today, 0));
        while i < slots
            invariant
                i <= slots,
                slots == group.slot_count(),
                state.wf(),
                today.in_week(),
                turn.wf(),
                running == turn_meant(*group, this_week(today), today),
                said_lines(r@) == before + slots_lines(*state, *group, turn, today, i as nat),
            decreases slots - i,
        {
            let line = show_task_line(state, group, turn, i, running, today);
            proof {
                assert(said_lines(r@.push(line)) =~= said_lines(r@).push((line.done, line.text@)));
                assert(said_lines(r@).push((line.done, line.text@)) =~= before + slots_lines(
                    *state,
                    *group,
                    turn,
                    today,
                    (i + 1) as nat,
                ));
            }
            r.push(line);
            i += 1;
        }
        s += 1;
    }
    r
}

// ── What comes after this week ───────────────────────────────────────────────

/// The place of the due week of a group that comes after the current week.
pub open spec fn next_no(state: State, group: CleaningGroup, today: Date) -> int {
    let first = first_due_no(state, group, today);
    if first == today.week_no() {
        first + group.rhythm.interval()
    } else {
        first
    }
}

/// Those who are responsible for the first slots of a turn.
pub open spec fn turn_names(state: State, group: CleaningGroup, turn: Turn, today: Date, n: nat) -> Seq<
    Seq<char>,
>
    decreases n,
{
    if n == 0 {
        Seq::empty()
    } else {
        turn_names(state, group, turn, today, (n - 1) as nat).push(
            name_or_nobody(state.assignee(group, n - 1, turn, today)),
        )
    }
}

/// A turn with those who are responsible for it: "Mon–Wed anna".
pub open spec fn turn_text(state: State, group: CleaningGroup, turn: Turn, today: Date) -> Seq<char> {
    (match turn.shift_text(group.rhythm) {
        Some(t) => t + " "@,
        None => ""@,
    }) + join(turn_names(state, group, turn, today, group.slot_count()), " + "@)
}

/// The turns of a week with those who are responsible for them.
pub open spec fn week_turn_texts(state: State, group: CleaningGroup, week: (i32, u32), today: Date, n: nat) -> Seq<
    Seq<char>,
>
    decreases n,
{
    if n == 0 {
        Seq::empty()
    } else {
        week_turn_texts(state, group, week, today, (n - 1) as nat).push(
            turn_text(state, group, week_turn(week.0, week.1, n - 1), today),
        )
    }
}

/// The line about the next due week, for groups with several shifts a week; none when that week
/// cannot be represented.
pub open spec fn next_lines(state: State, group: CleaningGroup, today: Date) -> Seq<Seq<char>> {
    let w = week_at(next_no(state, group, today));
    let week = (w.0 as i32, w.1 as u32);
    let n = group.rhythm.week_shifts().len();
    if n > 1 && is_day(7 * next_no(state, group, today) + 7) {
        seq![
            "Next (week "@ + decimal(week.1 as nat) + "): "@ + join(
                week_turn_texts(state, group, week, today, n),
                ", "@,
            ),
        ]
    } else {
        Seq::empty()
    }
}

/// The week after the current one in which a group is due; `None` when it cannot be represented.
fn find_next_week(state: &State, group: &CleaningGroup, today: Date) -> (r: Option<(i32, u32)>)
    requires
        state.wf(),
        today.in_week(),
    ensures
        (r is Some) == is_day(7 * next_no(*state, *group, today) + 7),
        r is Some ==> ((r->0).0 as int, (r->0).1 as int) == week_at(
            next_no(*state, *group, today),
        ) && (Turn { year: (r->0).0, week: (r->0).1, shift: 0 }).wf(),
{
    let first = first_due_number(state, group, today);
    let no: i64 = if first == week_no_of(today) {
        first + group.rhythm.every_weeks() as i64
    } else {
        first
    };
    proof {
        reveal(crate::calendar::january_first);
    }
    if no > LAST_WEEK {
        return None;
    }
    let r = week_of(Date { day: (7 * no + 1) as i32 });
    proof {
        lemma_whole_week(7 * no + 1, r.0 as int, r.1 as int);
    }
    Some(r)
}

/// The line about the next due week, for groups with several shifts a week.
fn show_next_lines(state: &State, group: &CleaningGroup, today: Date) -> (r: Vec<String>)
    requires
        known(*state, today),
    ensures
        views(r@) == next_lines(*state, *group, today),
{
    let mut r: Vec<String> = Vec::new();
    assert(views(r@) =~= Seq::<Seq<char>>::empty());
    let n = group.rhythm.shift_count();
    if n <= 1 {
        return r;
    }
    proof {
        lemma_today(today.day as int);
    }
    let week = match find_next_week(state, group, today) {
        Some(w) => w,
        None => {
            return r;
        },
    };
    let slots = group.people_per_turn();
    let mut texts: Vec<String> = Vec::new();
    let mut s: usize = 0;
    assert(views(texts@) =~= Seq::<Seq<char>>::empty());
    while s < n
        invariant
            s <= n <= 7,
            n == group.rhythm.week_shifts().len(),
            slots == group.slot_count(),
            state.wf(),
            today.in_week(),
            (Turn { year: week.0, week: week.1, shift: 0 }).wf(),
            views(texts@) == week_turn_texts(*state, *group, week, today, s as nat),
        decreases n - s,
    {
        let turn = Turn { year: week.0, week: week.1, shift: s as u8 };
        assert(turn == week_turn(week.0, week.1, s as int));
        let mut names: Vec<String> = Vec::new();
        let mut i: usize = 0;
        assert(views(names@) =~= Seq::<Seq<char>>::empty());
        while i < slots
            invariant
                i <= slots,
                slots == group.slot_count(),
                state.wf(),
                today.in_week(),
                turn.wf(),
                views(names@) == turn_names(*state, *group, turn, today, i as nat),
            decreases slots - i,
        {
            let name: String = match state.slot_assignee_at(group, i, turn, today) {
                Some(p) => show_name(p),
                None => "nobody assigned".to_owned(),
            };
            proof {
                lemma_views_push(names@, name);
            }
            names.push(name);
            i += 1;
        }
        let shift: String = match turn.shift_label(&group.rhythm) {
            Some(t) => t.concat(" "),
            None => "".to_owned(),
        };
        let text = shift.concat(join_texts(&names, " + ").as_str());
        proof {
            lemma_views_push(texts@, text);
        }
        texts.push(text);
        s += 1;
    }
    let line = "Next (week ".to_owned().concat(show(week.1 as u64).as_str()).concat("): ").concat(
        join_texts(&texts, ", ").as_str(),
    );
    r.push(line);
    assert(views(r@) =~= seq![line@]);
    r
}

// ── !status ──────────────────────────────────────────────────────────────────

/// The headline of a group: its name, and how often it is cleaned when its week is split.
pub open spec fn headline(group: CleaningGroup) -> Seq<char> {
    "**"@ + group.name@ + "**"@ + (if group.rhythm.week_shifts().len() > 1 {
        " · "@ + group.rhythm.description()
    } else {
        ""@
    })
}

/// What the status says of a group that is due.
pub open spec fn group_block(state: State, group: CleaningGroup, today: Date) -> Seq<Seq<char>> {
    seq![""@, headline(group)] + line_texts(week_lines(state, group, today)) + next_lines(
        state,
        group,
        today,
    )
}

/// What the status says of groups.
#[verifier::ext_equal]
pub struct StatusParts {
    pub body: Seq<Seq<char>>,
    pub not_due: Seq<Seq<char>>,
    pub done: nat,
    pub total: nat,
}

/// What the status says of groups.
pub open spec fn status_parts(state: State, groups: Seq<CleaningGroup>, today: Date) -> StatusParts
    decreases groups.len(),
{
    if groups.len() == 0 {
        StatusParts { body: Seq::empty(), not_due: Seq::empty(), done: 0, total: 0 }
    } else {
        let r = status_parts(state, groups.drop_last(), today);
        let g = groups.last();
        let lines = week_lines(state, g, today);
        if !g.is_active {
            r
        } else if !state.in_plan(g, today, this_week(today).0, this_week(today).1) {
            StatusParts { not_due: r.not_due.push(g.name@), ..r }
        } else {
            StatusParts {
                body: r.body + group_block(state, g, today),
                done: r.done + done_count(lines),
                total: r.total + lines.len(),
                ..r
            }
        }
    }
}

/// The status of the current week: who cleans what, done or open.
pub open spec fn status(state: State, today: Date) -> Seq<char> {
    let parts = status_parts(state, state.cleaning_groups@, today);
    let week = this_week(today);
    if state.cleaning_groups@.filter(active()).len() == 0 {
        "No active cleaning groups configured yet."@
    } else {
        join(
            seq![
                "📋 **Week "@ + decimal(week.1 as nat) + "** ("@ + week_text(
                    week.0 as int,
                    week.1 as int,
                ) + ") · "@ + decimal(parts.done) + " of "@ + decimal(parts.total) + " done"@,
            ] + parts.body + (if parts.not_due.len() > 0 {
                seq![""@, "Not due this week: "@ + join(parts.not_due, ", "@)]
            } else {
                Seq::empty()
            }),
            "\n"@,
        )
    }
}

/// Counting one line more.
proof fn lemma_done_count(lines: Seq<(bool, Seq<char>)>, i: int)
    requires
        0 <= i < lines.len(),
    ensures
        done_count(lines.take(i + 1)) == done_count(lines.take(i)) + (if lines[i].0 {
            1nat
        } else {
            0nat
        }),
        done_count(lines.take(i)) <= i,
    decreases i,
{
    assert(lines.take(i + 1).drop_last() =~= lines.take(i));
    if i > 0 {
        lemma_done_count(lines, i - 1);
    }
}

/// Puts the texts of lines at the end of others, and counts those about something done.
pub fn put_lines(texts: &mut Vec<String>, lines: &Vec<TaskLine>) -> (r: usize)
    ensures
        views(final(texts)@) == views(old(texts)@) + line_texts(said_lines(lines@)),
        r == done_count(said_lines(lines@)),
        r <= lines@.len(),
{
    let ghost before = views(texts@);
    let ghost said = said_lines(lines@);
    let mut r: usize = 0;
    let mut i: usize = 0;
    assert(views(texts@) =~= before + line_texts(said).take(0));
    while i < lines.len()
        invariant
            i <= lines.len(),
            r <= i,
            said == said_lines(lines@),
            r == done_count(said.take(i as int)),
            views(texts@) == before + line_texts(said).take(i as int),
        decreases lines.len() - i,
    {
        let line = lines[i].text.clone();
        proof {
            lemma_done_count(said, i as int);
            lemma_views_push(texts@, line);
            assert(before + line_texts(said).take(i + 1) =~= (before + line_texts(said).take(
                i as int,
            )).push(line@));
        }
        texts.push(line);
        if lines[i].done {
            r += 1;
        }
        i += 1;
    }
    proof {
        assert(said.take(i as int) =~= said);
        assert(line_texts(said).take(i as int) =~= line_texts(said));
    }
    r
}

/// The headline of a group.
fn show_headline(group: &CleaningGroup) -> (r: String)
    ensures
        r@ == headline(*group),
{
    let often: String = if group.rhythm.is_split() {
        " · ".to_owned().concat(group.rhythm.describe().as_str())
    } else {
        "".to_owned()
    };
    "**".to_owned().concat(group.name.as_str()).concat("**").concat(often.as_str())
}

/// Whether a group is active anywhere.
fn any_active(state: &State) -> (r: bool)
    ensures
        r == (state.cleaning_groups@.filter(active()).len() > 0),
{
    let groups = &state.cleaning_groups;
    let mut i: usize = 0;
    assert(groups@.take(0).filter(active()) =~= Seq::<CleaningGroup>::empty()) by {
        reveal(Seq::filter);
    }
    while i < groups.len()
        invariant
            i <= groups.len(),
            groups == &state.cleaning_groups,
            groups@.take(i as int).filter(active()).len() == 0,
        decreases groups.len() - i,
    {
        proof {
            lemma_filter_step(groups@, active(), i as int);
        }
        if groups[i].is_active {
            proof {
                assert(active()(groups@[i as int]));
                crate::lists::lemma_filter(groups@, active());
                assert(groups@.filter(active()).contains(groups@[i as int]));
            }
            return true;
        }
        i += 1;
    }
    assert(groups@.take(i as int) =~= groups@);
    false
}

/// The status of the current week: who cleans what, done or open.
pub fn status_text(state: &State, today: Date) -> (r: String)
    requires
        known(*state, today),
    ensures
        r@ == status(*state, today),
{
    if !any_active(state) {
        return "No active cleaning groups configured yet.".to_owned();
    }
    proof {
        lemma_known(*state, today);
    }
    let week = current_week(today);
    let groups = &state.cleaning_groups;
    let mut body: Vec<String> = Vec::new();
    let mut not_due: Vec<String> = Vec::new();
    let mut done: usize = 0;
    let mut total: usize = 0;
    let mut i: usize = 0;
    proof {
        assert(views(body@) =~= Seq::<Seq<char>>::empty());
        assert(groups@.take(0) =~= Seq::<CleaningGroup>::empty());
    }
    while i < groups.len()
        invariant
            i <= groups.len(),
            groups == &state.cleaning_groups,
            known(*state, today),
            today.in_week(),
            week == this_week(today),
            is_year(week.0 as int),
            done <= total <= body@.len(),
            ({
                let parts = status_parts(*state, groups@.take(i as int), today);
                &&& parts.body == views(body@)
                &&& parts.not_due == views(not_due@)
                &&& parts.done == done
                &&& parts.total == total
            }),
        decreases groups.len() - i,
    {
        let g = &groups[i];
        proof {
            let more = groups@.take(i + 1);
            assert(more.drop_last() =~= groups@.take(i as int));
            assert(more.last() == *g);
            crate::planning::lemma_known(*state, today);
        }
        if g.is_active {
            if state.belongs_in_weekly_plan(g, today, week.0, week.1) {
                let ghost before = views(body@);
                put_text(&mut body, "".to_owned());
                put_text(&mut body, show_headline(g));
                let lines = week_task_lines(state, g, today);
                let n = put_lines(&mut body, &lines);
                proof {
                    assert(body.len() == views(body@).len());
                    assert(before.len() + 2 + lines@.len() == body.len());
                }
                done += n;
                total += lines.len();
                let next = show_next_lines(state, g, today);
                put_texts(&mut body, &next);
                proof {
                    assert(views(body@) =~= before + group_block(*state, *g, today));
                    assert(said_lines(lines@).len() == lines@.len());
                }
            } else {
                put_text(&mut not_due, g.name.clone());
            }
        }
        i += 1;
    }
    assert(groups@.take(i as int) =~= groups@);
    let head = "📋 **Week ".to_owned().concat(show(week.1 as u64).as_str()).concat("** (").concat(
        week_dates(week.0, week.1).as_str(),
    ).concat(") · ").concat(show(done as u64).as_str()).concat(" of ").concat(
        show(total as u64).as_str(),
    ).concat(" done");
    let mut lines: Vec<String> = Vec::new();
    assert(views(lines@) =~= Seq::<Seq<char>>::empty());
    put_text(&mut lines, head);
    assert(views(lines@) =~= seq![head@]);
    put_texts(&mut lines, &body);
    if not_due.len() > 0 {
        let ghost before = views(lines@);
        put_text(&mut lines, "".to_owned());
        put_text(
            &mut lines,
            "Not due this week: ".to_owned().concat(join_texts(&not_due, ", ").as_str()),
        );
        assert(views(lines@) =~= before + seq![
            ""@,
            "Not due this week: "@ + join(views(not_due@), ", "@),
        ]);
    } else {
        assert(views(lines@) =~= views(lines@) + Seq::<Seq<char>>::empty());
    }
    join_texts(&lines, "\n")
}

/// Shows the status of the current week.
pub fn cmd_status(state: &State, today: Date) -> (r: Result<String, CommandError>)
    ensures
        known(*state, today) ==> r is Ok && r->Ok_0@ == status(*state, today),
        !known(*state, today) ==> r == Err::<String, CommandError>(CommandError::OutOfRange),
{
    if is_known(state, today) {
        Ok(status_text(state, today))
    } else {
        Err(CommandError::OutOfRange)
    }
}

} // verus!
