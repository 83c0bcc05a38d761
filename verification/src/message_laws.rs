//! What the plan of a week and reminders say.

use vstd::prelude::*;

use crate::calendar::{has_monday, Date};
use crate::domain::CleaningGroup;
use crate::lists::lemma_filter;
use crate::pdf_laws::{holds, holds_at, lemma_holds_between, lemma_join_holds};
use crate::plain::{
    first_mark, is_due, is_marked, lemma_due, lemma_marked, lemma_reminded, places, was_reminded,
};
use crate::rhythm::{lemma_shift_count, Turn};
use crate::scheduler::{
    away_text, due_groups, group_entries, is_plan, label, plan_sections, posts_plan,
    reminder_sections, reminder_text, reminder_title, rooms_part, section, shift_part, slot_line,
    slot_part, texts, turn_entries, turns_entries, Message,
};
use crate::state::{ReminderKind, State};
use crate::text::join;

verus! {

/// Whether a text starts with another one.
pub open spec fn begins(t: Seq<char>, part: Seq<char>) -> bool {
    part.len() <= t.len() && t.take(part.len() as int) == part
}

/// The line of a slot of a turn says by its sign whether the slot is open, cleaned or skipped, and
/// names whoever it falls to.
pub proof fn law_lines_tell_what_became_of_a_slot(
    state: State,
    group: CleaningGroup,
    turn: Turn,
    k: int,
    today: Date,
)
    requires
        state.assignee(group, k, turn, today) is Some,
    ensures
        holds(
            slot_line(state, group, turn, k, today),
            label(state.assignee(group, k, turn, today)->0),
        ),
        !is_marked(state, group, k, turn) ==> begins(
            slot_line(state, group, turn, k, today),
            "⬜ "@,
        ),
        forall|i: int| #[trigger]
            first_mark(state, group, k, turn, i) ==> begins(
                slot_line(state, group, turn, k, today),
                if state.completions@[i].skipped {
                    "⏭️ "@
                } else {
                    "✅ "@
                },
            ),
{
    lemma_marked(state, group, k, turn);
    let p = state.assignee(group, k, turn, today)->0;
    let line = slot_line(state, group, turn, k, today);
    let shift = shift_part(group, turn);
    let rooms = rooms_part(group, k);
    let mark = state.completion(group, k, turn);
    let sign = match mark {
        Some(c) => if c.skipped {
            "⏭️ "@
        } else {
            "✅ "@
        },
        None => "⬜ "@,
    };
    let mid = match mark {
        Some(c) => if c.skipped {
            shift + slot_part(group, k)
        } else {
            shift
        },
        None => shift + slot_part(group, k),
    };
    let note = match mark {
        Some(c) => if c.skipped {
            " · skipped"@
        } else {
            " · cleaned"@
        },
        None => away_text(state.away(p.id@, group.id@, turn.year, turn.week)),
    };
    assert(line =~= (sign + mid) + label(p) + (note + rooms));
    lemma_holds_between(sign + mid, label(p), note + rooms);
    assert(line.take(sign.len() as int) =~= sign);
}

// ── Which lines there are ────────────────────────────────────────────────────

proof fn lemma_turn_line(
    state: State,
    group: CleaningGroup,
    turn: Turn,
    today: Date,
    with_done: bool,
    n: nat,
    k: int,
) -> (i: int)
    requires
        0 <= k < n,
        with_done || !is_marked(state, group, k, turn),
    ensures
        0 <= i < turn_entries(state, group, turn, today, with_done, n).len(),
        turn_entries(state, group, turn, today, with_done, n)[i].0 == slot_line(
            state,
            group,
            turn,
            k,
            today,
        ),
    decreases n,
{
    let m = (n - 1) as nat;
    let u = turn_entries(state, group, turn, today, with_done, m);
    lemma_marked(state, group, m as int, turn);
    if k == m {
        u.len() as int
    } else {
        lemma_turn_line(state, group, turn, today, with_done, m, k)
    }
}

proof fn lemma_turns_line(
    state: State,
    group: CleaningGroup,
    turns: Seq<Turn>,
    today: Date,
    t: int,
    k: int,
) -> (i: int)
    requires
        0 <= t < turns.len(),
        0 <= k < places(group),
    ensures
        0 <= i < turns_entries(state, group, turns, today, true).len(),
        turns_entries(state, group, turns, today, true)[i].0 == slot_line(
            state,
            group,
            turns[t],
            k,
            today,
        ),
    decreases turns.len(),
{
    let u = turns.drop_last();
    let r = turns_entries(state, group, u, today, true);
    assert(group.slot_count() == places(group));
    if t == turns.len() - 1 {
        let i = lemma_turn_line(
            state,
            group,
            turns.last(),
            today,
            true,
            group.slot_count(),
            k,
        );
        r.len() + i
    } else {
        assert(u[t] == turns[t]);
        lemma_turns_line(state, group, u, today, t, k)
    }
}

proof fn lemma_plan_line(
    state: State,
    groups: Seq<CleaningGroup>,
    year: i32,
    week: u32,
    today: Date,
    g: int,
    t: int,
    k: int,
) -> (i: (int, int))
    requires
        0 <= g < groups.len(),
        0 <= t < state.week_turns(groups[g], today, year, week).len(),
        0 <= k < places(groups[g]),
    ensures
        0 <= i.0 < i.1 < plan_sections(state, groups, year, week, today).len(),
        plan_sections(state, groups, year, week, today)[i.0] == "**"@ + groups[g].name@ + "**"@,
        plan_sections(state, groups, year, week, today)[i.1] == slot_line(
            state,
            groups[g],
            state.week_turns(groups[g], today, year, week)[t],
            k,
            today,
        ),
    decreases groups.len(),
{
    let u = groups.drop_last();
    let r = plan_sections(state, u, year, week, today);
    if g == groups.len() - 1 {
        let turns = state.week_turns(groups[g], today, year, week);
        let i = lemma_turns_line(state, groups[g], turns, today, t, k);
        let e = group_entries(state, groups[g], year, week, today);
        let s = section(groups[g].name@, e);
        assert(texts(e)[i] == e[i].0);
        assert(s[0] == "**"@ + groups[g].name@ + "**"@);
        assert(s[1 + i] == e[i].0);
        (r.len() as int, r.len() + 1 + i)
    } else {
        assert(u[g] == groups[g]);
        lemma_plan_line(state, u, year, week, today, g, t, k)
    }
}

/// The plan of a week has the name of every active group that is due in it, and a line for each slot
/// of each of its shifts, done or not: `message` is what `weekly_plan` gives.
pub proof fn law_plans_have_a_line_for_every_slot(
    state: State,
    message: Message,
    year: i32,
    week: u32,
    today: Date,
    group: CleaningGroup,
    s: int,
    k: int,
)
    requires
        is_plan(message, state, year, week, today),
        has_monday(year as int, week as int),
        state.cleaning_groups@.contains(group),
        group.is_active,
        is_due(state, group, today, year as int, week as int),
        0 <= s < group.rhythm.week_shifts().len(),
        0 <= k < places(group),
    ensures
        holds(message.text@, "**"@ + group.name@ + "**"@),
        holds(
            message.text@,
            slot_line(state, group, Turn { year, week, shift: s as u8 }, k, today),
        ),
{
    let all = state.cleaning_groups@;
    let p = |g: CleaningGroup| state.in_plan(g, today, year, week);
    let groups = due_groups(state, year, week, today);
    lemma_filter(all, p);
    lemma_due(state, group, today, year as int, week as int);
    let j = choose|j: int| 0 <= j < all.len() && all[j] == group;
    assert(p(all[j]));
    assert(groups.contains(all[j]));
    let g = choose|g: int| 0 <= g < groups.len() && groups[g] == group;
    lemma_shift_count(group.rhythm);
    let turns = state.week_turns(group, today, year, week);
    assert(turns[s] == (Turn { year, week, shift: s as u8 }));
    let (a, b) = lemma_plan_line(state, groups, year, week, today, g, s, k);
    let head = seq![
        "🧹 **Week "@ + crate::text::decimal(week as nat) + " · "@ + crate::calendar::week_text(
            year as int,
            week as int,
        ) + "**"@,
        "React ✅ when your part is done."@,
        ""@,
    ];
    let sections = plan_sections(state, groups, year, week, today);
    let lines = head + sections;
    let sep = "\n"@;
    assert(lines[3 + a] == sections[a] && lines[3 + b] == sections[b]);
    let x = lemma_join_holds(lines, sep, 3 + a);
    let y = lemma_join_holds(lines, sep, 3 + b);
    assert(message.text@ == join(lines, sep));
    assert(holds_at(message.text@, "**"@ + group.name@ + "**"@, x));
}

proof fn lemma_reminder_line(
    state: State,
    turns: Seq<(CleaningGroup, Turn)>,
    today: Date,
    t: int,
    k: int,
) -> (i: int)
    requires
        0 <= t < turns.len(),
        0 <= k < places(turns[t].0),
        !is_marked(state, turns[t].0, k, turns[t].1),
    ensures
        0 <= i < reminder_sections(state, turns, today).len(),
        reminder_sections(state, turns, today)[i] == slot_line(
            state,
            turns[t].0,
            turns[t].1,
            k,
            today,
        ),
    decreases turns.len(),
{
    let u = turns.drop_last();
    let r = reminder_sections(state, u, today);
    if t == turns.len() - 1 {
        let (g, turn) = turns.last();
        assert(g.slot_count() == places(g));
        let e = turn_entries(state, g, turn, today, false, g.slot_count());
        let i = lemma_turn_line(state, g, turn, today, false, g.slot_count(), k);
        let s = section(g.name@, e);
        assert(texts(e)[i] == e[i].0);
        assert(s[1 + i] == e[i].0);
        r.len() + 1 + i
    } else {
        assert(u[t] == turns[t]);
        lemma_reminder_line(state, u, today, t, k)
    }
}

/// A reminder has a line for each open slot of each turn that it is about.
pub proof fn law_reminders_have_a_line_for_every_open_slot(
    state: State,
    kind: ReminderKind,
    turns: Seq<(CleaningGroup, Turn)>,
    today: Date,
    t: int,
    k: int,
)
    requires
        0 <= t < turns.len(),
        0 <= k < places(turns[t].0),
        !is_marked(state, turns[t].0, k, turns[t].1),
    ensures
        holds(
            reminder_text(state, kind, turns, today),
            slot_line(state, turns[t].0, turns[t].1, k, today),
        ),
{
    let i = lemma_reminder_line(state, turns, today, t, k);
    let sections = reminder_sections(state, turns, today);
    let head = seq![reminder_title(kind), ""@];
    let lines = head + sections;
    assert(lines[2 + i] == sections[i]);
    let x = lemma_join_holds(lines, "\n"@, 2 + i);
    assert(holds_at(join(lines, "\n"@), lines[2 + i], x));
}

// ── When the plan is posted ──────────────────────────────────────────────────

/// Whether a group is shown in the plan of a week: it is active, and it is due in the week or has a
/// mark in it.
pub open spec fn is_in_plan(state: State, g: CleaningGroup, year: i32, week: u32, today: Date) -> bool {
    &&& g.is_active
    &&& is_due(state, g, today, year as int, week as int) || exists|i: int|
        0 <= i < state.completions@.len() && (#[trigger] state.completions@[i]).group_id@ == g.id@
            && state.completions@[i].iso_year == year && state.completions@[i].iso_week == week
}

/// The groups in the plan of a week are the active ones that are due in it or have a mark in it.
pub proof fn law_plans_show_the_groups_of_the_week(
    state: State,
    year: i32,
    week: u32,
    today: Date,
    g: CleaningGroup,
)
    requires
        has_monday(year as int, week as int),
    ensures
        due_groups(state, year, week, today).contains(g) == (state.cleaning_groups@.contains(g)
            && is_in_plan(state, g, year, week, today)),
{
    let all = state.cleaning_groups@;
    let p = |g: CleaningGroup| state.in_plan(g, today, year, week);
    let r = due_groups(state, year, week, today);
    lemma_filter(all, p);
    lemma_due(state, g, today, year as int, week as int);
    let q = crate::roster::mark_in_week(g.id@, year, week);
    let s = state.completions@;
    crate::lists::lemma_some(s, q);
    assert forall|i: int| 0 <= i < s.len() implies q(#[trigger] s[i]) == (s[i].group_id@ == g.id@
        && s[i].iso_year == year && s[i].iso_week == week) by {}
    assert(p(g) == is_in_plan(state, g, year, week, today));
    if r.contains(g) {
        let i = choose|i: int| 0 <= i < r.len() && r[i] == g;
        assert(p(r[i]) && all.contains(r[i]));
    }
    if all.contains(g) && p(g) {
        let i = choose|i: int| 0 <= i < all.len() && all[i] == g;
        assert(p(all[i]));
        assert(r.contains(all[i]));
    }
}

/// The plan of a week is posted on the day for it, if neither the week nor one of the groups was
/// announced yet, no message shows it, and there is a group in it.
pub proof fn law_plans_are_posted_on_their_day(
    state: State,
    weekday: u8,
    reminder_weekday: u8,
    year: i32,
    week: u32,
    today: Date,
)
    requires
        has_monday(year as int, week as int),
    ensures
        posts_plan(state, weekday, reminder_weekday, year, week, today) == ({
            &&& weekday == reminder_weekday
            &&& !was_reminded(state, "*"@, year, week, 0, ReminderKind::Initial)
            &&& forall|i: int|
                0 <= i < state.cleaning_groups@.len() ==> !was_reminded(
                    state,
                    (#[trigger] state.cleaning_groups@[i]).id@,
                    year,
                    week,
                    0,
                    ReminderKind::Initial,
                )
            &&& crate::state::value_under(
                state.weekly_plan_canonical@,
                crate::scheduler::key_text(year as int, week as int),
            ) is None
            &&& exists|i: int|
                0 <= i < state.cleaning_groups@.len() && is_in_plan(
                    state,
                    #[trigger] state.cleaning_groups@[i],
                    year,
                    week,
                    today,
                )
        }),
{
    let all = state.cleaning_groups@;
    let p = crate::scheduler::reminded_alone(state, year, week);
    crate::lists::lemma_some(all, p);
    lemma_reminded(state, "*"@, year, week, 0, ReminderKind::Initial);
    assert forall|i: int| 0 <= i < all.len() implies p(#[trigger] all[i]) == was_reminded(
        state,
        all[i].id@,
        year,
        week,
        0,
        ReminderKind::Initial,
    ) by {
        lemma_reminded(state, all[i].id@, year, week, 0, ReminderKind::Initial);
    }
    let r = due_groups(state, year, week, today);
    if r.len() > 0 {
        assert(r.contains(r[0]));
        law_plans_show_the_groups_of_the_week(state, year, week, today, r[0]);
        let i = choose|i: int| 0 <= i < all.len() && all[i] == r[0];
        assert(is_in_plan(state, all[i], year, week, today));
    }
    if exists|i: int|
        0 <= i < all.len() && is_in_plan(state, #[trigger] all[i], year, week, today) {
        let i = choose|i: int|
            0 <= i < all.len() && is_in_plan(state, #[trigger] all[i], year, week, today);
        law_plans_show_the_groups_of_the_week(state, year, week, today, all[i]);
        assert(all.contains(all[i]));
        assert(r.contains(all[i]));
    }
}

} // verus!
