//! What the overview, the outlook and the reminders by hand show.

use vstd::prelude::*;

use crate::calendar::Date;
use crate::commands::base::{turn_meant, week_label};
use crate::commands::outlook::{
    before_week, coming, first_week, is_row, next_line, reminded_groups, to_be_reminded, turn_mxids,
    week_in, ReminderRow,
};
use crate::commands::overview::{
    done_count, shifts_lines, slots_lines, task_line, week_lines,
};
use crate::domain::{CleaningGroup, Person, SlotAssignment};
use crate::lists::{count, lemma_filter};
use crate::message_laws::begins;
use crate::pdf_laws::{holds, holds_at};
use crate::plain::{first_mark, is_due, is_marked, lemma_due, lemma_marked, lemma_turn_marked, places};
use crate::planning::{known, this_week};
use crate::reminder_laws::falls_to;
use crate::rhythm::Turn;
use crate::state::State;
use crate::text::says;

verus! {

// ── Overview ─────────────────────────────────────────────────────────────────

proof fn lemma_begins(part: Seq<char>, rest: Seq<char>)
    ensures
        begins(part + rest, part),
{
    assert((part + rest).take(part.len() as int) =~= part);
}

proof fn lemma_slots_lines(state: State, group: CleaningGroup, turn: Turn, today: Date, n: nat, k: int)
    requires
        0 <= k < n,
    ensures
        slots_lines(state, group, turn, today, n).len() == n,
        slots_lines(state, group, turn, today, n)[k] == task_line(state, group, turn, k, today),
    decreases n,
{
    let m = (n - 1) as nat;
    if m > 0 {
        lemma_slots_lines(
            state,
            group,
            turn,
            today,
            m,
            if k < m {
                k
            } else {
                0
            },
        );
    } else {
        assert(slots_lines(state, group, turn, today, 0).len() == 0);
    }
}

proof fn lemma_shifts_lines(state: State, group: CleaningGroup, today: Date, n: nat, s: int, k: int)
    requires
        0 <= s < n,
        0 <= k < places(group),
    ensures
        shifts_lines(state, group, today, n).len() == n * places(group),
        0 <= s * places(group) + k < n * places(group),
        shifts_lines(state, group, today, n)[s * places(group) + k] == task_line(
            state,
            group,
            crate::roster::week_turn(this_week(today).0, this_week(today).1, s),
            k,
            today,
        ),
    decreases n,
{
    let c = places(group);
    let m = (n - 1) as nat;
    assert(group.slot_count() == c);
    let turn = crate::roster::week_turn(this_week(today).0, this_week(today).1, m as int);
    lemma_slots_lines(state, group, turn, today, c as nat, k);
    assert(n * c == m * c + c) by (nonlinear_arith)
        requires
            n == m + 1,
    ;
    assert(0 <= s * c + k) by (nonlinear_arith)
        requires
            0 <= s,
            0 <= k,
            1 <= c,
    ;
    if s < m {
        lemma_shifts_lines(state, group, today, m, s, k);
    } else {
        if m > 0 {
            lemma_shifts_lines(state, group, today, m, 0, 0);
        } else {
            assert(shifts_lines(state, group, today, 0).len() == 0);
            assert(m * c == 0) by (nonlinear_arith)
                requires
                    m == 0,
            ;
        }
    }
}

/// The overview of a group has one line for each slot of each shift of the week, in order: ticked if
/// and only if the slot is marked, and naming whoever it falls to.
pub proof fn law_overview_has_a_line_for_every_slot(
    state: State,
    group: CleaningGroup,
    today: Date,
    s: int,
    k: int,
)
    requires
        0 <= s < group.rhythm.week_shifts().len(),
        0 <= k < places(group),
    ensures
        ({
            let lines = week_lines(state, group, today);
            let at = s * places(group) + k;
            let turn = Turn {
                year: this_week(today).0,
                week: this_week(today).1,
                shift: s as u8,
            };
            &&& lines.len() == group.rhythm.week_shifts().len() * places(group)
            &&& 0 <= at < lines.len()
            &&& lines[at].0 == is_marked(state, group, k, turn)
            &&& !is_marked(state, group, k, turn) ==> begins(lines[at].1, "⬜ "@)
            &&& forall|i: int| #[trigger]
                first_mark(state, group, k, turn, i) ==> begins(
                    lines[at].1,
                    if state.completions@[i].skipped {
                        "⏭️ "@
                    } else {
                        "✅ "@
                    },
                )
            &&& state.assignee(group, k, turn, today) is Some ==> holds(
                lines[at].1,
                state.assignee(group, k, turn, today)->0.display_name@,
            )
        }),
{
    let turn = crate::roster::week_turn(this_week(today).0, this_week(today).1, s);
    lemma_shifts_lines(state, group, today, group.rhythm.week_shifts().len(), s, k);
    lemma_marked(state, group, k, turn);
    lemma_task_line(state, group, turn, k, today);
}

proof fn lemma_task_line(state: State, group: CleaningGroup, turn: Turn, k: int, today: Date)
    ensures
        ({
            let line = task_line(state, group, turn, k, today);
            &&& line.0 == (state.completion(group, k, turn) is Some)
            &&& state.completion(group, k, turn) is None ==> begins(line.1, "⬜ "@)
            &&& state.completion(group, k, turn) is Some ==> begins(
                line.1,
                if (state.completion(group, k, turn)->0).skipped {
                    "⏭️ "@
                } else {
                    "✅ "@
                },
            )
            &&& state.assignee(group, k, turn, today) is Some ==> holds(
                line.1,
                state.assignee(group, k, turn, today)->0.display_name@,
            )
        }),
{
    let line = task_line(state, group, turn, k, today);
    let p = state.assignee(group, k, turn, today);
    let before = crate::scheduler::shift_part(group, turn) + crate::scheduler::slot_part(group, k);
    let name = crate::commands::overview::name_or_nobody(p);
    let what = before + name;
    let now = crate::commands::overview::now_sign(group, turn, today);
    let sign = match state.completion(group, k, turn) {
        Some(c) => if c.skipped {
            "⏭️ "@
        } else {
            "✅ "@
        },
        None => "⬜ "@,
    };
    let note = match state.completion(group, k, turn) {
        Some(c) => if c.skipped {
            " · skipped"@
        } else {
            crate::commands::overview::done_by(state, p, c)
        },
        None => match p {
            Some(p) => crate::commands::overview::away_sign(
                state,
                p,
                group.id@,
                (turn.year, turn.week),
            ),
            None => ""@,
        },
    };
    assert(line.1 == sign + what + note + now);
    assert(line.1 =~= sign + (what + note + now));
    lemma_begins(sign, what + note + now);
    if p is Some {
        let display = p->0.display_name@;
        let rest = if p->0.matrix_id is Some {
            Seq::<char>::empty()
        } else {
            " (no Matrix)"@
        };
        assert(name =~= display + rest);
        let front = sign + before;
        assert(line.1 =~= front + display + (rest + note + now));
        assert(line.1.subrange(front.len() as int, (front.len() + display.len()) as int)
            =~= display);
        assert(holds_at(line.1, display, front.len() as int));
    }
}

/// The number of slots that the overview counts as done is that of the ticked lines.
pub proof fn law_overview_counts_ticked_lines(lines: Seq<(bool, Seq<char>)>)
    ensures
        done_count(lines) == count(lines, |l: (bool, Seq<char>)| l.0),
    decreases lines.len(),
{
    reveal(Seq::filter);
    if lines.len() > 0 {
        law_overview_counts_ticked_lines(lines.drop_last());
    }
}

// ── Outlook ──────────────────────────────────────────────────────────────────

/// Whether an assignment is an open turn of a person in the current week or later.
pub open spec fn is_to_come(state: State, a: SlotAssignment, person_id: Seq<char>, today: Date) -> bool {
    let now = this_week(today);
    &&& a.person_id is Some
    &&& a.person_id->0@ == person_id
    &&& a.iso_year > now.0 || (a.iso_year == now.0 && a.iso_week >= now.1)
    &&& state.group(a.group_id@) is Some
    &&& !is_marked(
        state,
        state.group(a.group_id@)->0,
        a.slot_index as int,
        Turn { year: a.iso_year, week: a.iso_week, shift: a.shift },
    )
}

/// Whether a week is the first one in which a person has an open turn.
pub open spec fn is_next_week(state: State, person_id: Seq<char>, today: Date, week: (i32, u32)) -> bool {
    &&& exists|i: int|
        0 <= i < state.slot_assignments@.len() && is_to_come(
            state,
            #[trigger] state.slot_assignments@[i],
            person_id,
            today,
        ) && (state.slot_assignments@[i].iso_year, state.slot_assignments@[i].iso_week) == week
    &&& forall|i: int|
        0 <= i < state.slot_assignments@.len() && is_to_come(
            state,
            #[trigger] state.slot_assignments@[i],
            person_id,
            today,
        ) ==> week.0 < state.slot_assignments@[i].iso_year || (week.0
            == state.slot_assignments@[i].iso_year && week.1 <= state.slot_assignments@[i].iso_week)
}

proof fn lemma_first_week(s: Seq<SlotAssignment>)
    requires
        s.len() > 0,
    ensures
        exists|i: int| 0 <= i < s.len() && week_in(#[trigger] s[i]) == first_week(s),
        forall|i: int| 0 <= i < s.len() ==> !before_week(week_in(#[trigger] s[i]), first_week(s)),
    decreases s.len(),
{
    if s.len() == 1 {
        assert(week_in(s[0]) == first_week(s));
    } else {
        let u = s.drop_last();
        lemma_first_week(u);
        let i = choose|i: int| 0 <= i < u.len() && week_in(#[trigger] u[i]) == first_week(u);
        assert(week_in(s[i]) == first_week(u));
        assert(week_in(s[s.len() - 1]) == week_in(s.last()));
        assert forall|j: int| 0 <= j < s.len() implies !before_week(
            week_in(#[trigger] s[j]),
            first_week(s),
        ) by {
            if j < u.len() {
                assert(s[j] == u[j]);
            }
        }
    }
}

/// The outlook of a person names the first week in which they have an open turn, or says that there
/// is none.
pub proof fn law_outlook_names_the_next_turn(state: State, p: Person, today: Date)
    ensures
        (exists|week: (i32, u32)|
            #![trigger is_next_week(state, p.id@, today, week)]
            is_next_week(state, p.id@, today, week) && holds(
                next_line(state, p, today),
                week_label(week),
            )) || (next_line(state, p, today) == "📅 Nothing planned for "@ + p.display_name@
            + " yet."@ && forall|i: int|
            0 <= i < state.slot_assignments@.len() ==> !is_to_come(
                state,
                #[trigger] state.slot_assignments@[i],
                p.id@,
                today,
            )),
{
    let s = state.slot_assignments@;
    let q = coming(state, p.id@, today);
    let turns = s.filter(q);
    lemma_filter(s, q);
    assert forall|i: int| 0 <= i < s.len() implies q(#[trigger] s[i]) == is_to_come(
        state,
        s[i],
        p.id@,
        today,
    ) by {
        let a = s[i];
        lemma_marked(
            state,
            state.group(a.group_id@)->0,
            a.slot_index as int,
            Turn { year: a.iso_year, week: a.iso_week, shift: a.shift },
        );
    }
    if turns.len() == 0 {
        assert forall|i: int| 0 <= i < s.len() implies !is_to_come(
            state,
            #[trigger] s[i],
            p.id@,
            today,
        ) by {
            if q(s[i]) {
                assert(turns.contains(s[i]));
            }
        }
    } else {
        lemma_first_week(turns);
        let week = first_week(turns);
        let j = choose|j: int| 0 <= j < turns.len() && week_in(#[trigger] turns[j]) == week;
        assert(s.contains(turns[j]) && q(turns[j]));
        let i = choose|i: int| 0 <= i < s.len() && s[i] == turns[j];
        assert(is_to_come(state, s[i], p.id@, today));
        assert forall|i: int|
            0 <= i < s.len() && is_to_come(state, #[trigger] s[i], p.id@, today) implies week.0
            < s[i].iso_year || (week.0 == s[i].iso_year && week.1 <= s[i].iso_week) by {
            assert(q(s[i]));
            assert(turns.contains(s[i]));
            let x = choose|x: int| 0 <= x < turns.len() && turns[x] == s[i];
            assert(!before_week(week_in(turns[x]), week));
        }
        assert(is_next_week(state, p.id@, today, week));
        let front = "📅 Next due for "@ + p.display_name@ + ": **Week "@;
        let label = week_label(week);
        let line = next_line(state, p, today);
        let mid = front + label;
        assert(line.subrange(front.len() as int, (front.len() + label.len()) as int) =~= label);
        assert(holds_at(line, label, front.len() as int));
    }
}

// ── Reminding by hand ────────────────────────────────────────────────────────

proof fn lemma_turn_mxids(
    state: State,
    group: CleaningGroup,
    turn: Turn,
    today: Date,
    n: nat,
    m: Seq<char>,
)
    ensures
        says(turn_mxids(state, group, turn, today, n), m) == (exists|k: int|
            0 <= k < n && #[trigger] falls_to(state, group, turn, k, today, m) && (
            state.turn_done(group, turn) || !is_marked(state, group, k, turn))),
    decreases n,
{
    if n > 0 {
        let k = n - 1;
        lemma_turn_mxids(state, group, turn, today, k as nat, m);
        lemma_marked(state, group, k, turn);
        let u = turn_mxids(state, group, turn, today, k as nat);
        let e = turn_mxids(state, group, turn, today, n);
        if says(u, m) {
            let i = choose|i: int| 0 <= i < u.len() && (#[trigger] u[i])@ == m;
            assert(e[i] == u[i]);
        }
        if falls_to(state, group, turn, k, today, m) && (state.turn_done(group, turn)
            || !is_marked(state, group, k, turn)) {
            assert(e[e.len() - 1]@ == m);
        }
        if says(e, m) {
            let i = choose|i: int| 0 <= i < e.len() && (#[trigger] e[i])@ == m;
            if i < u.len() {
                assert(u[i] == e[i]);
            } else {
                assert(falls_to(state, group, turn, k, today, m));
            }
        }
    }
}

/// Reminding by hand mentions whoever has an open slot in the running turn of the group, and
/// everybody in the turn where none is open.
pub proof fn law_reminders_by_hand_mention_who_is_behind(
    row: ReminderRow,
    state: State,
    group: CleaningGroup,
    today: Date,
    m: Seq<char>,
)
    requires
        is_row(row, state, group, today),
    ensures
        ({
            let turn = turn_meant(group, this_week(today), today);
            says(row.mxids@, m) == (exists|k: int|
                0 <= k < places(group) && #[trigger] falls_to(state, group, turn, k, today, m) && (
                !is_marked(state, group, k, turn) || forall|x: int|
                    0 <= x < places(group) ==> #[trigger] is_marked(state, group, x, turn)))
        }),
{
    let turn = turn_meant(group, this_week(today), today);
    lemma_turn_marked(state, group, turn);
    lemma_turn_mxids(state, group, turn, today, group.slot_count(), m);
    crate::reminder_laws::lemma_mention_list(
        turn_mxids(state, group, turn, today, group.slot_count()),
        m,
    );
}

/// Reminding by hand without a name is about the active groups that are due in the current week and
/// have an open slot in it.
pub proof fn law_reminders_by_hand_are_for_open_weeks(
    state: State,
    today: Date,
    group: CleaningGroup,
)
    requires
        known(state, today),
    ensures
        reminded_groups(state, today, None).contains(group) == (state.cleaning_groups@.contains(group)
            && group.is_active && is_due(
            state,
            group,
            today,
            this_week(today).0 as int,
            this_week(today).1 as int,
        ) && exists|s: int, k: int|
            0 <= s < group.rhythm.week_shifts().len() && 0 <= k < places(group)
                && !#[trigger] is_marked(
                state,
                group,
                k,
                Turn { year: this_week(today).0, week: this_week(today).1, shift: s as u8 },
            )),
{
    let all = state.cleaning_groups@;
    let none: Option<String> = None;
    let p = |g: CleaningGroup| to_be_reminded(state, g, today, none);
    let r = reminded_groups(state, today, none);
    let week = this_week(today);
    lemma_filter(all, p);
    crate::planning::lemma_known(state, today);
    let w = crate::calendar::week_at(today.week_no());
    crate::calendar::lemma_week_at(today.week_no());
    crate::calendar::lemma_weeks_in(w.0);
    crate::calendar::lemma_whole_week(today.day as int, w.0, w.1);
    crate::calendar::lemma_monday(w.0, w.1);
    lemma_due(state, group, today, week.0 as int, week.1 as int);
    if r.contains(group) {
        let i = choose|i: int| 0 <= i < r.len() && r[i] == group;
        assert(p(r[i]) && all.contains(r[i]));
        let s = choose|s: int|
            0 <= s < group.rhythm.week_shifts().len() && !state.turn_done(
                group,
                #[trigger] crate::roster::week_turn(week.0, week.1, s),
            );
        let turn = crate::roster::week_turn(week.0, week.1, s);
        lemma_turn_marked(state, group, turn);
        let k = choose|k: int|
            0 <= k < places(group) && !#[trigger] is_marked(state, group, k, turn);
        assert(!is_marked(
            state,
            group,
            k,
            Turn { year: week.0, week: week.1, shift: s as u8 },
        ));
    }
    if all.contains(group) && group.is_active && state.due(
        group,
        today,
        week.0 as int,
        week.1 as int,
    ) && exists|s: int, k: int|
        0 <= s < group.rhythm.week_shifts().len() && 0 <= k < places(group) && !#[trigger] is_marked(
            state,
            group,
            k,
            Turn { year: week.0, week: week.1, shift: s as u8 },
        ) {
        let (s, k) = choose|s: int, k: int|
            0 <= s < group.rhythm.week_shifts().len() && 0 <= k < places(group)
                && !#[trigger] is_marked(
                state,
                group,
                k,
                Turn { year: week.0, week: week.1, shift: s as u8 },
            );
        let turn = crate::roster::week_turn(week.0, week.1, s);
        lemma_turn_marked(state, group, turn);
        assert(!state.turn_done(group, turn));
        assert(!state.week_done(group, week.0, week.1));
        let i = choose|i: int| 0 <= i < all.len() && all[i] == group;
        assert(p(all[i]));
        assert(r.contains(all[i]));
    }
}

} // verus!
