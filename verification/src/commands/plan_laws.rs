//! What the plan of the next weeks tells.

use vstd::prelude::*;

use crate::calendar::Date;
use crate::commands::exports::{
    answers_plan, entry_line, holder_text, plan_text, plan_week_lines, plan_weeks, plan_weeks_lines,
    plural, PlanReply,
};
use crate::lists::lemma_filter;
use crate::message_laws::begins;
use crate::pdf_laws::{holds, holds_at, lemma_holds_between};
use crate::plain::{is_away, lemma_away};
use crate::planning::this_week;
use crate::schedule::{entry_of_week, shows, weeks_of, AssignmentInstance, ScheduleSnapshot};
use crate::state::State;
use crate::text::{decimal, join};

verus! {

/// Whether a line tells of an entry: its group, whether and by whom it was cleaned and, where it
/// was not, who is to clean it and whether they are away.
pub open spec fn tells_of(line: Seq<char>, state: State, a: AssignmentInstance) -> bool {
    &&& holds(line, a.group_name@)
    &&& a.is_completed == begins(line, "  ✅ "@)
    &&& a.is_completed && !a.is_skipped && a.completed_by is Some ==> holds(
        line,
        " : done by "@ + a.completed_by->0@,
    )
    &&& a.is_completed && a.is_skipped ==> holds(line, " : skipped"@)
    &&& !a.is_completed && a.assignee is None ==> holds(line, " : nobody assigned yet"@)
    &&& !a.is_completed && a.assignee is Some ==> holds(
        line,
        " : "@ + (match a.assignee->0.mxid {
            Some(m) => m@,
            None => a.assignee->0.name@,
        }) + (if is_away(state, a.assignee->0.id@, a.group_id@, a.iso_year, a.iso_week) {
            " (away)"@
        } else {
            ""@
        }),
    )
}

/// Whether one of some lines tells of an entry.
pub open spec fn is_told(lines: Seq<Seq<char>>, state: State, a: AssignmentInstance) -> bool {
    exists|j: int| 0 <= j < lines.len() && tells_of(#[trigger] lines[j], state, a)
}

/// Whether a text is made of lines that tell of all entries.
pub open spec fn tells_all(
    text: Seq<char>,
    lines: Seq<Seq<char>>,
    state: State,
    all: Seq<AssignmentInstance>,
) -> bool {
    &&& text == join(lines, "\n"@)
    &&& forall|i: int| 0 <= i < all.len() ==> is_told(lines, state, #[trigger] all[i])
}

/// The sign that a line starts with.
proof fn lemma_sign(icon: Seq<char>, rest: Seq<char>)
    requires
        icon == "✅"@ || icon == "🔲"@ || icon == "🗓"@,
    ensures
        begins("  "@ + icon + " "@ + rest, "  ✅ "@) == (icon == "✅"@),
{
    reveal_strlit("  ");
    reveal_strlit(" ");
    reveal_strlit("✅");
    reveal_strlit("🔲");
    reveal_strlit("🗓");
    reveal_strlit("  ✅ ");
    let line = "  "@ + icon + " "@ + rest;
    let mark = "  ✅ "@;
    assert(icon.len() == 1);
    assert(line[2] == icon[0]);
    if icon == "✅"@ {
        assert(line.take(4) =~= mark);
    } else {
        assert(line.take(4)[2] != mark[2]);
        assert("✅"@[0] == mark[2]);
    }
}

/// A line holds the group that it names, and what it says of it.
proof fn lemma_parts(head: Seq<char>, group: Seq<char>, said: Seq<char>, more: Seq<char>)
    ensures
        holds(head + group + (said + more), group),
        holds(head + group + (said + more), said),
{
    let line = head + group + (said + more);
    lemma_holds_between(head, group, said + more);
    assert(holds_at(line, group, head.len() as int));
    lemma_holds_between(head + group, said, more);
    assert(head + group + said + more =~= line);
    assert(holds_at(line, said, (head + group).len() as int));
}

/// What a line says of an entry behind its group.
spec fn said_of(state: State, a: AssignmentInstance) -> Seq<char> {
    if a.is_completed {
        if a.is_skipped {
            "skipped ⏭️"@
        } else {
            "done by "@ + (match a.completed_by {
                Some(by) => by@,
                None => "?"@,
            })
        }
    } else {
        holder_text(state, a)
    }
}

/// The two words for skipping.
proof fn lemma_skipped()
    ensures
        " : "@ + "skipped ⏭️"@ == " : skipped"@ + " ⏭️"@,
{
    reveal_strlit(" : skipped");
    reveal_strlit(" : ");
    reveal_strlit(" ⏭️");
    reveal_strlit("skipped ⏭️");
    assert(" : "@ + "skipped ⏭️"@ =~= " : skipped"@ + " ⏭️"@);
}

/// The words for having cleaned.
proof fn lemma_done_by(name: Seq<char>)
    ensures
        " : "@ + ("done by "@ + name) == " : done by "@ + name,
{
    reveal_strlit(" : done by ");
    reveal_strlit(" : ");
    reveal_strlit("done by ");
    assert(" : "@ + "done by "@ =~= " : done by "@);
    assert(" : "@ + ("done by "@ + name) =~= " : "@ + "done by "@ + name);
}

/// The words for nobody.
proof fn lemma_nobody()
    ensures
        " : "@ + "nobody assigned yet"@ == " : nobody assigned yet"@,
{
    reveal_strlit(" : nobody assigned yet");
    reveal_strlit(" : ");
    reveal_strlit("nobody assigned yet");
    assert(" : "@ + "nobody assigned yet"@ =~= " : nobody assigned yet"@);
}

/// Who is to clean, and whether they are away.
spec fn holder_words(state: State, a: AssignmentInstance) -> Seq<char> {
    " : "@ + (match a.assignee->0.mxid {
        Some(m) => m@,
        None => a.assignee->0.name@,
    }) + (if is_away(state, a.assignee->0.id@, a.group_id@, a.iso_year, a.iso_week) {
        " (away)"@
    } else {
        ""@
    })
}

/// What a line says of an entry that somebody is to clean.
proof fn lemma_holder(state: State, a: AssignmentInstance)
    requires
        a.assignee is Some,
    ensures
        " : "@ + holder_text(state, a) == holder_words(state, a),
{
    let p = a.assignee->0;
    lemma_away(state, p.id@, a.group_id@, a.iso_year, a.iso_week);
    assert(" : "@ + holder_text(state, a) =~= holder_words(state, a));
}

/// What a line says of an entry behind its group.
proof fn lemma_said(state: State, a: AssignmentInstance)
    ensures
        a.is_completed && !a.is_skipped && a.completed_by is Some ==> " : "@ + said_of(state, a)
            == " : done by "@ + a.completed_by->0@,
        a.is_completed && a.is_skipped ==> " : "@ + said_of(state, a) == " : skipped"@ + " ⏭️"@,
        !a.is_completed && a.assignee is None ==> " : "@ + said_of(state, a)
            == " : nobody assigned yet"@,
        !a.is_completed && a.assignee is Some ==> " : "@ + said_of(state, a) == holder_words(
            state,
            a,
        ),
{
    if a.is_completed && a.is_skipped {
        lemma_skipped();
    } else if a.is_completed && a.completed_by is Some {
        lemma_done_by(a.completed_by->0@);
    } else if !a.is_completed && a.assignee is None {
        lemma_nobody();
    } else if !a.is_completed {
        lemma_holder(state, a);
    }
}

/// The sign of an entry.
spec fn sign_of(a: AssignmentInstance, current: bool) -> Seq<char> {
    if a.is_completed {
        "✅"@
    } else if current {
        "🔲"@
    } else {
        "🗓"@
    }
}

/// The sign tells whether an entry is done.
proof fn lemma_sign_of(a: AssignmentInstance, current: bool)
    ensures
        a.is_completed == (sign_of(a, current) == "✅"@),
{
    reveal_strlit("✅");
    reveal_strlit("🔲");
    reveal_strlit("🗓");
    assert("✅"@[0] != "🔲"@[0] && "✅"@[0] != "🗓"@[0]);
}

/// What the line of an entry is made of.
proof fn lemma_made_of(state: State, a: AssignmentInstance, current: bool)
    ensures
        entry_line(state, a, current) == "  "@ + sign_of(a, current) + " "@ + a.group_name@ + (
        " : "@ + said_of(state, a)),
        entry_line(state, a, current) == "  "@ + sign_of(a, current) + " "@ + (a.group_name@ + (
        " : "@ + said_of(state, a))),
{
    let line = entry_line(state, a, current);
    let head = "  "@ + sign_of(a, current) + " "@;
    assert(line == head + a.group_name@ + " : "@ + said_of(state, a));
    assert(line =~= head + a.group_name@ + (" : "@ + said_of(state, a)));
    assert(line =~= head + (a.group_name@ + (" : "@ + said_of(state, a))));
}

/// The line of an entry tells of it.
proof fn lemma_line(state: State, a: AssignmentInstance, current: bool)
    ensures
        tells_of(entry_line(state, a, current), state, a),
{
    let line = entry_line(state, a, current);
    let said = " : "@ + said_of(state, a);
    let head = "  "@ + sign_of(a, current) + " "@;
    lemma_made_of(state, a, current);
    lemma_sign_of(a, current);
    lemma_sign(sign_of(a, current), a.group_name@ + said);
    lemma_said(state, a);
    assert(holds(line, a.group_name@) && holds(line, said)) by {
        let none = Seq::<char>::empty();
        lemma_parts(head, a.group_name@, said, none);
        assert(said + none =~= said);
    }
    if a.is_completed && a.is_skipped {
        lemma_parts(head, a.group_name@, " : skipped"@, " ⏭️"@);
    }
}

/// The weeks of entries are there.
proof fn lemma_weeks_of(s: Seq<AssignmentInstance>, i: int)
    requires
        0 <= i < s.len(),
    ensures
        weeks_of(s).contains((s[i].iso_year, s[i].iso_week)),
    decreases s.len(),
{
    let r = weeks_of(s.drop_last());
    let w = (s.last().iso_year, s.last().iso_week);
    if i < s.len() - 1 {
        lemma_weeks_of(s.drop_last(), i);
        assert(s.drop_last()[i] == s[i]);
        let k = choose|k: int| 0 <= k < r.len() && r[k] == (s[i].iso_year, s[i].iso_week);
        assert(r.push(w)[k] == r[k]);
    } else if !r.contains(w) {
        assert(r.push(w)[r.len() as int] == w);
    }
}

/// The lines about a week hold those of its entries.
proof fn lemma_week_lines(
    state: State,
    all: Seq<AssignmentInstance>,
    weeks: Seq<(i32, u32)>,
    today: Date,
    k: int,
    i: int,
)
    requires
        0 <= k < weeks.len(),
        0 <= i < all.len(),
        weeks[k] == (all[i].iso_year, all[i].iso_week),
    ensures
        is_told(plan_weeks_lines(state, all, weeks, today), state, all[i]),
    decreases weeks.len(),
{
    let front = plan_weeks_lines(state, all, weeks.drop_last(), today);
    let last = plan_week_lines(state, all, weeks.last(), today);
    let lines = plan_weeks_lines(state, all, weeks, today);
    if k < weeks.len() - 1 {
        lemma_week_lines(state, all, weeks.drop_last(), today, k, i);
        let j = choose|j: int| 0 <= j < front.len() && tells_of(#[trigger] front[j], state, all[i]);
        assert(lines[j] == front[j]);
    } else {
        let w = weeks.last();
        let p = entry_of_week(w.0, w.1);
        let current = w == this_week(today);
        lemma_filter(all, p);
        assert(p(all[i]));
        let of = all.filter(p);
        let m = choose|m: int| 0 <= m < of.len() && of[m] == all[i];
        assert(last[m + 2] == entry_line(state, all[i], current));
        lemma_line(state, all[i], current);
        assert(lines[front.len() + m + 2] == last[m + 2]);
        assert(tells_of(lines[front.len() + m + 2], state, all[i]));
    }
}

/// The plan tells of every entry of the weeks that it is asked for: which group cleans, whether and
/// by whom it was cleaned, and who is to clean it.
pub proof fn law_plan_tells_of_every_entry(
    r: PlanReply,
    state: State,
    args: Seq<String>,
    interval: nat,
    today: Date,
)
    requires
        answers_plan(r, state, args, interval, today),
        state.cleaning_groups@.len() > 0,
    ensures
        1 <= plan_weeks(args) <= 20,
        exists|snapshot: ScheduleSnapshot, lines: Seq<Seq<char>>|
            #![trigger shows(snapshot, state, today, plan_weeks(args) as int), tells_all(
                r.text@,
                lines,
                state,
                snapshot.assignments@,
            )]
            shows(snapshot, state, today, plan_weeks(args) as int) && tells_all(
                r.text@,
                lines,
                state,
                snapshot.assignments@,
            ),
{
    let n = plan_weeks(args);
    let snapshot = choose|snapshot: ScheduleSnapshot| #[trigger]
        shows(snapshot, state, today, n as int) && r.text@ == plan_text(
            state,
            snapshot.assignments@,
            n,
            interval,
            today,
        ) && crate::text::views(r.people@) == crate::commands::exports::plan_people(
            state,
            snapshot.assignments@,
        );
    let all = snapshot.assignments@;
    let head = "📅 **Cleaning plan** · next "@ + decimal(n) + " week"@ + plural(n) + " · every "@
        + decimal(interval) + " week"@ + plural(interval);
    let body = plan_weeks_lines(state, all, weeks_of(all), today);
    let lines = seq![head] + body;
    assert forall|i: int| 0 <= i < all.len() implies is_told(lines, state, #[trigger] all[i]) by {
        lemma_weeks_of(all, i);
        let weeks = weeks_of(all);
        let k = choose|k: int|
            0 <= k < weeks.len() && weeks[k] == (all[i].iso_year, all[i].iso_week);
        lemma_week_lines(state, all, weeks, today, k, i);
        let j = choose|j: int| 0 <= j < body.len() && tells_of(#[trigger] body[j], state, all[i]);
        assert(lines[j + 1] == body[j]);
        assert(tells_of(lines[j + 1], state, all[i]));
    }
    assert(tells_all(r.text@, lines, state, all));
}

} // verus!
