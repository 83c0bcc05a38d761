//! The plan as text, as a document and as a calendar.

use vstd::prelude::*;

use crate::calendar::{
    date_of_timestamp, is_time, is_today, is_year, lemma_today, week_dates, week_text, Date,
    Timestamp,
};
use crate::commands::base::{current_week, CommandError, Request};
use crate::commands::rooms::join_from;
use crate::domain::CleaningGroup;
use crate::lists::retain;
use crate::pdf::{dates_fit, render_tex, tex_text};
use crate::planning::{is_known, day_fits, known, this_week};
use crate::rhythm::Turn;
use crate::schedule::{
    build_schedule_at, entry_of_group, entry_of_week, shows, taken_at, weeks_known, weeks_of,
    AssignmentInstance, ScheduleSnapshot,
};
use crate::state::State;
use crate::text::{
    contains_text, decimal, join, join_texts, parse_up_to, parsed_up_to, put_text, put_texts,
    replace_char, replaced, same_text, says, show, views,
};

verus! {

// ── Weeks and snapshots ──────────────────────────────────────────────────────

/// A number of weeks kept within bounds.
pub open spec fn kept_within(n: nat, most: nat) -> nat {
    if n < 1 {
        1
    } else if n > most {
        most
    } else {
        n
    }
}

/// The number of weeks that an argument asks for, if it is a number.
pub open spec fn weeks_asked(arg: Seq<char>, most: nat) -> Option<nat> {
    match parsed_up_to(arg, u64::MAX as nat) {
        Some(n) => Some(kept_within(n, most)),
        None => None,
    }
}

/// Reads the number of weeks that an argument asks for.
pub fn read_weeks(arg: &str, most: u64) -> (r: Option<usize>)
    requires
        1 <= most <= 1000,
    ensures
        (r is Some) == (weeks_asked(arg@, most as nat) is Some),
        r is Some ==> r->0 == weeks_asked(arg@, most as nat)->0,
        r is Some ==> 1 <= r->0 <= most,
{
    match parse_up_to(arg, u64::MAX) {
        Some(n) => Some(
            if n < 1 {
                1
            } else if n > most {
                most as usize
            } else {
                n as usize
            },
        ),
        None => None,
    }
}

/// The snapshot of the next weeks.
pub fn snapshot_of(state: &State, weeks: usize, today: Date, now: Timestamp) -> (r: ScheduleSnapshot)
    requires
        known(*state, today),
    ensures
        shows(r, *state, today, weeks as int),
        weeks_known(r.assignments@),
        r.state_timestamp == taken_at(*state, now),
{
    proof {
        lemma_today(today.day as int);
    }
    build_schedule_at(state, weeks, today, now)
}

// ── !plan [N] ────────────────────────────────────────────────────────────────

/// How many weeks `!plan` shows.
pub open spec fn plan_weeks(args: Seq<String>) -> nat {
    if args.len() > 0 && weeks_asked(args[0]@, 20) is Some {
        weeks_asked(args[0]@, 20)->0
    } else {
        6
    }
}

/// Whoever an entry is for, by Matrix id or name, and whether they are away.
pub open spec fn holder_text(state: State, a: AssignmentInstance) -> Seq<char> {
    match a.assignee {
        None => "nobody assigned yet"@,
        Some(p) => (match p.mxid {
            Some(m) => m@,
            None => p.name@,
        }) + (if state.away(p.id@, a.group_id@, a.iso_year, a.iso_week) {
            " (away)"@
        } else {
            ""@
        }),
    }
}

/// The line about an entry.
pub open spec fn entry_line(state: State, a: AssignmentInstance, current: bool) -> Seq<char> {
    "  "@ + (if a.is_completed {
        "✅"@
    } else if current {
        "🔲"@
    } else {
        "🗓"@
    }) + " "@ + a.group_name@ + " : "@ + (if a.is_completed {
        if a.is_skipped {
            "skipped ⏭️"@
        } else {
            "done by "@ + (match a.completed_by {
                Some(by) => by@,
                None => "?"@,
            })
        }
    } else {
        holder_text(state, a)
    })
}

/// The lines about a week.
pub open spec fn plan_week_lines(
    state: State,
    all: Seq<AssignmentInstance>,
    week: (i32, u32),
    today: Date,
) -> Seq<Seq<char>> {
    let current = week == this_week(today);
    let title = decimal(week.1 as nat) + " ("@ + week_text(week.0 as int, week.1 as int) + ")"@;
    seq![
        ""@,
        if current {
            "📆 **Week "@ + title + "** ← this week"@
        } else {
            "📆 Week "@ + title
        },
    ] + all.filter(entry_of_week(week.0, week.1)).map_values(
        |a: AssignmentInstance| entry_line(state, a, current),
    )
}

/// The lines about weeks.
pub open spec fn plan_weeks_lines(
    state: State,
    all: Seq<AssignmentInstance>,
    weeks: Seq<(i32, u32)>,
    today: Date,
) -> Seq<Seq<char>>
    decreases weeks.len(),
{
    if weeks.len() == 0 {
        Seq::empty()
    } else {
        plan_weeks_lines(state, all, weeks.drop_last(), today) + plan_week_lines(
            state,
            all,
            weeks.last(),
            today,
        )
    }
}

/// The ending of a word for this many things.
pub open spec fn plural(n: nat) -> Seq<char> {
    if n == 1 {
        ""@
    } else {
        "s"@
    }
}

/// The plan of the next `n` weeks as text.
pub open spec fn plan_text(
    state: State,
    all: Seq<AssignmentInstance>,
    n: nat,
    interval: nat,
    today: Date,
) -> Seq<char> {
    join(
        seq![
            "📅 **Cleaning plan** · next "@ + decimal(n) + " week"@ + plural(n) + " · every "@
                + decimal(interval) + " week"@ + plural(interval),
        ] + plan_weeks_lines(state, all, weeks_of(all), today),
        "\n"@,
    )
}

/// The line about an entry.
fn show_entry(state: &State, a: &AssignmentInstance, current: bool) -> (r: String)
    requires
        state.wf(),
        is_year(a.iso_year as int),
    ensures
        r@ == entry_line(*state, *a, current),
{
    let icon: &str = if a.is_completed {
        "✅"
    } else if current {
        "🔲"
    } else {
        "🗓"
    };
    let detail: String = if a.is_completed {
        if a.is_skipped {
            "skipped ⏭️".to_owned()
        } else {
            let by: &str = match &a.completed_by {
                Some(by) => by.as_str(),
                None => "?",
            };
            "done by ".to_owned().concat(by)
        }
    } else {
        match &a.assignee {
            None => "nobody assigned yet".to_owned(),
            Some(p) => {
                let key: String = match &p.mxid {
                    Some(m) => m.clone(),
                    None => p.name.clone(),
                };
                let away: &str = if state.is_absent(
                    p.id.as_str(),
                    a.group_id.as_str(),
                    a.iso_year,
                    a.iso_week,
                ) {
                    " (away)"
                } else {
                    ""
                };
                key.concat(away)
            },
        }
    };
    "  ".to_owned().concat(icon).concat(" ").concat(a.group_name.as_str()).concat(" : ").concat(
        detail.as_str(),
    )
}

/// Every week of a list is the week of an entry.
proof fn lemma_weeks_of(s: Seq<AssignmentInstance>)
    requires
        weeks_known(s),
    ensures
        forall|i: int|
            0 <= i < weeks_of(s).len() ==> (Turn {
                year: (#[trigger] weeks_of(s)[i]).0,
                week: weeks_of(s)[i].1,
                shift: 0,
            }).wf(),
    decreases s.len(),
{
    if s.len() > 0 {
        assert(weeks_known(s.drop_last())) by {
            assert(forall|i: int| 0 <= i < s.len() - 1 ==> s.drop_last()[i] == #[trigger] s[i]);
        }
        lemma_weeks_of(s.drop_last());
        assert((Turn { year: s.last().iso_year, week: s.last().iso_week, shift: 0 }).wf());
    }
}

/// The lines about a week.
fn show_plan_week(state: &State, snapshot: &ScheduleSnapshot, week: (i32, u32), today: Date) -> (r: Vec<
    String,
>)
    requires
        state.wf(),
        is_today(today.day as int),
        (Turn { year: week.0, week: week.1, shift: 0 }).wf(),
    ensures
        views(r@) == plan_week_lines(*state, snapshot.assignments@, week, today),
{
    let now = current_week(today);
    let current = week.0 == now.0 && week.1 == now.1;
    let title = show(week.1 as u64).concat(" (").concat(
        week_dates(week.0, week.1).as_str(),
    ).concat(")");
    let mut r: Vec<String> = Vec::new();
    assert(views(r@) =~= Seq::<Seq<char>>::empty());
    put_text(&mut r, "".to_owned());
    let line: String = if current {
        "📆 **Week ".to_owned().concat(title.as_str()).concat("** ← this week")
    } else {
        "📆 Week ".to_owned().concat(title.as_str())
    };
    put_text(&mut r, line);
    let rows = snapshot.for_group_in_week(week.0, week.1);
    let ghost entries = snapshot.assignments@.filter(entry_of_week(week.0, week.1));
    let ghost all = entries.map_values(|a: AssignmentInstance| entry_line(*state, a, current));
    let ghost head = seq![""@, line@];
    let mut i: usize = 0;
    proof {
        crate::lists::lemma_filter(snapshot.assignments@, entry_of_week(week.0, week.1));
        assert(views(r@) =~= head + all.take(0));
    }
    while i < rows.len()
        invariant
            i <= rows.len(),
            state.wf(),
            is_year(week.0 as int),
            rows@.len() == entries.len(),
            forall|k: int| 0 <= k < rows@.len() ==> *(#[trigger] rows@[k]) == entries[k],
            forall|k: int|
                0 <= k < entries.len() ==> entry_of_week(week.0, week.1)(#[trigger] entries[k]),
            all == entries.map_values(|a: AssignmentInstance| entry_line(*state, a, current)),
            views(r@) == head + all.take(i as int),
        decreases rows.len() - i,
    {
        assert(entry_of_week(week.0, week.1)(entries[i as int]));
        let line = show_entry(state, rows[i], current);
        assert(head + all.take(i + 1) =~= (head + all.take(i as int)).push(line@));
        put_text(&mut r, line);
        i += 1;
    }
    assert(all.take(i as int) =~= all);
    r
}

/// The ending of a word for this many things.
fn ending(n: u64) -> (r: &'static str)
    ensures
        r@ == plural(n as nat),
{
    if n == 1 {
        ""
    } else {
        "s"
    }
}

/// The plan of the next `n` weeks as text.
pub fn show_plan(
    state: &State,
    snapshot: &ScheduleSnapshot,
    n: usize,
    interval: u32,
    today: Date,
) -> (r: String)
    requires
        state.wf(),
        is_today(today.day as int),
        weeks_known(snapshot.assignments@),
    ensures
        r@ == plan_text(*state, snapshot.assignments@, n as nat, interval as nat, today),
{
    let head = "📅 **Cleaning plan** · next ".to_owned().concat(show(n as u64).as_str()).concat(
        " week",
    ).concat(ending(n as u64)).concat(" · every ").concat(show(interval as u64).as_str()).concat(
        " week",
    ).concat(ending(interval as u64));
    let mut lines: Vec<String> = Vec::new();
    assert(views(lines@) =~= Seq::<Seq<char>>::empty());
    put_text(&mut lines, head);
    let weeks = snapshot.weeks();
    let ghost all = snapshot.assignments@;
    let mut i: usize = 0;
    proof {
        lemma_weeks_of(all);
        assert(weeks@.take(0) =~= Seq::<(i32, u32)>::empty());
        assert(views(lines@) =~= seq![head@] + plan_weeks_lines(
            *state,
            all,
            weeks@.take(0),
            today,
        ));
    }
    while i < weeks.len()
        invariant
            i <= weeks.len(),
            state.wf(),
            is_today(today.day as int),
            all == snapshot.assignments@,
            weeks@ == weeks_of(all),
            forall|i: int|
                0 <= i < weeks@.len() ==> (Turn {
                    year: (#[trigger] weeks@[i]).0,
                    week: weeks@[i].1,
                    shift: 0,
                }).wf(),
            views(lines@) == seq![head@] + plan_weeks_lines(
                *state,
                all,
                weeks@.take(i as int),
                today,
            ),
        decreases weeks.len() - i,
    {
        let ghost before = views(lines@);
        let week = show_plan_week(state, snapshot, weeks[i], today);
        put_texts(&mut lines, &week);
        proof {
            let more = weeks@.take(i + 1);
            assert(more.drop_last() =~= weeks@.take(i as int));
            assert(views(lines@) =~= seq![head@] + plan_weeks_lines(*state, all, more, today));
        }
        i += 1;
    }
    assert(weeks@.take(i as int) =~= weeks@);
    join_texts(&lines, "\n")
}

/// A list with a text that is in it once.
pub open spec fn with_text(list: Seq<Seq<char>>, t: Seq<char>) -> Seq<Seq<char>> {
    if list.contains(t) {
        list
    } else {
        list.push(t)
    }
}

/// The Matrix ids of those whom entries name, each once.
pub open spec fn plan_people(state: State, all: Seq<AssignmentInstance>) -> Seq<Seq<char>>
    decreases all.len(),
{
    if all.len() == 0 {
        Seq::empty()
    } else {
        let a = all.last();
        let before = plan_people(state, all.drop_last());
        let ids = if a.assignee is Some && a.assignee->0.mxid is Some {
            with_text(before, a.assignee->0.mxid->0@)
        } else {
            before
        };
        match a.completed_by {
            Some(by) => if ids.contains(by@) {
                ids
            } else {
                match state.person_named(by@) {
                    Some(p) => match p.matrix_id {
                        Some(m) => with_text(ids, m@),
                        None => ids,
                    },
                    None => ids,
                }
            },
            None => ids,
        }
    }
}

/// A text is in a list when it is among the views.
proof fn lemma_views_contain(list: Seq<String>, t: Seq<char>)
    ensures
        says(list, t) == views(list).contains(t),
{
    if says(list, t) {
        let i = choose|i: int| 0 <= i < list.len() && #[trigger] list[i]@ == t;
        assert(views(list)[i] == t);
    }
    if views(list).contains(t) {
        let i = choose|i: int| 0 <= i < views(list).len() && views(list)[i] == t;
        assert(list[i]@ == t);
    }
}

/// Puts a text into a list that does not hold it yet.
fn put_once(list: &mut Vec<String>, t: &String)
    ensures
        views(final(list)@) == with_text(views(old(list)@), t@),
{
    proof {
        lemma_views_contain(list@, t@);
    }
    if !contains_text(list, t.as_str()) {
        put_text(list, t.clone());
    }
}

/// The Matrix ids of those whom entries name, each once.
pub fn people_in_plan(state: &State, snapshot: &ScheduleSnapshot) -> (r: Vec<String>)
    ensures
        views(r@) == plan_people(*state, snapshot.assignments@),
{
    let all = &snapshot.assignments;
    let mut ids: Vec<String> = Vec::new();
    let mut i: usize = 0;
    proof {
        assert(views(ids@) =~= Seq::<Seq<char>>::empty());
        assert(all@.take(0) =~= Seq::<AssignmentInstance>::empty());
    }
    while i < all.len()
        invariant
            i <= all.len(),
            all == &snapshot.assignments,
            views(ids@) == plan_people(*state, all@.take(i as int)),
        decreases all.len() - i,
    {
        proof {
            let more = all@.take(i + 1);
            assert(more.drop_last() =~= all@.take(i as int));
            assert(more.last() == all@[i as int]);
        }
        match &all[i].assignee {
            Some(p) => match &p.mxid {
                Some(m) => {
                    put_once(&mut ids, m);
                },
                None => {},
            },
            None => {},
        }
        match &all[i].completed_by {
            Some(by) => {
                proof {
                    lemma_views_contain(ids@, by@);
                }
                if !contains_text(&ids, by.as_str()) {
                    match state.find_person(by.as_str()) {
                        Some(p) => match &p.matrix_id {
                            Some(m) => {
                                put_once(&mut ids, m);
                            },
                            None => {},
                        },
                        None => {},
                    }
                }
            },
            None => {},
        }
        i += 1;
    }
    assert(all@.take(i as int) =~= all@);
    ids
}

/// A text to send, and the Matrix ids of those whose names it needs.
#[derive(Clone, Debug)]
pub struct PlanReply {
    pub text: String,
    pub people: Vec<String>,
}

/// What `!plan` answers.
pub open spec fn answers_plan(
    r: PlanReply,
    state: State,
    args: Seq<String>,
    interval: nat,
    today: Date,
) -> bool {
    if state.cleaning_groups@.len() == 0 {
        r.text@ == "No cleaning groups configured yet."@ && r.people@.len() == 0
    } else {
        exists|snapshot: ScheduleSnapshot| #[trigger]
            shows(snapshot, state, today, plan_weeks(args) as int) && r.text@ == plan_text(
                state,
                snapshot.assignments@,
                plan_weeks(args),
                interval,
                today,
            ) && views(r.people@) == plan_people(state, snapshot.assignments@)
    }
}

/// Shows the plan of the next weeks. `interval` is how many weeks lie between two cleanings.
pub fn cmd_cleanplan(
    state: &State,
    args: &Vec<String>,
    interval: u32,
    today: Date,
    now: Timestamp,
) -> (r: Result<PlanReply, CommandError>)
    ensures
        !known(*state, today) ==> r == Err::<PlanReply, CommandError>(CommandError::OutOfRange),
        known(*state, today) ==> r is Ok && answers_plan(
            r->Ok_0,
            *state,
            args@,
            interval as nat,
            today,
        ),
{
    if !is_known(state, today) {
        return Err(CommandError::OutOfRange);
    }
    if state.cleaning_groups.len() == 0 {
        return Ok(
            PlanReply {
                text: "No cleaning groups configured yet.".to_owned(),
                people: Vec::new(),
            },
        );
    }
    let n: usize = if args.len() > 0 {
        match read_weeks(args[0].as_str(), 20) {
            Some(n) => n,
            None => 6,
        }
    } else {
        6
    };
    let snapshot = snapshot_of(state, n, today, now);
    let text = show_plan(state, &snapshot, n, interval, today);
    let people = people_in_plan(state, &snapshot);
    assert(shows(snapshot, *state, today, plan_weeks(args@) as int));
    Ok(PlanReply { text, people })
}

// ── !plan pdf [N] [group] ────────────────────────────────────────────────────

/// The small letters of a text, as `str::to_lowercase` gives them.
pub uninterp spec fn lowercase(t: Seq<char>) -> Seq<char>;

/// `str::to_lowercase`: the text in small letters, for letters of all alphabets. Which letters
/// those are is not stated.
#[verifier::external_body]
fn to_lowercase(t: &str) -> (r: String)
    ensures
        r@ == lowercase(t@),
{
    t.to_lowercase()
}

/// How many weeks a document shows, and of which group when one is named.
pub open spec fn pdf_wish(args: Seq<String>) -> (nat, Option<Seq<char>>) {
    if args.len() > 0 && weeks_asked(args[0]@, 52) is Some {
        (
            weeks_asked(args[0]@, 52)->0,
            if args.len() > 1 {
                Some(join(views(args.skip(1)), " "@))
            } else {
                None
            },
        )
    } else {
        (
            8,
            if args.len() > 0 {
                Some(join(views(args), " "@))
            } else {
                None
            },
        )
    }
}

/// The weeks from the first to the last entry.
pub open spec fn range_label(all: Seq<AssignmentInstance>, n: nat) -> Seq<char> {
    if all.len() == 0 {
        decimal(n) + "w"@
    } else {
        let first = all[0];
        let last = all.last();
        if first.iso_year != last.iso_year || first.iso_week != last.iso_week {
            "KW"@ + decimal(first.iso_week as nat) + "-KW"@ + decimal(last.iso_week as nat)
        } else {
            "KW"@ + decimal(first.iso_week as nat)
        }
    }
}

/// The name of the document; `small` is the name of the group in small letters.
pub open spec fn pdf_name(small: Option<Seq<char>>, range: Seq<char>) -> Seq<char> {
    match small {
        Some(t) => "cleaning-plan-"@ + replaced(t, ' ', "_"@) + "_"@ + range + ".pdf"@,
        None => "cleaning-plan-"@ + range + ".pdf"@,
    }
}

/// The weeks from the first to the last entry.
fn show_range(all: &Vec<AssignmentInstance>, n: usize) -> (r: String)
    ensures
        r@ == range_label(all@, n as nat),
{
    if all.len() == 0 {
        return show(n as u64).concat("w");
    }
    let first = &all[0];
    let last = &all[all.len() - 1];
    if first.iso_year != last.iso_year || first.iso_week != last.iso_week {
        "KW".to_owned().concat(show(first.iso_week as u64).as_str()).concat("-KW").concat(
            show(last.iso_week as u64).as_str(),
        )
    } else {
        "KW".to_owned().concat(show(first.iso_week as u64).as_str())
    }
}

/// The name of the document; `small` is the name of the group in small letters.
pub fn pdf_file_name(small: &Option<String>, snapshot: &ScheduleSnapshot, n: usize) -> (r: String)
    ensures
        r@ == pdf_name(
            match *small {
                Some(t) => Some(t@),
                None => None,
            },
            range_label(snapshot.assignments@, n as nat),
        ),
{
    let range = show_range(&snapshot.assignments, n);
    match small {
        Some(t) => "cleaning-plan-".to_owned().concat(
            replace_char(t.as_str(), ' ', "_").as_str(),
        ).concat("_").concat(range.as_str()).concat(".pdf"),
        None => "cleaning-plan-".to_owned().concat(range.as_str()).concat(".pdf"),
    }
}

/// Reads how many weeks a document shows, and of which group when one is named.
fn read_pdf_wish(args: &Vec<String>) -> (r: (usize, Option<String>))
    ensures
        r.0 == pdf_wish(args@).0,
        1 <= r.0 <= 52,
        (r.1 is Some) == (pdf_wish(args@).1 is Some),
        r.1 is Some ==> (r.1)->0@ == (pdf_wish(args@).1)->0,
{
    if args.len() == 0 {
        return (8, None);
    }
    match read_weeks(args[0].as_str(), 52) {
        Some(n) => if args.len() > 1 {
            (n, Some(join_from(args, 1)))
        } else {
            (n, None)
        },
        None => (8, Some(join_texts(args, " "))),
    }
}

/// What is wanted of a document.
#[derive(Clone, Debug)]
pub enum PdfReply {
    /// Nothing; there is only a text.
    Says(String),
    /// A document to be set and sent.
    Sets { tex: String, file_name: String },
}

/// The entries of a document: all, or those of one group.
pub open spec fn pdf_entries(all: Seq<AssignmentInstance>, group: Option<CleaningGroup>) -> Seq<
    AssignmentInstance,
> {
    match group {
        Some(g) => all.filter(entry_of_group(g.id@)),
        None => all,
    }
}

/// Whether the dates of a snapshot can be written.
pub open spec fn printable(snapshot: ScheduleSnapshot) -> bool {
    is_time(snapshot.state_timestamp.secs as int) && forall|i: int|
        0 <= i < snapshot.assignments@.len() ==> dates_fit(#[trigger] snapshot.assignments@[i])
}

/// Whether this is the document of a snapshot, of all groups or one.
pub open spec fn is_document(
    r: Result<PdfReply, CommandError>,
    part: ScheduleSnapshot,
    whole: ScheduleSnapshot,
    n: nat,
    group: Option<CleaningGroup>,
    name: Option<Seq<char>>,
    interval: nat,
) -> bool {
    &&& part.state_timestamp == whole.state_timestamp
    &&& part.assignments@ == pdf_entries(whole.assignments@, group)
    &&& if printable(part) {
        r is Ok && r->Ok_0 is Sets && r->Ok_0->tex@ == tex_text(part, interval)
            && r->Ok_0->file_name@ == pdf_name(
            match name {
                Some(t) => Some(lowercase(t)),
                None => None,
            },
            range_label(part.assignments@, n),
        )
    } else {
        r == Err::<PdfReply, CommandError>(CommandError::OutOfRange)
    }
}

/// The group that a document is wanted of.
pub open spec fn pdf_group(state: State, args: Seq<String>) -> Option<CleaningGroup> {
    match pdf_wish(args).1 {
        Some(t) => state.group_of_name(t),
        None => None,
    }
}

/// What `!plan pdf` answers.
pub open spec fn answers_pdf(
    r: Result<PdfReply, CommandError>,
    state: State,
    req: Request,
    args: Seq<String>,
    interval: nat,
) -> bool {
    let n = pdf_wish(args).0;
    let name = pdf_wish(args).1;
    let group = pdf_group(state, args);
    if !req.is_admin {
        r == Err::<PdfReply, CommandError>(CommandError::NotAdmin)
    } else if !known(state, req.today) {
        r == Err::<PdfReply, CommandError>(CommandError::OutOfRange)
    } else if name is Some && group is None {
        r is Ok && r->Ok_0 is Says && r->Ok_0->Says_0@ == "Group «"@ + name->0 + "» not found."@
    } else {
        exists|part: ScheduleSnapshot, whole: ScheduleSnapshot|
            shows(whole, state, req.today, n as int) && whole.state_timestamp == taken_at(
                state,
                req.now,
            ) && #[trigger] is_document(
                r,
                part,
                whole,
                n,
                group,
                name,
                interval,
            )
    }
}

/// Whether the dates of a snapshot can be written.
fn can_print(snapshot: &ScheduleSnapshot) -> (r: bool)
    ensures
        r == printable(*snapshot),
{
    if date_of_timestamp(snapshot.state_timestamp).is_none() {
        return false;
    }
    let all = &snapshot.assignments;
    let mut i: usize = 0;
    while i < all.len()
        invariant
            i <= all.len(),
            all == &snapshot.assignments,
            is_time(snapshot.state_timestamp.secs as int),
            forall|k: int| 0 <= k < i ==> dates_fit(#[trigger] all@[k]),
        decreases all.len() - i,
    {
        let a = &all[i];
        let done = match a.completed_at {
            Some(d) => day_fits(d.day as i64),
            None => true,
        };
        if !(day_fits(a.start.day as i64) && day_fits(a.end.day as i64) && done) {
            assert(!dates_fit(all@[i as int]));
            return false;
        }
        i += 1;
    }
    true
}

/// Makes the document of the next weeks, of all groups or the named one. `interval` is how many
/// weeks lie between two cleanings.
pub fn cmd_pdf(state: &State, req: &Request, args: &Vec<String>, interval: u32) -> (r: Result<
    PdfReply,
    CommandError,
>)
    ensures
        answers_pdf(r, *state, *req, args@, interval as nat),
{
    if !req.is_admin {
        return Err(CommandError::NotAdmin);
    }
    if !is_known(state, req.today) {
        return Err(CommandError::OutOfRange);
    }
    let (n, name) = read_pdf_wish(args);
    let mut small: Option<String> = None;
    let mut id: Option<String> = None;
    match &name {
        Some(t) => match state.group_by_name(t.as_str()) {
            Some(g) => {
                small = Some(to_lowercase(t.as_str()));
                id = Some(g.id.clone());
            },
            None => {
                return Ok(
                    PdfReply::Says("Group «".to_owned().concat(t.as_str()).concat("» not found.")),
                );
            },
        },
        None => {},
    }
    let ghost group = pdf_group(*state, args@);
    let mut part = snapshot_of(state, n, req.today, req.now);
    let ghost whole = part;
    match &id {
        Some(id) => {
            let keep = |a: &AssignmentInstance| -> (b: bool)
                ensures
                    b == (a.group_id@ == id@),
                { same_text(a.group_id.as_str(), id.as_str()) };
            retain(&mut part.assignments, keep, Ghost(entry_of_group(id@)));
        },
        None => {},
    }
    assert(part.assignments@ == pdf_entries(whole.assignments@, group));
    let r: Result<PdfReply, CommandError> = if can_print(&part) {
        let tex = render_tex(&part, interval);
        let file_name = pdf_file_name(&small, &part, n);
        Ok(PdfReply::Sets { tex, file_name })
    } else {
        Err(CommandError::OutOfRange)
    };
    assert(shows(whole, *state, req.today, pdf_wish(args@).0 as int));
    assert(is_document(
        r,
        part,
        whole,
        pdf_wish(args@).0,
        group,
        pdf_wish(args@).1,
        interval as nat,
    ));
    r
}

} // verus!
