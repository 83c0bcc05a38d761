//! What `!stats` shows: records of groups and people, the leaderboard.

use vstd::prelude::*;

use crate::analytics::{
    active_groups_of, group_stats_at, is_group_stats, is_stats_of, marked_turn, person_stats_at,
    GroupStats, PersonStats,
};
use crate::calendar::{
    is_today, lemma_today, week_at, week_dates, week_text, Date, Timestamp,
};
use crate::commands::base::{current_week, lemma_group_known};
use crate::commands::people::active;
use crate::domain::{CleaningGroup, Person};
use crate::lists::{count, count_where, lemma_filter_step};
use crate::planning::{known, this_week};
use crate::rhythm::Turn;
use crate::roster::{after, cleaned_in, is_after, is_latest};
use crate::sorting::{lemma_sorted, sort, sorted, Ranked};
use crate::state::{Completion, State};
use crate::text::{
    decimal, join, join_texts, lowered, put_text, put_texts, same_text, show, to_lower, views,
};

verus! {

// ── The record of a group ────────────────────────────────────────────────────

/// A turn of a group that is done.
pub open spec fn is_done(state: State, group: CleaningGroup) -> spec_fn(Turn) -> bool {
    |t: Turn| state.turn_done(group, t)
}

/// How many of a hundred; all when there are none.
pub open spec fn share(part: nat, all: nat) -> nat {
    if all == 0 {
        100
    } else {
        100 * part / all
    }
}

/// Whether a turn of this week is done, with its days when the week has several shifts.
pub open spec fn turn_mark(state: State, group: CleaningGroup, t: Turn) -> Seq<char> {
    let icon = if state.turn_done(group, t) {
        "✅"@
    } else {
        "⬜"@
    };
    match t.shift_text(group.rhythm) {
        Some(label) => label + " "@ + icon,
        None => icon,
    }
}

/// The state of the current week.
pub open spec fn week_marks(state: State, group: CleaningGroup, today: Date) -> Seq<char> {
    let turns = state.week_turns(group, today, this_week(today).0, this_week(today).1);
    if turns.len() == 0 {
        "not due"@
    } else {
        join(turns.map_values(|t: Turn| turn_mark(state, group, t)), " "@)
    }
}

/// The names of persons.
pub open spec fn person_names(persons: Seq<Person>) -> Seq<Seq<char>> {
    persons.map_values(|p: Person| p.display_name@)
}

/// The line about the latest cleaning.
pub open spec fn last_lines(state: State, group: CleaningGroup, last: Option<Completion>) -> Seq<Seq<char>> {
    match last {
        None => Seq::empty(),
        Some(c) => seq![
            "Last: week "@ + decimal(c.iso_week as nat) + " ("@ + marked_turn(c).period_text(
                group.rhythm,
            ) + ") by "@ + (match state.person(c.completed_by_id@) {
                Some(p) => p.display_name@,
                None => "?"@,
            }),
        ],
    }
}

/// A missed turn.
pub open spec fn missed_text(group: CleaningGroup, t: Turn) -> Seq<char> {
    "w"@ + decimal(t.week as nat) + " ("@ + t.period_text(group.rhythm) + ")"@
}

/// How many missed turns are listed.
pub const MISSED_SHOWN: usize = 5;

/// The latest missed turns, the last one first.
pub open spec fn missed_texts(group: CleaningGroup, missed: Seq<Turn>) -> Seq<Seq<char>> {
    Seq::new(
        if missed.len() < MISSED_SHOWN {
            missed.len()
        } else {
            MISSED_SHOWN as nat
        },
        |i: int| missed_text(group, missed[missed.len() - 1 - i]),
    )
}

/// The line about missed turns.
pub open spec fn missed_lines(group: CleaningGroup, missed: Seq<Turn>) -> Seq<Seq<char>> {
    if missed.len() == 0 {
        Seq::empty()
    } else {
        seq![
            "Missed: "@ + join(missed_texts(group, missed), ", "@) + (if missed.len()
                > MISSED_SHOWN {
                " (+"@ + decimal((missed.len() - MISSED_SHOWN) as nat) + ")"@
            } else {
                ""@
            }),
        ]
    }
}

/// Whether this is the latest cleaning of a group.
pub open spec fn is_last(state: State, group: CleaningGroup, last: Option<Completion>) -> bool {
    match last {
        Some(c) => exists|i: int|
            #[trigger] is_latest(state.completions@, group.id@, i) && c == state.completions@[i],
        None => forall|i: int|
            0 <= i < state.completions@.len() ==> !cleaned_in(group.id@)(
                #[trigger] state.completions@[i],
            ),
    }
}

/// The record of a group: turns done and missed, streak, this week, latest cleaning.
pub open spec fn record(state: State, group: CleaningGroup, last: Option<Completion>, today: Date) -> Seq<
    char,
> {
    let turns = state.past_turns(group, today);
    let done = count(turns, is_done(state, group));
    join(
        seq![
            "📊 **"@ + group.name@ + "** · cleaned "@ + group.rhythm.description(),
            ""@,
            "Members: "@ + join(person_names(state.persons_of(group.member_ids@)), ", "@),
            "Turns done: "@ + decimal(done) + "/"@ + decimal(turns.len()) + " ("@ + decimal(
                share(done, turns.len()),
            ) + "%) · Streak: "@ + decimal(state.streak(group, turns)) + " · This week: "@
                + week_marks(state, group, today),
        ] + last_lines(state, group, last) + missed_lines(
            group,
            turns.filter(state.not_done(group)),
        ),
        "\n"@,
    )
}

/// How many of a hundred; all when there are none.
fn show_share(part: usize, all: usize) -> (r: String)
    requires
        part <= all,
    ensures
        r@ == decimal(share(part as nat, all as nat)),
{
    if all == 0 {
        return show(100);
    }
    let p: u128 = 100 * (part as u128);
    let q: u128 = p / (all as u128);
    assert(q <= 100) by (nonlinear_arith)
        requires
            q == (100 * part as int) / (all as int),
            part <= all,
            all > 0,
    ;
    show(q as u64)
}

/// The state of the current week.
fn show_week_marks(state: &State, group: &CleaningGroup, today: Date) -> (r: String)
    requires
        known(*state, today),
    ensures
        r@ == week_marks(*state, *group, today),
{
    proof {
        lemma_today(today.day as int);
    }
    let week = current_week(today);
    let turns = state.turns_in_week(group, today, week.0, week.1);
    if turns.len() == 0 {
        return "not due".to_owned();
    }
    let ghost all = turns@.map_values(|t: Turn| turn_mark(*state, *group, t));
    let mut texts: Vec<String> = Vec::new();
    let mut i: usize = 0;
    assert(views(texts@) =~= all.take(0));
    while i < turns.len()
        invariant
            i <= turns.len(),
            all == turns@.map_values(|t: Turn| turn_mark(*state, *group, t)),
            views(texts@) == all.take(i as int),
        decreases turns.len() - i,
    {
        let icon: &str = if state.is_turn_done(group, turns[i]) {
            "✅"
        } else {
            "⬜"
        };
        let text: String = match turns[i].shift_label(&group.rhythm) {
            Some(label) => label.concat(" ").concat(icon),
            None => icon.to_owned(),
        };
        assert(all.take(i + 1) =~= all.take(i as int).push(text@));
        put_text(&mut texts, text);
        i += 1;
    }
    assert(all.take(i as int) =~= all);
    join_texts(&texts, " ")
}

/// The names of the members of a group.
pub fn show_member_names(state: &State, group: &CleaningGroup) -> (r: String)
    ensures
        r@ == join(person_names(state.persons_of(group.member_ids@)), ", "@),
{
    let members = state.members_of(group);
    let ghost all = person_names(state.persons_of(group.member_ids@));
    let mut names: Vec<String> = Vec::new();
    let mut i: usize = 0;
    assert(views(names@) =~= all.take(0));
    while i < members.len()
        invariant
            i <= members.len(),
            members@.len() == state.persons_of(group.member_ids@).len(),
            forall|k: int|
                0 <= k < members@.len() ==> *(#[trigger] members@[k]) == state.persons_of(
                    group.member_ids@,
                )[k],
            all == person_names(state.persons_of(group.member_ids@)),
            views(names@) == all.take(i as int),
        decreases members.len() - i,
    {
        let name = members[i].display_name.clone();
        assert(all.take(i + 1) =~= all.take(i as int).push(name@));
        put_text(&mut names, name);
        i += 1;
    }
    assert(all.take(i as int) =~= all);
    join_texts(&names, ", ")
}

/// The line about missed turns.
fn show_missed(group: &CleaningGroup, missed: &Vec<Turn>) -> (r: Vec<String>)
    requires
        forall|i: int| 0 <= i < missed@.len() ==> (#[trigger] missed@[i]).wf(),
    ensures
        views(r@) == missed_lines(*group, missed@),
{
    let mut r: Vec<String> = Vec::new();
    assert(views(r@) =~= Seq::<Seq<char>>::empty());
    if missed.len() == 0 {
        return r;
    }
    let ghost all = missed_texts(*group, missed@);
    let n: usize = if missed.len() < MISSED_SHOWN {
        missed.len()
    } else {
        MISSED_SHOWN
    };
    let mut texts: Vec<String> = Vec::new();
    let mut i: usize = 0;
    assert(views(texts@) =~= all.take(0));
    while i < n
        invariant
            i <= n <= missed.len(),
            n == all.len(),
            forall|i: int| 0 <= i < missed@.len() ==> (#[trigger] missed@[i]).wf(),
            all == missed_texts(*group, missed@),
            views(texts@) == all.take(i as int),
        decreases n - i,
    {
        let t = missed[missed.len() - 1 - i];
        let text = "w".to_owned().concat(show(t.week as u64).as_str()).concat(" (").concat(
            t.period_label(&group.rhythm).as_str(),
        ).concat(")");
        assert(all.take(i + 1) =~= all.take(i as int).push(text@));
        put_text(&mut texts, text);
        i += 1;
    }
    assert(all.take(i as int) =~= all);
    let more: String = if missed.len() > MISSED_SHOWN {
        " (+".to_owned().concat(show((missed.len() - MISSED_SHOWN) as u64).as_str()).concat(")")
    } else {
        "".to_owned()
    };
    put_text(
        &mut r,
        "Missed: ".to_owned().concat(join_texts(&texts, ", ").as_str()).concat(more.as_str()),
    );
    assert(views(r@) =~= missed_lines(*group, missed@));
    r
}

/// The record of a group: turns done and missed, streak, this week, latest cleaning.
pub fn blame_group(state: &State, group: &CleaningGroup, today: Date) -> (r: String)
    requires
        known(*state, today),
        state.dated(),
    ensures
        exists|last: Option<Completion>|
            is_last(*state, *group, last) && r@ == #[trigger] record(*state, *group, last, today),
{
    proof {
        lemma_today(today.day as int);
    }
    let closed = state.closed_turns_at(group, today);
    let test = |t: &Turn| -> (b: bool)
        ensures
            b == state.turn_done(*group, *t),
        { state.is_turn_done(group, *t) };
    let done = count_where(&closed, test, Ghost(is_done(*state, *group)));
    proof {
        crate::lists::lemma_filter(closed@, is_done(*state, *group));
    }
    let streak = state.streak_for(group, today);
    let mut lines: Vec<String> = Vec::new();
    assert(views(lines@) =~= Seq::<Seq<char>>::empty());
    put_text(
        &mut lines,
        "📊 **".to_owned().concat(group.name.as_str()).concat("** · cleaned ").concat(
            group.rhythm.describe().as_str(),
        ),
    );
    put_text(&mut lines, "".to_owned());
    put_text(
        &mut lines,
        "Members: ".to_owned().concat(show_member_names(state, group).as_str()),
    );
    put_text(
        &mut lines,
        "Turns done: ".to_owned().concat(show(done as u64).as_str()).concat("/").concat(
            show(closed.len() as u64).as_str(),
        ).concat(" (").concat(show_share(done, closed.len()).as_str()).concat(
            "%) · Streak: ",
        ).concat(show(streak as u64).as_str()).concat(" · This week: ").concat(
            show_week_marks(state, group, today).as_str(),
        ),
    );
    let ghost part = seq![
        "📊 **"@ + group.name@ + "** · cleaned "@ + group.rhythm.description(),
        ""@,
        "Members: "@ + join(person_names(state.persons_of(group.member_ids@)), ", "@),
        "Turns done: "@ + decimal(done as nat) + "/"@ + decimal(closed@.len()) + " ("@ + decimal(
            share(done as nat, closed@.len()),
        ) + "%) · Streak: "@ + decimal(streak as nat) + " · This week: "@ + week_marks(
            *state,
            *group,
            today,
        ),
    ];
    assert(views(lines@) =~= part);
    let last = state.last_completion(group.id.as_str());
    let ghost latest: Option<Completion> = match last {
        Some(c) => Some(*c),
        None => None,
    };
    match last {
        Some(c) => {
            let by: String = match state.person_by_id(c.completed_by_id.as_str()) {
                Some(p) => p.display_name.clone(),
                None => "?".to_owned(),
            };
            let turn = Turn { year: c.iso_year, week: c.iso_week, shift: c.shift };
            put_text(
                &mut lines,
                "Last: week ".to_owned().concat(show(c.iso_week as u64).as_str()).concat(
                    " (",
                ).concat(turn.period_label(&group.rhythm).as_str()).concat(") by ").concat(
                    by.as_str(),
                ),
            );
        },
        None => {},
    }
    assert(views(lines@) =~= part + last_lines(*state, *group, latest));
    let missed = state.missed_turns(group, today);
    let more = show_missed(group, &missed);
    put_texts(&mut lines, &more);
    let r = join_texts(&lines, "\n");
    assert(r@ == record(*state, *group, latest, today));
    r
}

// ── The leaderboard ──────────────────────────────────────────────────────────

/// The sign of a place.
pub open spec fn medal(i: int) -> Seq<char> {
    if i == 0 {
        "🥇"@
    } else if i == 1 {
        "🥈"@
    } else if i == 2 {
        "🥉"@
    } else {
        "  "@
    }
}

/// Somebody's place, turns, streak and excused turns.
pub open spec fn board_line(i: int, s: PersonStats, percent: u32) -> Seq<char> {
    medal(i) + " "@ + s.display_name@ + "  "@ + decimal(s.completed as nat) + "/"@ + decimal(
        s.due_weeks as nat,
    ) + " ("@ + decimal(percent as nat) + "%)"@ + (if s.streak >= 2 {
        "  🔥"@ + decimal(s.streak as nat)
    } else {
        ""@
    }) + (if s.skipped > 0 {
        "  ⏭️"@ + decimal(s.skipped as nat)
    } else {
        ""@
    })
}

/// The leaderboard.
pub open spec fn board_text(board: Seq<PersonStats>, percents: Seq<u32>) -> Seq<char> {
    if board.len() == 0 {
        "No members assigned to any group yet."@
    } else {
        join(
            seq!["🏆 Cleaning Leaderboard"@, ""@] + Seq::new(
                board.len(),
                |i: int| board_line(i, board[i], percents[i]),
            ),
            "\n"@,
        )
    }
}

/// The leaderboard; `percents` are the shares of own turns that were cleaned.
pub fn leaderboard_text(board: &Vec<PersonStats>, percents: &Vec<u32>) -> (r: String)
    requires
        board@.len() == percents@.len(),
    ensures
        r@ == board_text(board@, percents@),
{
    if board.len() == 0 {
        return "No members assigned to any group yet.".to_owned();
    }
    let ghost head = seq!["🏆 Cleaning Leaderboard"@, ""@];
    let ghost all = Seq::new(
        board@.len(),
        |i: int| board_line(i, board@[i], percents@[i]),
    );
    let mut lines: Vec<String> = Vec::new();
    assert(views(lines@) =~= Seq::<Seq<char>>::empty());
    put_text(&mut lines, "🏆 Cleaning Leaderboard".to_owned());
    put_text(&mut lines, "".to_owned());
    let mut i: usize = 0;
    assert(views(lines@) =~= head + all.take(0));
    while i < board.len()
        invariant
            i <= board.len(),
            board@.len() == percents@.len(),
            all == Seq::new(board@.len(), |i: int| board_line(i, board@[i], percents@[i])),
            views(lines@) == head + all.take(i as int),
        decreases board.len() - i,
    {
        let s = &board[i];
        let sign: &str = if i == 0 {
            "🥇"
        } else if i == 1 {
            "🥈"
        } else if i == 2 {
            "🥉"
        } else {
            "  "
        };
        let streak: String = if s.streak >= 2 {
            "  🔥".to_owned().concat(show(s.streak as u64).as_str())
        } else {
            "".to_owned()
        };
        let skips: String = if s.skipped > 0 {
            "  ⏭️".to_owned().concat(show(s.skipped as u64).as_str())
        } else {
            "".to_owned()
        };
        let line = sign.to_owned().concat(" ").concat(s.display_name.as_str()).concat("  ").concat(
            show(s.completed as u64).as_str(),
        ).concat("/").concat(show(s.due_weeks as u64).as_str()).concat(" (").concat(
            show(percents[i] as u64).as_str(),
        ).concat("%)").concat(streak.as_str()).concat(skips.as_str());
        assert(head + all.take(i + 1) =~= (head + all.take(i as int)).push(line@));
        put_text(&mut lines, line);
        i += 1;
    }
    assert(all.take(i as int) =~= all);
    join_texts(&lines, "\n")
}

// ── All groups ───────────────────────────────────────────────────────────────

/// Whether these are the statistics of groups, one by one.
pub open spec fn are_group_stats(list: Seq<GroupStats>, state: State, groups: Seq<CleaningGroup>, today: Date) -> bool {
    &&& list.len() == groups.len()
    &&& forall|i: int|
        0 <= i < groups.len() ==> is_group_stats(
            #[trigger] list[i],
            state,
            state.group(groups[i].id@)->0,
            today,
        )
}

/// The statistics of the active groups.
pub fn active_group_stats(state: &State, today: Date) -> (r: Vec<GroupStats>)
    requires
        known(*state, today),
    ensures
        are_group_stats(r@, *state, state.cleaning_groups@.filter(active()), today),
{
    proof {
        lemma_today(today.day as int);
    }
    let groups = &state.cleaning_groups;
    let mut r: Vec<GroupStats> = Vec::new();
    let mut i: usize = 0;
    assert(groups@.take(0).filter(active()) =~= Seq::<CleaningGroup>::empty()) by {
        reveal(Seq::filter);
    }
    while i < groups.len()
        invariant
            i <= groups.len(),
            groups == &state.cleaning_groups,
            state.wf(),
            today.in_week(),
            are_group_stats(r@, *state, groups@.take(i as int).filter(active()), today),
        decreases groups.len() - i,
    {
        proof {
            lemma_filter_step(groups@, active(), i as int);
            lemma_group_known(*state, i as int);
        }
        if groups[i].is_active {
            match group_stats_at(state, groups[i].id.as_str(), today) {
                Some(s) => {
                    r.push(s);
                },
                None => {},
            }
        }
        i += 1;
    }
    assert(groups@.take(i as int) =~= groups@);
    r
}

/// The line about a group: this week, turns, streak and missed turns.
pub open spec fn group_line(state: State, s: GroupStats, percent: u32, today: Date) -> Seq<char> {
    let week = this_week(today);
    (if state.group(s.group_id@) is Some && state.week_done(
        state.group(s.group_id@)->0,
        week.0,
        week.1,
    ) {
        "✅"@
    } else {
        "⬜"@
    }) + " **"@ + s.group_name@ + "** · "@ + decimal(s.completed as nat) + "/"@ + decimal(
        s.due_weeks as nat,
    ) + " ("@ + decimal(percent as nat) + "%) · streak "@ + decimal(s.current_streak as nat) + (if s.missed > 0 {
        " · missed "@ + decimal(s.missed as nat)
    } else {
        ""@
    })
}

/// The lines about groups, under a headline; nothing when there are none.
pub open spec fn groups_part(state: State, stats: Seq<GroupStats>, percents: Seq<u32>, today: Date) -> Seq<
    char,
> {
    if stats.len() == 0 {
        ""@
    } else {
        "🏢 **Groups**\n"@ + join(
            Seq::new(stats.len(), |i: int| group_line(state, stats[i], percents[i], today)),
            "\n"@,
        )
    }
}

/// The lines about groups; `percents` are the shares of past turns that were cleaned.
pub fn group_completion_lines(
    state: &State,
    stats: &Vec<GroupStats>,
    percents: &Vec<u32>,
    today: Date,
) -> (r: String)
    requires
        is_today(today.day as int),
        stats@.len() == percents@.len(),
    ensures
        r@ == groups_part(*state, stats@, percents@, today),
{
    if stats.len() == 0 {
        return "".to_owned();
    }
    let week = current_week(today);
    let ghost all = Seq::new(
        stats@.len(),
        |i: int| group_line(*state, stats@[i], percents@[i], today),
    );
    let mut lines: Vec<String> = Vec::new();
    let mut i: usize = 0;
    assert(views(lines@) =~= all.take(0));
    while i < stats.len()
        invariant
            i <= stats.len(),
            stats@.len() == percents@.len(),
            week == this_week(today),
            all == Seq::new(
                stats@.len(),
                |i: int| group_line(*state, stats@[i], percents@[i], today),
            ),
            views(lines@) == all.take(i as int),
        decreases stats.len() - i,
    {
        let s = &stats[i];
        let sign: &str = if state.is_completed(s.group_id.as_str(), week.0, week.1) {
            "✅"
        } else {
            "⬜"
        };
        let missed: String = if s.missed > 0 {
            " · missed ".to_owned().concat(show(s.missed as u64).as_str())
        } else {
            "".to_owned()
        };
        let line = sign.to_owned().concat(" **").concat(s.group_name.as_str()).concat(
            "** · ",
        ).concat(show(s.completed as u64).as_str()).concat("/").concat(
            show(s.due_weeks as u64).as_str(),
        ).concat(" (").concat(show(percents[i] as u64).as_str()).concat("%) · streak ").concat(
            show(s.current_streak as u64).as_str(),
        ).concat(missed.as_str());
        assert(all.take(i + 1) =~= all.take(i as int).push(line@));
        put_text(&mut lines, line);
        i += 1;
    }
    assert(all.take(i as int) =~= all);
    "🏢 **Groups**\n".to_owned().concat(join_texts(&lines, "\n").as_str())
}

// ── One person ───────────────────────────────────────────────────────────────

/// A mark by the time it was made, and its place among all marks.
#[derive(Clone, Copy, Debug)]
pub struct Recent {
    pub at: Timestamp,
    pub place: usize,
}

impl Ranked for Recent {
    /// The latest comes first.
    open spec fn before(self, other: Self) -> bool {
        after(self.at, other.at)
    }

    proof fn ranks(a: Self, b: Self, c: Self) {
    }

    fn is_before(&self, other: &Self) -> (r: bool) {
        is_after(self.at, other.at)
    }
}

/// The marks that somebody made.
pub open spec fn marks_by(marks: Seq<Completion>, person_id: Seq<char>) -> Seq<Recent>
    decreases marks.len(),
{
    if marks.len() == 0 {
        Seq::empty()
    } else {
        let r = marks_by(marks.drop_last(), person_id);
        if marks.last().completed_by_id@ == person_id {
            r.push(
                Recent { at: marks.last().completed_at, place: (marks.len() - 1) as usize },
            )
        } else {
            r
        }
    }
}

/// The marks that somebody made, the latest first.
pub open spec fn recent_marks(state: State, person_id: Seq<char>) -> Seq<Recent> {
    sorted(marks_by(state.completions@, person_id))
}

/// The line about a mark.
pub open spec fn recent_line(state: State, m: Recent) -> Seq<char> {
    let c = state.completions@[m.place as int];
    "  • "@ + (match state.group(c.group_id@) {
        Some(g) => g.name@,
        None => "?"@,
    }) + " · week "@ + decimal(c.iso_week as nat) + " ("@ + week_text(
        c.iso_year as int,
        c.iso_week as int,
    ) + ")"@
}

/// How many marks are listed.
pub const MARKS_SHOWN: usize = 5;

/// The lines about marks: the latest one, and several of them when there are more.
pub open spec fn recent_lines(state: State, marks: Seq<Recent>) -> Seq<Seq<char>> {
    (if marks.len() > 0 {
        let c = state.completions@[marks[0].place as int];
        seq![
            "Last: week "@ + decimal(c.iso_week as nat) + " ("@ + week_text(
                c.iso_year as int,
                c.iso_week as int,
            ) + ")"@,
        ]
    } else {
        Seq::empty()
    }) + (if marks.len() > 1 {
        seq!["Recent:"@] + Seq::new(
            if marks.len() < MARKS_SHOWN {
                marks.len()
            } else {
                MARKS_SHOWN as nat
            },
            |i: int| recent_line(state, marks[i]),
        )
    } else {
        Seq::empty()
    })
}

/// The statistics of a person in words.
pub open spec fn person_card(state: State, s: PersonStats, percent: u32, today: Date) -> Seq<char> {
    let start = week_at(state.start_no(today));
    join(
        seq![
            "📊 **Stats** · "@ + s.display_name@ + " · since W"@ + decimal(start.1 as nat) + " ("@
                + week_text(start.0, start.1) + ")"@,
            "Group: "@ + s.group_names@ + " · "@ + decimal(s.completed as nat) + "/"@ + decimal(
                s.due_weeks as nat,
            ) + " ("@ + decimal(percent as nat) + "%)"@ + (if s.streak >= 2 {
                " 🔥"@ + decimal(s.streak as nat)
            } else {
                ""@
            }),
            "Missed: "@ + decimal(s.missed as nat) + " · Skipped: "@ + decimal(s.skipped as nat),
        ] + (if s.swaps_given > 0 || s.swaps_taken > 0 {
            seq![
                "Swaps: given "@ + decimal(s.swaps_given as nat) + " · taken "@ + decimal(
                    s.swaps_taken as nat,
                ),
            ]
        } else {
            Seq::empty()
        }) + recent_lines(state, recent_marks(state, s.person_id@)),
        "\n"@,
    )
}

/// Places of marks are places of the list.
pub open spec fn placed(marks: Seq<Recent>, n: nat) -> bool {
    forall|i: int| 0 <= i < marks.len() ==> (#[trigger] marks[i]).place < n
}

/// Lists the marks that somebody made, the latest first.
fn list_marks(state: &State, person_id: &str) -> (r: Vec<Recent>)
    ensures
        r@ == recent_marks(*state, person_id@),
        placed(r@, state.completions@.len()),
{
    let all = &state.completions;
    let mut list: Vec<Recent> = Vec::new();
    let mut i: usize = 0;
    assert(all@.take(0) =~= Seq::<Completion>::empty());
    while i < all.len()
        invariant
            i <= all.len(),
            all == &state.completions,
            list@ == marks_by(all@.take(i as int), person_id@),
            placed(list@, all@.len()),
        decreases all.len() - i,
    {
        proof {
            assert(all@.take(i + 1).drop_last() =~= all@.take(i as int));
            assert(all@.take(i + 1).last() == all@[i as int]);
        }
        if same_text(all[i].completed_by_id.as_str(), person_id) {
            list.push(Recent { at: all[i].completed_at, place: i });
        }
        i += 1;
    }
    assert(all@.take(i as int) =~= all@);
    let ghost before = list@;
    let r = sort(list);
    proof {
        lemma_sorted(before);
        assert forall|k: int| 0 <= k < r@.len() implies (#[trigger] r@[k]).place
            < state.completions@.len() by {
            assert(r@.to_multiset() == before.to_multiset());
            vstd::seq_lib::to_multiset_contains(r@, r@[k]);
            vstd::seq_lib::to_multiset_contains(before, r@[k]);
        }
    }
    r
}

/// The lines about marks.
fn show_marks(state: &State, marks: &Vec<Recent>) -> (r: Vec<String>)
    requires
        state.dated(),
        placed(marks@, state.completions@.len()),
    ensures
        views(r@) == recent_lines(*state, marks@),
{
    let mut r: Vec<String> = Vec::new();
    assert(views(r@) =~= Seq::<Seq<char>>::empty());
    if marks.len() == 0 {
        assert(views(r@) =~= recent_lines(*state, marks@));
        return r;
    }
    let last = &state.completions[marks[0].place];
    assert(marked_turn(*last).wf());
    let line = "Last: week ".to_owned().concat(show(last.iso_week as u64).as_str()).concat(
        " (",
    ).concat(week_dates(last.iso_year, last.iso_week).as_str()).concat(")");
    put_text(&mut r, line);
    if marks.len() == 1 {
        assert(views(r@) =~= recent_lines(*state, marks@));
        return r;
    }
    put_text(&mut r, "Recent:".to_owned());
    let ghost head = seq![line@, "Recent:"@];
    let ghost all = Seq::new(
        if marks@.len() < MARKS_SHOWN {
            marks@.len()
        } else {
            MARKS_SHOWN as nat
        },
        |i: int| recent_line(*state, marks@[i]),
    );
    let mut i: usize = 0;
    assert(views(r@) =~= head + all.take(0));
    while i < marks.len() && i < MARKS_SHOWN
        invariant
            i <= marks.len(),
            i <= MARKS_SHOWN,
            state.dated(),
            placed(marks@, state.completions@.len()),
            all == Seq::new(
                if marks@.len() < MARKS_SHOWN {
                    marks@.len()
                } else {
                    MARKS_SHOWN as nat
                },
                |i: int| recent_line(*state, marks@[i]),
            ),
            views(r@) == head + all.take(i as int),
        decreases marks.len() - i,
    {
        let c = &state.completions[marks[i].place];
        assert(marked_turn(*c).wf());
        let name: String = match state.group_by_id(c.group_id.as_str()) {
            Some(g) => g.name.clone(),
            None => "?".to_owned(),
        };
        let line = "  • ".to_owned().concat(name.as_str()).concat(" · week ").concat(
            show(c.iso_week as u64).as_str(),
        ).concat(" (").concat(week_dates(c.iso_year, c.iso_week).as_str()).concat(")");
        assert(head + all.take(i + 1) =~= (head + all.take(i as int)).push(line@));
        put_text(&mut r, line);
        i += 1;
    }
    assert(all.take(i as int) =~= all);
    assert(head + all =~= recent_lines(*state, marks@));
    r
}

/// The statistics of a person in words; `percent` is the share of own turns that were cleaned.
pub fn person_stats_text(state: &State, s: &PersonStats, percent: u32, today: Date) -> (r: String)
    requires
        known(*state, today),
        state.dated(),
    ensures
        r@ == person_card(*state, *s, percent, today),
{
    proof {
        lemma_today(today.day as int);
    }
    let start = state.tracking_start(today);
    let streak: String = if s.streak >= 2 {
        " 🔥".to_owned().concat(show(s.streak as u64).as_str())
    } else {
        "".to_owned()
    };
    let title = "📊 **Stats** · ".to_owned().concat(s.display_name.as_str()).concat(
        " · since W",
    ).concat(show(start.1 as u64).as_str()).concat(" (").concat(
        week_dates(start.0, start.1).as_str(),
    ).concat(")");
    let groups = "Group: ".to_owned().concat(s.group_names.as_str()).concat(" · ").concat(
        show(s.completed as u64).as_str(),
    ).concat("/").concat(show(s.due_weeks as u64).as_str()).concat(" (").concat(
        show(percent as u64).as_str(),
    ).concat("%)").concat(streak.as_str());
    let missed = "Missed: ".to_owned().concat(show(s.missed as u64).as_str()).concat(
        " · Skipped: ",
    ).concat(show(s.skipped as u64).as_str());
    let mut lines: Vec<String> = Vec::new();
    assert(views(lines@) =~= Seq::<Seq<char>>::empty());
    let ghost head = seq![title@, groups@, missed@];
    put_text(&mut lines, title);
    put_text(&mut lines, groups);
    put_text(&mut lines, missed);
    assert(views(lines@) =~= head);
    if s.swaps_given > 0 || s.swaps_taken > 0 {
        let swaps = "Swaps: given ".to_owned().concat(show(s.swaps_given as u64).as_str()).concat(
            " · taken ",
        ).concat(show(s.swaps_taken as u64).as_str());
        put_text(&mut lines, swaps);
        assert(views(lines@) =~= head + seq![swaps@]);
    } else {
        assert(views(lines@) =~= head + Seq::<Seq<char>>::empty());
    }
    let marks = list_marks(state, s.person_id.as_str());
    let more = show_marks(state, &marks);
    put_texts(&mut lines, &more);
    join_texts(&lines, "\n")
}

// ── !stats ───────────────────────────────────────────────────────────────────

/// What `!stats` asks for.
#[derive(Clone, Debug)]
pub enum StatsRequest {
    /// The leaderboard and the groups.
    Board,
    /// How fairly the groups, or the named one, share the work.
    Fairness(Option<String>),
    /// How much the groups ask of everybody.
    Load,
    /// The record of a group, and how fairly it shares the work.
    Group(String),
    /// The statistics of a person.
    Person(String),
}

/// What `!stats` asks for.
pub open spec fn asks_stats(r: StatsRequest, state: State, args: Seq<String>) -> bool {
    if args.len() == 0 {
        r is Board
    } else if lowered(args[0]@) == "fairness"@ {
        r == StatsRequest::Fairness(
            if args.len() > 1 {
                Some(args[1])
            } else {
                None
            },
        )
    } else if lowered(args[0]@) == "load"@ {
        r is Load
    } else {
        let query = join(views(args), " "@);
        if state.group_of_name(query) is Some {
            r is Group && r->Group_0@ == query
        } else {
            r is Person && r->Person_0@ == query
        }
    }
}

/// Reads what `!stats` asks for.
pub fn cmd_stats_overview(state: &State, args: &Vec<String>) -> (r: StatsRequest)
    ensures
        asks_stats(r, *state, args@),
{
    if args.len() == 0 {
        return StatsRequest::Board;
    }
    let sub = to_lower(args[0].as_str());
    if same_text(sub.as_str(), "fairness") {
        return StatsRequest::Fairness(
            if args.len() > 1 {
                Some(args[1].clone())
            } else {
                None
            },
        );
    }
    if same_text(sub.as_str(), "load") {
        return StatsRequest::Load;
    }
    let query = join_texts(args, " ");
    match state.group_by_name(query.as_str()) {
        Some(_) => StatsRequest::Group(query),
        None => StatsRequest::Person(query),
    }
}

/// The statistics of somebody who is named, or why there are none.
pub fn cmd_stats(state: &State, query: &str, today: Date) -> (r: Result<PersonStats, String>)
    requires
        state.dated(),
    ensures
        match state.person_named(query@) {
            None => r is Err && r->Err_0@ == "Person «"@ + query@ + "» not found."@,
            Some(p) => if state.person(p.id@) is Some && active_groups_of(*state, p.id@).len() > 0 {
                r is Ok && is_stats_of(r->Ok_0, *state, p.id@, today)
            } else {
                r is Err && r->Err_0@ == query@ + " is not in any cleaning group."@
            },
        },
{
    match state.find_person(query) {
        None => Err("Person «".to_owned().concat(query).concat("» not found.")),
        Some(p) => match person_stats_at(state, p.id.as_str(), today) {
            Some(s) => Ok(s),
            None => Err(query.to_owned().concat(" is not in any cleaning group.")),
        },
    }
}

// ── !stats fairness ──────────────────────────────────────────────────────────

/// The ids of groups.
pub open spec fn ids_of(groups: Seq<CleaningGroup>) -> Seq<Seq<char>> {
    groups.map_values(|g: CleaningGroup| g.id@)
}

/// The groups whose fairness is asked for, or why there are none.
pub open spec fn fairness_of(state: State, name: Option<String>) -> Result<Seq<Seq<char>>, Seq<char>> {
    match name {
        Some(n) => match state.group_of_name(n@) {
            Some(g) => Ok(seq![g.id@]),
            None => Err("Group «"@ + n@ + "» not found."@),
        },
        None => if state.cleaning_groups@.filter(active()).len() == 0 {
            Err("No cleaning groups configured yet."@)
        } else {
            Ok(ids_of(state.cleaning_groups@.filter(active())))
        },
    }
}

/// The groups whose fairness is asked for, or why there are none.
pub fn fairness_groups(state: &State, name: &Option<String>) -> (r: Result<Vec<String>, String>)
    ensures
        match fairness_of(*state, *name) {
            Ok(ids) => r is Ok && views(r->Ok_0@) == ids,
            Err(t) => r is Err && r->Err_0@ == t,
        },
{
    let mut ids: Vec<String> = Vec::new();
    assert(views(ids@) =~= Seq::<Seq<char>>::empty());
    match name {
        Some(n) => match state.group_by_name(n.as_str()) {
            Some(g) => {
                put_text(&mut ids, g.id.clone());
                assert(views(ids@) =~= seq![g.id@]);
                Ok(ids)
            },
            None => Err("Group «".to_owned().concat(n.as_str()).concat("» not found.")),
        },
        None => {
            let groups = &state.cleaning_groups;
            let mut i: usize = 0;
            proof {
                assert(groups@.take(0).filter(active()) =~= Seq::<CleaningGroup>::empty()) by {
                    reveal(Seq::filter);
                }
                assert(views(ids@) =~= ids_of(groups@.take(0).filter(active())));
            }
            while i < groups.len()
                invariant
                    i <= groups.len(),
                    groups == &state.cleaning_groups,
                    views(ids@) == ids_of(groups@.take(i as int).filter(active())),
                decreases groups.len() - i,
            {
                proof {
                    lemma_filter_step(groups@, active(), i as int);
                }
                if groups[i].is_active {
                    let ghost before = groups@.take(i as int).filter(active());
                    assert(ids_of(before.push(groups@[i as int])) =~= ids_of(before).push(
                        groups@[i as int].id@,
                    ));
                    put_text(&mut ids, groups[i].id.clone());
                }
                i += 1;
            }
            assert(groups@.take(i as int) =~= groups@);
            assert(views(ids@).len() == ids@.len());
            if ids.len() == 0 {
                Err("No cleaning groups configured yet.".to_owned())
            } else {
                Ok(ids)
            }
        },
    }
}

/// How much somebody did of what they owe, as it is shown.
#[derive(Clone, Debug)]
pub struct FairnessRow {
    pub icon: String,
    pub name: String,
    pub actual: usize,
    pub expected: u64,
    /// "+20%".
    pub delta: String,
}

/// How fairly a group shares the work, as it is shown.
#[derive(Clone, Debug)]
pub struct FairnessPart {
    pub group_name: String,
    pub turns: usize,
    pub rows: Vec<FairnessRow>,
    pub score: u64,
}

/// The line about somebody.
pub open spec fn fairness_line(r: FairnessRow) -> Seq<char> {
    r.icon@ + " **"@ + r.name@ + "**  "@ + decimal(r.actual as nat) + "/"@ + decimal(
        r.expected as nat,
    ) + " ("@ + r.delta@ + ")"@
}

/// The lines about a group.
pub open spec fn fairness_lines(p: FairnessPart, start_week: u32) -> Seq<Seq<char>> {
    seq![
        "⚖️ **"@ + p.group_name@ + "** · "@ + decimal(p.turns as nat) + " turns · since W"@
            + decimal(start_week as nat),
    ] + p.rows@.map_values(|r: FairnessRow| fairness_line(r)) + seq![
        "Score "@ + decimal(p.score as nat) + "/100"@,
    ]
}

/// The lines about groups; those without members are left out.
pub open spec fn all_fairness_lines(parts: Seq<Option<FairnessPart>>, start_week: u32) -> Seq<Seq<char>>
    decreases parts.len(),
{
    if parts.len() == 0 {
        Seq::empty()
    } else {
        let r = all_fairness_lines(parts.drop_last(), start_week);
        match parts.last() {
            Some(p) => (if parts.len() > 1 {
                r.push(""@)
            } else {
                r
            }) + fairness_lines(p, start_week),
            None => r,
        }
    }
}

/// How fairly groups share the work, in words.
pub open spec fn fairness_words(parts: Seq<Option<FairnessPart>>, start_week: u32) -> Seq<char> {
    let lines = all_fairness_lines(parts, start_week);
    if lines.len() == 0 {
        "No history yet — run some cleaning cycles first."@
    } else {
        join(lines, "\n"@)
    }
}

/// The lines about a group.
fn show_fairness(p: &FairnessPart, start_week: u32) -> (r: Vec<String>)
    ensures
        views(r@) == fairness_lines(*p, start_week),
{
    let title = "⚖️ **".to_owned().concat(p.group_name.as_str()).concat("** · ").concat(
        show(p.turns as u64).as_str(),
    ).concat(" turns · since W").concat(show(start_week as u64).as_str());
    let mut r: Vec<String> = Vec::new();
    assert(views(r@) =~= Seq::<Seq<char>>::empty());
    put_text(&mut r, title);
    let ghost head = seq![title@];
    let ghost all = p.rows@.map_values(|r: FairnessRow| fairness_line(r));
    let mut i: usize = 0;
    assert(views(r@) =~= head + all.take(0));
    while i < p.rows.len()
        invariant
            i <= p.rows.len(),
            all == p.rows@.map_values(|r: FairnessRow| fairness_line(r)),
            views(r@) == head + all.take(i as int),
        decreases p.rows.len() - i,
    {
        let row = &p.rows[i];
        let line = row.icon.clone().concat(" **").concat(row.name.as_str()).concat("**  ").concat(
            show(row.actual as u64).as_str(),
        ).concat("/").concat(show(row.expected).as_str()).concat(" (").concat(
            row.delta.as_str(),
        ).concat(")");
        assert(head + all.take(i + 1) =~= (head + all.take(i as int)).push(line@));
        put_text(&mut r, line);
        i += 1;
    }
    assert(all.take(i as int) =~= all);
    let score = "Score ".to_owned().concat(show(p.score).as_str()).concat("/100");
    put_text(&mut r, score);
    assert(views(r@) =~= fairness_lines(*p, start_week));
    r
}

/// How fairly groups share the work, in words.
pub fn fairness_text(parts: &Vec<Option<FairnessPart>>, start_week: u32) -> (r: String)
    ensures
        r@ == fairness_words(parts@, start_week),
{
    let mut lines: Vec<String> = Vec::new();
    let mut i: usize = 0;
    proof {
        assert(views(lines@) =~= Seq::<Seq<char>>::empty());
        assert(parts@.take(0) =~= Seq::<Option<FairnessPart>>::empty());
    }
    while i < parts.len()
        invariant
            i <= parts.len(),
            views(lines@) == all_fairness_lines(parts@.take(i as int), start_week),
        decreases parts.len() - i,
    {
        proof {
            assert(parts@.take(i + 1).drop_last() =~= parts@.take(i as int));
            assert(parts@.take(i + 1).last() == parts@[i as int]);
        }
        match &parts[i] {
            Some(p) => {
                if i > 0 {
                    put_text(&mut lines, "".to_owned());
                }
                let more = show_fairness(p, start_week);
                put_texts(&mut lines, &more);
            },
            None => {},
        }
        i += 1;
    }
    assert(parts@.take(i as int) =~= parts@);
    assert(views(lines@).len() == lines@.len());
    if lines.len() == 0 {
        "No history yet — run some cleaning cycles first.".to_owned()
    } else {
        join_texts(&lines, "\n")
    }
}

/// Two texts with an empty line between them; the first alone when the second is empty.
pub fn pages(first: &str, second: &str) -> (r: String)
    ensures
        r@ == if second@ == ""@ {
            first@
        } else {
            first@ + "\n\n"@ + second@
        },
{
    if same_text(second, "") {
        first.to_owned()
    } else {
        first.to_owned().concat("\n\n").concat(second)
    }
}

} // verus!
