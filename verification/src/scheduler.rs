//! What is posted by the clock: the plan of the week, and reminders of its turns.

use vstd::prelude::*;

use crate::calendar::{
    is_day, is_today, is_year, lemma_whole_week, planning_day, week_at, week_dates, week_of, week_start,
    week_text, weekday, weekday_of, Date,
};
use crate::domain::{CleaningGroup, Person};
use crate::ids::{is_event_id, reads_as_event_id};
use crate::lists::{find, lemma_filter, lemma_filter_step, lemma_first_index, retain, some};
use crate::rhythm::Turn;
use crate::sorting::{lemma_sorted, lemma_text_before, sort, sorted, text_before, Ranked};
use crate::state::{
    entry_under, lookup, reminder_of, value_under, Entry, PlanEvent, ReminderKind, State,
};
use crate::text::{
    chars_of, decimal, find_char, first_at, join, join_texts, lemma_views_push, parse_up_to,
    parsed_up_to, replace_char, replaced, same_text, show, show_signed, show_two, signed_decimal,
    text_of, two_digits, views,
};

verus! {

// ── Texts ────────────────────────────────────────────────────────────────────

/// The key of a week: "2024-W05".
pub open spec fn key_text(year: int, week: int) -> Seq<char> {
    signed_decimal(year) + "-W"@ + two_digits(week as nat)
}

/// The key of a week.
pub fn week_key(year: i32, week: u32) -> (r: String)
    ensures
        r@ == key_text(year as int, week as int),
{
    show_signed(year as i64).concat("-W").concat(show_two(week as u64).as_str())
}

/// How someone is mentioned: by Matrix id, or by name when there is none.
pub open spec fn label(p: Person) -> Seq<char> {
    match p.matrix_id {
        Some(m) => m@,
        None => p.display_name@,
    }
}

/// How someone is mentioned.
pub fn person_label(p: &Person) -> (r: &str)
    ensures
        r@ == label(*p),
{
    match &p.matrix_id {
        Some(m) => m.as_str(),
        None => p.display_name.as_str(),
    }
}

/// The sign of a slot that is done or open.
pub open spec fn icon(done: bool) -> Seq<char> {
    if done {
        "✅"@
    } else {
        "⬜"@
    }
}

/// The sign of a slot that is done or open.
pub fn status_icon(done: bool) -> (r: &'static str)
    ensures
        r@ == icon(done),
{
    if done {
        "✅"
    } else {
        "⬜"
    }
}

/// What is added to the name of someone who is away.
pub open spec fn away_text(away: bool) -> Seq<char> {
    if away {
        " (🌴 away)"@
    } else {
        ""@
    }
}

/// What is added to the name of someone who is away from a group in a week. An assignment that is
/// frozen stays as it is: this shows that somebody else is expected to step in.
pub fn away_suffix(state: &State, person_id: &str, group_id: &str, year: i32, week: u32) -> (r:
    &'static str)
    requires
        state.wf(),
        is_year(year as int),
    ensures
        r@ == away_text(state.away(person_id@, group_id@, year, week)),
{
    if state.is_absent(person_id, group_id, year, week) {
        " (🌴 away)"
    } else {
        ""
    }
}

/// The rooms of a slot, or of a group without slots, as they end a line.
pub open spec fn rooms_part(group: CleaningGroup, i: int) -> Seq<char> {
    if i < group.slots@.len() {
        if group.slots@[i].room_names@.len() > 0 {
            " · "@ + join(views(group.slots@[i].room_names@), ", "@)
        } else {
            ""@
        }
    } else {
        match group.rooms_line() {
            Some(rooms) => " · "@ + replaced(rooms, '\n', " · "@),
            None => ""@,
        }
    }
}

/// The rooms of a slot, or of a group without slots, as they end a line.
fn rooms_suffix(group: &CleaningGroup, i: usize) -> (r: String)
    ensures
        r@ == rooms_part(*group, i as int),
{
    if i < group.slots.len() {
        let slot = &group.slots[i];
        if slot.room_names.len() > 0 {
            " · ".to_owned().concat(join_texts(&slot.room_names, ", ").as_str())
        } else {
            "".to_owned()
        }
    } else {
        match group.rooms_text() {
            Some(rooms) => " · ".to_owned().concat(
                replace_char(rooms.as_str(), '\n', " · ").as_str(),
            ),
            None => "".to_owned(),
        }
    }
}

/// The name of a slot as it stands before the name of a person.
pub open spec fn slot_part(group: CleaningGroup, i: int) -> Seq<char> {
    if i < group.slots@.len() {
        group.slots@[i].name@ + " · "@
    } else {
        ""@
    }
}

/// The days of a turn as they start a line, for groups whose weeks are split.
pub open spec fn shift_part(group: CleaningGroup, turn: Turn) -> Seq<char> {
    match turn.shift_text(group.rhythm) {
        Some(t) => t + " · "@,
        None => ""@,
    }
}

/// The line of one slot of a turn in a plan or a reminder.
pub open spec fn slot_line(state: State, group: CleaningGroup, turn: Turn, i: int, today: Date) -> Seq<
    char,
> {
    let shift = shift_part(group, turn);
    let rooms = rooms_part(group, i);
    let mark = state.completion(group, i, turn);
    match state.assignee(group, i, turn, today) {
        None => icon(mark is Some) + " "@ + shift + (if i < group.slots@.len() {
            group.slots@[i].name@
        } else {
            "nobody assigned"@
        }) + rooms,
        Some(p) => match mark {
            Some(c) => if c.skipped {
                "⏭️ "@ + shift + slot_part(group, i) + label(p) + " · skipped"@ + rooms
            } else {
                "✅ "@ + shift + label(p) + " · cleaned"@ + rooms
            },
            None => "⬜ "@ + shift + slot_part(group, i) + label(p) + away_text(
                state.away(p.id@, group.id@, turn.year, turn.week),
            ) + rooms,
        },
    }
}

/// A line about one slot, and the Matrix id of whoever it mentions.
#[derive(Clone, Debug)]
pub struct SlotLine {
    pub text: String,
    pub mxid: Option<String>,
}

/// The Matrix id of whoever is responsible for one slot of a turn.
pub open spec fn slot_mxid(state: State, group: CleaningGroup, turn: Turn, i: int, today: Date) -> Option<
    String,
> {
    match state.assignee(group, i, turn, today) {
        Some(p) => p.matrix_id,
        None => None,
    }
}

/// The lines of the first `n` slots of a turn; slots that are done only where `with_done` asks
/// for them.
pub open spec fn turn_entries(
    state: State,
    group: CleaningGroup,
    turn: Turn,
    today: Date,
    with_done: bool,
    n: nat,
) -> Seq<(Seq<char>, Option<String>)>
    decreases n,
{
    if n == 0 {
        Seq::empty()
    } else {
        let r = turn_entries(state, group, turn, today, with_done, (n - 1) as nat);
        if with_done || !state.slot_done(group, n - 1, turn) {
            r.push(
                (
                    slot_line(state, group, turn, n - 1, today),
                    slot_mxid(state, group, turn, n - 1, today),
                ),
            )
        } else {
            r
        }
    }
}

/// Lines as text and Matrix id.
pub open spec fn entries(lines: Seq<SlotLine>) -> Seq<(Seq<char>, Option<String>)> {
    lines.map_values(|l: SlotLine| (l.text@, l.mxid))
}

/// One line per slot of a turn, with the Matrix id of whoever it mentions.
pub fn turn_lines(
    state: &State,
    group: &CleaningGroup,
    turn: Turn,
    today: Date,
    with_done: bool,
) -> (r: Vec<SlotLine>)
    requires
        state.wf(),
        today.in_week(),
        turn.wf(),
    ensures
        entries(r@) == turn_entries(*state, *group, turn, today, with_done, group.slot_count()),
{
    let shift: String = match turn.shift_label(&group.rhythm) {
        Some(t) => t.concat(" · "),
        None => "".to_owned(),
    };
    let n = group.people_per_turn();
    let mut r: Vec<SlotLine> = Vec::new();
    let mut i: usize = 0;
    assert(entries(r@) =~= Seq::<(Seq<char>, Option<String>)>::empty());
    while i < n
        invariant
            i <= n,
            n == group.slot_count(),
            state.wf(),
            today.in_week(),
            turn.wf(),
            shift@ == shift_part(*group, turn),
            entries(r@) == turn_entries(*state, *group, turn, today, with_done, i as nat),
        decreases n - i,
    {
        let assignee = state.slot_assignee_at(group, i, turn, today);
        let rooms = rooms_suffix(group, i);
        let mark = state.completion_for(group, i, turn);
        if mark.is_none() || with_done {
            let slot_name: String = if i < group.slots.len() {
                group.slots[i].name.as_str().to_owned().concat(" · ")
            } else {
                "".to_owned()
            };
            let text: String = match assignee {
                None => status_icon(mark.is_some()).to_owned().concat(" ").concat(
                    shift.as_str(),
                ).concat(
                    if i < group.slots.len() {
                        group.slots[i].name.as_str()
                    } else {
                        "nobody assigned"
                    },
                ).concat(rooms.as_str()),
                Some(p) => match mark {
                    Some(c) => if c.skipped {
                        "⏭️ ".to_owned().concat(shift.as_str()).concat(slot_name.as_str()).concat(
                            person_label(p),
                        ).concat(" · skipped").concat(rooms.as_str())
                    } else {
                        "✅ ".to_owned().concat(shift.as_str()).concat(person_label(p)).concat(
                            " · cleaned",
                        ).concat(rooms.as_str())
                    },
                    None => "⬜ ".to_owned().concat(shift.as_str()).concat(
                        slot_name.as_str(),
                    ).concat(person_label(p)).concat(
                        away_suffix(
                            state,
                            p.id.as_str(),
                            group.id.as_str(),
                            turn.year,
                            turn.week,
                        ),
                    ).concat(rooms.as_str()),
                },
            };
            let mxid: Option<String> = match assignee {
                Some(p) => p.matrix_id.clone(),
                None => None,
            };
            let line = SlotLine { text, mxid };
            proof {
                assert(line.text@ == slot_line(*state, *group, turn, i as int, today));
                assert(entries(r@.push(line)) =~= entries(r@).push((line.text@, line.mxid)));
            }
            r.push(line);
        }
        i += 1;
    }
    r
}

// ── The plan of a week ───────────────────────────────────────────────────────

/// The texts of lines.
pub open spec fn texts(e: Seq<(Seq<char>, Option<String>)>) -> Seq<Seq<char>> {
    e.map_values(|x: (Seq<char>, Option<String>)| x.0)
}

/// The Matrix ids that lines mention, in the order of the lines.
pub open spec fn mentions(e: Seq<(Seq<char>, Option<String>)>) -> Seq<String>
    decreases e.len(),
{
    if e.len() == 0 {
        Seq::empty()
    } else {
        match e.last().1 {
            Some(m) => mentions(e.drop_last()).push(m),
            None => mentions(e.drop_last()),
        }
    }
}

/// A heading, the lines below it, and an empty line.
pub open spec fn section(name: Seq<char>, e: Seq<(Seq<char>, Option<String>)>) -> Seq<Seq<char>> {
    seq!["**"@ + name + "**"@] + texts(e) + seq![""@]
}

/// The mentions of lines that follow each other.
proof fn lemma_mentions(a: Seq<(Seq<char>, Option<String>)>, b: Seq<(Seq<char>, Option<String>)>)
    ensures
        mentions(a + b) == mentions(a) + mentions(b),
    decreases b.len(),
{
    if b.len() == 0 {
        assert(a + b =~= a);
        assert(mentions(a) + mentions(b) =~= mentions(a));
    } else {
        lemma_mentions(a, b.drop_last());
        assert((a + b).drop_last() =~= a + b.drop_last());
        assert((a + b).last() == b.last());
        match b.last().1 {
            Some(m) => {
                assert((mentions(a) + mentions(b.drop_last())).push(m) =~= mentions(a) + mentions(
                    b,
                ));
            },
            None => {},
        }
    }
}

/// Adds a heading and the lines below it to a message, and whom they mention to its mentions.
fn add_section(lines: &mut Vec<String>, mxids: &mut Vec<String>, name: &str, more: &Vec<SlotLine>)
    ensures
        views(final(lines)@) == views(old(lines)@) + section(name@, entries(more@)),
        final(mxids)@ == old(mxids)@ + mentions(entries(more@)),
{
    let ghost e = entries(more@);
    let heading = "**".to_owned().concat(name).concat("**");
    proof {
        lemma_views_push(lines@, heading);
        assert(e.take(0) =~= Seq::<(Seq<char>, Option<String>)>::empty());
        assert(texts(e.take(0)) =~= Seq::<Seq<char>>::empty());
    }
    lines.push(heading);
    assert(views(lines@) =~= views(old(lines)@) + (seq!["**"@ + name@ + "**"@] + texts(e.take(0))));
    assert(mxids@ =~= old(mxids)@ + mentions(e.take(0)));
    let mut i: usize = 0;
    while i < more.len()
        invariant
            i <= more.len(),
            e == entries(more@),
            views(lines@) == views(old(lines)@) + (seq!["**"@ + name@ + "**"@] + texts(
                e.take(i as int),
            )),
            mxids@ == old(mxids)@ + mentions(e.take(i as int)),
        decreases more.len() - i,
    {
        let text = more[i].text.clone();
        proof {
            assert(e[i as int] == (more@[i as int].text@, more@[i as int].mxid));
            assert(e.take(i + 1).drop_last() =~= e.take(i as int));
            assert(e.take(i + 1).last() == e[i as int]);
            assert(texts(e.take(i + 1)) =~= texts(e.take(i as int)).push(text@));
            lemma_views_push(lines@, text);
            assert(views(lines@).push(text@) =~= views(old(lines)@) + (seq![
                "**"@ + name@ + "**"@,
            ] + texts(e.take(i + 1))));
        }
        lines.push(text);
        match &more[i].mxid {
            Some(m) => {
                let ghost before = mxids@;
                mxids.push(m.clone());
                assert(mxids@ =~= old(mxids)@ + mentions(e.take(i + 1)));
            },
            None => {},
        }
        i += 1;
    }
    assert(e.take(i as int) =~= e);
    let blank = "".to_owned();
    proof {
        lemma_views_push(lines@, blank);
    }
    lines.push(blank);
    assert(views(lines@) =~= views(old(lines)@) + section(name@, e));
}

/// A list without repetitions next to each other.
pub open spec fn deduped(s: Seq<String>) -> Seq<String>
    decreases s.len(),
{
    if s.len() == 0 {
        Seq::empty()
    } else {
        let r = deduped(s.drop_last());
        if r.len() > 0 && r.last()@ == s.last()@ {
            r
        } else {
            r.push(s.last())
        }
    }
}

/// Whoever is mentioned, in order and once each.
pub open spec fn mention_list(s: Seq<String>) -> Seq<String> {
    deduped(sorted(s))
}

/// Puts mentions in order and leaves out repetitions.
pub fn tidy_mentions(list: Vec<String>) -> (r: Vec<String>)
    ensures
        r@ == mention_list(list@),
{
    let list = sort(list);
    let mut r: Vec<String> = Vec::new();
    let mut i: usize = 0;
    assert(list@.take(0) =~= Seq::<String>::empty());
    while i < list.len()
        invariant
            i <= list.len(),
            r@ == deduped(list@.take(i as int)),
        decreases list.len() - i,
    {
        proof {
            assert(list@.take(i + 1).drop_last() =~= list@.take(i as int));
            assert(list@.take(i + 1).last() == list@[i as int]);
        }
        let repeated = r.len() > 0 && same_text(r[r.len() - 1].as_str(), list[i].as_str());
        if !repeated {
            r.push(list[i].clone());
        }
        i += 1;
    }
    assert(list@.take(i as int) =~= list@);
    r
}

/// A message, and whom it mentions.
#[derive(Clone, Debug)]
pub struct Message {
    pub text: String,
    pub mxids: Vec<String>,
}

/// The lines of the turns of a group.
pub open spec fn turns_entries(
    state: State,
    group: CleaningGroup,
    turns: Seq<Turn>,
    today: Date,
    with_done: bool,
) -> Seq<(Seq<char>, Option<String>)>
    decreases turns.len(),
{
    if turns.len() == 0 {
        Seq::empty()
    } else {
        turns_entries(state, group, turns.drop_last(), today, with_done) + turn_entries(
            state,
            group,
            turns.last(),
            today,
            with_done,
            group.slot_count(),
        )
    }
}

/// The lines of a group in the plan of a week.
pub open spec fn group_entries(state: State, group: CleaningGroup, year: i32, week: u32, today: Date) -> Seq<
    (Seq<char>, Option<String>),
> {
    turns_entries(state, group, state.week_turns(group, today, year, week), today, true)
}

/// The sections of groups in the plan of a week.
pub open spec fn plan_sections(
    state: State,
    groups: Seq<CleaningGroup>,
    year: i32,
    week: u32,
    today: Date,
) -> Seq<Seq<char>>
    decreases groups.len(),
{
    if groups.len() == 0 {
        Seq::empty()
    } else {
        plan_sections(state, groups.drop_last(), year, week, today) + section(
            groups.last().name@,
            group_entries(state, groups.last(), year, week, today),
        )
    }
}

/// Whom the plan of a week mentions.
pub open spec fn plan_mentions(
    state: State,
    groups: Seq<CleaningGroup>,
    year: i32,
    week: u32,
    today: Date,
) -> Seq<String>
    decreases groups.len(),
{
    if groups.len() == 0 {
        Seq::empty()
    } else {
        plan_mentions(state, groups.drop_last(), year, week, today) + mentions(
            group_entries(state, groups.last(), year, week, today),
        )
    }
}

/// The plan of a week for some groups.
pub open spec fn plan_text(
    state: State,
    groups: Seq<CleaningGroup>,
    year: i32,
    week: u32,
    today: Date,
) -> Seq<char> {
    join(
        seq![
            "🧹 **Week "@ + decimal(week as nat) + " · "@ + week_text(year as int, week as int)
                + "**"@,
            "React ✅ when your part is done."@,
            ""@,
        ] + plan_sections(state, groups, year, week, today),
        "\n"@,
    )
}

/// What references to groups point to.
pub open spec fn pointed(groups: Seq<&CleaningGroup>) -> Seq<CleaningGroup> {
    groups.map_values(|g: &CleaningGroup| *g)
}

/// The lines of the turns of a group, one turn after the other.
fn lines_of_turns(
    state: &State,
    group: &CleaningGroup,
    turns: &Vec<Turn>,
    today: Date,
    with_done: bool,
) -> (r: Vec<SlotLine>)
    requires
        state.wf(),
        today.in_week(),
        forall|i: int| 0 <= i < turns@.len() ==> (#[trigger] turns@[i]).wf(),
    ensures
        entries(r@) == turns_entries(*state, *group, turns@, today, with_done),
{
    let mut r: Vec<SlotLine> = Vec::new();
    let mut i: usize = 0;
    assert(turns@.take(0) =~= Seq::<Turn>::empty());
    assert(entries(r@) =~= Seq::<(Seq<char>, Option<String>)>::empty());
    while i < turns.len()
        invariant
            i <= turns.len(),
            state.wf(),
            today.in_week(),
            forall|k: int| 0 <= k < turns@.len() ==> (#[trigger] turns@[k]).wf(),
            entries(r@) == turns_entries(*state, *group, turns@.take(i as int), today, with_done),
        decreases turns.len() - i,
    {
        let mut more = turn_lines(state, group, turns[i], today, with_done);
        proof {
            assert(turns@.take(i + 1).drop_last() =~= turns@.take(i as int));
            assert(turns@.take(i + 1).last() == turns@[i as int]);
            assert(entries(r@ + more@) =~= entries(r@) + entries(more@));
        }
        r.append(&mut more);
        i += 1;
    }
    assert(turns@.take(i as int) =~= turns@);
    r
}

/// Whether a week can be represented.
pub open spec fn plan_fits(state: State, year: i32, week: u32, today: Date) -> bool {
    &&& state.wf()
    &&& today.in_week()
    &&& is_year(year as int)
    &&& is_day(week_start(year as int, week as int) + 6)
}

/// The plan of a week for some groups, and whom it mentions.
pub fn build_weekly_plan(
    state: &State,
    year: i32,
    week: u32,
    groups: &Vec<&CleaningGroup>,
    today: Date,
) -> (r: Message)
    requires
        plan_fits(*state, year, week, today),
    ensures
        r.text@ == plan_text(*state, pointed(groups@), year, week, today),
        r.mxids@ == mention_list(plan_mentions(*state, pointed(groups@), year, week, today)),
{
    let ghost list = pointed(groups@);
    let mut lines: Vec<String> = Vec::new();
    let title = "🧹 **Week ".to_owned().concat(show(week as u64).as_str()).concat(" · ").concat(
        week_dates(year, week).as_str(),
    ).concat("**");
    lines.push(title);
    lines.push("React ✅ when your part is done.".to_owned());
    lines.push("".to_owned());
    let mut mxids: Vec<String> = Vec::new();
    let ghost head = seq![
        "🧹 **Week "@ + decimal(week as nat) + " · "@ + week_text(year as int, week as int)
            + "**"@,
        "React ✅ when your part is done."@,
        ""@,
    ];
    assert(list.take(0) =~= Seq::<CleaningGroup>::empty());
    assert(views(lines@) =~= head + plan_sections(*state, list.take(0), year, week, today));
    let mut i: usize = 0;
    while i < groups.len()
        invariant
            i <= groups.len(),
            list == pointed(groups@),
            plan_fits(*state, year, week, today),
            views(lines@) == head + plan_sections(*state, list.take(i as int), year, week, today),
            mxids@ == plan_mentions(*state, list.take(i as int), year, week, today),
        decreases groups.len() - i,
    {
        let group = groups[i];
        assert(list[i as int] == *group);
        let turns = state.turns_in_week(group, today, year, week);
        assert(forall|k: int| 0 <= k < turns@.len() ==> (#[trigger] turns@[k]).wf());
        let more = lines_of_turns(state, group, &turns, today, true);
        proof {
            assert(list.take(i + 1).drop_last() =~= list.take(i as int));
            assert(list.take(i + 1).last() == *group);
        }
        add_section(&mut lines, &mut mxids, group.name.as_str(), &more);
        assert(views(lines@) =~= head + plan_sections(*state, list.take(i + 1), year, week, today));
        i += 1;
    }
    assert(list.take(i as int) =~= list);
    Message { text: join_texts(&lines, "\n"), mxids: tidy_mentions(mxids) }
}

/// The groups in the plan of a week.
pub open spec fn due_groups(state: State, year: i32, week: u32, today: Date) -> Seq<CleaningGroup> {
    state.cleaning_groups@.filter(|g: CleaningGroup| state.in_plan(g, today, year, week))
}

/// The groups in the plan of a week, in order.
pub fn plan_groups<'a>(state: &'a State, year: i32, week: u32, today: Date) -> (r: Vec<
    &'a CleaningGroup,
>)
    requires
        state.wf(),
        today.in_week(),
        is_year(year as int),
    ensures
        pointed(r@) == due_groups(*state, year, week, today),
{
    let ghost p = |g: CleaningGroup| state.in_plan(g, today, year, week);
    let ghost all = state.cleaning_groups@;
    let mut r: Vec<&'a CleaningGroup> = Vec::new();
    let mut i: usize = 0;
    assert(all.take(0).filter(p) =~= Seq::<CleaningGroup>::empty()) by {
        reveal(Seq::filter);
    }
    assert(pointed(r@) =~= all.take(0).filter(p));
    while i < state.cleaning_groups.len()
        invariant
            i <= state.cleaning_groups.len(),
            all == state.cleaning_groups@,
            p == (|g: CleaningGroup| state.in_plan(g, today, year, week)),
            state.wf(),
            today.in_week(),
            is_year(year as int),
            pointed(r@) == all.take(i as int).filter(p),
        decreases state.cleaning_groups.len() - i,
    {
        let g = &state.cleaning_groups[i];
        proof {
            lemma_filter_step(all, p, i as int);
        }
        if state.belongs_in_weekly_plan(g, today, year, week) {
            proof {
                assert(pointed(r@.push(g)) =~= pointed(r@).push(*g));
            }
            r.push(g);
        }
        i += 1;
    }
    assert(all.take(i as int) =~= all);
    r
}

/// Whether a message is the plan of a week for the groups in it.
pub open spec fn is_plan(m: Message, state: State, year: i32, week: u32, today: Date) -> bool {
    let groups = due_groups(state, year, week, today);
    &&& m.text@ == plan_text(state, groups, year, week, today)
    &&& m.mxids@ == mention_list(plan_mentions(state, groups, year, week, today))
}

/// The plan of a week; nothing when no group is in it.
pub fn weekly_plan(state: &State, year: i32, week: u32, today: Date) -> (r: Option<Message>)
    requires
        plan_fits(*state, year, week, today),
    ensures
        (r is Some) == (due_groups(*state, year, week, today).len() > 0),
        r is Some ==> is_plan(r->0, *state, year, week, today),
{
    let groups = plan_groups(state, year, week, today);
    proof {
        assert(pointed(groups@).len() == groups@.len());
    }
    if groups.len() == 0 {
        return None;
    }
    Some(build_weekly_plan(state, year, week, &groups, today))
}

// ── Which message shows a plan ───────────────────────────────────────────────

/// An entry under another key.
pub open spec fn other_key(key: Seq<char>) -> spec_fn(Entry) -> bool {
    |e: Entry| e.key@ != key
}

/// A message that does not show the plan of a week, and is not a given one.
pub open spec fn other_plan(year: i32, week: u32, event_id: Seq<char>) -> spec_fn(PlanEvent) -> bool {
    |e: PlanEvent| !(e.iso_year == year && e.iso_week == week) && e.event_id@ != event_id
}

/// Whether a list of entries became another by putting a text under a key, in place of what was
/// there.
pub open spec fn put(before: Seq<Entry>, after: Seq<Entry>, key: Seq<char>, value: Seq<char>) -> bool {
    &&& after.len() > 0
    &&& after.drop_last() == before.filter(other_key(key))
    &&& after.last().key@ == key
    &&& after.last().value@ == value
}

/// Puts a text under a key.
fn put_entry(entries: &mut Vec<Entry>, key: &str, value: &str)
    ensures
        put(old(entries)@, final(entries)@, key@, value@),
{
    let keep = |e: &Entry| -> (r: bool)
        ensures
            r == (e.key@ != key@),
        { !same_text(e.key.as_str(), key) };
    retain(entries, keep, Ghost(other_key(key@)));
    entries.push(Entry { key: key.to_owned(), value: value.to_owned() });
    assert(entries@.drop_last() =~= old(entries)@.filter(other_key(key@)));
}

/// What was put under a key is found there, and nothing else changes.
pub proof fn law_put_reads_back(
    before: Seq<Entry>,
    after: Seq<Entry>,
    key: Seq<char>,
    value: Seq<char>,
    other: Seq<char>,
)
    requires
        put(before, after, key, value),
    ensures
        value_under(after, key) == Some(value),
        other != key ==> value_under(after, other) == value_under(before, other),
{
    let keep = other_key(key);
    let kept = before.filter(keep);
    lemma_filter(before, keep);
    assert(after =~= kept.push(after.last()));
    assert forall|k: int| 0 <= k < kept.len() implies !entry_under(key)(#[trigger] after[k]) by {
        assert(after[k] == kept[k]);
        assert(keep(kept[k]));
    }
    lemma_first_index(after, entry_under(key), kept.len() as int);
    if other != key {
        lemma_find_filter(before, keep, entry_under(other));
        assert(find(after, entry_under(other)) == find(kept, entry_under(other))) by {
            lemma_find_push(kept, after.last(), entry_under(other));
        }
    }
}

/// Taking out what is not looked for changes nothing.
proof fn lemma_find_filter<A>(s: Seq<A>, keep: spec_fn(A) -> bool, p: spec_fn(A) -> bool)
    requires
        forall|a: A| #[trigger] p(a) ==> keep(a),
    ensures
        find(s.filter(keep), p) == find(s, p),
    decreases s.len(),
{
    if s.len() == 0 {
        reveal(Seq::filter);
        assert(s.filter(keep) =~= s);
    } else {
        let t = s.drop_last();
        lemma_find_filter(t, keep, p);
        lemma_filter_step(s, keep, s.len() - 1);
        assert(s.take(s.len() as int) =~= s);
        assert(s.take(s.len() - 1) =~= t);
        assert(s =~= t.push(s.last()));
        lemma_find_push(t, s.last(), p);
        if keep(s.last()) {
            lemma_find_push(t.filter(keep), s.last(), p);
        }
    }
}

/// What is found in a list with one more element.
proof fn lemma_find_push<A>(s: Seq<A>, a: A, p: spec_fn(A) -> bool)
    ensures
        find(s.push(a), p) == if some(s, p) {
            find(s, p)
        } else if p(a) {
            Some(a)
        } else {
            None
        },
{
    crate::lists::lemma_first_index_is(s, p);
    let i = crate::lists::first_index(s, p);
    let t = s.push(a);
    assert(forall|k: int| 0 <= k < s.len() ==> t[k] == s[k]);
    if i < s.len() {
        lemma_first_index(t, p, i);
    } else if p(a) {
        lemma_first_index(t, p, s.len() as int);
    } else {
        lemma_first_index(t, p, t.len() as int);
    }
}

/// Whether a state became another by making an event the one message that shows the plan of a
/// week.
pub open spec fn plan_registered(
    before: State,
    after: State,
    year: i32,
    week: u32,
    text: Seq<char>,
    event_id: Seq<char>,
) -> bool {
    let key = key_text(year as int, week as int);
    let events = after.weekly_plan_event_ids@;
    &&& after == (State {
        weekly_plan_event_ids: after.weekly_plan_event_ids,
        weekly_plan_canonical: after.weekly_plan_canonical,
        weekly_plan_rendered: after.weekly_plan_rendered,
        sent_reminders: after.sent_reminders,
        ..before
    })
    &&& events.len() > 0
    &&& events.drop_last() == before.weekly_plan_event_ids@.filter(
        other_plan(year, week, event_id),
    )
    &&& events.last().event_id@ == event_id && events.last().iso_year == year
        && events.last().iso_week == week
    &&& put(before.weekly_plan_canonical@, after.weekly_plan_canonical@, key, event_id)
    &&& put(before.weekly_plan_rendered@, after.weekly_plan_rendered@, key, text)
    &&& if before.reminded("*"@, year, week, 0, ReminderKind::Initial) {
        after.sent_reminders == before.sent_reminders
    } else {
        &&& after.sent_reminders@.len() > 0
        &&& after.sent_reminders@.drop_last() == before.sent_reminders@
        &&& reminder_of("*"@, year, week, 0, ReminderKind::Initial)(after.sent_reminders@.last())
    }
}

impl State {
    /// Makes an event the one message that shows the plan of a week: reactions on earlier ones no
    /// longer count, later edits go to it, and the week needs no further announcement.
    pub fn register_weekly_plan_message(
        &mut self,
        year: i32,
        week: u32,
        text: &str,
        event_id: &str,
    )
        ensures
            plan_registered(*old(self), *final(self), year, week, text@, event_id@),
    {
        let key = week_key(year, week);
        let keep = |e: &PlanEvent| -> (r: bool)
            ensures
                r == (!(e.iso_year == year && e.iso_week == week) && e.event_id@ != event_id@),
            {
                !(e.iso_year == year && e.iso_week == week) && !same_text(
                    e.event_id.as_str(),
                    event_id,
                )
            };
        let ghost p = other_plan(year, week, event_id@);
        retain(&mut self.weekly_plan_event_ids, keep, Ghost(p));
        self.weekly_plan_event_ids.push(
            PlanEvent { event_id: event_id.to_owned(), iso_year: year, iso_week: week },
        );
        assert(self.weekly_plan_event_ids@.drop_last() =~= old(
            self,
        ).weekly_plan_event_ids@.filter(p));
        put_entry(&mut self.weekly_plan_canonical, key.as_str(), event_id);
        put_entry(&mut self.weekly_plan_rendered, key.as_str(), text);
        if !self.reminder_sent("*", year, week, 0, &ReminderKind::Initial) {
            self.mark_reminder_sent("*", year, week, 0, ReminderKind::Initial);
        }
    }
}

/// A registered plan message is the one of its week, the only one whose reactions count for it,
/// and the week counts as announced; the messages of other weeks stay as they are.
pub proof fn law_registered_plan_is_the_only_one(
    before: State,
    after: State,
    year: i32,
    week: u32,
    text: Seq<char>,
    event_id: Seq<char>,
)
    requires
        plan_registered(before, after, year, week, text, event_id),
    ensures
        value_under(after.weekly_plan_canonical@, key_text(year as int, week as int)) == Some(
            event_id,
        ),
        value_under(after.weekly_plan_rendered@, key_text(year as int, week as int)) == Some(text),
        after.reminded("*"@, year, week, 0, ReminderKind::Initial),
        forall|i: int|
            0 <= i < after.weekly_plan_event_ids@.len() && (
            #[trigger] after.weekly_plan_event_ids@[i]).iso_year == year
                && after.weekly_plan_event_ids@[i].iso_week == week
                ==> after.weekly_plan_event_ids@[i].event_id@ == event_id,
        forall|key: Seq<char>| key != key_text(year as int, week as int) ==> #[trigger] value_under(
            after.weekly_plan_canonical@,
            key,
        ) == value_under(before.weekly_plan_canonical@, key),
{
    let key = key_text(year as int, week as int);
    law_put_reads_back(
        before.weekly_plan_canonical@,
        after.weekly_plan_canonical@,
        key,
        event_id,
        key,
    );
    law_put_reads_back(before.weekly_plan_rendered@, after.weekly_plan_rendered@, key, text, key);
    let p = other_plan(year, week, event_id);
    let kept = before.weekly_plan_event_ids@.filter(p);
    let events = after.weekly_plan_event_ids@;
    lemma_filter(before.weekly_plan_event_ids@, p);
    assert(events =~= kept.push(events.last()));
    assert forall|i: int|
        0 <= i < events.len() && (#[trigger] events[i]).iso_year == year && events[i].iso_week
            == week implies events[i].event_id@ == event_id by {
        if i < kept.len() {
            assert(events[i] == kept[i]);
            assert(p(kept[i]));
        }
    }
    let q = reminder_of("*"@, year, week, 0, ReminderKind::Initial);
    crate::lists::lemma_some(after.sent_reminders@, q);
    if !before.reminded("*"@, year, week, 0, ReminderKind::Initial) {
        let sent = after.sent_reminders@;
        assert(q(sent[sent.len() - 1]));
    }
    assert forall|other: Seq<char>| other != key implies #[trigger] value_under(
        after.weekly_plan_canonical@,
        other,
    ) == value_under(before.weekly_plan_canonical@, other) by {
        law_put_reads_back(
            before.weekly_plan_canonical@,
            after.weekly_plan_canonical@,
            key,
            event_id,
            other,
        );
    }
}

/// The event that shows the plan of a week, where one is known that can be edited.
pub open spec fn plan_event(state: State, year: i32, week: u32) -> Option<Seq<char>> {
    match value_under(state.weekly_plan_canonical@, key_text(year as int, week as int)) {
        Some(id) => if is_event_id(id) {
            Some(id)
        } else {
            None
        },
        None => None,
    }
}

/// The event that shows the plan of a week, where one is known that can be edited.
pub fn tracked_plan(state: &State, year: i32, week: u32) -> (r: Option<String>)
    ensures
        (r is Some) == (plan_event(*state, year, week) is Some),
        r is Some ==> r->0@ == plan_event(*state, year, week)->0,
{
    let key = week_key(year, week);
    match lookup(&state.weekly_plan_canonical, key.as_str()) {
        Some(id) => if reads_as_event_id(id.as_str()) {
            Some(id.clone())
        } else {
            None
        },
        None => None,
    }
}

/// An edit of a message.
#[derive(Clone, Debug)]
pub struct Edit {
    pub event_id: String,
    pub message: Message,
}

/// The plan of a week in place of the one that a message last showed; nothing when they are the
/// same or no group is in the plan.
pub fn plan_edit_of(state: &State, year: i32, week: u32, today: Date, event_id: String) -> (r: Option<Edit>)
    requires
        plan_fits(*state, year, week, today),
    ensures
        (r is Some) == (due_groups(*state, year, week, today).len() > 0 && value_under(
            state.weekly_plan_rendered@,
            key_text(year as int, week as int),
        ) != Some(
            plan_text(*state, due_groups(*state, year, week, today), year, week, today),
        )),
        r is Some ==> r->0.event_id@ == event_id@ && is_plan(
            r->0.message,
            *state,
            year,
            week,
            today,
        ),
{
    match weekly_plan(state, year, week, today) {
        Some(message) => {
            let key = week_key(year, week);
            let shown = match lookup(&state.weekly_plan_rendered, key.as_str()) {
                Some(text) => same_text(text.as_str(), message.text.as_str()),
                None => false,
            };
            if shown {
                None
            } else {
                Some(Edit { event_id, message })
            }
        },
        None => None,
    }
}

/// The edit that brings the plan message of a week up to date; nothing when there is no such
/// message, nothing is in the plan, or the message already shows it.
pub fn plan_edit(state: &State, year: i32, week: u32, today: Date) -> (r: Option<Edit>)
    requires
        plan_fits(*state, year, week, today),
    ensures
        (r is Some) == (plan_event(*state, year, week) is Some && due_groups(
            *state,
            year,
            week,
            today,
        ).len() > 0 && value_under(
            state.weekly_plan_rendered@,
            key_text(year as int, week as int),
        ) != Some(
            plan_text(*state, due_groups(*state, year, week, today), year, week, today),
        )),
        r is Some ==> r->0.event_id@ == plan_event(*state, year, week)->0 && is_plan(
            r->0.message,
            *state,
            year,
            week,
            today,
        ),
{
    match tracked_plan(state, year, week) {
        Some(event_id) => plan_edit_of(state, year, week, today, event_id),
        None => None,
    }
}

// ── Reconciliation ───────────────────────────────────────────────────────────

/// What is to be done about the plan message of a week.
#[derive(Clone, Debug, PartialEq, Eq)]
pub enum PlanReconcileAction {
    /// No plan is known for the week.
    NoPlanTracked,
    /// No group is in the plan: no message should exist.
    NothingDue,
    /// The message shows what it should.
    AlreadyConsistent,
    /// The message shows something else: edit it in place.
    NeedsEdit { event_id: String },
    /// The message is missing: send another one.
    NeedsRecreate,
}

/// Whether an action is the right one for the event that shows a plan, whether any group is in
/// it, what the message should show and what it shows.
pub open spec fn is_action(
    r: PlanReconcileAction,
    known: Option<Seq<char>>,
    any_due: bool,
    expected: Seq<char>,
    actual: Option<Seq<char>>,
) -> bool {
    match known {
        None => r is NoPlanTracked,
        Some(id) => if !any_due {
            r is NothingDue
        } else {
            match actual {
                None => r is NeedsRecreate,
                Some(shown) => if shown == expected {
                    r is AlreadyConsistent
                } else {
                    r is NeedsEdit && r->event_id@ == id
                },
            }
        },
    }
}

/// What a text option holds.
pub open spec fn text_option(o: Option<String>) -> Option<Seq<char>> {
    match o {
        Some(t) => Some(t@),
        None => None,
    }
}

/// What is to be done about the message that shows a plan.
pub fn plan_action(
    known: Option<String>,
    any_due: bool,
    expected_effective_body: &str,
    actual_body: &Option<String>,
) -> (r: PlanReconcileAction)
    ensures
        is_action(
            r,
            text_option(known),
            any_due,
            expected_effective_body@,
            text_option(*actual_body),
        ),
{
    match known {
        None => PlanReconcileAction::NoPlanTracked,
        Some(event_id) => if !any_due {
            PlanReconcileAction::NothingDue
        } else {
            match actual_body {
                None => PlanReconcileAction::NeedsRecreate,
                Some(shown) => if same_text(shown.as_str(), expected_effective_body) {
                    PlanReconcileAction::AlreadyConsistent
                } else {
                    PlanReconcileAction::NeedsEdit { event_id }
                },
            }
        },
    }
}

/// What is to be done about the plan message of a week, given what it should show and what it
/// actually shows. What it last showed as far as the state knows plays no part.
pub fn decide_plan_reconcile_action(
    state: &State,
    year: i32,
    week: u32,
    expected_effective_body: &str,
    actual_body: &Option<String>,
    today: Date,
) -> (r: PlanReconcileAction)
    requires
        state.wf(),
        today.in_week(),
        is_year(year as int),
    ensures
        is_action(
            r,
            plan_event(*state, year, week),
            due_groups(*state, year, week, today).len() > 0,
            expected_effective_body@,
            text_option(*actual_body),
        ),
{
    let known = tracked_plan(state, year, week);
    let groups = plan_groups(state, year, week, today);
    assert(pointed(groups@).len() == groups@.len());
    plan_action(known, groups.len() > 0, expected_effective_body, actual_body)
}

/// Once the message shows what it should, there is nothing left to do, however often it is
/// looked at: an edit, or a new message that was registered, shows what was expected.
pub proof fn law_reconciling_settles(
    r: PlanReconcileAction,
    known: Option<Seq<char>>,
    any_due: bool,
    expected: Seq<char>,
)
    requires
        is_action(r, known, any_due, expected, Some(expected)),
    ensures
        !(r is NeedsEdit),
        !(r is NeedsRecreate),
        known is Some && any_due ==> r is AlreadyConsistent,
{
}

// ── Reminders ────────────────────────────────────────────────────────────────

/// Whether a turn is reminded of on a weekday: a later shift of the week on the day it starts;
/// with the last reminder, a shift on the day it ends, or a whole week on a day of choice.
pub open spec fn reminder_day(
    group: CleaningGroup,
    turn: Turn,
    kind: ReminderKind,
    final_weekday: u8,
    day: int,
) -> bool {
    match kind {
        ReminderKind::Initial => turn.shift > 0 && turn.days(group.rhythm).start == day,
        ReminderKind::Final => if group.rhythm.week_shifts().len() > 1 {
            turn.days(group.rhythm).end == day
        } else {
            final_weekday == day
        },
        ReminderKind::WeeklySummary => false,
    }
}

/// Whether a turn of a group gets a reminder: it is the day for it, the turn is open, and neither
/// it nor (with the last reminder) all groups together had one.
pub open spec fn to_remind(
    state: State,
    group: CleaningGroup,
    kind: ReminderKind,
    final_weekday: u8,
    day: int,
) -> spec_fn(Turn) -> bool {
    |t: Turn|
        reminder_day(group, t, kind, final_weekday, day) && !(kind == ReminderKind::Final
            && state.reminded("*"@, t.year, t.week, 0, kind)) && !state.turn_done(group, t)
            && !state.reminded(group.id@, t.year, t.week, t.shift, kind)
}

/// The turns of groups that get a reminder on a day.
pub open spec fn reminders(
    state: State,
    groups: Seq<CleaningGroup>,
    day: Date,
    kind: ReminderKind,
    final_weekday: u8,
    today: Date,
) -> Seq<(CleaningGroup, Turn)>
    decreases groups.len(),
{
    if groups.len() == 0 {
        Seq::empty()
    } else {
        let r = reminders(state, groups.drop_last(), day, kind, final_weekday, today);
        let g = groups.last();
        let week = week_at((day.day - 1) / 7);
        if g.is_active {
            r + state.week_turns(g, today, week.0 as i32, week.1 as u32).filter(
                to_remind(state, g, kind, final_weekday, weekday(day.day as int)),
            ).map_values(|t: Turn| (g, t))
        } else {
            r
        }
    }
}

/// Pairs as what they point to.
pub open spec fn pointed_turns(list: Seq<(&CleaningGroup, Turn)>) -> Seq<(CleaningGroup, Turn)> {
    list.map_values(|p: (&CleaningGroup, Turn)| (*p.0, p.1))
}

/// The turns that get a reminder of a kind on a day, with their groups.
pub fn turns_to_remind_at<'a>(
    state: &'a State,
    day: Date,
    kind: &ReminderKind,
    final_weekday: u8,
    today: Date,
) -> (r: Vec<(&'a CleaningGroup, Turn)>)
    requires
        state.wf(),
        today.in_week(),
        day.in_week(),
    ensures
        pointed_turns(r@) == reminders(
            *state,
            state.cleaning_groups@,
            day,
            *kind,
            final_weekday,
            today,
        ),
        forall|i: int| 0 <= i < r@.len() ==> (#[trigger] r@[i]).1.wf(),
{
    let (year, week) = week_of(day);
    let weekday = weekday_of(day);
    proof {
        lemma_whole_week(day.day as int, year as int, week as int);
    }
    let ghost all = state.cleaning_groups@;
    let mut r: Vec<(&'a CleaningGroup, Turn)> = Vec::new();
    let mut i: usize = 0;
    assert(all.take(0) =~= Seq::<CleaningGroup>::empty());
    assert(pointed_turns(r@) =~= Seq::<(CleaningGroup, Turn)>::empty());
    while i < state.cleaning_groups.len()
        invariant
            i <= state.cleaning_groups.len(),
            all == state.cleaning_groups@,
            state.wf(),
            today.in_week(),
            weekday == crate::calendar::weekday(day.day as int),
            (year as int, week as int) == week_at((day.day - 1) / 7),
            is_year(year as int),
            is_day(week_start(year as int, week as int) + 6),
            pointed_turns(r@) == reminders(
                *state,
                all.take(i as int),
                day,
                *kind,
                final_weekday,
                today,
            ),
            forall|k: int| 0 <= k < r@.len() ==> (#[trigger] r@[k]).1.wf(),
        decreases state.cleaning_groups.len() - i,
    {
        let group = &state.cleaning_groups[i];
        proof {
            assert(all.take(i + 1).drop_last() =~= all.take(i as int));
            assert(all.take(i + 1).last() == *group);
        }
        if group.is_active {
            let turns = state.turns_in_week(group, today, year, week);
            let ghost p = to_remind(*state, *group, *kind, final_weekday, weekday as int);
            let ghost pair = |t: Turn| (*group, t);
            let ghost before = pointed_turns(r@);
            let mut k: usize = 0;
            assert(turns@.take(0).filter(p) =~= Seq::<Turn>::empty()) by {
                reveal(Seq::filter);
            }
            assert(turns@.take(0).filter(p).map_values(pair) =~= Seq::<
                (CleaningGroup, Turn),
            >::empty());
            assert(before + turns@.take(0).filter(p).map_values(pair) =~= before);
            while k < turns.len()
                invariant
                    k <= turns.len(),
                    turns@ == state.week_turns(*group, today, year, week),
                    is_year(year as int),
                    is_day(week_start(year as int, week as int) + 6),
                    p == to_remind(*state, *group, *kind, final_weekday, weekday as int),
                    pair == (|t: Turn| (*group, t)),
                    pointed_turns(r@) == before + turns@.take(k as int).filter(p).map_values(pair),
                    forall|j: int| 0 <= j < r@.len() ==> (#[trigger] r@[j]).1.wf(),
                decreases turns.len() - k,
            {
                let turn = turns[k];
                assert(turn == (Turn { year, week, shift: k as u8 }));
                proof {
                    lemma_filter_step(turns@, p, k as int);
                    crate::rhythm::lemma_shift_count(group.rhythm);
                }
                let wanted = match group.rhythm.shift(turn.shift) {
                    Some(shift) => match kind {
                        ReminderKind::Initial => turn.shift > 0 && shift.start == weekday,
                        ReminderKind::Final => if group.rhythm.is_split() {
                            shift.end == weekday
                        } else {
                            final_weekday == weekday
                        },
                        ReminderKind::WeeklySummary => false,
                    },
                    None => false,
                };
                let together = match kind {
                    ReminderKind::Final => state.reminder_sent("*", year, week, 0, kind),
                    _ => false,
                };
                assert(wanted == reminder_day(
                    *group,
                    turn,
                    *kind,
                    final_weekday,
                    weekday as int,
                ));
                if wanted && !together && !state.is_turn_done(group, turn) && !state.reminder_sent(
                    group.id.as_str(),
                    year,
                    week,
                    turn.shift,
                    kind,
                ) {
                    proof {
                        let kept = turns@.take(k as int).filter(p);
                        assert(kept.push(turn).map_values(pair) =~= kept.map_values(pair).push(
                            (*group, turn),
                        ));
                        assert(pointed_turns(r@.push((group, turn))) =~= pointed_turns(r@).push(
                            (*group, turn),
                        ));
                    }
                    r.push((group, turn));
                    assert(pointed_turns(r@) =~= before + turns@.take(k + 1).filter(p).map_values(
                        pair,
                    ));
                }
                k += 1;
            }
            assert(turns@.take(k as int) =~= turns@);
        }
        i += 1;
    }
    assert(all.take(i as int) =~= all);
    r
}

/// The turns that get a reminder of a kind on a day. Where it is not known since when turns are
/// counted, they are counted from the week that the clock shows.
pub fn turns_to_remind<'a>(state: &'a State, day: Date, kind: &ReminderKind, final_weekday: u8) -> (r: Vec<
    (&'a CleaningGroup, Turn),
>)
    requires
        state.wf(),
        day.in_week(),
    ensures
        exists|now: Date|
            is_today(now.day as int) && pointed_turns(r@) == #[trigger] reminders(
                *state,
                state.cleaning_groups@,
                day,
                *kind,
                final_weekday,
                now,
            ),
{
    let now = planning_day();
    turns_to_remind_at(state, day, kind, final_weekday, now)
}

/// The sections of turns in a reminder.
pub open spec fn reminder_sections(state: State, turns: Seq<(CleaningGroup, Turn)>, today: Date) -> Seq<
    Seq<char>,
>
    decreases turns.len(),
{
    if turns.len() == 0 {
        Seq::empty()
    } else {
        let (g, t) = turns.last();
        reminder_sections(state, turns.drop_last(), today) + section(
            g.name@,
            turn_entries(state, g, t, today, false, g.slot_count()),
        )
    }
}

/// Whom a reminder mentions.
pub open spec fn reminder_mentions(state: State, turns: Seq<(CleaningGroup, Turn)>, today: Date) -> Seq<
    String,
>
    decreases turns.len(),
{
    if turns.len() == 0 {
        Seq::empty()
    } else {
        let (g, t) = turns.last();
        reminder_mentions(state, turns.drop_last(), today) + mentions(
            turn_entries(state, g, t, today, false, g.slot_count()),
        )
    }
}

/// The title of a reminder.
pub open spec fn reminder_title(kind: ReminderKind) -> Seq<char> {
    match kind {
        ReminderKind::Initial => "🔔 **Your turn starts today**"@,
        _ => "⏰ **Still open · ends today**"@,
    }
}

/// A reminder of turns.
pub open spec fn reminder_text(
    state: State,
    kind: ReminderKind,
    turns: Seq<(CleaningGroup, Turn)>,
    today: Date,
) -> Seq<char> {
    join(seq![reminder_title(kind), ""@] + reminder_sections(state, turns, today), "\n"@)
}

/// A reminder of turns: of those that start today, or of open ones that end today.
pub fn build_turn_reminder(
    state: &State,
    kind: &ReminderKind,
    turns: &Vec<(&CleaningGroup, Turn)>,
    today: Date,
) -> (r: Message)
    requires
        state.wf(),
        today.in_week(),
        forall|i: int|
            0 <= i < turns@.len() ==> (#[trigger] turns@[i]).1.wf(),
    ensures
        r.text@ == reminder_text(*state, *kind, pointed_turns(turns@), today),
        r.mxids@ == mention_list(reminder_mentions(*state, pointed_turns(turns@), today)),
{
    let ghost list = pointed_turns(turns@);
    let mut lines: Vec<String> = Vec::new();
    let title: &str = match kind {
        ReminderKind::Initial => "🔔 **Your turn starts today**",
        _ => "⏰ **Still open · ends today**",
    };
    lines.push(title.to_owned());
    lines.push("".to_owned());
    let mut mxids: Vec<String> = Vec::new();
    let ghost head = seq![reminder_title(*kind), ""@];
    assert(list.take(0) =~= Seq::<(CleaningGroup, Turn)>::empty());
    assert(views(lines@) =~= head + reminder_sections(*state, list.take(0), today));
    let mut i: usize = 0;
    while i < turns.len()
        invariant
            i <= turns.len(),
            list == pointed_turns(turns@),
            state.wf(),
            today.in_week(),
            forall|k: int|
                0 <= k < turns@.len() ==> (#[trigger] turns@[k]).1.wf(),
            views(lines@) == head + reminder_sections(*state, list.take(i as int), today),
            mxids@ == reminder_mentions(*state, list.take(i as int), today),
        decreases turns.len() - i,
    {
        let group = turns[i].0;
        let turn = turns[i].1;
        assert(turns@[i as int].1.wf());
        assert(list[i as int] == (*group, turn));
        let more = turn_lines(state, group, turn, today, false);
        proof {
            assert(list.take(i + 1).drop_last() =~= list.take(i as int));
            assert(list.take(i + 1).last() == (*group, turn));
        }
        add_section(&mut lines, &mut mxids, group.name.as_str(), &more);
        assert(views(lines@) =~= head + reminder_sections(*state, list.take(i + 1), today));
        i += 1;
    }
    assert(list.take(i as int) =~= list);
    Message { text: join_texts(&lines, "\n"), mxids: tidy_mentions(mxids) }
}

// ── What the clock asks for ──────────────────────────────────────────────────

/// At most a given number.
pub open spec fn at_most(n: nat, max: int) -> int {
    if n < max {
        n as int
    } else {
        max
    }
}

/// Hour and minute of a text such as "09:00"; nine o'clock when one of them cannot be read.
pub open spec fn time_of(t: Seq<char>) -> (int, int) {
    let i = first_at(t, ':');
    let hour = parsed_up_to(t.subrange(0, i), 255);
    let minute = parsed_up_to(t.skip(i + 1), 255);
    if i < t.len() && hour is Some && minute is Some {
        (at_most(hour->0, 23), at_most(minute->0, 59))
    } else {
        (9, 0)
    }
}

/// Hour and minute of a text such as "09:00"; (9, 0) when it cannot be read.
pub fn parse_hhmm(s: &str) -> (r: (u8, u8))
    ensures
        (r.0 as int, r.1 as int) == time_of(s@),
        r.0 < 24,
        r.1 < 60,
{
    let v = chars_of(s);
    let i = find_char(&v, 0, ':');
    assert(v@.skip(0) =~= s@);
    if i >= v.len() {
        return (9, 0);
    }
    let hour = text_of(&v, 0, i);
    let minute = text_of(&v, i + 1, v.len());
    assert(minute@ =~= s@.skip(i + 1));
    match (parse_up_to(hour.as_str(), 255), parse_up_to(minute.as_str(), 255)) {
        (Some(h), Some(m)) => (
            if h < 23 {
                h as u8
            } else {
                23
            },
            if m < 59 {
                m as u8
            } else {
                59
            },
        ),
        _ => (9, 0),
    }
}

/// Whether it is time for the messages of the day: the hour and minute of a text have come.
pub fn is_reminder_time(hour: u8, minute: u8, reminder_time: &str) -> (r: bool)
    ensures
        r == (hour > time_of(reminder_time@).0 || (hour == time_of(reminder_time@).0 && minute
            >= time_of(reminder_time@).1)),
{
    let (h, m) = parse_hhmm(reminder_time);
    hour > h || (hour == h && minute >= m)
}

/// Whether a group had a reminder of its own at the start of a week.
pub open spec fn reminded_alone(state: State, year: i32, week: u32) -> spec_fn(CleaningGroup) -> bool {
    |g: CleaningGroup| state.reminded(g.id@, year, week, 0, ReminderKind::Initial)
}

/// Whether the plan of a week is to be posted: it is the day for it, neither the week nor a group
/// in it was announced, no message shows the plan, and there are groups in it.
pub open spec fn posts_plan(
    state: State,
    weekday: u8,
    reminder_weekday: u8,
    year: i32,
    week: u32,
    today: Date,
) -> bool {
    &&& weekday == reminder_weekday
    &&& !state.reminded("*"@, year, week, 0, ReminderKind::Initial)
    &&& !some(state.cleaning_groups@, reminded_alone(state, year, week))
    &&& value_under(state.weekly_plan_canonical@, key_text(year as int, week as int)) is None
    &&& due_groups(state, year, week, today).len() > 0
}

/// The plan of a week, when it is to be posted.
pub fn plan_to_post(
    state: &State,
    weekday: u8,
    reminder_weekday: u8,
    year: i32,
    week: u32,
    today: Date,
) -> (r: Option<Message>)
    requires
        plan_fits(*state, year, week, today),
    ensures
        (r is Some) == posts_plan(*state, weekday, reminder_weekday, year, week, today),
        r is Some ==> is_plan(r->0, *state, year, week, today),
{
    if weekday != reminder_weekday || state.reminder_sent(
        "*",
        year,
        week,
        0,
        &ReminderKind::Initial,
    ) {
        return None;
    }
    let ghost p = reminded_alone(*state, year, week);
    let mut i: usize = 0;
    while i < state.cleaning_groups.len()
        invariant
            i <= state.cleaning_groups.len(),
            p == reminded_alone(*state, year, week),
            forall|k: int| 0 <= k < i ==> !p(#[trigger] state.cleaning_groups@[k]),
        decreases state.cleaning_groups.len() - i,
    {
        if state.reminder_sent(
            state.cleaning_groups[i].id.as_str(),
            year,
            week,
            0,
            &ReminderKind::Initial,
        ) {
            proof {
                lemma_first_index(state.cleaning_groups@, p, i as int);
            }
            return None;
        }
        i += 1;
    }
    proof {
        lemma_first_index(state.cleaning_groups@, p, i as int);
    }
    let key = week_key(year, week);
    if lookup(&state.weekly_plan_canonical, key.as_str()).is_some() {
        return None;
    }
    weekly_plan(state, year, week, today)
}

/// A plan that was posted and registered is not posted again.
pub proof fn law_plan_is_posted_once(
    before: State,
    after: State,
    year: i32,
    week: u32,
    text: Seq<char>,
    event_id: Seq<char>,
    weekday: u8,
    reminder_weekday: u8,
    today: Date,
)
    requires
        plan_registered(before, after, year, week, text, event_id),
    ensures
        !posts_plan(after, weekday, reminder_weekday, year, week, today),
{
    law_registered_plan_is_the_only_one(before, after, year, week, text, event_id);
}

/// A turn of a group.
#[derive(Clone, Debug)]
pub struct GroupTurn {
    pub group_id: String,
    pub turn: Turn,
}

/// A reminder to send: the turns that it is about, its text, and the message that it answers.
#[derive(Clone, Debug)]
pub struct Reminder {
    pub turns: Vec<GroupTurn>,
    pub message: Message,
    pub reply_to: Option<String>,
}

/// Whether turns are named by the ids of their groups.
pub open spec fn names_turns(named: Seq<GroupTurn>, turns: Seq<(CleaningGroup, Turn)>) -> bool {
    &&& named.len() == turns.len()
    &&& forall|i: int|
        0 <= i < named.len() ==> (#[trigger] named[i]).group_id@ == turns[i].0.id@ && named[i].turn
            == turns[i].1
}

/// Names turns by the ids of their groups.
fn name_turns(turns: &Vec<(&CleaningGroup, Turn)>) -> (r: Vec<GroupTurn>)
    ensures
        names_turns(r@, pointed_turns(turns@)),
{
    let mut r: Vec<GroupTurn> = Vec::new();
    let mut i: usize = 0;
    while i < turns.len()
        invariant
            i <= turns.len(),
            r@.len() == i,
            forall|k: int|
                0 <= k < i ==> (#[trigger] r@[k]).group_id@ == pointed_turns(turns@)[k].0.id@
                    && r@[k].turn == pointed_turns(turns@)[k].1,
        decreases turns.len() - i,
    {
        r.push(GroupTurn { group_id: turns[i].0.id.clone(), turn: turns[i].1 });
        i += 1;
    }
    r
}

/// The reminder of a kind to send on a day; nothing when no turn gets one. It answers the plan
/// message of the week, where one is known.
pub fn reminder_to_send(
    state: &State,
    day: Date,
    kind: &ReminderKind,
    final_weekday: u8,
    year: i32,
    week: u32,
    today: Date,
) -> (r: Option<Reminder>)
    requires
        state.wf(),
        today.in_week(),
        day.in_week(),
    ensures
        ({
            let turns = reminders(
                *state,
                state.cleaning_groups@,
                day,
                *kind,
                final_weekday,
                today,
            );
            &&& (r is Some) == (turns.len() > 0)
            &&& r is Some ==> names_turns(r->0.turns@, turns)
            &&& r is Some ==> r->0.message.text@ == reminder_text(*state, *kind, turns, today)
            &&& r is Some ==> r->0.message.mxids@ == mention_list(
                reminder_mentions(*state, turns, today),
            )
            &&& r is Some ==> text_option(r->0.reply_to) == plan_event(*state, year, week)
        }),
{
    let turns = turns_to_remind_at(state, day, kind, final_weekday, today);
    let ghost list = pointed_turns(turns@);
    assert(list.len() == turns@.len());
    if turns.len() == 0 {
        return None;
    }
    let message = build_turn_reminder(state, kind, &turns, today);
    Some(
        Reminder {
            turns: name_turns(&turns),
            message,
            reply_to: tracked_plan(state, year, week),
        },
    )
}

/// Whether a reminder notes that a turn was reminded of.
pub open spec fn notes(s: crate::state::SentReminder, t: GroupTurn, kind: ReminderKind) -> bool {
    reminder_of(t.group_id@, t.turn.year, t.turn.week, t.turn.shift, kind)(s)
}

impl State {
    /// Notes that turns were reminded of.
    pub fn mark_turns_reminded(&mut self, turns: &Vec<GroupTurn>, kind: &ReminderKind)
        ensures
            *final(self) == (State { sent_reminders: final(self).sent_reminders, ..*old(self) }),
            final(self).sent_reminders@.len() == old(self).sent_reminders@.len() + turns@.len(),
            final(self).sent_reminders@.take(old(self).sent_reminders@.len() as int) == old(
                self,
            ).sent_reminders@,
            forall|i: int|
                0 <= i < turns@.len() ==> notes(
                    final(self).sent_reminders@[old(self).sent_reminders@.len() + i],
                    #[trigger] turns@[i],
                    *kind,
                ),
    {
        let ghost n = self.sent_reminders@.len();
        let mut i: usize = 0;
        assert(self.sent_reminders@.take(n as int) =~= old(self).sent_reminders@);
        while i < turns.len()
            invariant
                i <= turns.len(),
                n == old(self).sent_reminders@.len(),
                *self == (State { sent_reminders: self.sent_reminders, ..*old(self) }),
                self.sent_reminders@.len() == n + i,
                self.sent_reminders@.take(n as int) == old(self).sent_reminders@,
                forall|k: int|
                    0 <= k < i ==> notes(self.sent_reminders@[n + k], #[trigger] turns@[k], *kind),
            decreases turns.len() - i,
        {
            let t = &turns[i];
            let ghost before = self.sent_reminders@;
            self.mark_reminder_sent(
                t.group_id.as_str(),
                t.turn.year,
                t.turn.week,
                t.turn.shift,
                *kind,
            );
            proof {
                let after = self.sent_reminders@;
                assert(forall|k: int| 0 <= k < before.len() ==> after[k] == before[k]) by {
                    assert(forall|k: int|
                        0 <= k < before.len() ==> after[k] == #[trigger] after.drop_last()[k]);
                }
                assert(after.take(n as int) =~= before.take(n as int));
                assert(after.last() == after[n + i]);
            }
            i += 1;
        }
    }
}

/// Turns that were noted as reminded of are not reminded of again.
pub proof fn law_turns_are_reminded_of_once(
    before: State,
    after: State,
    marked: Seq<GroupTurn>,
    i: int,
    group: CleaningGroup,
    kind: ReminderKind,
    final_weekday: u8,
    day: int,
)
    requires
        after.sent_reminders@.len() == before.sent_reminders@.len() + marked.len(),
        forall|k: int|
            0 <= k < marked.len() ==> notes(
                after.sent_reminders@[before.sent_reminders@.len() + k],
                #[trigger] marked[k],
                kind,
            ),
        0 <= i < marked.len(),
        group.id@ == marked[i].group_id@,
    ensures
        !to_remind(after, group, kind, final_weekday, day)(marked[i].turn),
{
    let t = marked[i].turn;
    let q = reminder_of(group.id@, t.year, t.week, t.shift, kind);
    let s = after.sent_reminders@;
    assert(notes(s[before.sent_reminders@.len() + i], marked[i], kind));
    assert(q(s[before.sent_reminders@.len() + i]));
    crate::lists::lemma_some(s, q);
}

/// A message mentions nobody twice.
pub proof fn law_nobody_is_mentioned_twice(list: Seq<String>, i: int, j: int)
    requires
        0 <= i < j < mention_list(list).len(),
    ensures
        mention_list(list)[i]@ != mention_list(list)[j]@,
{
    lemma_sorted(list);
    lemma_deduped(sorted(list));
    assert(text_before(mention_list(list)[i]@, mention_list(list)[j]@));
    lemma_text_before(
        mention_list(list)[i]@,
        mention_list(list)[j]@,
        mention_list(list)[j]@,
    );
}

/// An ordered list without repetitions next to each other is strictly ordered.
proof fn lemma_deduped(s: Seq<String>)
    requires
        crate::sorting::in_order(s),
    ensures
        forall|i: int, j: int|
            0 <= i < j < deduped(s).len() ==> text_before(
                #[trigger] deduped(s)[i]@,
                #[trigger] deduped(s)[j]@,
            ),
        deduped(s).len() > 0 ==> s.len() > 0 && deduped(s).last()@ == s.last()@,
        s.len() > 0 ==> deduped(s).len() > 0,
    decreases s.len(),
{
    if s.len() > 0 {
        let t = s.drop_last();
        assert forall|i: int, j: int| 0 <= i < j < t.len() implies !(#[trigger] t[j]).before(
            #[trigger] t[i],
        ) by {
            assert(t[i] == s[i] && t[j] == s[j]);
        }
        lemma_deduped(t);
        let r = deduped(t);
        if r.len() > 0 && r.last()@ != s.last()@ {
            let x = s.last();
            assert(t.last() == s[s.len() - 2]);
            assert(!s[s.len() - 1].before(s[s.len() - 2]));
            lemma_text_before(r.last()@, x@, x@);
            assert(text_before(r.last()@, x@));
            assert forall|i: int| 0 <= i < r.len() implies text_before(
                (#[trigger] r[i])@,
                x@,
            ) by {
                if i < r.len() - 1 {
                    assert(text_before(r[i]@, r[r.len() - 1]@));
                    lemma_text_before(r[i]@, r.last()@, x@);
                    lemma_text_before(x@, r[i]@, r.last()@);
                    lemma_text_before(r.last()@, x@, r[i]@);
                    lemma_text_before(r[i]@, x@, x@);
                }
            }
        }
    }
}

// ── What a message shows ─────────────────────────────────────────────────────

/// The text that stands at a place of a JSON document, as `serde_json` reads both; nothing when
/// the document cannot be read or no text stands there.
pub uninterp spec fn json_text(json: Seq<char>, pointer: Seq<char>) -> Option<Seq<char>>;

/// `serde_json::from_str`, `Value::pointer` and `Value::as_str`: the text that stands at a place
/// of a JSON document. It depends on the document and the place alone; how JSON is read is not
/// stated.
#[verifier::external_body]
fn text_at(json: &str, pointer: &str) -> (r: Option<String>)
    ensures
        (r is Some) == (json_text(json@, pointer@) is Some),
        r is Some ==> r->0@ == json_text(json@, pointer@)->0,
{
    let value: serde_json::Value = serde_json::from_str(json).ok()?;
    value.pointer(pointer)?.as_str().map(str::to_owned)
}

/// Where the text of the latest edit of a message stands.
pub const EDITED_BODY: &'static str = "/unsigned/m.relations/m.replace/content/m.new_content/body";

/// Where the text of a message stands.
pub const OWN_BODY: &'static str = "/content/body";

/// The text that a message shows: that of its latest edit, or its own when it was never edited.
pub open spec fn shown_body(edited: Option<Seq<char>>, own: Option<Seq<char>>) -> Option<Seq<char>> {
    match edited {
        Some(t) => Some(t),
        None => own,
    }
}

/// The text that a message shows: that of its latest edit, or its own when it was never edited.
pub fn prefer_edit(edited: Option<String>, own: Option<String>) -> (r: Option<String>)
    ensures
        text_option(r) == shown_body(text_option(edited), text_option(own)),
{
    match edited {
        Some(t) => Some(t),
        None => own,
    }
}

/// The text that a message shows, read from its JSON; nothing for a message that was taken back.
pub fn effective_plan_body(json: &str) -> (r: Option<String>)
    ensures
        text_option(r) == shown_body(json_text(json@, EDITED_BODY@), json_text(json@, OWN_BODY@)),
{
    prefer_edit(text_at(json, EDITED_BODY), text_at(json, OWN_BODY))
}

/// What came of looking at a plan message.
#[derive(Clone, Debug)]
pub enum PlanLook {
    /// The message is there; its JSON.
    Shown(String),
    /// There is no such message.
    Gone,
    /// The message could not be looked at.
    Inconclusive,
}

/// Whether this is what a look at the plan message leads to: nothing when it told nothing, and
/// otherwise what is to be done about a message that shows what was found, if anything.
pub open spec fn follows_look(
    r: Option<PlanReconcileAction>,
    look: PlanLook,
    known: Option<Seq<char>>,
    any_due: bool,
    expected: Seq<char>,
) -> bool {
    match look {
        PlanLook::Inconclusive => r is None,
        PlanLook::Gone => r is Some && is_action(r->0, known, any_due, expected, None),
        PlanLook::Shown(json) => r is Some && is_action(
            r->0,
            known,
            any_due,
            expected,
            shown_body(json_text(json@, EDITED_BODY@), json_text(json@, OWN_BODY@)),
        ),
    }
}

/// What is to be done about the plan message of a week after a look at it; `None`, leaving it
/// alone, when the look told nothing.
pub fn action_after_look(
    state: &State,
    year: i32,
    week: u32,
    expected_effective_body: &str,
    look: &PlanLook,
    today: Date,
) -> (r: Option<PlanReconcileAction>)
    requires
        state.wf(),
        today.in_week(),
        is_year(year as int),
    ensures
        follows_look(
            r,
            *look,
            plan_event(*state, year, week),
            due_groups(*state, year, week, today).len() > 0,
            expected_effective_body@,
        ),
{
    let shown: Option<String> = match look {
        PlanLook::Inconclusive => {
            return None;
        },
        PlanLook::Gone => None,
        PlanLook::Shown(json) => effective_plan_body(json.as_str()),
    };
    Some(decide_plan_reconcile_action(state, year, week, expected_effective_body, &shown, today))
}

} // verus!
