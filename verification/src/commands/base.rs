//! What all commands share: who asks, what is answered, and how arguments name weeks, groups,
//! slots and persons.

use vstd::prelude::*;

use crate::analytics::DomainEvent;
use crate::calendar::{
    is_day, is_today, is_year, lemma_today, lemma_week_start, lemma_whole_week, week_dates, week_of,
    week_start, week_text, weekday, weekday_of, Date, Timestamp, MAX_YEAR,
    MIN_YEAR,
};
use crate::course::{ran, step};
use crate::domain::{slot_named, slot_names, CleaningGroup, Person};
use crate::ids::{is_user_id, reads_as_user_id};
use crate::journal::StateError;
use crate::lists::{first_index, lemma_first_index, some};
use crate::planning::this_week;
use crate::rhythm::Turn;
use crate::state::State;
use crate::text::{
    decimal, is_same_name, join, join_texts, lemma_views_push, parse_up_to, parsed_up_to, same_name,
    same_text, show, views,
};

verus! {

/// Who asks, when, and how far plans are usually made.
#[derive(Clone, Debug)]
pub struct Request {
    /// The Matrix id of whoever asks.
    pub sender: String,
    pub is_admin: bool,
    pub today: Date,
    pub now: Timestamp,
    /// How many due weeks are planned ahead.
    pub usual: u32,
}

/// Why a command was not carried out.
#[derive(Clone, Copy, Debug, PartialEq, Eq, Structural)]
pub enum CommandError {
    /// Only admins may do this.
    NotAdmin,
    /// A day that is needed cannot be represented.
    OutOfRange,
    /// The state refused an event.
    Refused(StateError),
}

/// What a command comes to.
pub enum Answer {
    /// Nothing changes, and an error is returned.
    Fails(CommandError),
    /// Nothing changes, and a text is returned.
    Says(Seq<char>),
    /// An event happens, and a text is returned.
    Does(DomainEvent, Seq<char>),
    /// Events happen, one after another, and a text is returned.
    Runs(Seq<DomainEvent>, Seq<char>),
}

/// Whether a command came to an answer.
pub open spec fn answered(
    pre: State,
    post: State,
    r: Result<String, CommandError>,
    a: Answer,
    now: Timestamp,
) -> bool {
    match a {
        Answer::Fails(e) => r == Err::<String, CommandError>(e) && post == pre,
        Answer::Says(t) => says_only(pre, post, r, t),
        Answer::Does(e, t) => {
            &&& r is Ok
            &&& r->Ok_0@ == t
            &&& step(pre, post, e, now)
        },
        Answer::Runs(events, t) => {
            &&& r is Ok
            &&& r->Ok_0@ == t
            &&& ran(pre, post, events, now)
        },
    }
}

/// Whether a command only returned a text.
pub open spec fn says_only(
    pre: State,
    post: State,
    r: Result<String, CommandError>,
    t: Seq<char>,
) -> bool {
    r is Ok && r->Ok_0@ == t && post == pre
}

/// Applies an event and returns a text.
pub fn perform(state: &mut State, event: DomainEvent, text: String, now: Timestamp) -> (r: Result<
    String,
    CommandError,
>)
    requires
        event is SwapRequested ==> crate::journal::next_swap_id(old(state).swap_requests@)
            <= u64::MAX,
        crate::journal::refusal(*old(state), event) is None,
    ensures
        answered(*old(state), *final(state), r, Answer::Does(event, text@), now),
{
    match state.apply_event_at(event, now) {
        Ok(_) => Ok(text),
        Err(e) => Err(CommandError::Refused(e)),
    }
}

// ── Weeks ────────────────────────────────────────────────────────────────────

/// The week that holds a day that a clock shows.
pub fn current_week(today: Date) -> (r: (i32, u32))
    requires
        is_today(today.day as int),
    ensures
        r == this_week(today),
        crate::calendar::is_week(r.0 as int, r.1 as int),
        crate::calendar::week_number(r.0 as int, r.1 as int) == today.week_no(),
        week_start(r.0 as int, r.1 as int) == 7 * today.week_no() + 1,
        MIN_YEAR < r.0 < MAX_YEAR - 1,
        is_year(r.0 as int),
        is_day(week_start(r.0 as int, r.1 as int) + 6),
{
    proof {
        lemma_today(today.day as int);
    }
    let r = week_of(today);
    proof {
        lemma_whole_week(today.day as int, r.0 as int, r.1 as int);
        lemma_today_year(today.day as int, r.0 as int, r.1 as int);
    }
    r
}

/// A year comes before that of a day on which something is planned, and two come after it.
pub proof fn lemma_today_year(day: int, year: int, week: int)
    requires
        is_today(day),
        crate::calendar::is_week(year, week),
        crate::calendar::week_number(year, week) == (day - 1) / 7,
    ensures
        MIN_YEAR < year < MAX_YEAR - 1,
{
    crate::calendar::lemma_monday(year, week);
    crate::calendar::lemma_weeks_in(year);
    reveal(crate::calendar::january_first);
    if year <= MIN_YEAR {
        crate::calendar::lemma_years_apart(year + 1, MIN_YEAR + 1);
    }
    if year > MAX_YEAR - 2 {
        crate::calendar::lemma_years_apart(MAX_YEAR - 1, year);
    }
}

/// A week of a year that is neither the first nor the last one can be represented.
pub proof fn lemma_near_week(year: int, week: int)
    requires
        MIN_YEAR < year < MAX_YEAR,
    ensures
        is_year(year),
        is_day(week_start(year, week) + 6),
{
    lemma_week_start(year, week);
    reveal(crate::calendar::january_first);
}

/// The word "week", in any case of letters.
pub open spec fn is_week_word() -> spec_fn(String) -> bool {
    |a: String| same_name(a@, "week"@)
}

/// The week that a number names: the next one of that number, from the current week on.
pub open spec fn week_named(n: nat, today: Date) -> (i32, u32) {
    let (y, w) = this_week(today);
    if n < w {
        ((y + 1) as i32, n as u32)
    } else {
        (y, n as u32)
    }
}

/// How many arguments stand before an optional clause "week N", and the week it names: the
/// current one without such a clause. Nothing when the clause names no week from 1 to 53.
pub open spec fn week_clause(args: Seq<String>, today: Date) -> Option<(int, (i32, u32))> {
    let p = first_index(args, is_week_word());
    if p < args.len() {
        if p + 1 < args.len() {
            match parsed_up_to(args[p + 1]@, u32::MAX as nat) {
                Some(n) => if 1 <= n <= 53 {
                    Some((p, week_named(n, today)))
                } else {
                    None
                },
                None => None,
            }
        } else {
            None
        }
    } else {
        Some((args.len() as int, this_week(today)))
    }
}

/// Reads an optional clause "week N" at the end of the arguments from a place on.
pub fn extract_week_arg(args: &Vec<String>, from: usize, today: Date) -> (r: Option<
    (usize, (i32, u32)),
>)
    requires
        is_today(today.day as int),
        from <= args@.len(),
    ensures
        (r is Some) == (week_clause(args@.skip(from as int), today) is Some),
        r is Some ==> ((r->0).0 - from, (r->0).1) == week_clause(args@.skip(from as int), today)->0,
        r is Some ==> from <= (r->0).0 <= args@.len() && MIN_YEAR < ((r->0).1).0 < MAX_YEAR,
{
    let ghost rest = args@.skip(from as int);
    let now = current_week(today);
    let mut i: usize = from;
    while i < args.len() && !is_same_name(args[i].as_str(), "week")
        invariant
            from <= i <= args.len(),
            rest == args@.skip(from as int),
            forall|k: int| 0 <= k < i - from ==> !is_week_word()(#[trigger] rest[k]),
        decreases args.len() - i,
    {
        assert(rest[i - from] == args@[i as int]);
        i += 1;
    }
    proof {
        if i < args.len() {
            assert(rest[i - from] == args@[i as int]);
        }
        lemma_first_index(rest, is_week_word(), i - from);
    }
    if i >= args.len() {
        return Some((i, now));
    }
    if i + 1 >= args.len() {
        return None;
    }
    assert(rest[i - from + 1] == args@[i + 1]);
    match parse_up_to(args[i + 1].as_str(), u32::MAX as u64) {
        Some(n) => if 1 <= n && n <= 53 {
            if n < now.1 as u64 {
                Some((i, (now.0 + 1, n as u32)))
            } else {
                Some((i, (now.0, n as u32)))
            }
        } else {
            None
        },
        None => None,
    }
}

/// The turn of a group that a week stands for: the shift that runs today in the current week, and
/// the first one in another week.
pub open spec fn is_turn_meant(turn: Turn, group: CleaningGroup, week: (i32, u32), today: Date) -> bool {
    &&& turn.year == week.0
    &&& turn.week == week.1
    &&& 0 <= turn.shift < group.rhythm.week_shifts().len()
    &&& if week == this_week(today) {
        group.rhythm.week_shifts()[turn.shift as int].start <= weekday(today.day as int)
            <= group.rhythm.week_shifts()[turn.shift as int].end
    } else {
        turn.shift == 0
    }
}

/// The shift of a group that a week stands for.
pub open spec fn shift_meant(group: CleaningGroup, week: (i32, u32), today: Date) -> u8 {
    (choose|turn: Turn| #[trigger] is_turn_meant(turn, group, week, today)).shift
}

/// The turn of a group that a week stands for.
pub open spec fn turn_meant(group: CleaningGroup, week: (i32, u32), today: Date) -> Turn {
    Turn { year: week.0, week: week.1, shift: shift_meant(group, week, today) }
}

/// The turn of a group that a week stands for.
pub fn meant_turn(group: &CleaningGroup, week: (i32, u32), today: Date) -> (r: Turn)
    requires
        is_today(today.day as int),
        is_year(week.0 as int),
        is_day(week_start(week.0 as int, week.1 as int) + 6),
    ensures
        is_turn_meant(r, *group, week, today),
        r == turn_meant(*group, week, today),
        r.wf(),
{
    let now = current_week(today);
    let shift: u8 = if week.0 == now.0 && week.1 == now.1 {
        let d = weekday_of(today);
        group.rhythm.shift_for_weekday(d)
    } else {
        0
    };
    proof {
        crate::rhythm::lemma_shift_count(group.rhythm);
        let r = Turn { year: week.0, week: week.1, shift };
        assert(is_turn_meant(r, *group, week, today));
        let other = choose|turn: Turn| #[trigger] is_turn_meant(turn, *group, week, today);
        if week == this_week(today) {
            crate::rhythm::law_each_weekday_in_one_shift(
                group.rhythm,
                weekday(today.day as int),
            );
            assert(group.rhythm.week_shifts()[other.shift as int].start <= weekday(
                today.day as int,
            ));
            assert(group.rhythm.week_shifts()[shift as int].start <= weekday(today.day as int));
        }
        assert(other.shift == shift);
    }
    Turn { year: week.0, week: week.1, shift }
}

// ── Texts ────────────────────────────────────────────────────────────────────

/// A person by name and Matrix id.
pub open spec fn full_label(p: Person) -> Seq<char> {
    match p.matrix_id {
        Some(m) => if p.display_name@ != m@ {
            p.display_name@ + " ("@ + m@ + ")"@
        } else {
            m@
        },
        None => p.display_name@ + " (no Matrix)"@,
    }
}

/// A person by name and Matrix id.
pub fn person_label(p: &Person) -> (r: String)
    ensures
        r@ == full_label(*p),
{
    match &p.matrix_id {
        Some(m) => if !same_text(p.display_name.as_str(), m.as_str()) {
            p.display_name.clone().concat(" (").concat(m.as_str()).concat(")")
        } else {
            m.clone()
        },
        None => p.display_name.clone().concat(" (no Matrix)"),
    }
}

/// A person by name and Matrix id, or that it is nobody.
pub open spec fn label_or_nobody(p: Option<Person>) -> Seq<char> {
    match p {
        Some(p) => full_label(p),
        None => "nobody"@,
    }
}

/// The name of a slot of a group after a separator; nothing for groups without slots.
pub open spec fn slot_suffix(group: CleaningGroup, slot: int, before: Seq<char>) -> Seq<char> {
    if slot < group.slots@.len() {
        before + group.slots@[slot].name@
    } else {
        ""@
    }
}

/// The name of a slot of a group after a separator.
pub fn slot_ending(group: &CleaningGroup, slot: usize, before: &str) -> (r: String)
    ensures
        r@ == slot_suffix(*group, slot as int, before@),
{
    if slot < group.slots.len() {
        before.to_owned().concat(group.slots[slot].name.as_str())
    } else {
        "".to_owned()
    }
}

/// That there is no group of a name.
pub open spec fn no_group_text(name: Seq<char>) -> Seq<char> {
    "Group «"@ + name + "» not found."@
}

/// That there is no group of a name.
pub fn no_group(name: &str) -> (r: String)
    ensures
        r@ == no_group_text(name@),
{
    "Group «".to_owned().concat(name).concat("» not found.")
}

/// The names of slots, joined by commas.
pub fn slots_list(group: &CleaningGroup) -> (r: String)
    ensures
        r@ == join(slot_names(group.slots@), ", "@),
{
    let mut names: Vec<String> = Vec::new();
    let mut i: usize = 0;
    assert(views(names@) =~= slot_names(group.slots@).take(0));
    while i < group.slots.len()
        invariant
            i <= group.slots.len(),
            views(names@) == slot_names(group.slots@).take(i as int),
        decreases group.slots.len() - i,
    {
        let name = group.slots[i].name.clone();
        proof {
            lemma_views_push(names@, name);
            assert(slot_names(group.slots@).take(i + 1) =~= slot_names(group.slots@).take(
                i as int,
            ).push(name@));
        }
        names.push(name);
        i += 1;
    }
    assert(slot_names(group.slots@).take(i as int) =~= slot_names(group.slots@));
    join_texts(&names, ", ")
}

/// A week by number and days: "12 (18 – 24 Mar)".
pub open spec fn week_label(week: (i32, u32)) -> Seq<char> {
    decimal(week.1 as nat) + " ("@ + week_text(week.0 as int, week.1 as int) + ")"@
}

/// A week by number and days.
pub fn show_week(week: (i32, u32)) -> (r: String)
    requires
        is_year(week.0 as int),
        is_day(week_start(week.0 as int, week.1 as int) + 6),
    ensures
        r@ == week_label(week),
{
    show(week.1 as u64).concat(" (").concat(week_dates(week.0, week.1).as_str()).concat(")")
}

// ── Groups and slots ─────────────────────────────────────────────────────────

/// What arguments name.
pub enum Target {
    /// A group, one of its slots, and how many arguments after the group's name were read.
    Found(CleaningGroup, int, int),
    /// Nothing, and what to say about it.
    Wrong(Seq<char>),
}

/// The group of a name, and the slot that the next argument names: a group with slots needs one.
pub open spec fn group_and_slot(state: State, name: Seq<char>, rest: Seq<String>) -> Target {
    match state.group_of_name(name) {
        None => Target::Wrong(no_group_text(name)),
        Some(g) => if g.slots@.len() > 0 {
            if rest.len() > 0 && some(g.slots@, slot_named(rest[0]@)) {
                Target::Found(g, first_index(g.slots@, slot_named(rest[0]@)), 1)
            } else {
                Target::Wrong(
                    "«"@ + name + "» has slots. Specify one: "@ + join(
                        slot_names(g.slots@),
                        ", "@,
                    ),
                )
            }
        } else {
            Target::Found(g, 0, 0)
        },
    }
}

/// The place of the first group of a name.
pub fn group_position_by_name(state: &State, name: &str) -> (r: Option<usize>)
    ensures
        (r is Some) == (state.group_of_name(name@) is Some),
        r is Some ==> r->0 < state.cleaning_groups@.len() && state.cleaning_groups@[r->0 as int]
            == state.group_of_name(name@)->0 && r->0 == first_index(
            state.cleaning_groups@,
            crate::state::group_named(name@),
        ),
{
    let ghost p = crate::state::group_named(name@);
    let mut i: usize = 0;
    while i < state.cleaning_groups.len()
        invariant
            i <= state.cleaning_groups.len(),
            p == crate::state::group_named(name@),
            forall|k: int| 0 <= k < i ==> !p(#[trigger] state.cleaning_groups@[k]),
        decreases state.cleaning_groups.len() - i,
    {
        if is_same_name(state.cleaning_groups[i].name.as_str(), name) {
            proof {
                lemma_first_index(state.cleaning_groups@, p, i as int);
            }
            return Some(i);
        }
        i += 1;
    }
    proof {
        lemma_first_index(state.cleaning_groups@, p, i as int);
    }
    None
}

/// A group that is in a state is known by its id.
pub proof fn lemma_group_known(state: State, i: int)
    requires
        0 <= i < state.cleaning_groups@.len(),
    ensures
        state.group(state.cleaning_groups@[i].id@) is Some,
{
    let p = crate::state::group_with_id(state.cleaning_groups@[i].id@);
    assert(p(state.cleaning_groups@[i]));
    crate::lists::lemma_some(state.cleaning_groups@, p);
}

/// Resolves a group's name and, for a group with slots, the argument at `from` as a slot's name.
/// Returns the places of both and that of the first argument that was not read.
pub fn resolve_group_and_slot(
    state: &State,
    group_name: &str,
    args: &Vec<String>,
    from: usize,
    to: usize,
) -> (r: Result<(usize, usize, usize), String>)
    requires
        from <= to <= args@.len(),
    ensures
        match group_and_slot(
            *state,
            group_name@,
            args@.subrange(from as int, to as int),
        ) {
            Target::Found(g, slot, used) => {
                &&& r is Ok
                &&& r->Ok_0.0 < state.cleaning_groups@.len()
                &&& state.cleaning_groups@[r->Ok_0.0 as int] == g
                &&& r->Ok_0.1 == slot
                &&& r->Ok_0.2 == from + used
                &&& r->Ok_0.2 <= to
            },
            Target::Wrong(t) => r is Err && r->Err_0@ == t,
        },
{
    let ghost rest = args@.subrange(from as int, to as int);
    match group_position_by_name(state, group_name) {
        None => Err(no_group(group_name)),
        Some(i) => {
            let group = &state.cleaning_groups[i];
            if group.slots.len() > 0 {
                if from < to {
                    assert(rest[0] == args@[from as int]);
                    match group.slot_position(args[from].as_str()) {
                        Some(k) => {
                            return Ok((i, k, from + 1));
                        },
                        None => {},
                    }
                }
                Err(
                    "«".to_owned().concat(group_name).concat("» has slots. Specify one: ").concat(
                        slots_list(group).as_str(),
                    ),
                )
            } else {
                Ok((i, 0, from))
            }
        },
    }
}

// ── Matrix ids ───────────────────────────────────────────────────────────────

/// That a text is no Matrix id.
pub open spec fn bad_user_id_text(mxid: Seq<char>) -> Seq<char> {
    "«"@ + mxid + "» is not a valid Matrix user ID. Use @user:server."@
}

/// What there is to say about a text that is meant as a Matrix id, given whether it is one.
pub fn user_id_verdict(mxid: &str, valid: bool) -> (r: Result<(), String>)
    ensures
        (r is Ok) == valid,
        r is Err ==> r->Err_0@ == bad_user_id_text(mxid@),
{
    if valid {
        Ok(())
    } else {
        Err("«".to_owned().concat(mxid).concat("» is not a valid Matrix user ID. Use @user:server."))
    }
}

/// Whether a text is the id of a Matrix user.
pub fn validate_matrix_user_id(mxid: &str) -> (r: Result<(), String>)
    ensures
        (r is Ok) == is_user_id(mxid@),
        r is Err ==> r->Err_0@ == bad_user_id_text(mxid@),
{
    user_id_verdict(mxid, reads_as_user_id(mxid))
}

} // verus!
