//! Taking over a plan that was made elsewhere.

use vstd::prelude::*;

use crate::analytics::DomainEvent;
use crate::calendar::{is_today, Date};
use crate::commands::base::{
    answered, current_week, full_label, group_and_slot, group_position_by_name, label_or_nobody,
    lemma_group_known, meant_turn, no_group, no_group_text, person_label, resolve_group_and_slot,
    show_week, slot_ending, slot_suffix, slots_list, turn_meant, week_label, Answer, CommandError, Request,
    Target,
};
use crate::course::{planned_group, plans};
use crate::domain::{slot_named, slot_names, AssignmentSource, CleaningGroup, Person};
use crate::lists::{filter_map, first_index, lemma_filter_map_step, lemma_filter_step, some};
use crate::planning::{is_known, known, this_week, turn_fits};
use crate::rhythm::Turn;
use crate::state::State;
use crate::text::{
    chars_of, contains_text, copy_texts, decimal, find_char, first_at, join, join_texts, lemma_views_push,
    option_is, parse_i32, says, parse_up_to, parsed_i32, parsed_up_to, same_text, show, text_of, views,
};

verus! {

/// How `!importplan` is used.
pub const IMPORT_USAGE: &'static str = "Usage: !importplan [--replace] <YYYY-Www> <group>[/<slot>] <person> [; <YYYY-Www> <group>[/<slot>] <person> ...]";

// ── Weeks as text ────────────────────────────────────────────────────────────

/// The first place where two characters follow each other, or the length.
pub open spec fn two_at(t: Seq<char>, a: char, b: char) -> int
    decreases t.len(),
{
    if t.len() < 2 {
        t.len() as int
    } else if t[0] == a && t[1] == b {
        0
    } else {
        1 + two_at(t.skip(1), a, b)
    }
}

/// Where two characters follow each other.
proof fn lemma_two_at(t: Seq<char>, a: char, b: char, i: int)
    requires
        0 <= i <= t.len(),
        forall|k: int| 0 <= k < i && k + 1 < t.len() ==> !(#[trigger] t[k] == a && t[k + 1] == b),
        i == t.len() || (i + 1 < t.len() && t[i] == a && t[i + 1] == b),
    ensures
        two_at(t, a, b) == i,
    decreases t.len(),
{
    if t.len() >= 2 && i > 0 {
        let u = t.skip(1);
        assert(!(t[0] == a && t[1] == b));
        assert forall|k: int| 0 <= k < i - 1 && k + 1 < u.len() implies !(#[trigger] u[k] == a
            && u[k + 1] == b) by {
            assert(u[k] == t[k + 1] && u[k + 1] == t[k + 2]);
        }
        lemma_two_at(u, a, b, i - 1);
    }
}

/// Finds the first place where two characters follow each other.
fn find_two(v: &Vec<char>, a: char, b: char) -> (r: usize)
    ensures
        r == two_at(v@, a, b),
        r <= v@.len(),
        r < v@.len() ==> r + 1 < v@.len(),
{
    let mut i: usize = 0;
    while v.len() - i > 1 && !(v[i] == a && v[i + 1] == b)
        invariant
            v@.len() > 0 ==> i < v@.len(),
            v@.len() == 0 ==> i == 0,
            forall|k: int|
                0 <= k < i && k + 1 < v@.len() ==> !(#[trigger] v@[k] == a && v@[k + 1] == b),
        decreases v.len() - i,
    {
        i += 1;
    }
    if v.len() - i > 1 {
        proof {
            lemma_two_at(v@, a, b, i as int);
        }
        i
    } else {
        proof {
            lemma_two_at(v@, a, b, v@.len() as int);
        }
        v.len()
    }
}

/// The number of a year before a place and of a week from 1 to 53 after it.
pub open spec fn year_and_week(t: Seq<char>, i: int) -> Option<(i32, u32)> {
    match (parsed_i32(t.subrange(0, i)), parsed_up_to(t.skip(i + 2), u32::MAX as nat)) {
        (Some(y), Some(w)) => if 1 <= w <= 53 {
            Some((y as i32, w as u32))
        } else {
            None
        },
        _ => None,
    }
}

/// The week of a text such as "2025-W36".
pub open spec fn iso_week(t: Seq<char>) -> Option<(i32, u32)> {
    let big = two_at(t, '-', 'W');
    let small = two_at(t, '-', 'w');
    if big < t.len() {
        year_and_week(t, big)
    } else if small < t.len() {
        year_and_week(t, small)
    } else {
        None
    }
}

/// The week of a text such as "2025-W36".
pub fn parse_iso_week_token(s: &str) -> (r: Option<(i32, u32)>)
    ensures
        r == iso_week(s@),
{
    let v = chars_of(s);
    let big = find_two(&v, '-', 'W');
    let i: usize = if big < v.len() {
        big
    } else {
        find_two(&v, '-', 'w')
    };
    if i >= v.len() {
        return None;
    }
    let year = text_of(&v, 0, i);
    let week = text_of(&v, i + 2, v.len());
    assert(week@ =~= s@.skip(i + 2));
    match parse_i32(year.as_str()) {
        Some(y) => match parse_up_to(week.as_str(), u32::MAX as u64) {
            Some(w) => if 1 <= w && w <= 53 {
                Some((y, w as u32))
            } else {
                None
            },
            None => None,
        },
        None => None,
    }
}

// ── Entries ──────────────────────────────────────────────────────────────────

/// The arguments up to those that are a semicolon, in parts that are not empty; `open` is the
/// part that is being read.
pub open spec fn parts(args: Seq<String>) -> (Seq<Seq<String>>, Seq<String>)
    decreases args.len(),
{
    if args.len() == 0 {
        (Seq::empty(), Seq::empty())
    } else {
        let (done, open) = parts(args.drop_last());
        if args.last()@ == ";"@ {
            if open.len() > 0 {
                (done.push(open), Seq::empty())
            } else {
                (done, open)
            }
        } else {
            (done, open.push(args.last()))
        }
    }
}

/// The entries of an import.
pub open spec fn entries(args: Seq<String>) -> Seq<Seq<String>> {
    let (done, open) = parts(args);
    if open.len() > 0 {
        done.push(open)
    } else {
        done
    }
}

/// The lists that vectors hold.
pub open spec fn lists_of(v: Seq<Vec<String>>) -> Seq<Seq<String>> {
    v.map_values(|x: Vec<String>| x@)
}

/// Splits arguments at semicolons.
fn split_entries(args: &Vec<String>) -> (r: Vec<Vec<String>>)
    ensures
        lists_of(r@) == entries(args@),
        forall|i: int| 0 <= i < r@.len() ==> (#[trigger] r@[i])@.len() > 0,
{
    let mut done: Vec<Vec<String>> = Vec::new();
    let mut open: Vec<String> = Vec::new();
    let mut i: usize = 0;
    assert(args@.take(0) =~= Seq::<String>::empty());
    assert(lists_of(done@) =~= Seq::<Seq<String>>::empty());
    while i < args.len()
        invariant
            i <= args.len(),
            (lists_of(done@), open@) == parts(args@.take(i as int)),
            forall|k: int| 0 <= k < done@.len() ==> (#[trigger] done@[k])@.len() > 0,
        decreases args.len() - i,
    {
        proof {
            assert(args@.take(i + 1).drop_last() =~= args@.take(i as int));
            assert(args@.take(i + 1).last() == args@[i as int]);
        }
        if same_text(args[i].as_str(), ";") {
            if open.len() > 0 {
                let part = copy_texts(&open);
                proof {
                    assert(lists_of(done@.push(part)) =~= lists_of(done@).push(part@));
                }
                done.push(part);
                open.clear();
            }
        } else {
            open.push(args[i].clone());
        }
        i += 1;
    }
    assert(args@.take(i as int) =~= args@);
    if open.len() > 0 {
        assert(lists_of(done@.push(open)) =~= lists_of(done@).push(open@));
        done.push(open);
    }
    done
}

/// What an entry asks for.
pub struct Import {
    pub raw: Seq<char>,
    pub group: CleaningGroup,
    pub slot: int,
    pub week: (i32, u32),
    pub person: Person,
}

/// An entry that was read.
pub enum Reading {
    Bad(Seq<char>),
    Good(Import),
}

/// The group and slot that an argument names, written with a slash, or that it and the next one
/// name.
pub open spec fn import_target(state: State, token: Seq<char>, rest: Seq<String>) -> Target {
    let i = first_at(token, '/');
    if state.group_of_name(token) is Some || i >= token.len() {
        group_and_slot(state, token, rest)
    } else {
        let name = token.subrange(0, i);
        let slot = token.skip(i + 1);
        match state.group_of_name(name) {
            None => Target::Wrong(no_group_text(name)),
            Some(g) => if g.slots@.len() == 0 {
                Target::Wrong("«"@ + name + "» does not have slots."@)
            } else if some(g.slots@, slot_named(slot)) {
                Target::Found(g, first_index(g.slots@, slot_named(slot)), 0)
            } else {
                Target::Wrong(
                    "«"@ + name + "» has slots. Specify one: "@ + join(
                        slot_names(g.slots@),
                        ", "@,
                    ),
                )
            },
        }
    }
}

/// Resolves what `import_target` says, for the arguments from `from` on.
fn resolve_import(state: &State, token: &str, args: &Vec<String>, from: usize) -> (r: Result<
    (usize, usize, usize),
    String,
>)
    requires
        from <= args@.len(),
    ensures
        match import_target(*state, token@, args@.skip(from as int)) {
            Target::Found(g, slot, used) => {
                &&& r is Ok
                &&& r->Ok_0.0 < state.cleaning_groups@.len()
                &&& state.cleaning_groups@[r->Ok_0.0 as int] == g
                &&& r->Ok_0.1 == slot
                &&& r->Ok_0.2 == from + used
                &&& r->Ok_0.2 <= args@.len()
            },
            Target::Wrong(t) => r is Err && r->Err_0@ == t,
        },
{
    let v = chars_of(token);
    let i = find_char(&v, 0, '/');
    assert(v@.skip(0) =~= token@);
    assert(args@.subrange(from as int, args@.len() as int) =~= args@.skip(from as int));
    if i >= v.len() || group_position_by_name(state, token).is_some() {
        return resolve_group_and_slot(state, token, args, from, args.len());
    }
    let name = text_of(&v, 0, i);
    let slot = text_of(&v, i + 1, v.len());
    assert(slot@ =~= token@.skip(i + 1));
    match group_position_by_name(state, name.as_str()) {
        None => Err(no_group(name.as_str())),
        Some(g) => {
            let group = &state.cleaning_groups[g];
            if group.slots.len() == 0 {
                return Err(
                    "«".to_owned().concat(name.as_str()).concat("» does not have slots."),
                );
            }
            match group.slot_position(slot.as_str()) {
                Some(k) => Ok((g, k, from)),
                None => Err(
                    "«".to_owned().concat(name.as_str()).concat(
                        "» has slots. Specify one: ",
                    ).concat(slots_list(group).as_str()),
                ),
            }
        },
    }
}

/// Whether a week comes before another.
pub open spec fn earlier_week(week: (i32, u32), than: (i32, u32)) -> bool {
    week.0 < than.0 || (week.0 == than.0 && week.1 < than.1)
}

/// Whether the days of a week can be represented.
pub open spec fn week_ok(week: (i32, u32)) -> bool {
    Turn { year: week.0, week: week.1, shift: 0 }.wf()
}

/// What an entry says.
pub open spec fn read_entry(state: State, today: Date, chunk: Seq<String>) -> Reading {
    let raw = join(views(chunk), " "@);
    let bad_week = "«"@ + raw + "»: «"@ + chunk[0]@
        + "» is not a valid ISO week (expected YYYY-Www)."@;
    match iso_week(chunk[0]@) {
        None => Reading::Bad(bad_week),
        Some(week) => if !week_ok(week) {
            Reading::Bad(bad_week)
        } else if earlier_week(week, this_week(today)) {
            Reading::Bad("«"@ + raw + "»: week "@ + week_label(week) + " is in the past."@)
        } else if chunk.len() < 2 {
            Reading::Bad("«"@ + raw + "» — "@ + IMPORT_USAGE@)
        } else {
            match import_target(state, chunk[1]@, chunk.skip(2)) {
                Target::Wrong(t) => Reading::Bad("«"@ + raw + "»: "@ + t),
                Target::Found(g, slot, used) => if chunk.len() == 2 + used {
                    Reading::Bad("«"@ + raw + "» — "@ + IMPORT_USAGE@)
                } else if chunk.len() > 3 + used {
                    Reading::Bad("«"@ + raw + "»: unexpected extra text after the person."@)
                } else {
                    match state.person_named(chunk[2 + used]@) {
                        None => Reading::Bad(
                            "«"@ + raw + "»: «"@ + chunk[2 + used]@
                                + "» is not registered. Use !adduser or !addperson first."@,
                        ),
                        Some(person) => Reading::Good(
                            Import { raw, group: g, slot, week, person },
                        ),
                    }
                },
            }
        },
    }
}

/// What an entry asks for, by places in the state.
pub struct PlannedImport {
    pub raw: String,
    pub group: usize,
    pub slot: usize,
    pub year: i32,
    pub week: u32,
    pub person: Person,
}

/// Whether a planned import asks for something.
pub open spec fn asks(p: PlannedImport, state: State, x: Import) -> bool {
    &&& p.raw@ == x.raw
    &&& p.group < state.cleaning_groups@.len()
    &&& state.cleaning_groups@[p.group as int] == x.group
    &&& p.slot == x.slot
    &&& (p.year, p.week) == x.week
    &&& p.person == x.person
    &&& week_ok(x.week)
}

/// Reads an entry.
fn read_import(state: &State, today: Date, chunk: &Vec<String>) -> (r: Result<
    PlannedImport,
    String,
>)
    requires
        is_today(today.day as int),
        chunk@.len() > 0,
    ensures
        match read_entry(*state, today, chunk@) {
            Reading::Bad(t) => r is Err && r->Err_0@ == t,
            Reading::Good(x) => r is Ok && asks(r->Ok_0, *state, x),
        },
{
    let raw = join_texts(chunk, " ");
    let now = current_week(today);
    let week = match parse_iso_week_token(chunk[0].as_str()) {
        Some(week) if turn_fits(Turn { year: week.0, week: week.1, shift: 0 }) => week,
        _ => {
            return Err(
                "«".to_owned().concat(raw.as_str()).concat("»: «").concat(
                    chunk[0].as_str(),
                ).concat("» is not a valid ISO week (expected YYYY-Www)."),
            );
        },
    };
    if week.0 < now.0 || (week.0 == now.0 && week.1 < now.1) {
        return Err(
            "«".to_owned().concat(raw.as_str()).concat("»: week ").concat(
                show_week(week).as_str(),
            ).concat(" is in the past."),
        );
    }
    if chunk.len() < 2 {
        return Err("«".to_owned().concat(raw.as_str()).concat("» — ").concat(IMPORT_USAGE));
    }
    let (group, slot, at) = match resolve_import(state, chunk[1].as_str(), chunk, 2) {
        Ok(v) => v,
        Err(t) => {
            return Err("«".to_owned().concat(raw.as_str()).concat("»: ").concat(t.as_str()));
        },
    };
    if at == chunk.len() {
        return Err("«".to_owned().concat(raw.as_str()).concat("» — ").concat(IMPORT_USAGE));
    }
    if chunk.len() - at > 1 {
        return Err(
            "«".to_owned().concat(raw.as_str()).concat(
                "»: unexpected extra text after the person.",
            ),
        );
    }
    match state.find_person(chunk[at].as_str()) {
        Some(p) => Ok(
            PlannedImport { raw, group, slot, year: week.0, week: week.1, person: p.copy() },
        ),
        None => Err(
            "«".to_owned().concat(raw.as_str()).concat("»: «").concat(chunk[at].as_str()).concat(
                "» is not registered. Use !adduser or !addperson first.",
            ),
        ),
    }
}

// ── What becomes of the entries ──────────────────────────────────────────────

/// What an entry that cannot be read comes with.
pub open spec fn complaint() -> spec_fn(Reading) -> Option<Seq<char>> {
    |r: Reading|
        match r {
            Reading::Bad(t) => Some(t),
            Reading::Good(x) => None,
        }
}

/// What an entry that can be read asks for.
pub open spec fn wish() -> spec_fn(Reading) -> Option<Import> {
    |r: Reading|
        match r {
            Reading::Bad(t) => None,
            Reading::Good(x) => Some(x),
        }
}

/// The entries as they read.
pub open spec fn readings(state: State, today: Date, chunks: Seq<Seq<String>>) -> Seq<Reading> {
    chunks.map_values(|c: Seq<String>| read_entry(state, today, c))
}

/// Where an entry goes: "Kitchen/Sink".
pub open spec fn place_text(x: Import) -> Seq<char> {
    x.group.name@ + slot_suffix(x.group, x.slot, "/"@)
}

/// Whether two entries give the same slot of the same week to different persons.
pub open spec fn clash(a: Import, b: Import) -> bool {
    &&& a.group.id@ == b.group.id@
    &&& a.slot == b.slot
    &&& a.week == b.week
    &&& a.person.id@ != b.person.id@
}

/// That an entry claims what another one claims.
pub open spec fn claim(a: Import) -> spec_fn(Import) -> Option<Seq<char>> {
    |b: Import|
        if clash(a, b) {
            Some(
                "«"@ + a.raw + "» and «"@ + b.raw + "» both claim "@ + place_text(a) + " week "@
                    + decimal(a.week.1 as nat) + " — conflicting entries in this import."@,
            )
        } else {
            None
        }
}

/// What there is to say about claims of the first `n` entries that later ones make too.
pub open spec fn claims(s: Seq<Import>, n: int) -> Seq<Seq<char>>
    decreases n,
{
    if n <= 0 {
        Seq::empty()
    } else {
        claims(s, n - 1) + filter_map(s.skip(n), claim(s[n - 1]))
    }
}

/// What becomes of an entry.
pub enum Fate {
    /// It is in the plan already.
    Same,
    /// It fills an open place.
    Fill,
    /// It takes the place of somebody, or of nobody.
    Replace(Option<Person>),
    /// It cannot be taken over.
    Blocked(Seq<char>),
}

/// The turn that an entry is about.
pub open spec fn import_turn(x: Import, today: Date) -> Turn {
    turn_meant(x.group, x.week, today)
}

/// Who holds a frozen assignment.
pub open spec fn holder(state: State, person_id: Option<String>) -> Option<Person> {
    match person_id {
        Some(id) => state.person(id@),
        None => None,
    }
}

/// What becomes of an entry: a turn that is done is never touched, and one that is given to
/// somebody else only when that may be replaced.
pub open spec fn fate(state: State, today: Date, replace: bool, x: Import) -> Fate {
    let turn = import_turn(x, today);
    let frozen = state.assignment(x.group.id@, x.slot, turn);
    let prefix = "«"@ + x.raw + "»: "@ + place_text(x) + " for week "@ + week_label(x.week);
    if frozen is Some && frozen->0.person_id is Some && frozen->0.person_id->0@ == x.person.id@ {
        Fate::Same
    } else if state.slot_done(x.group, x.slot, turn) {
        Fate::Blocked(
            prefix + " is already completed/skipped — cannot import over a finished week."@,
        )
    } else {
        match frozen {
            None => Fate::Fill,
            Some(a) => if replace {
                Fate::Replace(holder(state, a.person_id))
            } else {
                Fate::Blocked(
                    prefix + " is already assigned to "@ + label_or_nobody(
                        holder(state, a.person_id),
                    ) + " — use !importplan --replace to override, or !unassign it first."@,
                )
            },
        }
    }
}

/// What keeps an entry from being taken over.
pub open spec fn obstacle(state: State, today: Date, replace: bool) -> spec_fn(Import) -> Option<
    Seq<char>,
> {
    |x: Import|
        match fate(state, today, replace, x) {
            Fate::Blocked(t) => Some(t),
            _ => None,
        }
}

/// The event that takes an entry over.
pub open spec fn import_event(req: Request, x: Import) -> DomainEvent {
    let turn = import_turn(x, req.today);
    DomainEvent::SlotAssigned {
        group_id: x.group.id,
        slot_index: x.slot as usize,
        iso_year: turn.year,
        iso_week: turn.week,
        shift: turn.shift,
        person_id: Some(x.person.id),
        source: AssignmentSource::Import,
        actor_id: Some(req.sender),
        previous_person_id: None,
    }
}

/// The line about an entry that is taken over.
pub open spec fn import_line(x: Import, how: Seq<char>) -> Seq<char> {
    "• "@ + place_text(x) + " week "@ + week_label(x.week) + " → "@ + full_label(x.person) + " ("@
        + how + ")"@
}

/// The entries that fill open places, as events.
pub open spec fn additions(state: State, req: Request, replace: bool) -> spec_fn(Import) -> Option<
    DomainEvent,
> {
    |x: Import|
        if fate(state, req.today, replace, x) is Fill {
            Some(import_event(req, x))
        } else {
            None
        }
}

/// The entries that take the place of others, as events.
pub open spec fn replacements(state: State, req: Request, replace: bool) -> spec_fn(
    Import,
) -> Option<DomainEvent> {
    |x: Import|
        if fate(state, req.today, replace, x) is Replace {
            Some(import_event(req, x))
        } else {
            None
        }
}

/// The entries that fill open places, as lines.
pub open spec fn addition_lines(state: State, today: Date, replace: bool) -> spec_fn(
    Import,
) -> Option<Seq<char>> {
    |x: Import|
        if fate(state, today, replace, x) is Fill {
            Some(import_line(x, "added"@))
        } else {
            None
        }
}

/// The entries that take the place of others, as lines.
pub open spec fn replacement_lines(state: State, today: Date, replace: bool) -> spec_fn(
    Import,
) -> Option<Seq<char>> {
    |x: Import|
        match fate(state, today, replace, x) {
            Fate::Replace(p) => Some(import_line(x, "replaced "@ + label_or_nobody(p))),
            _ => None,
        }
}

/// The entries that are in the plan already.
pub open spec fn unchanged(state: State, today: Date, replace: bool) -> spec_fn(Import) -> Option<
    (),
> {
    |x: Import|
        if fate(state, today, replace, x) is Same {
            Some(())
        } else {
            None
        }
}

/// The option that lets an import replace assignments.
pub open spec fn no_option() -> spec_fn(String) -> bool {
    |a: String| a@ != "--replace"@
}

/// What an import of entries does.
pub open spec fn import_of(state: State, req: Request, replace: bool, rs: Seq<Reading>) -> Answer {
    let wishes = filter_map(rs, wish());
    let problems = filter_map(rs, complaint()) + claims(wishes, wishes.len() as int) + filter_map(
        wishes,
        obstacle(state, req.today, replace),
    );
    let added = filter_map(wishes, additions(state, req, replace));
    let moved = filter_map(wishes, replacements(state, req, replace));
    let same = filter_map(wishes, unchanged(state, req.today, replace)).len();
    if problems.len() > 0 {
        Answer::Says(
            "❌ Import aborted, no changes made — "@ + decimal(problems.len()) + " problem(s):\n"@
                + join(problems, "\n"@),
        )
    } else if added.len() == 0 && moved.len() == 0 {
        Answer::Says(
            "✅ Nothing to do — all "@ + decimal(same) + " entr"@ + (if same == 1 {
                "y"@
            } else {
                "ies"@
            }) + " already imported."@,
        )
    } else {
        Answer::Runs(
            added + moved,
            "✅ Import complete — "@ + decimal(added.len()) + " added, "@ + decimal(moved.len())
                + " replaced, "@ + decimal(same) + " unchanged:\n"@ + join(
                filter_map(wishes, addition_lines(state, req.today, replace)) + filter_map(
                    wishes,
                    replacement_lines(state, req.today, replace),
                ),
                "\n"@,
            ),
        )
    }
}

/// What `!importplan` does: every entry is taken over, or, when there is a problem with any of
/// them, none is.
pub open spec fn import_answer(state: State, req: Request, args: Seq<String>) -> Answer {
    let plain = args.filter(no_option());
    let chunks = entries(plain);
    if !req.is_admin {
        Answer::Fails(CommandError::NotAdmin)
    } else if !known(state, req.today) {
        Answer::Fails(CommandError::OutOfRange)
    } else if chunks.len() == 0 {
        Answer::Says(IMPORT_USAGE@)
    } else {
        import_of(state, req, says(args, "--replace"@), readings(state, req.today, chunks))
    }
}

/// The arguments that are not the option.
fn plain_args(args: &Vec<String>) -> (r: Vec<String>)
    ensures
        r@ == args@.filter(no_option()),
{
    let mut r: Vec<String> = Vec::new();
    let mut i: usize = 0;
    assert(args@.take(0).filter(no_option()) =~= Seq::<String>::empty()) by {
        reveal(Seq::filter);
    }
    while i < args.len()
        invariant
            i <= args.len(),
            r@ == args@.take(i as int).filter(no_option()),
        decreases args.len() - i,
    {
        proof {
            lemma_filter_step(args@, no_option(), i as int);
        }
        if !same_text(args[i].as_str(), "--replace") {
            r.push(args[i].clone());
        }
        i += 1;
    }
    assert(args@.take(i as int) =~= args@);
    r
}

/// Whether planned imports ask for something, one by one.
pub open spec fn all_ask(planned: Seq<PlannedImport>, state: State, wishes: Seq<Import>) -> bool {
    &&& planned.len() == wishes.len()
    &&& forall|i: int| 0 <= i < planned.len() ==> asks(#[trigger] planned[i], state, wishes[i])
}

/// Reads all entries: what they ask for, and what is wrong with the others.
fn read_all(state: &State, today: Date, chunks: &Vec<Vec<String>>) -> (r: (
    Vec<PlannedImport>,
    Vec<String>,
))
    requires
        is_today(today.day as int),
        forall|i: int| 0 <= i < chunks@.len() ==> (#[trigger] chunks@[i])@.len() > 0,
    ensures
        all_ask(
            r.0@,
            *state,
            filter_map(readings(*state, today, lists_of(chunks@)), wish()),
        ),
        views(r.1@) == filter_map(readings(*state, today, lists_of(chunks@)), complaint()),
{
    let ghost rs = readings(*state, today, lists_of(chunks@));
    let mut planned: Vec<PlannedImport> = Vec::new();
    let mut problems: Vec<String> = Vec::new();
    let mut i: usize = 0;
    assert(views(problems@) =~= Seq::<Seq<char>>::empty());
    while i < chunks.len()
        invariant
            i <= chunks.len(),
            is_today(today.day as int),
            forall|k: int| 0 <= k < chunks@.len() ==> (#[trigger] chunks@[k])@.len() > 0,
            rs == readings(*state, today, lists_of(chunks@)),
            rs.len() == chunks@.len(),
            all_ask(planned@, *state, filter_map(rs.take(i as int), wish())),
            views(problems@) == filter_map(rs.take(i as int), complaint()),
        decreases chunks.len() - i,
    {
        proof {
            lemma_filter_map_step(rs, wish(), i as int);
            lemma_filter_map_step(rs, complaint(), i as int);
            assert(rs[i as int] == read_entry(*state, today, chunks@[i as int]@));
        }
        match read_import(state, today, &chunks[i]) {
            Ok(p) => {
                planned.push(p);
            },
            Err(t) => {
                proof {
                    lemma_views_push(problems@, t);
                }
                problems.push(t);
            },
        }
        i += 1;
    }
    assert(rs.take(i as int) =~= rs);
    (planned, problems)
}

/// Where an entry goes.
fn show_place(state: &State, p: &PlannedImport, Ghost(x): Ghost<Import>) -> (r: String)
    requires
        asks(*p, *state, x),
    ensures
        r@ == place_text(x),
{
    let group = &state.cleaning_groups[p.group];
    group.name.clone().concat(slot_ending(group, p.slot, "/").as_str())
}

/// Adds what there is to say about entries that claim the same.
fn add_claims(
    state: &State,
    planned: &Vec<PlannedImport>,
    problems: &mut Vec<String>,
    Ghost(wishes): Ghost<Seq<Import>>,
)
    requires
        all_ask(planned@, *state, wishes),
    ensures
        views(final(problems)@) == views(old(problems)@) + claims(wishes, wishes.len() as int),
{
    let ghost before = views(problems@);
    let mut i: usize = 0;
    assert(views(problems@) =~= before + claims(wishes, 0));
    while i < planned.len()
        invariant
            i <= planned.len(),
            all_ask(planned@, *state, wishes),
            views(problems@) == before + claims(wishes, i as int),
        decreases planned.len() - i,
    {
        let ghost x = wishes[i as int];
        let ghost rest = wishes.skip(i + 1);
        let ghost so_far = views(problems@);
        let mut j: usize = i + 1;
        assert(asks(planned@[i as int], *state, x));
        assert(rest.take(0) =~= Seq::<Import>::empty());
        assert(views(problems@) =~= so_far + filter_map(rest.take(0), claim(x)));
        while j < planned.len()
            invariant
                i < j <= planned.len(),
                all_ask(planned@, *state, wishes),
                x == wishes[i as int],
                asks(planned@[i as int], *state, x),
                rest == wishes.skip(i + 1),
                views(problems@) == so_far + filter_map(rest.take(j - i - 1), claim(x)),
            decreases planned.len() - j,
        {
            let ghost y = wishes[j as int];
            proof {
                lemma_filter_map_step(rest, claim(x), j - i - 1);
                assert(rest[j - i - 1] == y);
                assert(asks(planned@[j as int], *state, y));
            }
            let a = &planned[i];
            let b = &planned[j];
            if same_text(
                state.cleaning_groups[a.group].id.as_str(),
                state.cleaning_groups[b.group].id.as_str(),
            ) && a.slot == b.slot && a.year == b.year && a.week == b.week && !same_text(
                a.person.id.as_str(),
                b.person.id.as_str(),
            ) {
                let t = "«".to_owned().concat(a.raw.as_str()).concat("» and «").concat(
                    b.raw.as_str(),
                ).concat("» both claim ").concat(show_place(state, a, Ghost(x)).as_str()).concat(
                    " week ",
                ).concat(show(a.week as u64).as_str()).concat(
                    " — conflicting entries in this import.",
                );
                proof {
                    lemma_views_push(problems@, t);
                    assert(claim(x)(y) == Some(t@));
                }
                problems.push(t);
            }
            proof {
                assert(views(problems@) =~= so_far + filter_map(rest.take(j - i), claim(x)));
            }
            j += 1;
        }
        proof {
            assert(rest.take(j - i - 1) =~= rest);
            assert(claims(wishes, i + 1) == claims(wishes, i as int) + filter_map(
                wishes.skip(i + 1),
                claim(wishes[i as int]),
            ));
            assert(views(problems@) =~= before + claims(wishes, i + 1));
        }
        i += 1;
    }
}

/// What becomes of an entry.
enum Outcome {
    Same,
    Fill,
    Replace(String),
    Blocked(String),
}

/// Whether an outcome is the fate of an entry.
spec fn is_fate(o: Outcome, f: Fate) -> bool {
    match f {
        Fate::Same => o is Same,
        Fate::Fill => o is Fill,
        Fate::Replace(p) => o is Replace && o->Replace_0@ == label_or_nobody(p),
        Fate::Blocked(t) => o is Blocked && o->Blocked_0@ == t,
    }
}

/// Who holds a frozen assignment.
fn show_holder(state: &State, person_id: &Option<String>) -> (r: String)
    ensures
        r@ == label_or_nobody(holder(*state, *person_id)),
{
    match person_id {
        Some(id) => match state.person_by_id(id.as_str()) {
            Some(p) => person_label(p),
            None => "nobody".to_owned(),
        },
        None => "nobody".to_owned(),
    }
}

/// What becomes of an entry.
fn outcome(
    state: &State,
    today: Date,
    replace: bool,
    p: &PlannedImport,
    Ghost(x): Ghost<Import>,
) -> (r: Outcome)
    requires
        is_today(today.day as int),
        asks(*p, *state, x),
    ensures
        is_fate(r, fate(*state, today, replace, x)),
{
    let group = &state.cleaning_groups[p.group];
    let turn = meant_turn(group, (p.year, p.week), today);
    let found = state.assignment_position(group.id.as_str(), p.slot, turn);
    let same: bool = match found {
        Some(k) => option_is(&state.slot_assignments[k].person_id, p.person.id.as_str()),
        None => false,
    };
    if same {
        return Outcome::Same;
    }
    let prefix = "«".to_owned().concat(p.raw.as_str()).concat("»: ").concat(
        show_place(state, p, Ghost(x)).as_str(),
    ).concat(" for week ").concat(show_week((p.year, p.week)).as_str());
    if state.is_turn_slot_done(group, p.slot, turn) {
        return Outcome::Blocked(
            prefix.concat(" is already completed/skipped — cannot import over a finished week."),
        );
    }
    match found {
        None => Outcome::Fill,
        Some(k) => {
            let who = show_holder(state, &state.slot_assignments[k].person_id);
            if replace {
                Outcome::Replace(who)
            } else {
                Outcome::Blocked(
                    prefix.concat(" is already assigned to ").concat(who.as_str()).concat(
                        " — use !importplan --replace to override, or !unassign it first.",
                    ),
                )
            }
        },
    }
}

/// The event that takes an entry over.
fn event_for(state: &State, req: &Request, p: &PlannedImport, Ghost(x): Ghost<Import>) -> (r:
    DomainEvent)
    requires
        is_today(req.today.day as int),
        asks(*p, *state, x),
    ensures
        r == import_event(*req, x),
{
    let group = &state.cleaning_groups[p.group];
    let turn = meant_turn(group, (p.year, p.week), req.today);
    DomainEvent::SlotAssigned {
        group_id: group.id.clone(),
        slot_index: p.slot,
        iso_year: turn.year,
        iso_week: turn.week,
        shift: turn.shift,
        person_id: Some(p.person.id.clone()),
        source: AssignmentSource::Import,
        actor_id: Some(req.sender.clone()),
        previous_person_id: None,
    }
}

/// The line about an entry that is taken over.
fn line_for(state: &State, p: &PlannedImport, how: &str, Ghost(x): Ghost<Import>) -> (r: String)
    requires
        asks(*p, *state, x),
    ensures
        r@ == import_line(x, how@),
{
    "• ".to_owned().concat(show_place(state, p, Ghost(x)).as_str()).concat(" week ").concat(
        show_week((p.year, p.week)).as_str(),
    ).concat(" → ").concat(person_label(&p.person).as_str()).concat(" (").concat(how).concat(")")
}

/// What an import comes to, entry by entry.
struct Sorted {
    added: Vec<DomainEvent>,
    moved: Vec<DomainEvent>,
    added_lines: Vec<String>,
    moved_lines: Vec<String>,
    same: usize,
    problems: Vec<String>,
}

/// Whether the first entries are sorted.
spec fn sorts(
    s: Sorted,
    state: State,
    req: Request,
    replace: bool,
    wishes: Seq<Import>,
    before: Seq<Seq<char>>,
) -> bool {
    &&& s.added@ == filter_map(wishes, additions(state, req, replace))
    &&& s.moved@ == filter_map(wishes, replacements(state, req, replace))
    &&& views(s.added_lines@) == filter_map(wishes, addition_lines(state, req.today, replace))
    &&& views(s.moved_lines@) == filter_map(wishes, replacement_lines(state, req.today, replace))
    &&& s.same == filter_map(wishes, unchanged(state, req.today, replace)).len()
    &&& s.same <= wishes.len()
    &&& views(s.problems@) == before + filter_map(wishes, obstacle(state, req.today, replace))
    &&& forall|i: int|
        0 <= i < s.added@.len() ==> plans(#[trigger] s.added@[i]) && state.group(
            planned_group(s.added@[i]),
        ) is Some
    &&& forall|i: int|
        0 <= i < s.moved@.len() ==> plans(#[trigger] s.moved@[i]) && state.group(
            planned_group(s.moved@[i]),
        ) is Some
}

/// Sorts entries by what becomes of them.
fn sort_entries(
    state: &State,
    req: &Request,
    replace: bool,
    planned: &Vec<PlannedImport>,
    problems: Vec<String>,
    Ghost(wishes): Ghost<Seq<Import>>,
) -> (r: Sorted)
    requires
        is_today(req.today.day as int),
        all_ask(planned@, *state, wishes),
    ensures
        sorts(r, *state, *req, replace, wishes, views(problems@)),
{
    let ghost before = views(problems@);
    let mut s = Sorted {
        added: Vec::new(),
        moved: Vec::new(),
        added_lines: Vec::new(),
        moved_lines: Vec::new(),
        same: 0,
        problems,
    };
    let mut i: usize = 0;
    proof {
        assert(wishes.take(0) =~= Seq::<Import>::empty());
        assert(views(s.added_lines@) =~= Seq::<Seq<char>>::empty());
        assert(views(s.moved_lines@) =~= Seq::<Seq<char>>::empty());
        assert(views(s.problems@) =~= before + Seq::<Seq<char>>::empty());
    }
    while i < planned.len()
        invariant
            i <= planned.len(),
            is_today(req.today.day as int),
            all_ask(planned@, *state, wishes),
            sorts(s, *state, *req, replace, wishes.take(i as int), before),
        decreases planned.len() - i,
    {
        let ghost x = wishes[i as int];
        let p = &planned[i];
        proof {
            assert(asks(planned@[i as int], *state, x));
            lemma_group_known(*state, planned@[i as int].group as int);
            lemma_filter_map_step(wishes, additions(*state, *req, replace), i as int);
            lemma_filter_map_step(wishes, replacements(*state, *req, replace), i as int);
            lemma_filter_map_step(wishes, addition_lines(*state, req.today, replace), i as int);
            lemma_filter_map_step(wishes, replacement_lines(*state, req.today, replace), i as int);
            lemma_filter_map_step(wishes, unchanged(*state, req.today, replace), i as int);
            lemma_filter_map_step(wishes, obstacle(*state, req.today, replace), i as int);
        }
        match outcome(state, req.today, replace, p, Ghost(x)) {
            Outcome::Same => {
                s.same += 1;
            },
            Outcome::Fill => {
                let line = line_for(state, p, "added", Ghost(x));
                proof {
                    lemma_views_push(s.added_lines@, line);
                }
                s.added.push(event_for(state, req, p, Ghost(x)));
                s.added_lines.push(line);
            },
            Outcome::Replace(who) => {
                let how = "replaced ".to_owned().concat(who.as_str());
                let line = line_for(state, p, how.as_str(), Ghost(x));
                proof {
                    lemma_views_push(s.moved_lines@, line);
                }
                s.moved.push(event_for(state, req, p, Ghost(x)));
                s.moved_lines.push(line);
            },
            Outcome::Blocked(t) => {
                proof {
                    lemma_views_push(s.problems@, t);
                    assert(views(s.problems@.push(t)) =~= before + filter_map(
                        wishes.take(i as int),
                        obstacle(*state, req.today, replace),
                    ).push(t@));
                }
                s.problems.push(t);
            },
        }
        i += 1;
    }
    assert(wishes.take(i as int) =~= wishes);
    s
}

/// Takes a plan over that was made elsewhere, as assignments by hand: the turn order stays as it
/// is. One problem keeps all entries from being taken over.
pub fn cmd_importplan(state: &mut State, req: &Request, args: &Vec<String>) -> (r: Result<
    String,
    CommandError,
>)
    ensures
        answered(*old(state), *final(state), r, import_answer(*old(state), *req, args@), req.now),
{
    if !req.is_admin {
        return Err(CommandError::NotAdmin);
    }
    if !is_known(state, req.today) {
        return Err(CommandError::OutOfRange);
    }
    let replace = contains_text(args, "--replace");
    let plain = plain_args(args);
    let chunks = split_entries(&plain);
    if chunks.len() == 0 {
        assert(lists_of(chunks@).len() == 0);
        return Ok(IMPORT_USAGE.to_owned());
    }
    assert(lists_of(chunks@).len() == chunks@.len());
    let ghost rs = readings(*state, req.today, lists_of(chunks@));
    let ghost wishes = filter_map(rs, wish());
    let (planned, mut problems) = read_all(state, req.today, &chunks);
    add_claims(state, &planned, &mut problems, Ghost(wishes));
    let mut s = sort_entries(state, req, replace, &planned, problems, Ghost(wishes));
    proof {
        assert(views(s.problems@).len() == s.problems@.len());
    }
    if s.problems.len() > 0 {
        return Ok(
            "❌ Import aborted, no changes made — ".to_owned().concat(
                show(s.problems.len() as u64).as_str(),
            ).concat(" problem(s):\n").concat(join_texts(&s.problems, "\n").as_str()),
        );
    }
    let n_added: usize = s.added.len();
    let n_moved: usize = s.moved.len();
    if n_added == 0 && n_moved == 0 {
        let ending: &str = if s.same == 1 {
            "y"
        } else {
            "ies"
        };
        return Ok(
            "✅ Nothing to do — all ".to_owned().concat(show(s.same as u64).as_str()).concat(
                " entr",
            ).concat(ending).concat(" already imported."),
        );
    }
    proof {
        assert(views(s.added_lines@ + s.moved_lines@) =~= views(s.added_lines@) + views(
            s.moved_lines@,
        ));
    }
    s.added_lines.append(&mut s.moved_lines);
    let text = "✅ Import complete — ".to_owned().concat(show(n_added as u64).as_str()).concat(
        " added, ",
    ).concat(show(n_moved as u64).as_str()).concat(" replaced, ").concat(
        show(s.same as u64).as_str(),
    ).concat(" unchanged:\n").concat(join_texts(&s.added_lines, "\n").as_str());
    let ghost added = s.added@;
    s.added.append(&mut s.moved);
    match state.apply_plan(s.added, req.now) {
        Ok(_) => Ok(text),
        Err(e) => Err(CommandError::Refused(e)),
    }
}

} // verus!
