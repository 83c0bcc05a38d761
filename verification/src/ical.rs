//! iCalendar rendering.

use vstd::prelude::*;
use vstd::utf8::{encode_scalar, encode_utf8};

use crate::calendar::{compact_date, compact_text, is_day, is_time, stamp_text, utc_stamp, Date};
use crate::schedule::{entry_of_person, AssignmentInstance, ScheduleSnapshot};
use crate::text::{
    chars_of, join, join_texts, lemma_join_push, lemma_spelled_front, lemma_views_push, same_text,
    spelled, text_of, views,
};

verus! {

// ── Escaping ─────────────────────────────────────────────────────────────────

/// How a character is written inside a text value.
pub open spec fn ical_char(c: char) -> Seq<char> {
    if c == '\\' {
        seq!['\\', '\\']
    } else if c == ';' {
        seq!['\\', ';']
    } else if c == ',' {
        seq!['\\', ',']
    } else if c == '\n' {
        seq!['\\', 'n']
    } else if c == '\r' {
        Seq::empty()
    } else {
        seq![c]
    }
}

/// A text as the value of a text property.
pub open spec fn ical_escaped(t: Seq<char>) -> Seq<char> {
    spelled(t, |c: char| ical_char(c))
}

/// The text that a value of a text property stands for.
pub open spec fn ical_unescaped(t: Seq<char>) -> Seq<char>
    decreases t.len(),
{
    if t.len() == 0 {
        Seq::empty()
    } else if t[0] == '\\' && t.len() > 1 {
        seq![
            if t[1] == 'n' {
                '\n'
            } else {
                t[1]
            },
        ] + ical_unescaped(t.skip(2))
    } else {
        seq![t[0]] + ical_unescaped(t.skip(1))
    }
}

/// Reading an escaped value gives back the text, without its carriage returns.
pub proof fn law_ical_text_reads_back(t: Seq<char>)
    ensures
        ical_unescaped(ical_escaped(t)) == t.filter(|c: char| c != '\r'),
    decreases t.len(),
{
    let f = |c: char| ical_char(c);
    let keep = |c: char| c != '\r';
    reveal(Seq::filter);
    if t.len() > 0 {
        lemma_spelled_front(t, f);
        law_ical_text_reads_back(t.skip(1));
        let head = f(t[0]);
        let rest = ical_escaped(t.skip(1));
        let all = ical_escaped(t);
        assert(all == head + rest);
        lemma_filter_front(t, keep);
        if head.len() == 2 {
            assert(all.skip(2) =~= rest);
        } else if head.len() == 1 {
            assert(all.skip(1) =~= rest);
        } else {
            assert(all =~= rest);
            assert(t.filter(keep) =~= t.skip(1).filter(keep));
        }
    }
}

/// Filtering a text starts with its first character.
proof fn lemma_filter_front(t: Seq<char>, keep: spec_fn(char) -> bool)
    requires
        t.len() > 0,
    ensures
        t.filter(keep) == (if keep(t[0]) {
            seq![t[0]]
        } else {
            Seq::empty()
        }) + t.skip(1).filter(keep),
    decreases t.len(),
{
    reveal(Seq::filter);
    let first = if keep(t[0]) {
        seq![t[0]]
    } else {
        Seq::empty()
    };
    if t.len() == 1 {
        assert(t.drop_last() =~= Seq::<char>::empty());
        assert(t.skip(1) =~= Seq::<char>::empty());
        assert(t.filter(keep) =~= first + t.skip(1).filter(keep));
    } else {
        lemma_filter_front(t.drop_last(), keep);
        assert(t.skip(1).drop_last() =~= t.drop_last().skip(1));
        assert(t.filter(keep) =~= first + t.skip(1).filter(keep));
    }
}

/// Escapes a string for a text property.
pub fn ical_text(s: &str) -> (r: String)
    ensures
        r@ == ical_escaped(s@),
{
    let v = chars_of(s);
    let mut r = String::new();
    let mut i: usize = 0;
    while i < v.len()
        invariant
            i <= v.len(),
            v@ == s@,
            r@ == ical_escaped(s@.take(i as int)),
        decreases v.len() - i,
    {
        let ghost before = r@;
        proof {
            assert(s@.take(i + 1).drop_last() =~= s@.take(i as int));
        }
        let c = v[i];
        if c == '\\' {
            r.push('\\');
            r.push('\\');
        } else if c == ';' {
            r.push('\\');
            r.push(';');
        } else if c == ',' {
            r.push('\\');
            r.push(',');
        } else if c == '\n' {
            r.push('\\');
            r.push('n');
        } else if c != '\r' {
            r.push(c);
        }
        assert(r@ =~= before + ical_char(c));
        i += 1;
    }
    assert(s@.take(s@.len() as int) =~= s@);
    r
}

// ── Folding ──────────────────────────────────────────────────────────────────

/// The number of bytes of a character in UTF-8.
pub open spec fn width(c: char) -> nat {
    encode_scalar(c as u32).len()
}

/// The number of bytes of a text in UTF-8.
pub open spec fn byte_len(t: Seq<char>) -> nat
    decreases t.len(),
{
    if t.len() == 0 {
        0
    } else {
        byte_len(t.drop_last()) + width(t.last())
    }
}

/// How many characters of a text, from its start, fit into `max` bytes.
pub open spec fn fit(t: Seq<char>, max: int) -> int
    decreases t.len(),
{
    if t.len() == 0 {
        0
    } else if byte_len(t) <= max {
        t.len() as int
    } else {
        fit(t.drop_last(), max)
    }
}

/// The pieces of at most 74 bytes that a continued line is cut into.
pub open spec fn pieces(t: Seq<char>) -> Seq<Seq<char>>
    decreases t.len(),
{
    let n = fit(t, 74);
    if t.len() == 0 || n <= 0 || n > t.len() {
        Seq::empty()
    } else {
        seq![t.take(n)] + pieces(t.skip(n))
    }
}

/// The physical lines that a content line is cut into.
pub open spec fn chunks(t: Seq<char>) -> Seq<Seq<char>> {
    if byte_len(t) <= 75 {
        seq![t]
    } else {
        seq![t.take(fit(t, 75))] + pieces(t.skip(fit(t, 75)))
    }
}

/// A content line as it is written: every physical line but the first starts with a space.
pub open spec fn folded(t: Seq<char>) -> Seq<char> {
    join(chunks(t), "\r\n "@) + "\r\n"@
}

/// The texts one after another.
pub open spec fn concatenated(parts: Seq<Seq<char>>) -> Seq<char> {
    join(parts, Seq::empty())
}

proof fn lemma_width(c: char)
    ensures
        1 <= width(c) <= 4,
{
}

/// The byte length counts the bytes of the UTF-8 encoding.
pub proof fn lemma_byte_len(t: Seq<char>)
    ensures
        byte_len(t) == encode_utf8(t).len(),
    decreases t.len(),
{
    if t.len() > 0 {
        lemma_byte_len_front(t);
        assert(t.drop_first() =~= t.skip(1));
        lemma_byte_len(t.skip(1));
    }
}

proof fn lemma_byte_len_front(t: Seq<char>)
    requires
        t.len() > 0,
    ensures
        byte_len(t) == width(t[0]) + byte_len(t.skip(1)),
    decreases t.len(),
{
    if t.len() == 1 {
        assert(t.drop_last() =~= Seq::<char>::empty());
        assert(t.skip(1) =~= Seq::<char>::empty());
    } else {
        lemma_byte_len_front(t.drop_last());
        assert(t.skip(1).drop_last() =~= t.drop_last().skip(1));
    }
}

/// A longer start of a text has more bytes.
proof fn lemma_byte_len_grows(t: Seq<char>, i: int)
    requires
        0 <= i <= t.len(),
    ensures
        byte_len(t.take(i)) + (t.len() - i) <= byte_len(t),
    decreases t.len(),
{
    if i == t.len() {
        assert(t.take(i) =~= t);
    } else {
        lemma_byte_len_grows(t.drop_last(), i);
        assert(t.drop_last().take(i) =~= t.take(i));
        lemma_width(t.last());
    }
}

/// What fits is the longest start that does.
pub proof fn lemma_fit(t: Seq<char>, max: int)
    requires
        max >= 0,
    ensures
        0 <= fit(t, max) <= t.len(),
        max >= 4 && t.len() > 0 ==> fit(t, max) > 0,
        byte_len(t.take(fit(t, max))) <= max,
        fit(t, max) < t.len() ==> byte_len(t.take(fit(t, max) + 1)) > max,
    decreases t.len(),
{
    if t.len() == 0 {
        assert(t.take(0) =~= t);
    } else if byte_len(t) <= max {
        assert(t.take(t.len() as int) =~= t);
    } else {
        let u = t.drop_last();
        lemma_fit(u, max);
        assert(u.take(fit(u, max)) =~= t.take(fit(u, max)));
        if fit(u, max) < u.len() {
            assert(u.take(fit(u, max) + 1) =~= t.take(fit(u, max) + 1));
        } else {
            assert(t.take(fit(u, max) + 1) =~= t);
        }
        if u.len() == 0 {
            lemma_width(t.last());
        }
    }
}

/// A number of characters is the one that fits when they fit and one more would not.
proof fn lemma_fit_is(t: Seq<char>, max: int, n: int)
    requires
        max >= 0,
        0 <= n <= t.len(),
        byte_len(t.take(n)) <= max,
        n < t.len() ==> byte_len(t.take(n + 1)) > max,
    ensures
        fit(t, max) == n,
{
    lemma_fit(t, max);
    let f = fit(t, max);
    if f < n {
        lemma_byte_len_grows(t.take(n), f + 1);
        assert(t.take(n).take(f + 1) =~= t.take(f + 1));
    } else if n < f {
        lemma_byte_len_grows(t.take(f), n + 1);
        assert(t.take(f).take(n + 1) =~= t.take(n + 1));
    }
}

/// The number of bytes of a character in UTF-8.
fn char_width(c: char) -> (r: usize)
    ensures
        r == width(c),
        1 <= r <= 4,
{
    let u: u32 = c as u32;
    if u <= 0x7F {
        1
    } else if u <= 0x7FF {
        2
    } else if u <= 0xFFFF {
        3
    } else {
        4
    }
}

/// How many characters from `from` on fit into `max` bytes.
fn fitting(v: &Vec<char>, from: usize, max: usize) -> (r: usize)
    requires
        from <= v.len(),
    ensures
        r == fit(v@.skip(from as int), max as int),
        r <= v.len() - from,
        max >= 4 && from < v.len() ==> r > 0,
{
    let ghost t = v@.skip(from as int);
    let mut n: usize = 0;
    let mut used: usize = 0;
    assert(t.take(0) =~= Seq::<char>::empty());
    while n < v.len() - from && char_width(v[from + n]) <= max - used
        invariant
            from + n <= v.len(),
            used <= max,
            t == v@.skip(from as int),
            used == byte_len(t.take(n as int)),
        decreases v.len() - from - n,
    {
        proof {
            assert(t.take(n + 1).drop_last() =~= t.take(n as int));
            assert(t.take(n + 1).last() == v@[from + n]);
        }
        used += char_width(v[from + n]);
        n += 1;
    }
    proof {
        if n < t.len() {
            assert(t.take(n + 1).drop_last() =~= t.take(n as int));
            assert(t.take(n + 1).last() == v@[from + n]);
        }
        lemma_fit_is(t, max as int, n as int);
        lemma_fit(t, max as int);
    }
    n
}

/// The longest start of `s` with at most `max` bytes that ends between two characters, in bytes.
pub fn char_boundary(s: &str, max: usize) -> (r: usize)
    ensures
        r == byte_len(s@.take(fit(s@, max as int))),
        r <= max,
{
    let v = chars_of(s);
    let n = fitting(&v, 0, max);
    assert(v@.skip(0) =~= s@);
    let mut i: usize = 0;
    let mut used: usize = 0;
    proof {
        assert(s@.take(0) =~= Seq::<char>::empty());
        lemma_fit(s@, max as int);
    }
    while i < n
        invariant
            i <= n <= v.len(),
            v@ == s@,
            byte_len(s@.take(n as int)) <= max,
            used == byte_len(s@.take(i as int)),
        decreases n - i,
    {
        proof {
            assert(s@.take(i + 1).drop_last() =~= s@.take(i as int));
            lemma_byte_len_grows(s@.take(n as int), i + 1);
            assert(s@.take(n as int).take(i + 1) =~= s@.take(i + 1));
        }
        used += char_width(v[i]);
        i += 1;
    }
    used
}

/// Appends a content line, folded to physical lines of at most 75 bytes.
pub fn fold_line(out: &mut String, line: &str)
    ensures
        final(out)@ == old(out)@ + folded(line@),
{
    let v = chars_of(line);
    let n = fitting(&v, 0, 75);
    assert(v@.skip(0) =~= line@);
    let mut r = text_of(&v, 0, n);
    let mut pos: usize = n;
    let ghost mut done: Seq<Seq<char>> = seq![line@.take(n as int)];
    proof {
        lemma_fit(line@, 75);
        assert(v@.subrange(0, n as int) =~= line@.take(n as int));
        if byte_len(line@) <= 75 {
            assert(line@.take(line@.len() as int) =~= line@);
            assert(pieces(v@.skip(pos as int)) =~= Seq::<Seq<char>>::empty());
        } else if n == line@.len() {
            assert(line@.take(n as int) =~= line@);
        }
        assert(done + pieces(v@.skip(pos as int)) =~= chunks(line@));
    }
    while pos < v.len()
        invariant
            pos <= v.len(),
            done.len() > 0,
            r@ == join(done, "\r\n "@),
            done + pieces(v@.skip(pos as int)) == chunks(line@),
        decreases v.len() - pos,
    {
        let cut = fitting(&v, pos, 74);
        let part = text_of(&v, pos, pos + cut);
        proof {
            let rest = v@.skip(pos as int);
            let piece = rest.take(cut as int);
            assert(part@ =~= piece);
            assert(rest.skip(cut as int) =~= v@.skip(pos + cut));
            lemma_join_push(done, piece, "\r\n "@);
            assert(pieces(rest) == seq![piece] + pieces(v@.skip(pos + cut)));
            assert(done.push(piece) + pieces(v@.skip(pos + cut)) =~= done + pieces(rest));
            done = done.push(piece);
        }
        r.append("\r\n ");
        r.append(part.as_str());
        pos += cut;
    }
    proof {
        assert(pieces(v@.skip(pos as int)) =~= Seq::<Seq<char>>::empty());
        assert(done =~= chunks(line@));
    }
    let ghost before = out@;
    out.append(r.as_str());
    out.append("\r\n");
    assert(out@ =~= before + folded(line@));
}

/// Appends a property line.
pub fn prop(out: &mut String, name: &str, value: &str)
    ensures
        final(out)@ == old(out)@ + folded(name@ + ":"@ + value@),
{
    let line = name.to_owned().concat(":").concat(value);
    fold_line(out, line.as_str());
}

/// The pieces of a continued line make up the line and take at most 74 bytes each.
pub proof fn lemma_pieces(t: Seq<char>)
    ensures
        concatenated(pieces(t)) == t,
        forall|i: int| 0 <= i < pieces(t).len() ==> byte_len(#[trigger] pieces(t)[i]) <= 74,
    decreases t.len(),
{
    lemma_fit(t, 74);
    let n = fit(t, 74);
    if t.len() > 0 {
        lemma_pieces(t.skip(n));
        lemma_concat_front(t.take(n), pieces(t.skip(n)));
        assert(t.take(n) + t.skip(n) =~= t);
        assert forall|i: int| 0 <= i < pieces(t).len() implies byte_len(#[trigger] pieces(t)[i])
            <= 74 by {
            if i > 0 {
                assert(pieces(t)[i] == pieces(t.skip(n))[i - 1]);
            }
        }
    }
}

proof fn lemma_concat_front(first: Seq<char>, rest: Seq<Seq<char>>)
    ensures
        concatenated(seq![first] + rest) == first + concatenated(rest),
    decreases rest.len(),
{
    let all = seq![first] + rest;
    if rest.len() == 0 {
        assert(all =~= seq![first]);
        assert(first + concatenated(rest) =~= first);
    } else {
        lemma_concat_front(first, rest.drop_last());
        assert(all.drop_last() =~= seq![first] + rest.drop_last());
        if rest.len() == 1 {
            assert(rest.drop_last() =~= Seq::<Seq<char>>::empty());
        }
        assert(concatenated(all) =~= first + concatenated(rest));
    }
}

/// No physical line is longer than 75 bytes, its leading space counted, and taking the line
/// breaks out again gives back the content line.
pub proof fn law_folding_keeps_the_line(t: Seq<char>)
    ensures
        folded(t) == join(chunks(t), "\r\n "@) + "\r\n"@,
        concatenated(chunks(t)) == t,
        byte_len(chunks(t)[0]) <= 75,
        forall|i: int| 0 < i < chunks(t).len() ==> byte_len(#[trigger] chunks(t)[i]) + 1 <= 75,
{
    if byte_len(t) > 75 {
        lemma_fit(t, 75);
        let n = fit(t, 75);
        lemma_pieces(t.skip(n));
        lemma_concat_front(t.take(n), pieces(t.skip(n)));
        assert(t.take(n) + t.skip(n) =~= t);
        assert forall|i: int| 0 < i < chunks(t).len() implies byte_len(#[trigger] chunks(t)[i]) + 1
            <= 75 by {
            assert(chunks(t)[i] == pieces(t.skip(n))[i - 1]);
        }
    }
}

// ── Rendering ────────────────────────────────────────────────────────────────

/// The entries of the same group and week that others are responsible for.
pub open spec fn beside(a: AssignmentInstance, person_id: Seq<char>) -> spec_fn(
    AssignmentInstance,
) -> bool {
    |b: AssignmentInstance|
        b.group_id@ == a.group_id@ && b.iso_year == a.iso_year && b.iso_week == a.iso_week
            && b.assignee is Some && b.assignee->0.id@ != person_id
}

/// The names of those responsible for entries.
pub open spec fn names_of(s: Seq<AssignmentInstance>) -> Seq<Seq<char>> {
    s.map_values(|a: AssignmentInstance| a.assignee->0.name@)
}

/// The lines of an event's description: when, which rooms, who else, and whether it is done.
pub open spec fn description_lines(
    a: AssignmentInstance,
    all: Seq<AssignmentInstance>,
    person_id: Seq<char>,
) -> Seq<Seq<char>> {
    let when = seq![a.period_label@];
    let rooms = if a.room_names@.len() == 0 {
        when
    } else {
        when.push("Rooms: "@ + join(views(a.room_names@), ", "@))
    };
    let others = names_of(all.filter(beside(a, person_id)));
    let with_others = if others.len() == 0 {
        rooms
    } else {
        rooms.push("Others: "@ + join(others, ", "@))
    };
    if a.is_completed && !a.is_skipped {
        match a.completed_by {
            Some(by) => with_others.push("✓ Done by "@ + by@),
            None => with_others.push("✓ Done"@),
        }
    } else {
        with_others
    }
}

/// "🧹 Bathroom", or "🧹 Bathroom (Thu–Sun)" for a shift.
pub open spec fn summary_text(a: AssignmentInstance) -> Seq<char> {
    match a.shift_label {
        Some(label) => "🧹 "@ + a.group_name@ + " ("@ + label@ + ")"@,
        None => "🧹 "@ + a.group_name@,
    }
}

/// A calendar event.
pub open spec fn event_text(
    a: AssignmentInstance,
    all: Seq<AssignmentInstance>,
    person_id: Seq<char>,
    stamp: Seq<char>,
) -> Seq<char> {
    let open = "BEGIN:VEVENT\r\n"@ + folded("UID"@ + ":"@ + a.uid@) + folded(
        "DTSTAMP"@ + ":"@ + stamp,
    ) + folded("DTSTART;VALUE=DATE"@ + ":"@ + compact_text(a.start.day as int)) + folded(
        "DTEND;VALUE=DATE"@ + ":"@ + compact_text(a.end.day + 1),
    ) + folded("SUMMARY"@ + ":"@ + ical_escaped(summary_text(a))) + folded(
        "DESCRIPTION"@ + ":"@ + ical_escaped(
            join(description_lines(a, all, person_id), "\n"@),
        ),
    );
    if a.is_completed {
        open + folded("STATUS"@ + ":"@ + "COMPLETED"@) + "END:VEVENT\r\n"@
    } else {
        open + "END:VEVENT\r\n"@
    }
}

/// The calendar events of entries.
pub open spec fn events_text(
    mine: Seq<AssignmentInstance>,
    all: Seq<AssignmentInstance>,
    person_id: Seq<char>,
    stamp: Seq<char>,
) -> Seq<char>
    decreases mine.len(),
{
    if mine.len() == 0 {
        Seq::empty()
    } else {
        events_text(mine.drop_last(), all, person_id, stamp) + event_text(
            mine.last(),
            all,
            person_id,
            stamp,
        )
    }
}

/// The name of the person whose entries these are.
pub open spec fn owner_name(mine: Seq<AssignmentInstance>) -> Seq<char> {
    if mine.len() > 0 && mine[0].assignee is Some {
        mine[0].assignee->0.name@
    } else {
        "?"@
    }
}

/// The calendar of one person.
pub open spec fn ics_text(snapshot: ScheduleSnapshot, person_id: Seq<char>) -> Seq<char> {
    let mine = snapshot.assignments@.filter(entry_of_person(person_id));
    let stamp = stamp_text(snapshot.state_timestamp.secs as int);
    "BEGIN:VCALENDAR\r\n"@ + folded("VERSION"@ + ":"@ + "2.0"@) + folded(
        "PRODID"@ + ":"@ + "-//Cleaning Bot//EN"@,
    ) + folded("CALSCALE"@ + ":"@ + "GREGORIAN"@) + folded("METHOD"@ + ":"@ + "PUBLISH"@) + folded(
        "X-WR-CALNAME"@ + ":"@ + ical_escaped("Putzplan – "@ + owner_name(mine)),
    ) + events_text(mine, snapshot.assignments@, person_id, stamp) + "END:VCALENDAR\r\n"@
}

/// Whether the days of an entry, and the one after it, can be represented.
pub open spec fn entry_fits(a: AssignmentInstance) -> bool {
    is_day(a.start.day as int) && is_day(a.end.day as int) && is_day(a.end.day + 1)
}

/// The lines of an event's description.
fn describe_event(a: &AssignmentInstance, all: &Vec<AssignmentInstance>, person_id: &str) -> (r: Vec<
    String,
>)
    ensures
        views(r@) == description_lines(*a, all@, person_id@),
{
    let mut lines: Vec<String> = Vec::new();
    lines.push(a.period_label.clone());
    assert(views(lines@) =~= seq![a.period_label@]);
    if !a.room_names.is_empty() {
        let line = "Rooms: ".to_owned().concat(join_texts(&a.room_names, ", ").as_str());
        proof {
            lemma_views_push(lines@, line);
        }
        lines.push(line);
    }
    let mut others: Vec<String> = Vec::new();
    let ghost p = beside(*a, person_id@);
    let mut i: usize = 0;
    assert(all@.take(0).filter(p) =~= Seq::<AssignmentInstance>::empty()) by {
        reveal(Seq::filter);
    }
    assert(views(others@) =~= names_of(all@.take(0).filter(p)));
    while i < all.len()
        invariant
            i <= all.len(),
            p == beside(*a, person_id@),
            views(others@) == names_of(all@.take(i as int).filter(p)),
        decreases all.len() - i,
    {
        proof {
            crate::lists::lemma_filter_step(all@, p, i as int);
        }
        let b = &all[i];
        if b.iso_year == a.iso_year && b.iso_week == a.iso_week && same_text(
            b.group_id.as_str(),
            a.group_id.as_str(),
        ) {
            match &b.assignee {
                Some(d) => {
                    if !same_text(d.id.as_str(), person_id) {
                        let name = d.name.clone();
                        proof {
                            lemma_views_push(others@, name);
                            let kept = all@.take(i as int).filter(p);
                            assert(names_of(kept.push(*b)) =~= names_of(kept).push(name@));
                        }
                        others.push(name);
                    }
                },
                None => {},
            }
        }
        i += 1;
    }
    assert(all@.take(i as int) =~= all@);
    assert(others@.len() == views(others@).len());
    if !others.is_empty() {
        let line = "Others: ".to_owned().concat(join_texts(&others, ", ").as_str());
        proof {
            lemma_views_push(lines@, line);
        }
        lines.push(line);
    }
    if a.is_completed && !a.is_skipped {
        let line = match &a.completed_by {
            Some(by) => "✓ Done by ".to_owned().concat(by.as_str()),
            None => "✓ Done".to_owned(),
        };
        proof {
            lemma_views_push(lines@, line);
        }
        lines.push(line);
    }
    lines
}

/// A calendar event.
fn render_event(
    a: &AssignmentInstance,
    all: &Vec<AssignmentInstance>,
    person_id: &str,
    stamp: &str,
) -> (r: String)
    requires
        entry_fits(*a),
    ensures
        r@ == event_text(*a, all@, person_id@, stamp@),
{
    proof {
        reveal(crate::calendar::january_first);
    }
    let summary = match &a.shift_label {
        Some(label) => "🧹 ".to_owned().concat(a.group_name.as_str()).concat(" (").concat(
            label.as_str(),
        ).concat(")"),
        None => "🧹 ".to_owned().concat(a.group_name.as_str()),
    };
    let lines = describe_event(a, all, person_id);
    let description = join_texts(&lines, "\n");
    let mut out = "BEGIN:VEVENT\r\n".to_owned();
    prop(&mut out, "UID", a.uid.as_str());
    prop(&mut out, "DTSTAMP", stamp);
    prop(&mut out, "DTSTART;VALUE=DATE", compact_date(a.start).as_str());
    prop(&mut out, "DTEND;VALUE=DATE", compact_date(Date { day: a.end.day + 1 }).as_str());
    prop(&mut out, "SUMMARY", ical_text(summary.as_str()).as_str());
    prop(&mut out, "DESCRIPTION", ical_text(description.as_str()).as_str());
    if a.is_completed {
        prop(&mut out, "STATUS", "COMPLETED");
    }
    out.append("END:VEVENT\r\n");
    out
}

/// Render the calendar of one person: only the events where they are the assigned person, each
/// with its own stable id, all stamped with the time of the state's last change.
pub fn render_ics(snapshot: &ScheduleSnapshot, person_id: &str) -> (r: String)
    requires
        is_time(snapshot.state_timestamp.secs as int),
        forall|i: int|
            0 <= i < snapshot.assignments@.len() ==> entry_fits(#[trigger] snapshot.assignments@[i]),
    ensures
        r@ == ics_text(*snapshot, person_id@),
{
    let mine = snapshot.for_person(person_id);
    let ghost own = snapshot.assignments@.filter(entry_of_person(person_id@));
    let stamp = utc_stamp(snapshot.state_timestamp);
    let owner: String = if mine.len() > 0 {
        match &mine[0].assignee {
            Some(d) => d.name.clone(),
            None => "?".to_owned(),
        }
    } else {
        "?".to_owned()
    };
    let mut events = String::new();
    let mut i: usize = 0;
    assert(own.take(0) =~= Seq::<AssignmentInstance>::empty());
    while i < mine.len()
        invariant
            i <= mine.len(),
            own == snapshot.assignments@.filter(entry_of_person(person_id@)),
            crate::schedule::refers_to(mine@, own),
            stamp@ == stamp_text(snapshot.state_timestamp.secs as int),
            forall|k: int|
                0 <= k < snapshot.assignments@.len() ==> entry_fits(
                    #[trigger] snapshot.assignments@[k],
                ),
            events@ == events_text(
                own.take(i as int),
                snapshot.assignments@,
                person_id@,
                stamp@,
            ),
        decreases mine.len() - i,
    {
        proof {
            let more = own.take(i + 1);
            assert(more.drop_last() =~= own.take(i as int));
            assert(more.last() == own[i as int]);
            crate::lists::lemma_filter(snapshot.assignments@, entry_of_person(person_id@));
            assert(snapshot.assignments@.contains(own[i as int]));
            let k = choose|k: int|
                0 <= k < snapshot.assignments@.len() && snapshot.assignments@[k] == own[i as int];
            assert(entry_fits(snapshot.assignments@[k]));
        }
        let event = render_event(mine[i], &snapshot.assignments, person_id, stamp.as_str());
        events.append(event.as_str());
        i += 1;
    }
    assert(own.take(i as int) =~= own);
    let mut out = "BEGIN:VCALENDAR\r\n".to_owned();
    prop(&mut out, "VERSION", "2.0");
    prop(&mut out, "PRODID", "-//Cleaning Bot//EN");
    prop(&mut out, "CALSCALE", "GREGORIAN");
    prop(&mut out, "METHOD", "PUBLISH");
    let title = "Putzplan – ".to_owned().concat(owner.as_str());
    prop(&mut out, "X-WR-CALNAME", ical_text(title.as_str()).as_str());
    out.append(events.as_str());
    out.append("END:VCALENDAR\r\n");
    out
}

/// The events of a calendar are those of the person's entries, one after another, each in full.
pub proof fn law_calendar_is_made_of_its_events(
    snapshot: ScheduleSnapshot,
    person_id: Seq<char>,
)
    ensures
        ({
            let mine = snapshot.assignments@.filter(entry_of_person(person_id));
            let stamp = stamp_text(snapshot.state_timestamp.secs as int);
            let all = snapshot.assignments@;
            events_text(mine, all, person_id, stamp) == concatenated(
                mine.map_values(|a: AssignmentInstance| event_text(a, all, person_id, stamp)),
            )
        }),
{
    let mine = snapshot.assignments@.filter(entry_of_person(person_id));
    let stamp = stamp_text(snapshot.state_timestamp.secs as int);
    lemma_events(mine, snapshot.assignments@, person_id, stamp);
}

proof fn lemma_events(
    mine: Seq<AssignmentInstance>,
    all: Seq<AssignmentInstance>,
    person_id: Seq<char>,
    stamp: Seq<char>,
)
    ensures
        events_text(mine, all, person_id, stamp) == concatenated(
            mine.map_values(|a: AssignmentInstance| event_text(a, all, person_id, stamp)),
        ),
    decreases mine.len(),
{
    let f = |a: AssignmentInstance| event_text(a, all, person_id, stamp);
    if mine.len() > 0 {
        lemma_events(mine.drop_last(), all, person_id, stamp);
        let parts = mine.map_values(f);
        assert(parts.drop_last() =~= mine.drop_last().map_values(f));
        assert(parts.last() == f(mine.last()));
        if parts.len() == 1 {
            assert(mine.drop_last() =~= Seq::<AssignmentInstance>::empty());
            assert(Seq::<char>::empty() + parts.last() =~= parts.last());
        } else {
            let rest = join(parts.drop_last(), Seq::empty());
            assert(rest + Seq::<char>::empty() + parts.last() =~= rest + parts.last());
        }
    }
}

} // verus!
