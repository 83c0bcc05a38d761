//! What holds of the lines of a calendar.

use vstd::prelude::*;

use crate::calendar::{compact_text, date_of, four_digits, stamp_text, year_text};
use crate::domain::is_plain_id;
use crate::ical::{
    byte_len, chunks, concatenated, description_lines, event_text, events_text, fit, folded, ical_char,
    ical_escaped, ics_text, law_folding_keeps_the_line, lemma_fit, lemma_pieces, owner_name, pieces,
    summary_text, width,
};
use crate::lists::{lemma_filter, lemma_filter_push, lemma_filter_through};
use crate::schedule::{entry_of_person, AssignmentInstance, ScheduleSnapshot};
use crate::text::{decimal, first_at, join, lemma_first_at, two_digits, views};

verus! {

// ── Lines ────────────────────────────────────────────────────────────────────

/// The lines of a text, each with the line feed at its end.
pub open spec fn text_lines(t: Seq<char>) -> Seq<Seq<char>>
    decreases t.len(),
{
    let i = first_at(t, '\n');
    if t.len() == 0 {
        Seq::empty()
    } else if i < 0 || i >= t.len() {
        seq![t]
    } else {
        seq![t.take(i + 1)] + text_lines(t.skip(i + 1))
    }
}

/// Whether a line ends in a carriage return and a line feed, and has at most 75 bytes before them.
pub open spec fn is_calendar_line(l: Seq<char>) -> bool {
    l.len() >= 2 && l[l.len() - 2] == '\r' && l[l.len() - 1] == '\n' && byte_len(
        l.take(l.len() - 2),
    ) <= 75
}

/// Whether a line starts an event.
pub open spec fn starts_event() -> spec_fn(Seq<char>) -> bool {
    |l: Seq<char>| l == "BEGIN:VEVENT\r\n"@
}

/// Whether a line starts an event or gives an id.
pub open spec fn is_mark() -> spec_fn(Seq<char>) -> bool {
    |l: Seq<char>| l == "BEGIN:VEVENT\r\n"@ || (l.len() >= 4 && l.take(4) == "UID:"@)
}

/// The lines that start the events of entries and give their ids.
pub open spec fn event_marks(mine: Seq<AssignmentInstance>) -> Seq<Seq<char>>
    decreases mine.len(),
{
    if mine.len() == 0 {
        Seq::empty()
    } else {
        event_marks(mine.drop_last()) + seq![
            "BEGIN:VEVENT\r\n"@,
            "UID:"@ + mine.last().uid@ + "\r\n"@,
        ]
    }
}

// ── Texts made of lines ──────────────────────────────────────────────────────

/// Whether a text holds no line feed.
spec fn unbroken(t: Seq<char>) -> bool {
    forall|i: int| 0 <= i < t.len() ==> #[trigger] t[i] != '\n'
}

/// Whether a text, whatever follows it, makes up lines.
spec fn makes(t: Seq<char>, lines: Seq<Seq<char>>) -> bool {
    forall|rest: Seq<char>| #[trigger] text_lines(t + rest) == lines + text_lines(rest)
}

/// Whether all lines are ones of a calendar, and some are the marks among them.
spec fn tidy(lines: Seq<Seq<char>>, marks: Seq<Seq<char>>) -> bool {
    &&& forall|i: int| 0 <= i < lines.len() ==> is_calendar_line(#[trigger] lines[i])
    &&& lines.filter(is_mark()) == marks
}

/// Whether a text makes up lines of a calendar with some marks.
spec fn framed(t: Seq<char>, marks: Seq<Seq<char>>) -> bool {
    exists|lines: Seq<Seq<char>>| #[trigger] makes(t, lines) && tidy(lines, marks)
}

/// One text after another.
proof fn lemma_framed_add(a: Seq<char>, m: Seq<Seq<char>>, b: Seq<char>, n: Seq<Seq<char>>)
    requires
        framed(a, m),
        framed(b, n),
    ensures
        framed(a + b, m + n),
{
    let k = choose|k: Seq<Seq<char>>| #[trigger] makes(a, k) && tidy(k, m);
    let l = choose|l: Seq<Seq<char>>| #[trigger] makes(b, l) && tidy(l, n);
    assert forall|rest: Seq<char>| #[trigger] text_lines((a + b) + rest) == (k + l) + text_lines(
        rest,
    ) by {
        assert((a + b) + rest =~= a + (b + rest));
        assert(text_lines(a + (b + rest)) == k + text_lines(b + rest));
        assert(k + (l + text_lines(rest)) =~= (k + l) + text_lines(rest));
    }
    Seq::filter_distributes_over_add(k, l, is_mark());
    assert(makes(a + b, k + l));
}

/// Nothing makes up no lines.
proof fn lemma_framed_nothing()
    ensures
        framed(Seq::empty(), Seq::empty()),
{
    let none = Seq::<Seq<char>>::empty();
    assert forall|rest: Seq<char>| #[trigger] text_lines(Seq::empty() + rest) == none + text_lines(
        rest,
    ) by {
        assert(Seq::<char>::empty() + rest =~= rest);
        assert(none + text_lines(rest) =~= text_lines(rest));
    }
    assert(makes(Seq::empty(), none));
    assert(none.filter(is_mark()) =~= none) by {
        reveal(Seq::filter);
    }
}

/// A text without a line feed, and a line end after it, is a line.
proof fn lemma_makes_line(l: Seq<char>)
    requires
        unbroken(l),
    ensures
        makes(l + "\r\n"@, seq![l + "\r\n"@]),
{
    reveal_strlit("\r\n");
    assert forall|rest: Seq<char>| #[trigger] text_lines((l + "\r\n"@) + rest) == seq![
        l + "\r\n"@,
    ] + text_lines(rest) by {
        let t = (l + "\r\n"@) + rest;
        let i = first_at(t, '\n');
        let n: int = l.len() + 1int;
        lemma_first_at(t, '\n');
        assert(t[n] == '\n');
        if i < n {
            assert(t[i] == '\n');
            if i < l.len() {
                assert(l[i] == t[i]);
            }
        }
        assert(i == n);
        assert(t.take(i + 1) =~= l + "\r\n"@);
        assert(t.skip(i + 1) =~= rest);
    }
}

/// The lines of the physical lines that a content line is cut into.
spec fn folded_lines(parts: Seq<Seq<char>>) -> Seq<Seq<char>>
    decreases parts.len(),
{
    if parts.len() == 0 {
        Seq::empty()
    } else if parts.len() == 1 {
        seq![parts[0] + "\r\n"@]
    } else {
        folded_lines(parts.drop_last()).push(" "@ + parts.last() + "\r\n"@)
    }
}

/// Physical lines are the lines of what they are written as.
proof fn lemma_makes_parts(parts: Seq<Seq<char>>)
    requires
        parts.len() > 0,
        forall|i: int| 0 <= i < parts.len() ==> unbroken(#[trigger] parts[i]),
    ensures
        makes(join(parts, "\r\n "@) + "\r\n"@, folded_lines(parts)),
    decreases parts.len(),
{
    let end = "\r\n"@;
    if parts.len() == 1 {
        lemma_makes_line(parts[0]);
        assert(join(parts, "\r\n "@) == parts[0]);
    } else {
        let front = parts.drop_last();
        assert forall|i: int| 0 <= i < front.len() implies unbroken(#[trigger] front[i]) by {
            assert(front[i] == parts[i]);
        }
        lemma_makes_parts(front);
        let last = " "@ + parts.last();
        reveal_strlit(" ");
        reveal_strlit("\r\n ");
        reveal_strlit("\r\n");
        assert(unbroken(parts[parts.len() - 1]));
        assert(unbroken(last));
        lemma_makes_line(last);
        let a = join(front, "\r\n "@) + end;
        let t = join(parts, "\r\n "@) + end;
        assert("\r\n "@ =~= end + " "@);
        assert(t =~= a + (last + end));
        let lines = folded_lines(parts);
        assert forall|rest: Seq<char>| #[trigger] text_lines(t + rest) == lines + text_lines(
            rest,
        ) by {
            assert(t + rest =~= a + ((last + end) + rest));
            assert(text_lines(a + ((last + end) + rest)) == folded_lines(front) + text_lines(
                (last + end) + rest,
            ));
            assert(folded_lines(front) + (seq![last + end] + text_lines(rest)) =~= lines
                + text_lines(rest));
        }
    }
}

/// The lines of a content line are lines of a calendar, and marks only if its first sign allows.
proof fn lemma_folded_tidy(parts: Seq<Seq<char>>)
    requires
        parts.len() > 0,
        byte_len(parts[0]) <= 75,
        forall|i: int| 0 < i < parts.len() ==> byte_len(#[trigger] parts[i]) <= 74,
        parts[0].len() > 0,
        parts[0][0] != 'B',
        parts[0][0] != 'U',
    ensures
        tidy(folded_lines(parts), Seq::empty()),
    decreases parts.len(),
{
    reveal_strlit("\r\n");
    reveal_strlit(" ");
    reveal_strlit("BEGIN:VEVENT\r\n");
    reveal_strlit("UID:");
    let lines = folded_lines(parts);
    let front = if parts.len() == 1 {
        Seq::empty()
    } else {
        folded_lines(parts.drop_last())
    };
    let part = if parts.len() == 1 {
        parts[0]
    } else {
        " "@ + parts.last()
    };
    if parts.len() == 1 {
        reveal(Seq::filter);
        assert(front.filter(is_mark()) =~= Seq::empty());
    } else {
        let fore = parts.drop_last();
        assert forall|i: int| 0 < i < fore.len() implies byte_len(#[trigger] fore[i]) <= 74 by {
            assert(fore[i] == parts[i]);
        }
        lemma_folded_tidy(fore);
        lemma_byte_len_space(parts.last());
        assert(byte_len(parts[parts.len() - 1]) <= 74);
    }
    let l = part + "\r\n"@;
    assert(lines =~= front.push(l));
    assert(l.take(l.len() - 2) =~= part);
    assert(is_calendar_line(l));
    assert(!is_mark()(l)) by {
        assert(l[0] == part[0]);
        if l == "BEGIN:VEVENT\r\n"@ {
            assert(l[0] == 'B');
        }
        if l.len() >= 4 && l.take(4) == "UID:"@ {
            assert(l.take(4)[0] == l[0]);
        }
    }
    lemma_filter_push(front, l, is_mark());
}

/// A space before a text takes one byte.
proof fn lemma_byte_len_space(t: Seq<char>)
    ensures
        byte_len(" "@ + t) == 1 + byte_len(t),
    decreases t.len(),
{
    reveal_strlit(" ");
    let u = " "@ + t;
    if t.len() == 0 {
        assert(u.drop_last() =~= Seq::<char>::empty());
        assert(u.last() == ' ');
        assert(width(' ') == 1);
        assert(byte_len(u.drop_last()) == 0);
    } else {
        lemma_byte_len_space(t.drop_last());
        assert(u.drop_last() =~= " "@ + t.drop_last());
        assert(u.last() == t.last());
        assert(byte_len(u) == byte_len(u.drop_last()) + width(u.last()));
    }
}

/// A text of letters, digits and signs of ASCII takes a byte for each.
proof fn lemma_byte_len_plain(t: Seq<char>)
    requires
        forall|i: int| 0 <= i < t.len() ==> (#[trigger] t[i] as u32) < 128,
    ensures
        byte_len(t) == t.len(),
    decreases t.len(),
{
    if t.len() > 0 {
        let u = t.drop_last();
        assert forall|i: int| 0 <= i < u.len() implies (#[trigger] u[i] as u32) < 128 by {
            assert(u[i] == t[i]);
        }
        lemma_byte_len_plain(u);
        assert((t[t.len() - 1] as u32) < 128);
    }
}

/// The pieces of a text without a line feed have none.
proof fn lemma_pieces_unbroken(t: Seq<char>)
    requires
        unbroken(t),
    ensures
        forall|i: int| 0 <= i < pieces(t).len() ==> unbroken(#[trigger] pieces(t)[i]),
    decreases t.len(),
{
    let n = fit(t, 74);
    if !(t.len() == 0 || n <= 0 || n > t.len()) {
        lemma_pieces_unbroken(t.skip(n));
        assert forall|i: int| 0 <= i < pieces(t).len() implies unbroken(
            #[trigger] pieces(t)[i],
        ) by {
            if i > 0 {
                assert(pieces(t)[i] == pieces(t.skip(n))[i - 1]);
            }
        }
    }
}

/// A property other than an id makes up lines without marks.
proof fn lemma_framed_property(x: Seq<char>)
    requires
        unbroken(x),
        x.len() > 0,
        x[0] != 'B',
        x[0] != 'U',
    ensures
        framed(folded(x), Seq::empty()),
{
    let parts = chunks(x);
    let n = fit(x, 75);
    lemma_fit(x, 75);
    law_folding_keeps_the_line(x);
    if byte_len(x) > 75 {
        lemma_pieces_unbroken(x.skip(n));
        lemma_pieces(x.skip(n));
        assert forall|i: int| 0 <= i < parts.len() implies unbroken(#[trigger] parts[i]) by {
            if i > 0 {
                assert(parts[i] == pieces(x.skip(n))[i - 1]);
            }
        }
        assert(parts[0] == x.take(n));
        assert(parts[0][0] == x[0]);
    }
    lemma_makes_parts(parts);
    lemma_folded_tidy(parts);
}

/// The id of an event makes up one line.
proof fn lemma_framed_id(id: Seq<char>)
    requires
        is_plain_id(id),
    ensures
        framed(folded("UID"@ + ":"@ + id), seq!["UID:"@ + id + "\r\n"@]),
{
    reveal_strlit("UID");
    reveal_strlit(":");
    reveal_strlit("UID:");
    reveal_strlit("\r\n");
    let x = "UID"@ + ":"@ + id;
    assert(x =~= "UID:"@ + id);
    assert forall|i: int| 0 <= i < x.len() implies (#[trigger] x[i] as u32) < 128 && x[i]
        != '\n' by {
        if i >= 4 {
            assert(x[i] == id[i - 4]);
        }
    }
    lemma_byte_len_plain(x);
    assert(chunks(x) == seq![x]);
    lemma_makes_parts(chunks(x));
    let l = x + "\r\n"@;
    assert(folded_lines(chunks(x)) == seq![l]);
    assert(l.take(l.len() - 2) =~= x);
    assert(l.take(4) =~= "UID:"@);
    lemma_filter_push(Seq::<Seq<char>>::empty(), l, is_mark());
    assert(Seq::<Seq<char>>::empty().filter(is_mark()) =~= Seq::empty()) by {
        reveal(Seq::filter);
    }
    assert(Seq::<Seq<char>>::empty().push(l) =~= seq![l]);
    assert(tidy(seq![l], seq![l]));
}

/// A short plain line makes up itself, and is a mark if it is one.
proof fn lemma_framed_line(x: Seq<char>, t: Seq<char>)
    requires
        t == x + "\r\n"@,
        x.len() <= 75,
        forall|i: int| 0 <= i < x.len() ==> (#[trigger] x[i] as u32) < 128 && x[i] != '\n',
    ensures
        framed(
            t,
            if is_mark()(t) {
                seq![t]
            } else {
                Seq::empty()
            },
        ),
{
    reveal_strlit("\r\n");
    lemma_byte_len_plain(x);
    lemma_makes_line(x);
    assert(t.take(t.len() - 2) =~= x);
    lemma_filter_push(Seq::<Seq<char>>::empty(), t, is_mark());
    assert(Seq::<Seq<char>>::empty().filter(is_mark()) =~= Seq::empty()) by {
        reveal(Seq::filter);
    }
    assert(Seq::<Seq<char>>::empty().push(t) =~= seq![t]);
}

/// A text without marks after another.
proof fn lemma_framed_more(a: Seq<char>, m: Seq<Seq<char>>, b: Seq<char>)
    requires
        framed(a, m),
        framed(b, Seq::empty()),
    ensures
        framed(a + b, m),
{
    lemma_framed_add(a, m, b, Seq::empty());
    assert(m + Seq::<Seq<char>>::empty() =~= m);
}

/// A property with a name and a value other than an id.
proof fn lemma_framed_named(name: Seq<char>, value: Seq<char>)
    requires
        unbroken(name),
        unbroken(value),
        name.len() > 0,
        name[0] != 'B',
        name[0] != 'U',
    ensures
        framed(folded(name + ":"@ + value), Seq::empty()),
{
    reveal_strlit(":");
    let x = name + ":"@ + value;
    assert forall|i: int| 0 <= i < x.len() implies #[trigger] x[i] != '\n' by {
        if i < name.len() {
            assert(x[i] == name[i]);
        } else if i > name.len() {
            assert(x[i] == value[i - name.len() - 1]);
        }
    }
    assert(x[0] == name[0]);
    lemma_framed_property(x);
}

// ── Values without a line feed ───────────────────────────────────────────────

/// One text without a line feed after another.
proof fn lemma_unbroken_add(a: Seq<char>, b: Seq<char>)
    requires
        unbroken(a),
        unbroken(b),
    ensures
        unbroken(a + b),
{
}

/// A number is written without a line feed.
proof fn lemma_unbroken_decimal(n: nat)
    ensures
        unbroken(decimal(n)),
    decreases n,
{
    if n >= 10 {
        lemma_unbroken_decimal(n / 10);
    }
}

/// A day is written without a line feed.
proof fn lemma_unbroken_day(day: int)
    ensures
        unbroken(compact_text(day)),
{
    let (y, m, d) = date_of(day);
    lemma_unbroken_decimal(m as nat);
    lemma_unbroken_decimal(d as nat);
    let size: nat = if y < 0 {
        (-y) as nat
    } else {
        y as nat
    };
    lemma_unbroken_decimal(size);
    assert(unbroken(four_digits(size)));
    assert(unbroken(year_text(y)));
    assert(unbroken(two_digits(m as nat)));
    assert(unbroken(two_digits(d as nat)));
    lemma_unbroken_add(year_text(y), two_digits(m as nat));
    lemma_unbroken_add(year_text(y) + two_digits(m as nat), two_digits(d as nat));
}

/// A point in time is written without a line feed.
proof fn lemma_unbroken_stamp(secs: int)
    ensures
        unbroken(stamp_text(secs)),
{
    let rest = secs % 86400;
    let day = compact_text(719163 + secs / 86400);
    let h = two_digits((rest / 3600) as nat);
    let m = two_digits((rest / 60 % 60) as nat);
    let s = two_digits((rest % 60) as nat);
    lemma_unbroken_day(719163 + secs / 86400);
    lemma_unbroken_decimal((rest / 3600) as nat);
    lemma_unbroken_decimal((rest / 60 % 60) as nat);
    lemma_unbroken_decimal((rest % 60) as nat);
    assert(unbroken(h) && unbroken(m) && unbroken(s));
    reveal_strlit("T");
    reveal_strlit("Z");
    lemma_unbroken_add(day, "T"@);
    lemma_unbroken_add(day + "T"@, h);
    lemma_unbroken_add(day + "T"@ + h, m);
    lemma_unbroken_add(day + "T"@ + h + m, s);
    lemma_unbroken_add(day + "T"@ + h + m + s, "Z"@);
}

/// An escaped value has no line feed.
proof fn lemma_unbroken_escaped(t: Seq<char>)
    ensures
        unbroken(ical_escaped(t)),
    decreases t.len(),
{
    let f = |c: char| ical_char(c);
    if t.len() > 0 {
        lemma_unbroken_escaped(t.drop_last());
        assert(unbroken(f(t.last())));
        assert(ical_escaped(t) == ical_escaped(t.drop_last()) + f(t.last()));
        lemma_unbroken_add(ical_escaped(t.drop_last()), f(t.last()));
    }
}

// ── Events and calendars ─────────────────────────────────────────────────────

/// The properties of an event up to its last day.
proof fn lemma_framed_days(id: Seq<char>, stamp: Seq<char>, start: Seq<char>, end: Seq<char>)
    requires
        is_plain_id(id),
        unbroken(stamp),
        unbroken(start),
        unbroken(end),
    ensures
        framed(
            "BEGIN:VEVENT\r\n"@ + folded("UID"@ + ":"@ + id) + folded("DTSTAMP"@ + ":"@ + stamp)
                + folded("DTSTART;VALUE=DATE"@ + ":"@ + start) + folded(
                "DTEND;VALUE=DATE"@ + ":"@ + end,
            ),
            seq!["BEGIN:VEVENT\r\n"@, "UID:"@ + id + "\r\n"@],
        ),
{
    let marks = seq!["BEGIN:VEVENT\r\n"@, "UID:"@ + id + "\r\n"@];
    assert(framed("BEGIN:VEVENT\r\n"@, seq!["BEGIN:VEVENT\r\n"@])) by {
        reveal_strlit("BEGIN:VEVENT\r\n");
        reveal_strlit("BEGIN:VEVENT");
        reveal_strlit("\r\n");
        assert("BEGIN:VEVENT\r\n"@ =~= "BEGIN:VEVENT"@ + "\r\n"@);
        lemma_framed_line("BEGIN:VEVENT"@, "BEGIN:VEVENT\r\n"@);
    }
    lemma_framed_id(id);
    let a = "BEGIN:VEVENT\r\n"@ + folded("UID"@ + ":"@ + id);
    lemma_framed_add(
        "BEGIN:VEVENT\r\n"@,
        seq!["BEGIN:VEVENT\r\n"@],
        folded("UID"@ + ":"@ + id),
        seq!["UID:"@ + id + "\r\n"@],
    );
    assert(seq!["BEGIN:VEVENT\r\n"@] + seq!["UID:"@ + id + "\r\n"@] =~= marks);
    reveal_strlit("DTSTAMP");
    reveal_strlit("DTSTART;VALUE=DATE");
    reveal_strlit("DTEND;VALUE=DATE");
    lemma_framed_named("DTSTAMP"@, stamp);
    lemma_framed_named("DTSTART;VALUE=DATE"@, start);
    lemma_framed_named("DTEND;VALUE=DATE"@, end);
    let b = a + folded("DTSTAMP"@ + ":"@ + stamp);
    lemma_framed_more(a, marks, folded("DTSTAMP"@ + ":"@ + stamp));
    let c = b + folded("DTSTART;VALUE=DATE"@ + ":"@ + start);
    lemma_framed_more(b, marks, folded("DTSTART;VALUE=DATE"@ + ":"@ + start));
    lemma_framed_more(c, marks, folded("DTEND;VALUE=DATE"@ + ":"@ + end));
}

/// An event makes up lines with the two marks that start it.
proof fn lemma_framed_event(
    a: AssignmentInstance,
    all: Seq<AssignmentInstance>,
    person_id: Seq<char>,
    stamp: Seq<char>,
)
    requires
        is_plain_id(a.uid@),
        unbroken(stamp),
    ensures
        framed(
            event_text(a, all, person_id, stamp),
            seq!["BEGIN:VEVENT\r\n"@, "UID:"@ + a.uid@ + "\r\n"@],
        ),
{
    let marks = seq!["BEGIN:VEVENT\r\n"@, "UID:"@ + a.uid@ + "\r\n"@];
    let start = compact_text(a.start.day as int);
    let end = compact_text(a.end.day + 1);
    lemma_unbroken_day(a.start.day as int);
    lemma_unbroken_day(a.end.day + 1);
    lemma_framed_days(a.uid@, stamp, start, end);
    let days = "BEGIN:VEVENT\r\n"@ + folded("UID"@ + ":"@ + a.uid@) + folded(
        "DTSTAMP"@ + ":"@ + stamp,
    ) + folded("DTSTART;VALUE=DATE"@ + ":"@ + start) + folded("DTEND;VALUE=DATE"@ + ":"@ + end);
    let title = ical_escaped(summary_text(a));
    let body = ical_escaped(join(description_lines(a, all, person_id), "\n"@));
    lemma_unbroken_escaped(summary_text(a));
    lemma_unbroken_escaped(join(description_lines(a, all, person_id), "\n"@));
    reveal_strlit("SUMMARY");
    reveal_strlit("DESCRIPTION");
    reveal_strlit("STATUS");
    reveal_strlit("COMPLETED");
    lemma_framed_named("SUMMARY"@, title);
    lemma_framed_named("DESCRIPTION"@, body);
    lemma_framed_named("STATUS"@, "COMPLETED"@);
    let b = days + folded("SUMMARY"@ + ":"@ + title);
    lemma_framed_more(days, marks, folded("SUMMARY"@ + ":"@ + title));
    let open = b + folded("DESCRIPTION"@ + ":"@ + body);
    lemma_framed_more(b, marks, folded("DESCRIPTION"@ + ":"@ + body));
    assert(framed("END:VEVENT\r\n"@, Seq::empty())) by {
        reveal_strlit("END:VEVENT\r\n");
        reveal_strlit("END:VEVENT");
        reveal_strlit("BEGIN:VEVENT\r\n");
        reveal_strlit("UID:");
        reveal_strlit("\r\n");
        assert("END:VEVENT\r\n"@ =~= "END:VEVENT"@ + "\r\n"@);
        assert("END:VEVENT\r\n"@.take(4)[0] == 'E');
        lemma_framed_line("END:VEVENT"@, "END:VEVENT\r\n"@);
    }
    let closed = open + folded("STATUS"@ + ":"@ + "COMPLETED"@);
    lemma_framed_more(open, marks, folded("STATUS"@ + ":"@ + "COMPLETED"@));
    lemma_framed_more(closed, marks, "END:VEVENT\r\n"@);
    lemma_framed_more(open, marks, "END:VEVENT\r\n"@);
}

/// The events of entries make up lines with their marks.
proof fn lemma_framed_events(
    mine: Seq<AssignmentInstance>,
    all: Seq<AssignmentInstance>,
    person_id: Seq<char>,
    stamp: Seq<char>,
)
    requires
        forall|i: int| 0 <= i < mine.len() ==> is_plain_id((#[trigger] mine[i]).uid@),
        unbroken(stamp),
    ensures
        framed(events_text(mine, all, person_id, stamp), event_marks(mine)),
    decreases mine.len(),
{
    if mine.len() == 0 {
        lemma_framed_nothing();
    } else {
        let front = mine.drop_last();
        assert forall|i: int| 0 <= i < front.len() implies is_plain_id(
            (#[trigger] front[i]).uid@,
        ) by {
            assert(front[i] == mine[i]);
        }
        lemma_framed_events(front, all, person_id, stamp);
        assert(is_plain_id(mine[mine.len() - 1].uid@));
        lemma_framed_event(mine.last(), all, person_id, stamp);
        lemma_framed_add(
            events_text(front, all, person_id, stamp),
            event_marks(front),
            event_text(mine.last(), all, person_id, stamp),
            seq!["BEGIN:VEVENT\r\n"@, "UID:"@ + mine.last().uid@ + "\r\n"@],
        );
    }
}

/// What stands before the events.
proof fn lemma_framed_head(name: Seq<char>)
    ensures
        framed(
            "BEGIN:VCALENDAR\r\n"@ + folded("VERSION"@ + ":"@ + "2.0"@) + folded(
                "PRODID"@ + ":"@ + "-//Cleaning Bot//EN"@,
            ) + folded("CALSCALE"@ + ":"@ + "GREGORIAN"@) + folded("METHOD"@ + ":"@ + "PUBLISH"@)
                + folded("X-WR-CALNAME"@ + ":"@ + ical_escaped(name)),
            Seq::empty(),
        ),
{
    let none = Seq::<Seq<char>>::empty();
    assert(framed("BEGIN:VCALENDAR\r\n"@, none)) by {
        reveal_strlit("BEGIN:VCALENDAR\r\n");
        reveal_strlit("BEGIN:VCALENDAR");
        reveal_strlit("BEGIN:VEVENT\r\n");
        reveal_strlit("UID:");
        reveal_strlit("\r\n");
        assert("BEGIN:VCALENDAR\r\n"@ =~= "BEGIN:VCALENDAR"@ + "\r\n"@);
        assert("BEGIN:VCALENDAR\r\n"@.take(4)[0] == 'B');
        lemma_framed_line("BEGIN:VCALENDAR"@, "BEGIN:VCALENDAR\r\n"@);
    }
    reveal_strlit("VERSION");
    reveal_strlit("2.0");
    reveal_strlit("PRODID");
    reveal_strlit("-//Cleaning Bot//EN");
    reveal_strlit("CALSCALE");
    reveal_strlit("GREGORIAN");
    reveal_strlit("METHOD");
    reveal_strlit("PUBLISH");
    reveal_strlit("X-WR-CALNAME");
    lemma_unbroken_escaped(name);
    lemma_framed_named("VERSION"@, "2.0"@);
    lemma_framed_named("PRODID"@, "-//Cleaning Bot//EN"@);
    lemma_framed_named("CALSCALE"@, "GREGORIAN"@);
    lemma_framed_named("METHOD"@, "PUBLISH"@);
    lemma_framed_named("X-WR-CALNAME"@, ical_escaped(name));
    let a = "BEGIN:VCALENDAR\r\n"@ + folded("VERSION"@ + ":"@ + "2.0"@);
    lemma_framed_more("BEGIN:VCALENDAR\r\n"@, none, folded("VERSION"@ + ":"@ + "2.0"@));
    let b = a + folded("PRODID"@ + ":"@ + "-//Cleaning Bot//EN"@);
    lemma_framed_more(a, none, folded("PRODID"@ + ":"@ + "-//Cleaning Bot//EN"@));
    let c = b + folded("CALSCALE"@ + ":"@ + "GREGORIAN"@);
    lemma_framed_more(b, none, folded("CALSCALE"@ + ":"@ + "GREGORIAN"@));
    let d = c + folded("METHOD"@ + ":"@ + "PUBLISH"@);
    lemma_framed_more(c, none, folded("METHOD"@ + ":"@ + "PUBLISH"@));
    lemma_framed_more(d, none, folded("X-WR-CALNAME"@ + ":"@ + ical_escaped(name)));
}

/// The marks of entries hold one start for each.
proof fn lemma_marks_start(mine: Seq<AssignmentInstance>)
    ensures
        event_marks(mine).filter(starts_event()).len() == mine.len(),
    decreases mine.len(),
{
    reveal(Seq::filter);
    if mine.len() > 0 {
        let front = mine.drop_last();
        lemma_marks_start(front);
        let first = "BEGIN:VEVENT\r\n"@;
        let id = "UID:"@ + mine.last().uid@ + "\r\n"@;
        let m = event_marks(front);
        assert(event_marks(mine) =~= m.push(first).push(id));
        lemma_filter_push(m, first, starts_event());
        lemma_filter_push(m.push(first), id, starts_event());
        reveal_strlit("BEGIN:VEVENT\r\n");
        reveal_strlit("UID:");
        assert(id[0] == 'U');
        assert(first[0] == 'B');
    }
}

/// A calendar is made of lines of at most 75 bytes, each with a carriage return and a line feed
/// at its end. It holds one event for each entry of the person, none for a person without entries,
/// in the order of the entries, and each gives the id of its entry. The ids are plain ones, as all
/// those of a snapshot of a state are.
pub proof fn law_calendar_has_an_event_for_each_entry(
    snapshot: ScheduleSnapshot,
    person_id: Seq<char>,
)
    requires
        forall|i: int|
            0 <= i < snapshot.assignments@.len() ==> is_plain_id(
                (#[trigger] snapshot.assignments@[i]).uid@,
            ),
    ensures
        ({
            let lines = text_lines(ics_text(snapshot, person_id));
            let mine = snapshot.assignments@.filter(entry_of_person(person_id));
            &&& forall|i: int| 0 <= i < lines.len() ==> is_calendar_line(#[trigger] lines[i])
            &&& lines.filter(starts_event()).len() == mine.len()
            &&& lines.filter(is_mark()) == event_marks(mine)
        }),
{
    let all = snapshot.assignments@;
    let mine = all.filter(entry_of_person(person_id));
    let secs = snapshot.state_timestamp.secs as int;
    let stamp = stamp_text(secs);
    lemma_filter(all, entry_of_person(person_id));
    assert forall|i: int| 0 <= i < mine.len() implies is_plain_id((#[trigger] mine[i]).uid@) by {
        let k = choose|k: int| 0 <= k < all.len() && all[k] == mine[i];
        assert(is_plain_id(all[k].uid@));
    }
    lemma_unbroken_stamp(secs);
    let name = "Putzplan – "@ + owner_name(mine);
    lemma_framed_head(name);
    let head = "BEGIN:VCALENDAR\r\n"@ + folded("VERSION"@ + ":"@ + "2.0"@) + folded(
        "PRODID"@ + ":"@ + "-//Cleaning Bot//EN"@,
    ) + folded("CALSCALE"@ + ":"@ + "GREGORIAN"@) + folded("METHOD"@ + ":"@ + "PUBLISH"@) + folded(
        "X-WR-CALNAME"@ + ":"@ + ical_escaped(name),
    );
    let events = events_text(mine, all, person_id, stamp);
    let marks = event_marks(mine);
    lemma_framed_events(mine, all, person_id, stamp);
    lemma_framed_add(head, Seq::empty(), events, marks);
    assert(Seq::<Seq<char>>::empty() + marks =~= marks);
    assert(framed("END:VCALENDAR\r\n"@, Seq::empty())) by {
        reveal_strlit("END:VCALENDAR\r\n");
        reveal_strlit("END:VCALENDAR");
        reveal_strlit("BEGIN:VEVENT\r\n");
        reveal_strlit("UID:");
        reveal_strlit("\r\n");
        assert("END:VCALENDAR\r\n"@ =~= "END:VCALENDAR"@ + "\r\n"@);
        assert("END:VCALENDAR\r\n"@.take(4)[0] == 'E');
        lemma_framed_line("END:VCALENDAR"@, "END:VCALENDAR\r\n"@);
    }
    lemma_framed_more(head + events, marks, "END:VCALENDAR\r\n"@);
    let t = ics_text(snapshot, person_id);
    assert(t == head + events + "END:VCALENDAR\r\n"@);
    let lines = choose|lines: Seq<Seq<char>>| #[trigger] makes(t, lines) && tidy(lines, marks);
    assert(t + Seq::<char>::empty() =~= t);
    assert(text_lines(t + Seq::<char>::empty()) == lines + text_lines(Seq::empty()));
    assert(text_lines(t) =~= lines);
    lemma_filter_through(lines, is_mark(), starts_event());
    lemma_marks_start(mine);
}

// ── What a calendar says ─────────────────────────────────────────────────────

/// The content lines of physical lines: a line that starts with a space continues the one before.
pub open spec fn unfolded(lines: Seq<Seq<char>>) -> Seq<Seq<char>>
    decreases lines.len(),
{
    if lines.len() == 0 {
        Seq::empty()
    } else {
        let r = unfolded(lines.drop_last());
        let l = lines.last().take(lines.last().len() - 2);
        if l.len() > 0 && l[0] == ' ' && r.len() > 0 {
            r.drop_last().push(r.last() + l.skip(1))
        } else {
            r.push(l)
        }
    }
}

/// The content lines of a calendar.
pub open spec fn content_lines(t: Seq<char>) -> Seq<Seq<char>> {
    unfolded(text_lines(t))
}

/// Whether a text, whatever stands around it, says content lines.
spec fn spells(t: Seq<char>, said: Seq<Seq<char>>) -> bool {
    exists|lines: Seq<Seq<char>>| #[trigger] makes(t, lines) && continues(lines, said)
}

spec fn continues(lines: Seq<Seq<char>>, said: Seq<Seq<char>>) -> bool {
    forall|before: Seq<Seq<char>>| #[trigger] unfolded(before + lines) == unfolded(before) + said
}

proof fn lemma_spells_add(a: Seq<char>, m: Seq<Seq<char>>, b: Seq<char>, n: Seq<Seq<char>>)
    requires
        spells(a, m),
        spells(b, n),
    ensures
        spells(a + b, m + n),
{
    let k = choose|k: Seq<Seq<char>>| #[trigger] makes(a, k) && continues(k, m);
    let l = choose|l: Seq<Seq<char>>| #[trigger] makes(b, l) && continues(l, n);
    assert forall|rest: Seq<char>| #[trigger] text_lines((a + b) + rest) == (k + l) + text_lines(
        rest,
    ) by {
        assert((a + b) + rest =~= a + (b + rest));
        assert(text_lines(a + (b + rest)) == k + text_lines(b + rest));
        assert(k + (l + text_lines(rest)) =~= (k + l) + text_lines(rest));
    }
    assert forall|before: Seq<Seq<char>>| #[trigger] unfolded(before + (k + l)) == unfolded(before)
        + (m + n) by {
        assert(before + (k + l) =~= (before + k) + l);
        assert(unfolded((before + k) + l) == unfolded(before + k) + n);
        assert((unfolded(before) + m) + n =~= unfolded(before) + (m + n));
    }
    assert(makes(a + b, k + l));
}

proof fn lemma_spells_nothing()
    ensures
        spells(Seq::empty(), Seq::empty()),
{
    let none = Seq::<Seq<char>>::empty();
    assert forall|rest: Seq<char>| #[trigger] text_lines(Seq::empty() + rest) == none + text_lines(
        rest,
    ) by {
        assert(Seq::<char>::empty() + rest =~= rest);
        assert(none + text_lines(rest) =~= text_lines(rest));
    }
    assert forall|before: Seq<Seq<char>>| #[trigger] unfolded(before + none) == unfolded(before)
        + none by {
        assert(before + none =~= before);
        assert(unfolded(before) + none =~= unfolded(before));
    }
    assert(makes(Seq::empty(), none));
}

/// The physical lines of a content line say it.
proof fn lemma_unfolded_parts(before: Seq<Seq<char>>, parts: Seq<Seq<char>>)
    requires
        parts.len() > 0,
        parts[0].len() > 0,
        parts[0][0] != ' ',
    ensures
        unfolded(before + folded_lines(parts)) == unfolded(before).push(concatenated(parts)),
    decreases parts.len(),
{
    reveal_strlit("\r\n");
    reveal_strlit(" ");
    let end = "\r\n"@;
    if parts.len() == 1 {
        let l = parts[0] + end;
        let all = before + folded_lines(parts);
        assert(all.drop_last() =~= before);
        assert(all.last() == l);
        assert(l.take(l.len() - 2) =~= parts[0]);
        assert(concatenated(parts) == parts[0]);
    } else {
        let front = parts.drop_last();
        lemma_unfolded_parts(before, front);
        let part = " "@ + parts.last();
        let l = part + end;
        let all = before + folded_lines(parts);
        assert(all.drop_last() =~= before + folded_lines(front));
        assert(all.last() == l);
        assert(l.take(l.len() - 2) =~= part);
        assert(part.skip(1) =~= parts.last());
        let r = unfolded(before).push(concatenated(front));
        assert(r.drop_last() =~= unfolded(before));
        assert(concatenated(parts) =~= concatenated(front) + parts.last());
    }
}

/// A content line is said by what it is written as.
proof fn lemma_spells_content(x: Seq<char>)
    requires
        unbroken(x),
        x.len() > 0,
        x[0] != ' ',
    ensures
        spells(folded(x), seq![x]),
{
    let parts = chunks(x);
    let n = fit(x, 75);
    lemma_fit(x, 75);
    law_folding_keeps_the_line(x);
    if byte_len(x) > 75 {
        lemma_pieces_unbroken(x.skip(n));
        lemma_pieces(x.skip(n));
        assert forall|i: int| 0 <= i < parts.len() implies unbroken(#[trigger] parts[i]) by {
            if i > 0 {
                assert(parts[i] == pieces(x.skip(n))[i - 1]);
            }
        }
        assert(parts[0] == x.take(n));
        assert(parts[0][0] == x[0]);
    }
    lemma_makes_parts(parts);
    assert forall|before: Seq<Seq<char>>| #[trigger] unfolded(before + folded_lines(parts))
        == unfolded(before) + seq![x] by {
        lemma_unfolded_parts(before, parts);
        assert(unfolded(before).push(x) =~= unfolded(before) + seq![x]);
    }
    assert(makes(folded(x), folded_lines(parts)));
}

/// A property is said by what it is written as.
proof fn lemma_spells_named(name: Seq<char>, value: Seq<char>)
    requires
        unbroken(name),
        unbroken(value),
        name.len() > 0,
        name[0] != ' ',
    ensures
        spells(folded(name + ":"@ + value), seq![name + ":"@ + value]),
{
    reveal_strlit(":");
    let x = name + ":"@ + value;
    assert forall|i: int| 0 <= i < x.len() implies #[trigger] x[i] != '\n' by {
        if i < name.len() {
            assert(x[i] == name[i]);
        } else if i > name.len() {
            assert(x[i] == value[i - name.len() - 1]);
        }
    }
    assert(x[0] == name[0]);
    lemma_spells_content(x);
}

/// A short line is said by itself.
proof fn lemma_spells_line(x: Seq<char>, t: Seq<char>)
    requires
        t == x + "\r\n"@,
        unbroken(x),
        x.len() > 0,
        x[0] != ' ',
    ensures
        spells(t, seq![x]),
{
    reveal_strlit("\r\n");
    lemma_makes_line(x);
    let lines = seq![t];
    assert forall|before: Seq<Seq<char>>| #[trigger] unfolded(before + lines) == unfolded(before)
        + seq![x] by {
        let all = before + lines;
        assert(all.drop_last() =~= before);
        assert(all.last() == t);
        assert(t.take(t.len() - 2) =~= x);
        assert(unfolded(before).push(x) =~= unfolded(before) + seq![x]);
    }
    assert(makes(t, lines));
}

/// One content line more.
proof fn lemma_spells_more(a: Seq<char>, m: Seq<Seq<char>>, b: Seq<char>, x: Seq<char>)
    requires
        spells(a, m),
        spells(b, seq![x]),
    ensures
        spells(a + b, m.push(x)),
{
    lemma_spells_add(a, m, b, seq![x]);
    assert(m + seq![x] =~= m.push(x));
}

/// What the event of an entry says: its id, the first day of the turn and the day after the last
/// one, the group and the shift, the rooms and who else cleans, and whether it is done.
pub open spec fn event_says(
    a: AssignmentInstance,
    all: Seq<AssignmentInstance>,
    person_id: Seq<char>,
    stamp: Seq<char>,
) -> Seq<Seq<char>> {
    let said = seq![
        "BEGIN:VEVENT"@,
        "UID"@ + ":"@ + a.uid@,
        "DTSTAMP"@ + ":"@ + stamp,
        "DTSTART;VALUE=DATE"@ + ":"@ + compact_text(a.start.day as int),
        "DTEND;VALUE=DATE"@ + ":"@ + compact_text(a.end.day + 1),
        "SUMMARY"@ + ":"@ + ical_escaped(
            "🧹 "@ + a.group_name@ + if a.shift_label is Some {
                " ("@ + a.shift_label->0@ + ")"@
            } else {
                Seq::empty()
            },
        ),
        "DESCRIPTION"@ + ":"@ + ical_escaped(join(description_lines(a, all, person_id), "\n"@)),
    ];
    if a.is_completed {
        said + seq!["STATUS"@ + ":"@ + "COMPLETED"@, "END:VEVENT"@]
    } else {
        said + seq!["END:VEVENT"@]
    }
}

/// What the events of entries say, one after another.
pub open spec fn events_say(
    mine: Seq<AssignmentInstance>,
    all: Seq<AssignmentInstance>,
    person_id: Seq<char>,
    stamp: Seq<char>,
) -> Seq<Seq<char>>
    decreases mine.len(),
{
    if mine.len() == 0 {
        Seq::empty()
    } else {
        events_say(mine.drop_last(), all, person_id, stamp) + event_says(
            mine.last(),
            all,
            person_id,
            stamp,
        )
    }
}

proof fn lemma_spells_event(
    a: AssignmentInstance,
    all: Seq<AssignmentInstance>,
    person_id: Seq<char>,
    stamp: Seq<char>,
)
    requires
        is_plain_id(a.uid@),
        unbroken(stamp),
    ensures
        spells(event_text(a, all, person_id, stamp), event_says(a, all, person_id, stamp)),
{
    let start = compact_text(a.start.day as int);
    let end = compact_text(a.end.day + 1);
    let title = ical_escaped(summary_text(a));
    let body = ical_escaped(join(description_lines(a, all, person_id), "\n"@));
    lemma_unbroken_day(a.start.day as int);
    lemma_unbroken_day(a.end.day + 1);
    lemma_unbroken_escaped(summary_text(a));
    lemma_unbroken_escaped(join(description_lines(a, all, person_id), "\n"@));
    assert(unbroken(a.uid@));
    let named = "🧹 "@ + a.group_name@ + if a.shift_label is Some {
        " ("@ + a.shift_label->0@ + ")"@
    } else {
        Seq::empty()
    };
    assert(named =~= summary_text(a));
    reveal_strlit("UID");
    reveal_strlit("DTSTAMP");
    reveal_strlit("DTSTART;VALUE=DATE");
    reveal_strlit("DTEND;VALUE=DATE");
    reveal_strlit("SUMMARY");
    reveal_strlit("DESCRIPTION");
    reveal_strlit("STATUS");
    reveal_strlit("COMPLETED");
    lemma_spells_named("UID"@, a.uid@);
    lemma_spells_named("DTSTAMP"@, stamp);
    lemma_spells_named("DTSTART;VALUE=DATE"@, start);
    lemma_spells_named("DTEND;VALUE=DATE"@, end);
    lemma_spells_named("SUMMARY"@, title);
    lemma_spells_named("DESCRIPTION"@, body);
    lemma_spells_named("STATUS"@, "COMPLETED"@);
    assert(spells("BEGIN:VEVENT\r\n"@, seq!["BEGIN:VEVENT"@]) && spells(
        "END:VEVENT\r\n"@,
        seq!["END:VEVENT"@],
    )) by {
        reveal_strlit("BEGIN:VEVENT\r\n");
        reveal_strlit("BEGIN:VEVENT");
        reveal_strlit("END:VEVENT\r\n");
        reveal_strlit("END:VEVENT");
        reveal_strlit("\r\n");
        assert("BEGIN:VEVENT\r\n"@ =~= "BEGIN:VEVENT"@ + "\r\n"@);
        assert("END:VEVENT\r\n"@ =~= "END:VEVENT"@ + "\r\n"@);
        lemma_spells_line("BEGIN:VEVENT"@, "BEGIN:VEVENT\r\n"@);
        lemma_spells_line("END:VEVENT"@, "END:VEVENT\r\n"@);
    }
    lemma_spells_parts(a.uid@, stamp, start, end, title, body, a.is_completed);
    let said = event_says(a, all, person_id, stamp);
    let seven = seq![
        "BEGIN:VEVENT"@,
        "UID"@ + ":"@ + a.uid@,
        "DTSTAMP"@ + ":"@ + stamp,
        "DTSTART;VALUE=DATE"@ + ":"@ + start,
        "DTEND;VALUE=DATE"@ + ":"@ + end,
        "SUMMARY"@ + ":"@ + title,
        "DESCRIPTION"@ + ":"@ + body,
    ];
    if a.is_completed {
        assert(said =~= seven.push("STATUS"@ + ":"@ + "COMPLETED"@).push("END:VEVENT"@));
    } else {
        assert(said =~= seven.push("END:VEVENT"@));
    }
}

/// The properties of an event one after another.
proof fn lemma_spells_parts(
    id: Seq<char>,
    stamp: Seq<char>,
    start: Seq<char>,
    end: Seq<char>,
    title: Seq<char>,
    body: Seq<char>,
    done: bool,
)
    requires
        spells("BEGIN:VEVENT\r\n"@, seq!["BEGIN:VEVENT"@]),
        spells("END:VEVENT\r\n"@, seq!["END:VEVENT"@]),
        spells(folded("UID"@ + ":"@ + id), seq!["UID"@ + ":"@ + id]),
        spells(folded("DTSTAMP"@ + ":"@ + stamp), seq!["DTSTAMP"@ + ":"@ + stamp]),
        spells(
            folded("DTSTART;VALUE=DATE"@ + ":"@ + start),
            seq!["DTSTART;VALUE=DATE"@ + ":"@ + start],
        ),
        spells(folded("DTEND;VALUE=DATE"@ + ":"@ + end), seq!["DTEND;VALUE=DATE"@ + ":"@ + end]),
        spells(folded("SUMMARY"@ + ":"@ + title), seq!["SUMMARY"@ + ":"@ + title]),
        spells(folded("DESCRIPTION"@ + ":"@ + body), seq!["DESCRIPTION"@ + ":"@ + body]),
        spells(folded("STATUS"@ + ":"@ + "COMPLETED"@), seq!["STATUS"@ + ":"@ + "COMPLETED"@]),
    ensures
        ({
            let open = "BEGIN:VEVENT\r\n"@ + folded("UID"@ + ":"@ + id) + folded(
                "DTSTAMP"@ + ":"@ + stamp,
            ) + folded("DTSTART;VALUE=DATE"@ + ":"@ + start) + folded(
                "DTEND;VALUE=DATE"@ + ":"@ + end,
            ) + folded("SUMMARY"@ + ":"@ + title) + folded("DESCRIPTION"@ + ":"@ + body);
            let seven = seq![
                "BEGIN:VEVENT"@,
                "UID"@ + ":"@ + id,
                "DTSTAMP"@ + ":"@ + stamp,
                "DTSTART;VALUE=DATE"@ + ":"@ + start,
                "DTEND;VALUE=DATE"@ + ":"@ + end,
                "SUMMARY"@ + ":"@ + title,
                "DESCRIPTION"@ + ":"@ + body,
            ];
            &&& spells(open + "END:VEVENT\r\n"@, seven.push("END:VEVENT"@))
            &&& spells(
                open + folded("STATUS"@ + ":"@ + "COMPLETED"@) + "END:VEVENT\r\n"@,
                seven.push("STATUS"@ + ":"@ + "COMPLETED"@).push("END:VEVENT"@),
            )
        }),
{
    let l0 = "BEGIN:VEVENT"@;
    let l1 = "UID"@ + ":"@ + id;
    let l2 = "DTSTAMP"@ + ":"@ + stamp;
    let l3 = "DTSTART;VALUE=DATE"@ + ":"@ + start;
    let l4 = "DTEND;VALUE=DATE"@ + ":"@ + end;
    let l5 = "SUMMARY"@ + ":"@ + title;
    let l6 = "DESCRIPTION"@ + ":"@ + body;
    let l7 = "STATUS"@ + ":"@ + "COMPLETED"@;
    let t0 = "BEGIN:VEVENT\r\n"@;
    let s0 = seq![l0];
    lemma_spells_more(t0, s0, folded(l1), l1);
    let t1 = t0 + folded(l1);
    let s1 = s0.push(l1);
    lemma_spells_more(t1, s1, folded(l2), l2);
    let t2 = t1 + folded(l2);
    let s2 = s1.push(l2);
    lemma_spells_more(t2, s2, folded(l3), l3);
    let t3 = t2 + folded(l3);
    let s3 = s2.push(l3);
    lemma_spells_more(t3, s3, folded(l4), l4);
    let t4 = t3 + folded(l4);
    let s4 = s3.push(l4);
    lemma_spells_more(t4, s4, folded(l5), l5);
    let t5 = t4 + folded(l5);
    let s5 = s4.push(l5);
    lemma_spells_more(t5, s5, folded(l6), l6);
    let t6 = t5 + folded(l6);
    let s6 = s5.push(l6);
    assert(s6 =~= seq![l0, l1, l2, l3, l4, l5, l6]);
    lemma_spells_more(t6, s6, "END:VEVENT\r\n"@, "END:VEVENT"@);
    lemma_spells_more(t6, s6, folded(l7), l7);
    lemma_spells_more(t6 + folded(l7), s6.push(l7), "END:VEVENT\r\n"@, "END:VEVENT"@);
}

proof fn lemma_spells_events(
    mine: Seq<AssignmentInstance>,
    all: Seq<AssignmentInstance>,
    person_id: Seq<char>,
    stamp: Seq<char>,
)
    requires
        forall|i: int| 0 <= i < mine.len() ==> is_plain_id((#[trigger] mine[i]).uid@),
        unbroken(stamp),
    ensures
        spells(
            events_text(mine, all, person_id, stamp),
            events_say(mine, all, person_id, stamp),
        ),
    decreases mine.len(),
{
    if mine.len() == 0 {
        lemma_spells_nothing();
    } else {
        let front = mine.drop_last();
        assert forall|i: int| 0 <= i < front.len() implies is_plain_id(
            (#[trigger] front[i]).uid@,
        ) by {
            assert(front[i] == mine[i]);
        }
        lemma_spells_events(front, all, person_id, stamp);
        assert(is_plain_id(mine[mine.len() - 1].uid@));
        lemma_spells_event(mine.last(), all, person_id, stamp);
        lemma_spells_add(
            events_text(front, all, person_id, stamp),
            events_say(front, all, person_id, stamp),
            event_text(mine.last(), all, person_id, stamp),
            event_says(mine.last(), all, person_id, stamp),
        );
    }
}

/// What stands before the events of a calendar.
pub open spec fn calendar_head(name: Seq<char>) -> Seq<Seq<char>> {
    seq![
        "BEGIN:VCALENDAR"@,
        "VERSION"@ + ":"@ + "2.0"@,
        "PRODID"@ + ":"@ + "-//Cleaning Bot//EN"@,
        "CALSCALE"@ + ":"@ + "GREGORIAN"@,
        "METHOD"@ + ":"@ + "PUBLISH"@,
        "X-WR-CALNAME"@ + ":"@ + ical_escaped("Putzplan – "@ + name),
    ]
}

proof fn lemma_spells_head(name: Seq<char>)
    ensures
        spells(
            "BEGIN:VCALENDAR\r\n"@ + folded("VERSION"@ + ":"@ + "2.0"@) + folded(
                "PRODID"@ + ":"@ + "-//Cleaning Bot//EN"@,
            ) + folded("CALSCALE"@ + ":"@ + "GREGORIAN"@) + folded("METHOD"@ + ":"@ + "PUBLISH"@)
                + folded("X-WR-CALNAME"@ + ":"@ + ical_escaped("Putzplan – "@ + name)),
            calendar_head(name),
        ),
{
    let value = ical_escaped("Putzplan – "@ + name);
    assert(spells("BEGIN:VCALENDAR\r\n"@, seq!["BEGIN:VCALENDAR"@])) by {
        reveal_strlit("BEGIN:VCALENDAR\r\n");
        reveal_strlit("BEGIN:VCALENDAR");
        reveal_strlit("\r\n");
        assert("BEGIN:VCALENDAR\r\n"@ =~= "BEGIN:VCALENDAR"@ + "\r\n"@);
        lemma_spells_line("BEGIN:VCALENDAR"@, "BEGIN:VCALENDAR\r\n"@);
    }
    reveal_strlit("VERSION");
    reveal_strlit("2.0");
    reveal_strlit("PRODID");
    reveal_strlit("-//Cleaning Bot//EN");
    reveal_strlit("CALSCALE");
    reveal_strlit("GREGORIAN");
    reveal_strlit("METHOD");
    reveal_strlit("PUBLISH");
    reveal_strlit("X-WR-CALNAME");
    lemma_unbroken_escaped("Putzplan – "@ + name);
    lemma_spells_named("VERSION"@, "2.0"@);
    lemma_spells_named("PRODID"@, "-//Cleaning Bot//EN"@);
    lemma_spells_named("CALSCALE"@, "GREGORIAN"@);
    lemma_spells_named("METHOD"@, "PUBLISH"@);
    lemma_spells_named("X-WR-CALNAME"@, value);
    let l0 = "BEGIN:VCALENDAR"@;
    let l1 = "VERSION"@ + ":"@ + "2.0"@;
    let l2 = "PRODID"@ + ":"@ + "-//Cleaning Bot//EN"@;
    let l3 = "CALSCALE"@ + ":"@ + "GREGORIAN"@;
    let l4 = "METHOD"@ + ":"@ + "PUBLISH"@;
    let l5 = "X-WR-CALNAME"@ + ":"@ + value;
    let t0 = "BEGIN:VCALENDAR\r\n"@;
    let s0 = seq![l0];
    lemma_spells_more(t0, s0, folded(l1), l1);
    let t1 = t0 + folded(l1);
    let s1 = s0.push(l1);
    lemma_spells_more(t1, s1, folded(l2), l2);
    let t2 = t1 + folded(l2);
    let s2 = s1.push(l2);
    lemma_spells_more(t2, s2, folded(l3), l3);
    let t3 = t2 + folded(l3);
    let s3 = s2.push(l3);
    lemma_spells_more(t3, s3, folded(l4), l4);
    let t4 = t3 + folded(l4);
    let s4 = s3.push(l4);
    lemma_spells_more(t4, s4, folded(l5), l5);
    assert(s4.push(l5) =~= calendar_head(name));
}

/// The lines of a calendar, once continued ones are joined, say what it is for: after the head one
/// event for each entry of the person, in order, with the entry's id, from the first day of the
/// turn to the day after its last one.
#[verifier::rlimit(40)]
pub proof fn law_calendar_says_when_each_turn_is(snapshot: ScheduleSnapshot, person_id: Seq<char>)
    requires
        forall|i: int|
            0 <= i < snapshot.assignments@.len() ==> is_plain_id(
                (#[trigger] snapshot.assignments@[i]).uid@,
            ),
    ensures
        ({
            let all = snapshot.assignments@;
            let mine = all.filter(
                |a: AssignmentInstance| a.assignee is Some && a.assignee->0.id@ == person_id,
            );
            let stamp = stamp_text(snapshot.state_timestamp.secs as int);
            let name = if mine.len() > 0 {
                mine[0].assignee->0.name@
            } else {
                "?"@
            };
            content_lines(ics_text(snapshot, person_id)) == calendar_head(name) + events_say(
                mine,
                all,
                person_id,
                stamp,
            ) + seq!["END:VCALENDAR"@]
        }),
{
    let all = snapshot.assignments@;
    let p = entry_of_person(person_id);
    let mine = all.filter(p);
    assert(p =~= (|a: AssignmentInstance|
        a.assignee is Some && a.assignee->0.id@ == person_id));
    let secs = snapshot.state_timestamp.secs as int;
    let stamp = stamp_text(secs);
    lemma_filter(all, p);
    assert forall|i: int| 0 <= i < mine.len() implies is_plain_id((#[trigger] mine[i]).uid@) by {
        let k = choose|k: int| 0 <= k < all.len() && all[k] == mine[i];
        assert(is_plain_id(all[k].uid@));
    }
    if mine.len() > 0 {
        assert(p(mine[0]));
    }
    lemma_unbroken_stamp(secs);
    let name = owner_name(mine);
    lemma_spells_head(name);
    lemma_spells_events(mine, all, person_id, stamp);
    let head = "BEGIN:VCALENDAR\r\n"@ + folded("VERSION"@ + ":"@ + "2.0"@) + folded(
        "PRODID"@ + ":"@ + "-//Cleaning Bot//EN"@,
    ) + folded("CALSCALE"@ + ":"@ + "GREGORIAN"@) + folded("METHOD"@ + ":"@ + "PUBLISH"@) + folded(
        "X-WR-CALNAME"@ + ":"@ + ical_escaped("Putzplan – "@ + name),
    );
    let events = events_text(mine, all, person_id, stamp);
    let said = calendar_head(name) + events_say(mine, all, person_id, stamp);
    lemma_spells_add(head, calendar_head(name), events, events_say(mine, all, person_id, stamp));
    assert(spells("END:VCALENDAR\r\n"@, seq!["END:VCALENDAR"@])) by {
        reveal_strlit("END:VCALENDAR\r\n");
        reveal_strlit("END:VCALENDAR");
        reveal_strlit("\r\n");
        assert("END:VCALENDAR\r\n"@ =~= "END:VCALENDAR"@ + "\r\n"@);
        lemma_spells_line("END:VCALENDAR"@, "END:VCALENDAR\r\n"@);
    }
    lemma_spells_add(head + events, said, "END:VCALENDAR\r\n"@, seq!["END:VCALENDAR"@]);
    let t = ics_text(snapshot, person_id);
    assert(t == head + events + "END:VCALENDAR\r\n"@);
    let full = said + seq!["END:VCALENDAR"@];
    let lines = choose|lines: Seq<Seq<char>>| #[trigger] makes(t, lines) && continues(lines, full);
    assert(t + Seq::<char>::empty() =~= t);
    assert(text_lines(t + Seq::<char>::empty()) == lines + text_lines(Seq::empty()));
    assert(text_lines(t) =~= lines);
    let none = Seq::<Seq<char>>::empty();
    assert(none + lines =~= lines);
    assert(unfolded(none + lines) == unfolded(none) + full);
    assert(unfolded(none) + full =~= full);
}

/// Where the events of a calendar stand: that of the entry at a place starts after the lines of
/// those before it.
proof fn lemma_event_place(
    mine: Seq<AssignmentInstance>,
    all: Seq<AssignmentInstance>,
    person_id: Seq<char>,
    stamp: Seq<char>,
    i: int,
) -> (at: int)
    requires
        0 <= i < mine.len(),
    ensures
        0 <= at,
        at + event_says(mine[i], all, person_id, stamp).len() <= events_say(
            mine,
            all,
            person_id,
            stamp,
        ).len(),
        events_say(mine, all, person_id, stamp).subrange(
            at,
            at + event_says(mine[i], all, person_id, stamp).len(),
        ) == event_says(mine[i], all, person_id, stamp),
    decreases mine.len(),
{
    let r = events_say(mine.drop_last(), all, person_id, stamp);
    let last = event_says(mine.last(), all, person_id, stamp);
    let whole = events_say(mine, all, person_id, stamp);
    if i == mine.len() - 1 {
        assert(whole.subrange(r.len() as int, (r.len() + last.len()) as int) =~= last);
        r.len() as int
    } else {
        let at = lemma_event_place(mine.drop_last(), all, person_id, stamp, i);
        let e = event_says(mine[i], all, person_id, stamp);
        assert(whole.subrange(at, at + e.len()) =~= r.subrange(at, at + e.len()));
        at
    }
}

/// Whether the event that starts at a content line is that of an entry: it carries the entry's id,
/// starts on the first day of the turn and ends on the day after the last one, names the group and
/// the shift, and says that it is completed if and only if the entry is.
pub open spec fn has_event_at(lines: Seq<Seq<char>>, a: AssignmentInstance, at: int) -> bool {
    &&& 0 <= at
    &&& at + 7 < lines.len()
    &&& lines[at] == "BEGIN:VEVENT"@
    &&& lines[at + 1] == "UID"@ + ":"@ + a.uid@
    &&& lines[at + 3] == "DTSTART;VALUE=DATE"@ + ":"@ + compact_text(a.start.day as int)
    &&& lines[at + 4] == "DTEND;VALUE=DATE"@ + ":"@ + compact_text(a.end.day + 1)
    &&& a.shift_label is None ==> lines[at + 5] == "SUMMARY"@ + ":"@ + ical_escaped(
        "🧹 "@ + a.group_name@,
    )
    &&& a.shift_label is Some ==> lines[at + 5] == "SUMMARY"@ + ":"@ + ical_escaped(
        "🧹 "@ + a.group_name@ + " ("@ + a.shift_label->0@ + ")"@,
    )
    &&& a.is_completed ==> lines[at + 7] == "STATUS"@ + ":"@ + "COMPLETED"@
    &&& !a.is_completed ==> lines[at + 7] == "END:VEVENT"@
}

/// Where an event stands among the lines of a calendar.
proof fn lemma_event_at(
    head: Seq<Seq<char>>,
    said: Seq<Seq<char>>,
    end: Seq<char>,
    a: AssignmentInstance,
    all: Seq<AssignmentInstance>,
    person_id: Seq<char>,
    stamp: Seq<char>,
    n: int,
)
    requires
        0 <= n,
        n + event_says(a, all, person_id, stamp).len() <= said.len(),
        said.subrange(n, n + event_says(a, all, person_id, stamp).len()) == event_says(
            a,
            all,
            person_id,
            stamp,
        ),
    ensures
        has_event_at(head + said + seq![end], a, head.len() + n),
{
    let e = event_says(a, all, person_id, stamp);
    let lines = head + said + seq![end];
    let at = head.len() + n;
    assert(e.len() >= 8);
    assert forall|j: int| 0 <= j < e.len() implies e[j] == #[trigger] said[n + j] by {
        assert(said.subrange(n, n + e.len())[j] == said[n + j]);
    }
    assert(lines[at + 0] == said[n + 0]);
    assert(lines[at + 1] == said[n + 1]);
    assert(lines[at + 3] == said[n + 3]);
    assert(lines[at + 4] == said[n + 4]);
    assert(lines[at + 5] == said[n + 5]);
    if a.shift_label is Some {
        assert("🧹 "@ + a.group_name@ + (" ("@ + a.shift_label->0@ + ")"@) =~= "🧹 "@ + a.group_name@
            + " ("@ + a.shift_label->0@ + ")"@);
    } else {
        assert("🧹 "@ + a.group_name@ + Seq::<char>::empty() =~= "🧹 "@ + a.group_name@);
    }
    assert(lines[at + 7] == said[n + 7]);
}

/// For every entry of a person, their calendar has an event with its id, whose first day is that of
/// the turn and whose end is the day after the last day of the turn.
pub proof fn law_every_turn_is_in_the_calendar(
    snapshot: ScheduleSnapshot,
    person_id: Seq<char>,
    k: int,
)
    requires
        forall|i: int|
            0 <= i < snapshot.assignments@.len() ==> is_plain_id(
                (#[trigger] snapshot.assignments@[i]).uid@,
            ),
        0 <= k < snapshot.assignments@.len(),
        snapshot.assignments@[k].assignee is Some,
        snapshot.assignments@[k].assignee->0.id@ == person_id,
    ensures
        exists|at: int| #[trigger]
            has_event_at(
                content_lines(ics_text(snapshot, person_id)),
                snapshot.assignments@[k],
                at,
            ),
{
    let all = snapshot.assignments@;
    let a = all[k];
    let p = entry_of_person(person_id);
    let mine = all.filter(p);
    assert(p =~= (|a: AssignmentInstance|
        a.assignee is Some && a.assignee->0.id@ == person_id));
    lemma_filter(all, p);
    assert(p(all[k]));
    assert(mine.contains(all[k]));
    let i = choose|i: int| 0 <= i < mine.len() && mine[i] == all[k];
    let stamp = stamp_text(snapshot.state_timestamp.secs as int);
    law_calendar_says_when_each_turn_is(snapshot, person_id);
    let name = if mine.len() > 0 {
        mine[0].assignee->0.name@
    } else {
        "?"@
    };
    let n = lemma_event_place(mine, all, person_id, stamp, i);
    let said = events_say(mine, all, person_id, stamp);
    assert(calendar_head(name).len() == 6);
    lemma_event_at(calendar_head(name), said, "END:VCALENDAR"@, a, all, person_id, stamp, n);
    let lines = content_lines(ics_text(snapshot, person_id));
    assert(has_event_at(lines, a, 6 + n));
}

/// The description of an event says when it is, names the rooms and everybody else who cleans in the
/// same group and week, and says who cleaned, where somebody did.
pub proof fn law_descriptions_name_who_else_cleans(
    a: AssignmentInstance,
    all: Seq<AssignmentInstance>,
    person_id: Seq<char>,
    k: int,
)
    requires
        0 <= k < all.len(),
        all[k].group_id@ == a.group_id@,
        all[k].iso_year == a.iso_year,
        all[k].iso_week == a.iso_week,
        all[k].assignee is Some,
        all[k].assignee->0.id@ != person_id,
    ensures
        description_lines(a, all, person_id)[0] == a.period_label@,
        a.room_names@.len() > 0 ==> description_lines(a, all, person_id).contains(
            "Rooms: "@ + join(views(a.room_names@), ", "@),
        ),
        exists|names: Seq<Seq<char>>|
            names.contains(all[k].assignee->0.name@) && description_lines(
                a,
                all,
                person_id,
            ).contains("Others: "@ + #[trigger] join(names, ", "@)),
        a.is_completed && !a.is_skipped && a.completed_by is Some ==> description_lines(
            a,
            all,
            person_id,
        ).contains("✓ Done by "@ + a.completed_by->0@),
{
    let d = description_lines(a, all, person_id);
    let p = crate::ical::beside(a, person_id);
    let others = all.filter(p);
    lemma_filter(all, p);
    assert(p(all[k]));
    let j = choose|j: int| 0 <= j < others.len() && others[j] == all[k];
    let names = crate::ical::names_of(others);
    assert(names[j] == all[k].assignee->0.name@);
    assert(names.contains(all[k].assignee->0.name@));
    let line = "Others: "@ + join(names, ", "@);
    if a.room_names@.len() > 0 {
        assert(d[1] == "Rooms: "@ + join(views(a.room_names@), ", "@));
        assert(d[2] == line);
    } else {
        assert(d[1] == line);
    }
    if a.is_completed && !a.is_skipped && a.completed_by is Some {
        assert(d[d.len() - 1] == "✓ Done by "@ + a.completed_by->0@);
    }
}

} // verus!
