//! What the printable plan holds.

use vstd::prelude::*;

use crate::calendar::plain_text;
use crate::lists::lemma_filter;
use crate::pdf::{
    area_text, ends_week, group_heads, head_section, names_group, row_text, rows_text,
    section_text, sections, span_text, starts_week, tex_escaped, tex_text, week_cells, COLUMNS,
    HEADER, PREAMBLE,
};
use crate::schedule::{entry_of_group, AssignmentInstance, ScheduleSnapshot};
use crate::text::join;

verus! {

/// Whether a text holds another one.
pub open spec fn holds(t: Seq<char>, part: Seq<char>) -> bool {
    exists|at: int| #[trigger] holds_at(t, part, at)
}

/// Whether a text holds another one at a place.
pub open spec fn holds_at(t: Seq<char>, part: Seq<char>, at: int) -> bool {
    0 <= at && at + part.len() <= t.len() && t.subrange(at, at + part.len()) == part
}

/// A text holds what stands between two others.
pub proof fn lemma_holds_between(u: Seq<char>, part: Seq<char>, v: Seq<char>)
    ensures
        holds_at(u + part + v, part, u.len() as int),
{
    let t = u + part + v;
    assert(t.subrange(u.len() as int, (u.len() + part.len()) as int) =~= part);
}

proof fn lemma_holds_within(t: Seq<char>, s: Seq<char>, at: int, part: Seq<char>, in_s: int)
    requires
        holds_at(t, s, at),
        holds_at(s, part, in_s),
    ensures
        holds_at(t, part, at + in_s),
{
    assert(t.subrange(at + in_s, at + in_s + part.len()) =~= s.subrange(
        in_s,
        in_s + part.len(),
    ));
}

/// A joined text holds each of its parts.
pub proof fn lemma_join_holds(parts: Seq<Seq<char>>, sep: Seq<char>, j: int) -> (at: int)
    requires
        0 <= j < parts.len(),
    ensures
        holds_at(join(parts, sep), parts[j], at),
    decreases parts.len(),
{
    let none = Seq::<char>::empty();
    if parts.len() == 1 {
        assert(none + parts[0] + none =~= parts[0]);
        lemma_holds_between(none, parts[0], none);
        0
    } else {
        let r = join(parts.drop_last(), sep);
        if j == parts.len() - 1 {
            assert(r + sep + parts.last() + none =~= r + sep + parts.last());
            lemma_holds_between(r + sep, parts.last(), none);
            (r + sep).len() as int
        } else {
            let at = lemma_join_holds(parts.drop_last(), sep, j);
            assert(none + r + (sep + parts.last()) =~= r + sep + parts.last());
            lemma_holds_between(none, r, sep + parts.last());
            lemma_holds_within(join(parts, sep), r, 0, parts[j], at);
            at
        }
    }
}

proof fn lemma_rows_hold(rows: Seq<AssignmentInstance>, n: int, k: int) -> (at: int)
    requires
        0 <= k < n <= rows.len(),
    ensures
        holds_at(
            rows_text(rows, n),
            row_text(rows[k], starts_week(rows, k), ends_week(rows, k)),
            at,
        ),
    decreases n,
{
    let none = Seq::<char>::empty();
    let r = rows_text(rows, n - 1);
    let last = row_text(rows[n - 1], starts_week(rows, n - 1), ends_week(rows, n - 1));
    if k == n - 1 {
        assert(r + last + none =~= r + last);
        lemma_holds_between(r, last, none);
        r.len() as int
    } else {
        let at = lemma_rows_hold(rows, n - 1, k);
        assert(none + r + last =~= r + last);
        lemma_holds_between(none, r, last);
        lemma_holds_within(
            rows_text(rows, n),
            r,
            0,
            row_text(rows[k], starts_week(rows, k), ends_week(rows, k)),
            at,
        );
        at
    }
}

proof fn lemma_head_of(s: Seq<AssignmentInstance>, i: int) -> (h: int)
    requires
        0 <= i < s.len(),
    ensures
        0 <= h < group_heads(s).len(),
        group_heads(s)[h].group_id@ == s[i].group_id@,
    decreases s.len(),
{
    let u = s.drop_last();
    if i < u.len() {
        assert(u[i] == s[i]);
        lemma_head_of(u, i)
    } else if names_group(u, s.last().group_id@) {
        let k = choose|k: int| 0 <= k < u.len() && (#[trigger] u[k]).group_id@ == s.last().group_id@;
        lemma_head_of(u, k)
    } else {
        group_heads(u).len() as int
    }
}

proof fn lemma_heads_are_entries(s: Seq<AssignmentInstance>, h: int)
    requires
        0 <= h < group_heads(s).len(),
    ensures
        s.contains(group_heads(s)[h]),
    decreases s.len(),
{
    let u = s.drop_last();
    if h < group_heads(u).len() {
        lemma_heads_are_entries(u, h);
        let k = choose|k: int| 0 <= k < u.len() && u[k] == group_heads(u)[h];
        assert(s[k] == group_heads(s)[h]);
    } else {
        assert(s[s.len() - 1] == group_heads(s)[h]);
    }
}

/// The heading of a group.
pub open spec fn heading(name: Seq<char>) -> Seq<char> {
    "{\\fontsize{14}{17}\\selectfont\\bfseries "@ + tex_escaped(name) + "}"@
}

/// What the plan says of an entry: who is responsible, whether it is done, and since when.
pub open spec fn line_of(a: AssignmentInstance) -> Seq<char> {
    " & "@ + tex_escaped(
        match a.assignee {
            Some(p) => p.name@,
            None => "(nobody assigned)"@,
        },
    ) + " & "@ + (if a.is_completed {
        "$\\checkmark$"@
    } else {
        Seq::empty()
    }) + " & "@ + (match a.completed_at {
        Some(d) => tex_escaped(plain_text(d.day as int)),
        None => Seq::empty(),
    }) + " \\\\\n"@
}

proof fn lemma_holds_more(x: Seq<char>, y: Seq<char>, part: Seq<char>, at: int)
    requires
        holds_at(x, part, at),
    ensures
        holds_at(x + y, part, at),
{
    assert((x + y).subrange(at, at + part.len()) =~= x.subrange(at, at + part.len()));
}

/// What a section starts with holds its heading.
proof fn lemma_heading(size: Seq<char>, skip: Seq<char>, name: Seq<char>) -> (at: int)
    ensures
        holds_at(
            "\\fontsize{"@ + size + "}{"@ + skip
                + "}\\selectfont\n{\\fontsize{14}{17}\\selectfont\\bfseries "@ + tex_escaped(name)
                + "}\\\\\n\\vspace{0.5mm}\\rule{\\linewidth}{0.6pt}\\\\\n{\\fontsize{7.5}{9.5}\\selectfont\\itshape "@,
            heading(name),
            at,
        ),
{
    let b = "{\\fontsize{14}{17}\\selectfont\\bfseries "@;
    let a = "}\\selectfont\n"@;
    let ab = "}\\selectfont\n{\\fontsize{14}{17}\\selectfont\\bfseries "@;
    let c = "\\\\\n\\vspace{0.5mm}\\rule{\\linewidth}{0.6pt}\\\\\n{\\fontsize{7.5}{9.5}\\selectfont\\itshape "@;
    let bc = "}\\\\\n\\vspace{0.5mm}\\rule{\\linewidth}{0.6pt}\\\\\n{\\fontsize{7.5}{9.5}\\selectfont\\itshape "@;
    assert(ab =~= a + b) by {
        reveal_strlit("}\\selectfont\n{\\fontsize{14}{17}\\selectfont\\bfseries ");
        reveal_strlit("}\\selectfont\n");
        reveal_strlit("{\\fontsize{14}{17}\\selectfont\\bfseries ");
    }
    assert(bc =~= "}"@ + c) by {
        reveal_strlit(
            "}\\\\\n\\vspace{0.5mm}\\rule{\\linewidth}{0.6pt}\\\\\n{\\fontsize{7.5}{9.5}\\selectfont\\itshape ",
        );
        reveal_strlit("}");
        reveal_strlit(
            "\\\\\n\\vspace{0.5mm}\\rule{\\linewidth}{0.6pt}\\\\\n{\\fontsize{7.5}{9.5}\\selectfont\\itshape ",
        );
    }
    let x = tex_escaped(name);
    let f = "\\fontsize{"@ + size + "}{"@ + skip;
    assert(f + ab + x + bc =~= (f + a) + (b + x + "}"@) + c);
    lemma_holds_between(f + a, heading(name), c);
    (f + a).len() as int
}

/// A section holds its heading, and after it each of its rows.
proof fn lemma_section(
    name: Seq<char>,
    dates: Seq<char>,
    interval: nat,
    generated: Seq<char>,
    rows: Seq<AssignmentInstance>,
    k: int,
) -> (r: (int, int))
    requires
        0 <= k < rows.len(),
    ensures
        holds_at(section_text(name, dates, interval, generated, rows), heading(name), r.0),
        holds_at(section_text(name, dates, interval, generated, rows), line_of(rows[k]), r.1),
        r.0 < r.1,
{
    let t = section_text(name, dates, interval, generated, rows);
    let n = rows.len() as int;
    let a = rows[k];
    let row = row_text(a, starts_week(rows, k), ends_week(rows, k));
    let size = crate::pdf::font_size(n);
    let h = heading(name);
    let x = lemma_heading(size.0, size.1, name);
    let m0 = "\\fontsize{"@ + size.0 + "}{"@ + size.1
        + "}\\selectfont\n{\\fontsize{14}{17}\\selectfont\\bfseries "@ + tex_escaped(name)
        + "}\\\\\n\\vspace{0.5mm}\\rule{\\linewidth}{0.6pt}\\\\\n{\\fontsize{7.5}{9.5}\\selectfont\\itshape "@;
    let m1 = m0 + tex_escaped(dates);
    lemma_holds_more(m0, tex_escaped(dates), h, x);
    let m2 = m1 + " $\\cdot$ Every "@;
    lemma_holds_more(m1, " $\\cdot$ Every "@, h, x);
    let m3 = m2 + crate::text::decimal(interval);
    lemma_holds_more(m2, crate::text::decimal(interval), h, x);
    let m4 = m3 + " week(s) $\\cdot$ Generated "@;
    lemma_holds_more(m3, " week(s) $\\cdot$ Generated "@, h, x);
    let m5 = m4 + tex_escaped(generated);
    lemma_holds_more(m4, tex_escaped(generated), h, x);
    let m6 = m5 + "}\n\\vspace{2mm}\n\n\\begin{longtable}{"@;
    lemma_holds_more(m5, "}\n\\vspace{2mm}\n\n\\begin{longtable}{"@, h, x);
    let m7 = m6 + COLUMNS@;
    lemma_holds_more(m6, COLUMNS@, h, x);
    let m8 = m7 + "}\n"@;
    lemma_holds_more(m7, "}\n"@, h, x);
    let m9 = m8 + HEADER@;
    lemma_holds_more(m8, HEADER@, h, x);
    let m10 = m9 + "\\endfirsthead\n\\multicolumn{6}{l}{\\small\\itshape "@;
    lemma_holds_more(m9, "\\endfirsthead\n\\multicolumn{6}{l}{\\small\\itshape "@, h, x);
    let m11 = m10 + tex_escaped(name);
    lemma_holds_more(m10, tex_escaped(name), h, x);
    let m12 = m11 + " (continued)} \\\\\n"@;
    lemma_holds_more(m11, " (continued)} \\\\\n"@, h, x);
    let m13 = m12 + HEADER@;
    lemma_holds_more(m12, HEADER@, h, x);
    let m14 = m13 + "\\endhead\n\\endfoot\n\\endlastfoot\n"@;
    lemma_holds_more(m13, "\\endhead\n\\endfoot\n\\endlastfoot\n"@, h, x);
    let end = "\\end{longtable}\n\n{\\fontsize{6.5}{8}\\selectfont\\hfill $\\checkmark$ = done}\n"@;
    let body = rows_text(rows, n);
    assert(t == m14 + body + end);
    lemma_holds_more(m14, body, h, x);
    lemma_holds_more(m14 + body, end, h, x);
    lemma_holds_between(m14, body, end);
    let at = lemma_rows_hold(rows, n, k);
    let from = m14.len() as int;
    lemma_holds_within(t, body, from, row, at);
    let cells = week_cells(a, starts_week(rows, k)) + " & "@ + area_text(a);
    let close = if ends_week(rows, k) {
        "\\hline\n"@
    } else {
        "\\cline{3-6}\n"@
    };
    lemma_row(a, starts_week(rows, k), ends_week(rows, k));
    lemma_holds_between(cells, line_of(a), close);
    lemma_holds_within(t, row, from + at, line_of(a), cells.len() as int);
    assert(h.len() > 0) by {
        reveal_strlit("}");
    }
    (x, from + at + cells.len())
}

proof fn lemma_row(a: AssignmentInstance, first: bool, last: bool)
    ensures
        row_text(a, first, last) == (week_cells(a, first) + " & "@ + area_text(a)) + line_of(a) + (
        if last {
            "\\hline\n"@
        } else {
            "\\cline{3-6}\n"@
        }),
{
    reveal_strlit("");
    let x = tex_escaped(a.shown_name());
    let done = if a.is_completed {
        "$\\checkmark$"@
    } else {
        ""@
    };
    let none = Seq::<char>::empty();
    assert(""@ =~= none);
    let cells = week_cells(a, first) + " & "@ + area_text(a);
    let date = crate::pdf::done_cell(a);
    let close = if last {
        "\\hline\n"@
    } else {
        "\\cline{3-6}\n"@
    };
    let line = " & "@ + x + " & "@ + done + " & "@ + date + " \\\\\n"@;
    assert(line_of(a) == line);
    assert(cells + " & "@ + x + " & "@ + done + " & "@ + date + " \\\\\n"@ + close =~= cells + line
        + close);
}

/// Whether the plan holds, after the heading of a group, the line of an entry.
pub open spec fn lists_under(t: Seq<char>, name: Seq<char>, a: AssignmentInstance, head: int, line: int) -> bool {
    &&& holds_at(t, heading(name), head)
    &&& holds_at(t, line_of(a), line)
    &&& head < line
}

/// Every entry of a schedule has its line in the printable plan, with whoever is responsible, a tick
/// if it is done and the day of its mark, below the heading of its group.
pub proof fn law_printed_plan_lists_every_entry(snapshot: ScheduleSnapshot, interval: nat, i: int)
    requires
        0 <= i < snapshot.assignments@.len(),
        forall|j: int, k: int|
            #![trigger snapshot.assignments@[j], snapshot.assignments@[k]]
            0 <= j < snapshot.assignments@.len() && 0 <= k < snapshot.assignments@.len()
                && snapshot.assignments@[j].group_id@ == snapshot.assignments@[k].group_id@
                ==> snapshot.assignments@[j].group_name@ == snapshot.assignments@[k].group_name@,
    ensures
        exists|head: int, line: int| #[trigger]
            lists_under(
                tex_text(snapshot, interval),
                snapshot.assignments@[i].group_name@,
                snapshot.assignments@[i],
                head,
                line,
            ),
{
    let all = snapshot.assignments@;
    let a = all[i];
    let generated = crate::calendar::padded_text(
        719163 + snapshot.state_timestamp.secs as int / 86400,
    );
    let heads = group_heads(all);
    let h = lemma_head_of(all, i);
    let head = heads[h];
    lemma_heads_are_entries(all, h);
    let j = choose|j: int| 0 <= j < all.len() && all[j] == head;
    assert(all[j].group_name@ == all[i].group_name@);
    let p = entry_of_group(head.group_id@);
    let rows = all.filter(p);
    lemma_filter(all, p);
    assert(p(all[i]));
    assert(rows.contains(all[i]));
    let k = choose|k: int| 0 <= k < rows.len() && rows[k] == a;
    let (x, y) = lemma_section(
        head.group_name@,
        span_text(rows),
        interval,
        generated,
        rows,
        k,
    );
    let parts = sections(all, heads, interval, generated);
    let s = parts[h];
    assert(s == head_section(all, head, interval, generated));
    let sep = "\n\\clearpage\n\n"@;
    let at = lemma_join_holds(parts, sep, h);
    let t = tex_text(snapshot, interval);
    let front = PREAMBLE@ + "\n\n\\begin{document}\n"@;
    lemma_holds_between(front, join(parts, sep), "\n\\end{document}\n"@);
    let from = front.len() as int;
    lemma_holds_within(t, join(parts, sep), from, s, at);
    lemma_holds_within(t, s, from + at, heading(head.group_name@), x);
    lemma_holds_within(t, s, from + at, line_of(a), y);
    assert(lists_under(t, a.group_name@, a, from + at + x, from + at + y));
}

} // verus!
