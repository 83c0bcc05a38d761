//! LaTeX rendering of the schedule.

use vstd::prelude::*;

use crate::calendar::{is_time, padded_date, padded_text, plain_date, plain_text, Date};
use crate::schedule::{entry_of_group, AssignmentInstance, ScheduleSnapshot};
use crate::text::{
    chars_of, decimal, join, join_texts, lemma_views_push, same_text, show, show_signed,
    signed_decimal, spelled, views,
};

verus! {

/// How a character is written in LaTeX body text.
pub open spec fn tex_char(c: char) -> Seq<char> {
    if c == '&' {
        r"\&"@
    } else if c == '%' {
        r"\%"@
    } else if c == '$' {
        r"\$"@
    } else if c == '#' {
        r"\#"@
    } else if c == '_' {
        r"\_"@
    } else if c == '{' {
        r"\{"@
    } else if c == '}' {
        r"\}"@
    } else if c == '~' {
        r"\textasciitilde{}"@
    } else if c == '^' {
        r"\textasciicircum{}"@
    } else if c == '\\' {
        r"\textbackslash{}"@
    } else if c == '\u{2013}' {
        "--"@
    } else if c == '\u{2014}' {
        "---"@
    } else {
        seq![c]
    }
}

/// A text as LaTeX body text.
pub open spec fn tex_escaped(t: Seq<char>) -> Seq<char> {
    spelled(t, |c: char| tex_char(c))
}

/// A sign that LaTeX reads as a command unless a backslash stands before it.
pub open spec fn is_active_sign(c: char) -> bool {
    c == '&' || c == '%' || c == '$' || c == '#' || c == '_'
}

/// Whether LaTeX reads a text as text: its active signs stand behind backslashes, and what cannot
/// be escaped so does not occur.
pub open spec fn is_body_text(t: Seq<char>) -> bool {
    forall|i: int|
        0 <= i < t.len() ==> (is_active_sign(#[trigger] t[i]) ==> i > 0 && t[i - 1] == '\\')
            && t[i] != '~' && t[i] != '^' && t[i] != '\u{2013}' && t[i] != '\u{2014}'
}

/// What one character becomes is body text that starts with no active sign.
proof fn lemma_tex_char(c: char)
    ensures
        is_body_text(tex_char(c)),
        tex_char(c).len() > 0,
        !is_active_sign(tex_char(c)[0]),
{
    reveal_strlit(r"\&");
    reveal_strlit(r"\%");
    reveal_strlit(r"\$");
    reveal_strlit(r"\#");
    reveal_strlit(r"\_");
    reveal_strlit(r"\{");
    reveal_strlit(r"\}");
    reveal_strlit(r"\textasciitilde{}");
    reveal_strlit(r"\textasciicircum{}");
    reveal_strlit(r"\textbackslash{}");
    reveal_strlit("--");
    reveal_strlit("---");
}

/// An escaped text is body text, whatever it was.
pub proof fn law_escaped_text_is_body_text(t: Seq<char>)
    ensures
        is_body_text(tex_escaped(t)),
    decreases t.len(),
{
    if t.len() > 0 {
        law_escaped_text_is_body_text(t.drop_last());
        lemma_tex_char(t.last());
        let a = tex_escaped(t.drop_last());
        let b = tex_char(t.last());
        let r = tex_escaped(t);
        assert(r == a + b);
        assert forall|i: int| 0 <= i < r.len() implies (is_active_sign(#[trigger] r[i]) ==> i > 0
            && r[i - 1] == '\\') && r[i] != '~' && r[i] != '^' && r[i] != '\u{2013}' && r[i]
            != '\u{2014}' by {
            if i < a.len() {
                assert(r[i] == a[i]);
            } else {
                assert(r[i] == b[i - a.len()]);
            }
        }
    }
}

/// Escapes a string for LaTeX body text.
pub fn tex_esc(s: &str) -> (r: String)
    ensures
        r@ == tex_escaped(s@),
{
    let v = chars_of(s);
    let mut out = String::new();
    let mut i: usize = 0;
    while i < v.len()
        invariant
            i <= v.len(),
            v@ == s@,
            out@ == tex_escaped(s@.take(i as int)),
        decreases v.len() - i,
    {
        let ghost before = out@;
        proof {
            assert(s@.take(i + 1).drop_last() =~= s@.take(i as int));
        }
        let c = v[i];
        if c == '&' {
            out.append(r"\&");
        } else if c == '%' {
            out.append(r"\%");
        } else if c == '$' {
            out.append(r"\$");
        } else if c == '#' {
            out.append(r"\#");
        } else if c == '_' {
            out.append(r"\_");
        } else if c == '{' {
            out.append(r"\{");
        } else if c == '}' {
            out.append(r"\}");
        } else if c == '~' {
            out.append(r"\textasciitilde{}");
        } else if c == '^' {
            out.append(r"\textasciicircum{}");
        } else if c == '\\' {
            out.append(r"\textbackslash{}");
        } else if c == '\u{2013}' {
            out.append("--");
        } else if c == '\u{2014}' {
            out.append("---");
        } else {
            out.push(c);
            assert(out@ =~= before + tex_char(c));
        }
        i += 1;
    }
    assert(s@.take(s@.len() as int) =~= s@);
    out
}

/// LaTeX font size and line skip for a table of `n` rows, so that it fits on a page.
pub open spec fn font_size(n: int) -> (Seq<char>, Seq<char>) {
    if n <= 25 {
        ("10"@, "13"@)
    } else if n <= 34 {
        ("9"@, "11"@)
    } else if n <= 45 {
        ("8"@, "10"@)
    } else {
        ("7"@, "9"@)
    }
}

/// LaTeX font size and line skip for a table of `n` rows, so that it fits on a page.
pub fn font_size_for_rows(n: usize) -> (r: (&'static str, &'static str))
    ensures
        (r.0@, r.1@) == font_size(n as int),
{
    if n <= 25 {
        ("10", "13")
    } else if n <= 34 {
        ("9", "11")
    } else if n <= 45 {
        ("8", "10")
    } else {
        ("7", "9")
    }
}

// ── Tables ───────────────────────────────────────────────────────────────────

/// Packages and page layout.
pub const PREAMBLE: &'static str = r#"\documentclass[a4paper]{article}
\usepackage[a4paper, top=12mm, bottom=12mm, left=14mm, right=14mm]{geometry}
\usepackage{longtable}
\usepackage{array}
\usepackage[T1]{fontenc}
\usepackage[utf8]{inputenc}
\usepackage{lmodern}
\usepackage{helvet}
\renewcommand{\familydefault}{\sfdefault}
\usepackage{microtype}
\usepackage{amssymb}
\pagenumbering{gobble}
\setlength{\parindent}{0pt}
\setlength{\tabcolsep}{4pt}
\renewcommand{\arraystretch}{1.3}
% Remove longtable's default \bigskip spacing around the table.
\setlength{\LTpre}{2pt}
\setlength{\LTpost}{0pt}

"#;

/// Column widths, in all about the width of a page without its margins.
pub const COLUMNS: &'static str = "|>{\\centering\\arraybackslash}p{13mm}|>{\\raggedright\\arraybackslash}p{28mm}|>{\\raggedright\\arraybackslash}p{45mm}|>{\\raggedright\\arraybackslash}p{45mm}|>{\\centering\\arraybackslash}p{9mm}|p{24mm}|";

/// The header of the table.
pub const HEADER: &'static str = "\\hline\n\\textbf{Week} & \\textbf{Dates} & \\textbf{Area / Rooms} & \\textbf{Responsible} & $\\checkmark$ & \\textbf{Date} \\\\\n\\hline\\hline\n";

/// Whether two entries are of the same week.
pub open spec fn same_week(a: AssignmentInstance, b: AssignmentInstance) -> bool {
    a.iso_year == b.iso_year && a.iso_week == b.iso_week
}

/// Whether a row is the first of its week.
pub open spec fn starts_week(rows: Seq<AssignmentInstance>, k: int) -> bool {
    k == 0 || !same_week(rows[k - 1], rows[k])
}

/// Whether a row is the last of its week.
pub open spec fn ends_week(rows: Seq<AssignmentInstance>, k: int) -> bool {
    k == rows.len() - 1 || !same_week(rows[k + 1], rows[k])
}

/// The cell that names the slot and its rooms.
pub open spec fn area_text(a: AssignmentInstance) -> Seq<char> {
    let rooms = tex_escaped(join(views(a.room_names@), ", "@));
    match a.slot_name {
        Some(slot) => if a.room_names@.len() > 0 {
            tex_escaped(slot@) + "\\newline{\\tiny "@ + rooms + "}"@
        } else {
            "{\\fontsize{10}{13}\\selectfont "@ + tex_escaped(slot@) + "}"@
        },
        None => if a.room_names@.len() > 0 {
            "{\\tiny "@ + rooms + "}"@
        } else {
            ""@
        },
    }
}

/// The cells for week and dates: blank but in the first row of a week.
pub open spec fn week_cells(a: AssignmentInstance, first: bool) -> Seq<char> {
    if first {
        "\\textbf{"@ + decimal(a.iso_week as nat) + "}{\\newline{\\tiny "@ + signed_decimal(
            a.iso_year as int,
        ) + "}} & "@ + tex_escaped(a.period_label@)
    } else {
        " & "@
    }
}

/// The cell for the date on which it was done.
pub open spec fn done_cell(a: AssignmentInstance) -> Seq<char> {
    match a.completed_at {
        Some(d) => tex_escaped(plain_text(d.day as int)),
        None => ""@,
    }
}

/// A row of the table; a week is closed by a full rule, its rows are set apart by a partial one.
pub open spec fn row_text(a: AssignmentInstance, first: bool, last: bool) -> Seq<char> {
    week_cells(a, first) + " & "@ + area_text(a) + " & "@ + tex_escaped(a.shown_name()) + " & "@ + (
    if a.is_completed {
        "$\\checkmark$"@
    } else {
        ""@
    }) + " & "@ + done_cell(a) + " \\\\\n"@ + (if last {
        "\\hline\n"@
    } else {
        "\\cline{3-6}\n"@
    })
}

/// The first `n` rows of the table.
pub open spec fn rows_text(rows: Seq<AssignmentInstance>, n: int) -> Seq<char>
    decreases n,
{
    if n <= 0 {
        Seq::empty()
    } else {
        rows_text(rows, n - 1) + row_text(
            rows[n - 1],
            starts_week(rows, n - 1),
            ends_week(rows, n - 1),
        )
    }
}

/// The section of a group: heading, subtitle and table.
pub open spec fn section_text(
    name: Seq<char>,
    dates: Seq<char>,
    interval: nat,
    generated: Seq<char>,
    rows: Seq<AssignmentInstance>,
) -> Seq<char> {
    "\\fontsize{"@ + font_size(rows.len() as int).0 + "}{"@ + font_size(rows.len() as int).1
        + "}\\selectfont\n{\\fontsize{14}{17}\\selectfont\\bfseries "@ + tex_escaped(name)
        + "}\\\\\n\\vspace{0.5mm}\\rule{\\linewidth}{0.6pt}\\\\\n{\\fontsize{7.5}{9.5}\\selectfont\\itshape "@
        + tex_escaped(dates) + " $\\cdot$ Every "@ + decimal(interval)
        + " week(s) $\\cdot$ Generated "@ + tex_escaped(generated)
        + "}\n\\vspace{2mm}\n\n\\begin{longtable}{"@ + COLUMNS@ + "}\n"@ + HEADER@
        + "\\endfirsthead\n\\multicolumn{6}{l}{\\small\\itshape "@ + tex_escaped(name)
        + " (continued)} \\\\\n"@ + HEADER@ + "\\endhead\n\\endfoot\n\\endlastfoot\n"@ + rows_text(
        rows,
        rows.len() as int,
    ) + "\\end{longtable}\n\n{\\fontsize{6.5}{8}\\selectfont\\hfill $\\checkmark$ = done}\n"@
}

/// Writes a row of the table.
fn render_row(a: &AssignmentInstance, first: bool, last: bool) -> (r: String)
    requires
        a.completed_at is Some ==> a.completed_at->0.wf(),
    ensures
        r@ == row_text(*a, first, last),
{
    let mut s: String = if first {
        "\\textbf{".to_owned().concat(show(a.iso_week as u64).as_str()).concat(
            "}{\\newline{\\tiny ",
        ).concat(show_signed(a.iso_year as i64).as_str()).concat("}} & ").concat(
            tex_esc(a.period_label.as_str()).as_str(),
        )
    } else {
        " & ".to_owned()
    };
    s.append(" & ");
    let area: String = match &a.slot_name {
        Some(slot) => if !a.room_names.is_empty() {
            tex_esc(slot.as_str()).concat("\\newline{\\tiny ").concat(
                tex_esc(join_texts(&a.room_names, ", ").as_str()).as_str(),
            ).concat("}")
        } else {
            "{\\fontsize{10}{13}\\selectfont ".to_owned().concat(
                tex_esc(slot.as_str()).as_str(),
            ).concat("}")
        },
        None => if !a.room_names.is_empty() {
            "{\\tiny ".to_owned().concat(
                tex_esc(join_texts(&a.room_names, ", ").as_str()).as_str(),
            ).concat("}")
        } else {
            "".to_owned()
        },
    };
    s.append(area.as_str());
    s.append(" & ");
    s.append(tex_esc(a.assignee_name()).as_str());
    s.append(" & ");
    s.append(
        if a.is_completed {
            "$\\checkmark$"
        } else {
            ""
        },
    );
    s.append(" & ");
    match a.completed_at {
        Some(d) => {
            s.append(tex_esc(plain_date(d).as_str()).as_str());
        },
        None => {
            s.append("");
        },
    }
    s.append(" \\\\\n");
    s.append(
        if last {
            "\\hline\n"
        } else {
            "\\cline{3-6}\n"
        },
    );
    s
}

/// Whether the dates of an entry can be represented.
pub open spec fn dates_fit(a: AssignmentInstance) -> bool {
    &&& a.start.wf()
    &&& a.end.wf()
    &&& a.completed_at is Some ==> a.completed_at->0.wf()
}

/// Writes the section of a group.
pub fn group_section(
    group_name: &str,
    date_range: &str,
    interval: u32,
    generated: &str,
    rows: &Vec<&AssignmentInstance>,
) -> (r: String)
    requires
        forall|i: int| 0 <= i < rows@.len() ==> dates_fit(*(#[trigger] rows@[i])),
    ensures
        r@ == section_text(
            group_name@,
            date_range@,
            interval as nat,
            generated@,
            rows@.map_values(|a: &AssignmentInstance| *a),
        ),
{
    let ghost list = rows@.map_values(|a: &AssignmentInstance| *a);
    let (size, skip) = font_size_for_rows(rows.len());
    let mut body = String::new();
    let mut k: usize = 0;
    while k < rows.len()
        invariant
            k <= rows.len(),
            list == rows@.map_values(|a: &AssignmentInstance| *a),
            forall|i: int| 0 <= i < rows@.len() ==> dates_fit(*(#[trigger] rows@[i])),
            body@ == rows_text(list, k as int),
        decreases rows.len() - k,
    {
        let a = rows[k];
        assert(dates_fit(*rows@[k as int]));
        assert(list[k as int] == *a);
        let first = if k == 0 {
            true
        } else {
            assert(list[k - 1] == *rows@[k - 1]);
            !(rows[k - 1].iso_year == a.iso_year && rows[k - 1].iso_week == a.iso_week)
        };
        let last = if k == rows.len() - 1 {
            true
        } else {
            assert(list[k + 1] == *rows@[k + 1]);
            !(rows[k + 1].iso_year == a.iso_year && rows[k + 1].iso_week == a.iso_week)
        };
        body.append(render_row(a, first, last).as_str());
        k += 1;
    }
    let mut s = "\\fontsize{".to_owned();
    s.append(size);
    s.append("}{");
    s.append(skip);
    s.append("}\\selectfont\n{\\fontsize{14}{17}\\selectfont\\bfseries ");
    s.append(tex_esc(group_name).as_str());
    s.append(
        "}\\\\\n\\vspace{0.5mm}\\rule{\\linewidth}{0.6pt}\\\\\n{\\fontsize{7.5}{9.5}\\selectfont\\itshape ",
    );
    s.append(tex_esc(date_range).as_str());
    s.append(" $\\cdot$ Every ");
    s.append(show(interval as u64).as_str());
    s.append(" week(s) $\\cdot$ Generated ");
    s.append(tex_esc(generated).as_str());
    s.append("}\n\\vspace{2mm}\n\n\\begin{longtable}{");
    s.append(COLUMNS);
    s.append("}\n");
    s.append(HEADER);
    s.append("\\endfirsthead\n\\multicolumn{6}{l}{\\small\\itshape ");
    s.append(tex_esc(group_name).as_str());
    s.append(" (continued)} \\\\\n");
    s.append(HEADER);
    s.append("\\endhead\n\\endfoot\n\\endlastfoot\n");
    s.append(body.as_str());
    s.append(
        "\\end{longtable}\n\n{\\fontsize{6.5}{8}\\selectfont\\hfill $\\checkmark$ = done}\n",
    );
    s
}

// ── The whole document ───────────────────────────────────────────────────────

/// Whether a group is among the first entries.
pub open spec fn names_group(s: Seq<AssignmentInstance>, id: Seq<char>) -> bool {
    exists|i: int| 0 <= i < s.len() && (#[trigger] s[i]).group_id@ == id
}

/// The entries that name a group for the first time.
pub open spec fn group_heads(s: Seq<AssignmentInstance>) -> Seq<AssignmentInstance>
    decreases s.len(),
{
    if s.len() == 0 {
        Seq::empty()
    } else {
        let r = group_heads(s.drop_last());
        if names_group(s.drop_last(), s.last().group_id@) {
            r
        } else {
            r.push(s.last())
        }
    }
}

/// The days that the rows of a group span.
pub open spec fn span_text(rows: Seq<AssignmentInstance>) -> Seq<char> {
    if rows[0].start != rows.last().end {
        padded_text(rows[0].start.day as int) + " -- "@ + padded_text(rows.last().end.day as int)
    } else {
        rows[0].period_label@
    }
}

/// The section of the group that an entry names.
pub open spec fn head_section(
    all: Seq<AssignmentInstance>,
    head: AssignmentInstance,
    interval: nat,
    generated: Seq<char>,
) -> Seq<char> {
    let rows = all.filter(entry_of_group(head.group_id@));
    section_text(head.group_name@, span_text(rows), interval, generated, rows)
}

/// The sections of the groups that entries name.
pub open spec fn sections(
    all: Seq<AssignmentInstance>,
    heads: Seq<AssignmentInstance>,
    interval: nat,
    generated: Seq<char>,
) -> Seq<Seq<char>> {
    heads.map_values(|h: AssignmentInstance| head_section(all, h, interval, generated))
}

/// The document: one section per group, in the order in which they first appear, each on its own
/// page.
pub open spec fn tex_text(snapshot: ScheduleSnapshot, interval: nat) -> Seq<char> {
    let all = snapshot.assignments@;
    let generated = padded_text(719163 + snapshot.state_timestamp.secs as int / 86400);
    PREAMBLE@ + "\n\n\\begin{document}\n"@ + join(
        sections(all, group_heads(all), interval, generated),
        "\n\\clearpage\n\n"@,
    ) + "\n\\end{document}\n"@
}

/// Writes the schedule as a LaTeX document. `interval` is how many weeks lie between two cleanings.
pub fn render_tex(snapshot: &ScheduleSnapshot, interval: u32) -> (r: String)
    requires
        is_time(snapshot.state_timestamp.secs as int),
        forall|i: int|
            0 <= i < snapshot.assignments@.len() ==> dates_fit(#[trigger] snapshot.assignments@[i]),
    ensures
        r@ == tex_text(*snapshot, interval as nat),
{
    let ghost all = snapshot.assignments@;
    let generated: String = match crate::calendar::date_of_timestamp(snapshot.state_timestamp) {
        Some(d) => padded_date(d),
        None => String::new(),
    };
    let mut parts: Vec<String> = Vec::new();
    let mut i: usize = 0;
    assert(all.take(0) =~= Seq::<AssignmentInstance>::empty());
    assert(views(parts@) =~= sections(
        all,
        group_heads(all.take(0)),
        interval as nat,
        generated@,
    ));
    while i < snapshot.assignments.len()
        invariant
            i <= snapshot.assignments.len(),
            all == snapshot.assignments@,
            forall|k: int|
                0 <= k < snapshot.assignments@.len() ==> dates_fit(
                    #[trigger] snapshot.assignments@[k],
                ),
            views(parts@) == sections(
                all,
                group_heads(all.take(i as int)),
                interval as nat,
                generated@,
            ),
        decreases snapshot.assignments.len() - i,
    {
        let head = &snapshot.assignments[i];
        let mut seen = false;
        let mut k: usize = 0;
        while k < i
            invariant
                k <= i < snapshot.assignments.len(),
                all == snapshot.assignments@,
                seen == exists|j: int| 0 <= j < k && (#[trigger] all[j]).group_id@ == head.group_id@,
            decreases i - k,
        {
            if same_text(snapshot.assignments[k].group_id.as_str(), head.group_id.as_str()) {
                assert(all[k as int].group_id@ == head.group_id@);
                seen = true;
            }
            k += 1;
        }
        let ghost before = all.take(i as int);
        proof {
            let more = all.take(i + 1);
            assert(more.drop_last() =~= before);
            assert(more.last() == *head);
            assert(seen == names_group(before, head.group_id@)) by {
                if seen {
                    let j = choose|j: int| 0 <= j < i && (#[trigger] all[j]).group_id@ == head.group_id@;
                    assert(before[j].group_id@ == head.group_id@);
                }
                if names_group(before, head.group_id@) {
                    let j = choose|j: int|
                        0 <= j < before.len() && (#[trigger] before[j]).group_id@ == head.group_id@;
                    assert(all[j].group_id@ == head.group_id@);
                }
            }
        }
        if !seen {
            let rows = snapshot.for_group(head.group_id.as_str());
            let ghost list = all.filter(entry_of_group(head.group_id@));
            proof {
                crate::lists::lemma_filter(all, entry_of_group(head.group_id@));
                assert(entry_of_group(head.group_id@)(all[i as int]));
                assert(list.len() > 0);
                assert forall|j: int| 0 <= j < rows@.len() implies dates_fit(
                    *(#[trigger] rows@[j]),
                ) by {
                    assert(*rows@[j] == list[j]);
                    assert(all.contains(list[j]));
                    let m = choose|m: int| 0 <= m < all.len() && all[m] == list[j];
                    assert(dates_fit(all[m]));
                }
                assert(rows@.map_values(|a: &AssignmentInstance| *a) =~= list);
            }
            let f = rows[0];
            let l = rows[rows.len() - 1];
            assert(dates_fit(*rows@[0]) && dates_fit(*rows@[rows@.len() - 1]));
            let span: String = if f.start.day != l.end.day {
                padded_date(f.start).concat(" -- ").concat(padded_date(l.end).as_str())
            } else {
                f.period_label.clone()
            };
            let section = group_section(
                head.group_name.as_str(),
                span.as_str(),
                interval,
                generated.as_str(),
                &rows,
            );
            proof {
                assert(section@ == head_section(all, *head, interval as nat, generated@));
                lemma_views_push(parts@, section);
                let heads = group_heads(before);
                let n = interval as nat;
                assert(sections(all, heads.push(*head), n, generated@) =~= sections(
                    all,
                    heads,
                    n,
                    generated@,
                ).push(section@));
            }
            parts.push(section);
        }
        i += 1;
    }
    assert(all.take(i as int) =~= all);
    let body = join_texts(&parts, "\n\\clearpage\n\n");
    let mut out = PREAMBLE.to_owned();
    out.append("\n\n\\begin{document}\n");
    out.append(body.as_str());
    out.append("\n\\end{document}\n");
    out
}

} // verus!
