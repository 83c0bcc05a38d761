//! What holds of calendars and documents made of the same state at different times.

use vstd::prelude::*;

use crate::calendar::{padded_text, stamp_text, Date, Timestamp};
use crate::commands::base::{CommandError, Request};
use crate::commands::exports::{
    answers_pdf, is_document, pdf_entries, pdf_group, pdf_wish, printable, PdfReply,
};
use crate::commands::feeds::{
    answers_ical, answers_request, feed_owner, feed_wish, is_file, serves, without_ics, writable,
    FeedReply, FeedWish, Served, FEED_WEEKS,
};
use crate::ical::{
    beside, description_lines, event_text, events_text, ics_text, names_of, owner_name, summary_text,
};
use crate::lists::{lemma_filter, lemma_filtered, matched};
use crate::pdf::{
    ends_week, group_heads, head_section, names_group, row_text, rows_text, sections, starts_week,
    tex_text,
};
use crate::planning::known;
use crate::schedule::{
    entry_of_group, entry_of_person, is_entry, schedule_rows, shows, taken_at, AssignmentInstance,
    Row, ScheduleSnapshot,
};
use crate::state::State;

verus! {

// ── Entries that are alike ───────────────────────────────────────────────────

/// Whether two entries say the same.
pub open spec fn entries_alike() -> spec_fn(AssignmentInstance, AssignmentInstance) -> bool {
    |a: AssignmentInstance, b: AssignmentInstance|
        {
            &&& a.uid@ == b.uid@
            &&& a.group_id == b.group_id
            &&& a.group_name == b.group_name
            &&& a.slot_name == b.slot_name
            &&& a.room_names@ == b.room_names@
            &&& a.iso_year == b.iso_year
            &&& a.iso_week == b.iso_week
            &&& a.start == b.start
            &&& a.end == b.end
            &&& a.period_label@ == b.period_label@
            &&& (a.shift_label is Some) == (b.shift_label is Some)
            &&& a.shift_label is Some ==> a.shift_label->0@ == b.shift_label->0@
            &&& a.rhythm@ == b.rhythm@
            &&& a.assignee == b.assignee
            &&& a.is_completed == b.is_completed
            &&& a.is_skipped == b.is_skipped
            &&& a.completed_by == b.completed_by
            &&& a.completed_at == b.completed_at
        }
}

/// Two entries of one line of the schedule say the same.
proof fn lemma_entries_alike(
    a: AssignmentInstance,
    b: AssignmentInstance,
    state: State,
    row: Row,
    today: Date,
)
    requires
        is_entry(a, state, row, today),
        is_entry(b, state, row, today),
    ensures
        entries_alike()(a, b),
{
}

/// Two snapshots of the same weeks of a state say the same.
proof fn lemma_snapshots_alike(
    a: ScheduleSnapshot,
    b: ScheduleSnapshot,
    state: State,
    today: Date,
    weeks: int,
)
    requires
        shows(a, state, today, weeks),
        shows(b, state, today, weeks),
    ensures
        matched(a.assignments@, b.assignments@, entries_alike()),
{
    let s = a.assignments@;
    let t = b.assignments@;
    assert forall|i: int| #![trigger s[i]] #![trigger t[i]] 0 <= i < s.len() implies entries_alike()(
        s[i],
        t[i],
    ) by {
        lemma_entries_alike(s[i], t[i], state, schedule_rows(state, today, weeks)[i], today);
    }
}

// ── Calendars ────────────────────────────────────────────────────────────────

/// Entries that say the same have the same event.
proof fn lemma_event_alike(
    a: AssignmentInstance,
    b: AssignmentInstance,
    s: Seq<AssignmentInstance>,
    t: Seq<AssignmentInstance>,
    person_id: Seq<char>,
    stamp: Seq<char>,
)
    requires
        entries_alike()(a, b),
        matched(s, t, entries_alike()),
    ensures
        event_text(a, s, person_id, stamp) == event_text(b, t, person_id, stamp),
{
    let p = beside(a, person_id);
    assert(p =~= beside(b, person_id));
    lemma_filtered(s, t, entries_alike(), p);
    let u = s.filter(p);
    let v = t.filter(p);
    assert(names_of(u) =~= names_of(v)) by {
        assert forall|i: int| 0 <= i < u.len() implies names_of(u)[i] == names_of(v)[i] by {
            assert(entries_alike()(u[i], v[i]));
        }
    }
    assert(description_lines(a, s, person_id) == description_lines(b, t, person_id));
    assert(summary_text(a) == summary_text(b));
}

/// Entries that say the same have the same events.
proof fn lemma_events_alike(
    a: Seq<AssignmentInstance>,
    b: Seq<AssignmentInstance>,
    s: Seq<AssignmentInstance>,
    t: Seq<AssignmentInstance>,
    person_id: Seq<char>,
    stamp: Seq<char>,
)
    requires
        matched(a, b, entries_alike()),
        matched(s, t, entries_alike()),
    ensures
        events_text(a, s, person_id, stamp) == events_text(b, t, person_id, stamp),
    decreases a.len(),
{
    if a.len() > 0 {
        let u = a.drop_last();
        let v = b.drop_last();
        assert forall|i: int| #![trigger u[i]] #![trigger v[i]] 0 <= i
            < u.len() implies entries_alike()(u[i], v[i]) by {
            assert(entries_alike()(a[i], b[i]));
        }
        lemma_events_alike(u, v, s, t, person_id, stamp);
        assert(entries_alike()(a[a.len() - 1], b[b.len() - 1]));
        lemma_event_alike(a.last(), b.last(), s, t, person_id, stamp);
    }
}

/// The calendar of somebody is the same, byte for byte, whenever it is made of a state, as long as
/// the state and the day do not change.
pub proof fn law_calendars_of_a_state_are_the_same(
    a: ScheduleSnapshot,
    b: ScheduleSnapshot,
    state: State,
    today: Date,
    weeks: int,
    person_id: Seq<char>,
)
    requires
        shows(a, state, today, weeks),
        shows(b, state, today, weeks),
        a.state_timestamp == b.state_timestamp,
    ensures
        ics_text(a, person_id) == ics_text(b, person_id),
        writable(a) == writable(b),
{
    let s = a.assignments@;
    let t = b.assignments@;
    lemma_snapshots_alike(a, b, state, today, weeks);
    let p = entry_of_person(person_id);
    lemma_filtered(s, t, entries_alike(), p);
    let u = s.filter(p);
    let v = t.filter(p);
    let stamp = stamp_text(a.state_timestamp.secs as int);
    lemma_events_alike(u, v, s, t, person_id, stamp);
    if u.len() > 0 {
        assert(entries_alike()(u[0], v[0]));
    }
    assert(owner_name(u) == owner_name(v));
    assert(forall|i: int| 0 <= i < s.len() ==> entries_alike()(#[trigger] s[i], t[i]));
    assert(forall|i: int| 0 <= i < t.len() ==> entries_alike()(s[i], #[trigger] t[i]));
}

// ── Documents ────────────────────────────────────────────────────────────────

/// Rows that say the same are written the same.
proof fn lemma_rows_alike(s: Seq<AssignmentInstance>, t: Seq<AssignmentInstance>, n: int)
    requires
        matched(s, t, entries_alike()),
        0 <= n <= s.len(),
    ensures
        rows_text(s, n) == rows_text(t, n),
    decreases n,
{
    if n > 0 {
        lemma_rows_alike(s, t, n - 1);
        let a = s[n - 1];
        let b = t[n - 1];
        assert(entries_alike()(a, b));
        if n > 1 {
            assert(entries_alike()(s[n - 2], t[n - 2]));
        }
        if n < s.len() {
            assert(entries_alike()(s[n], t[n]));
        }
        let first = starts_week(s, n - 1);
        let last = ends_week(s, n - 1);
        assert(first == starts_week(t, n - 1));
        assert(last == ends_week(t, n - 1));
        assert(row_text(a, first, last) == row_text(b, first, last));
    }
}

/// Entries that say the same name their groups in the same places.
proof fn lemma_heads_alike(s: Seq<AssignmentInstance>, t: Seq<AssignmentInstance>)
    requires
        matched(s, t, entries_alike()),
    ensures
        matched(group_heads(s), group_heads(t), entries_alike()),
    decreases s.len(),
{
    if s.len() > 0 {
        let u = s.drop_last();
        let v = t.drop_last();
        assert forall|i: int| #![trigger u[i]] #![trigger v[i]] 0 <= i
            < u.len() implies entries_alike()(u[i], v[i]) by {
            assert(entries_alike()(s[i], t[i]));
        }
        lemma_heads_alike(u, v);
        assert(entries_alike()(s[s.len() - 1], t[t.len() - 1]));
        let id = s.last().group_id@;
        if names_group(u, id) {
            let i = choose|i: int| 0 <= i < u.len() && (#[trigger] u[i]).group_id@ == id;
            assert(v[i].group_id@ == id);
        }
        if names_group(v, id) {
            let i = choose|i: int| 0 <= i < v.len() && (#[trigger] v[i]).group_id@ == id;
            assert(u[i].group_id@ == id);
        }
    }
}

/// An entry that names a group for the first time is one of the entries.
proof fn lemma_heads_in(s: Seq<AssignmentInstance>)
    ensures
        forall|i: int| 0 <= i < group_heads(s).len() ==> s.contains(#[trigger] group_heads(s)[i]),
    decreases s.len(),
{
    if s.len() > 0 {
        let u = s.drop_last();
        lemma_heads_in(u);
        assert forall|i: int| 0 <= i < group_heads(s).len() implies s.contains(
            #[trigger] group_heads(s)[i],
        ) by {
            if i < group_heads(u).len() {
                assert(u.contains(group_heads(u)[i]));
                let k = choose|k: int| 0 <= k < u.len() && u[k] == group_heads(u)[i];
                assert(s[k] == u[k]);
            } else {
                assert(s[s.len() - 1] == s.last());
            }
        }
    }
}

/// Groups whose entries say the same have the same section.
proof fn lemma_section_alike(
    s: Seq<AssignmentInstance>,
    t: Seq<AssignmentInstance>,
    a: AssignmentInstance,
    b: AssignmentInstance,
    interval: nat,
    generated: Seq<char>,
)
    requires
        matched(s, t, entries_alike()),
        entries_alike()(a, b),
        s.contains(a),
    ensures
        head_section(s, a, interval, generated) == head_section(t, b, interval, generated),
{
    let p = entry_of_group(a.group_id@);
    assert(p =~= entry_of_group(b.group_id@));
    lemma_filtered(s, t, entries_alike(), p);
    lemma_filter(s, p);
    let u = s.filter(p);
    let v = t.filter(p);
    let k = choose|k: int| 0 <= k < s.len() && s[k] == a;
    assert(p(s[k]));
    assert(u.contains(s[k]));
    assert(u.len() > 0);
    assert(entries_alike()(u[0], v[0]));
    assert(entries_alike()(u[u.len() - 1], v[v.len() - 1]));
    lemma_rows_alike(u, v, u.len() as int);
}

/// Snapshots that say the same have the same document.
proof fn lemma_documents_alike(a: ScheduleSnapshot, b: ScheduleSnapshot, interval: nat)
    requires
        matched(a.assignments@, b.assignments@, entries_alike()),
        a.state_timestamp == b.state_timestamp,
    ensures
        tex_text(a, interval) == tex_text(b, interval),
        printable(a) == printable(b),
{
    let s = a.assignments@;
    let t = b.assignments@;
    let generated = padded_text(
        719163 + a.state_timestamp.secs as int / 86400,
    );
    let u = group_heads(s);
    let v = group_heads(t);
    lemma_heads_alike(s, t);
    lemma_heads_in(s);
    assert forall|i: int| 0 <= i < u.len() implies #[trigger] sections(s, u, interval, generated)[i]
        == sections(t, v, interval, generated)[i] by {
        assert(entries_alike()(u[i], v[i]));
        lemma_section_alike(s, t, u[i], v[i], interval, generated);
    }
    assert(sections(s, u, interval, generated) =~= sections(t, v, interval, generated));
    assert(forall|i: int| 0 <= i < s.len() ==> entries_alike()(#[trigger] s[i], t[i]));
    assert(forall|i: int| 0 <= i < t.len() ==> entries_alike()(s[i], #[trigger] t[i]));
}

// ── Commands and requests ────────────────────────────────────────────────────

/// Whether two requests ask the same, whenever they were made.
pub open spec fn asks_alike(req: Request, again: Request) -> bool {
    req.sender@ == again.sender@ && req.is_admin == again.is_admin && req.today == again.today
}

/// A feed is served the same, byte for byte and with the same headers, whenever it is asked for, as
/// long as the state, which knows when it was changed or made, and the day do not change.
pub proof fn law_feed_is_served_alike(
    r: Result<Option<Served>, CommandError>,
    s: Result<Option<Served>, CommandError>,
    state: State,
    token_ics: Seq<char>,
    today: Date,
    now: Timestamp,
    later: Timestamp,
)
    requires
        answers_request(r, state, token_ics, today, now),
        answers_request(s, state, token_ics, today, later),
        state.last_modified is Some || state.created_at is Some,
    ensures
        (r is Ok) == (s is Ok),
        r is Err ==> r->Err_0 == s->Err_0,
        r is Ok ==> (r->Ok_0 is Some) == (s->Ok_0 is Some),
        r is Ok && r->Ok_0 is Some ==> r->Ok_0->0.body@ == s->Ok_0->0.body@ && r->Ok_0->0.etag@
            == s->Ok_0->0.etag@ && r->Ok_0->0.last_modified@ == s->Ok_0->0.last_modified@,
{
    let owner = feed_owner(state.calendar_tokens@, without_ics(token_ics));
    if owner is Some && known(state, today) {
        let id = owner->0;
        let weeks = FEED_WEEKS as int;
        let a = choose|a: ScheduleSnapshot| #[trigger]
            shows(a, state, today, weeks) && a.state_timestamp == taken_at(state, now)
                && if writable(a) {
                r is Ok && r->Ok_0 is Some && serves(r->Ok_0->0, a, id@)
            } else {
                r is Err && r->Err_0 == CommandError::OutOfRange
            };
        let b = choose|b: ScheduleSnapshot| #[trigger]
            shows(b, state, today, weeks) && b.state_timestamp == taken_at(state, later)
                && if writable(b) {
                s is Ok && s->Ok_0 is Some && serves(s->Ok_0->0, b, id@)
            } else {
                s is Err && s->Err_0 == CommandError::OutOfRange
            };
        law_calendars_of_a_state_are_the_same(a, b, state, today, weeks, id@);
    }
}

/// Without a server, `!ical` answers the same, file and text, whenever it is asked, as long as the
/// state, which knows when it was changed or made, and the day do not change.
pub proof fn law_calendar_file_is_made_alike(
    r: Result<FeedReply, CommandError>,
    s: Result<FeedReply, CommandError>,
    state: State,
    mid: State,
    post: State,
    req: Request,
    again: Request,
    args: Seq<String>,
)
    requires
        answers_ical(state, mid, r, req, args, None),
        answers_ical(mid, post, s, again, args, None),
        asks_alike(req, again),
        state.last_modified is Some || state.created_at is Some,
    ensures
        post == state,
        (r is Ok) == (s is Ok),
        r is Err ==> r == s,
        r is Ok ==> match r->Ok_0 {
            FeedReply::Says(t) => s->Ok_0 is Says && s->Ok_0->Says_0@ == t@,
            FeedReply::File { data, file_name, text } => s->Ok_0 is File && s->Ok_0->data@ == data@
                && s->Ok_0->file_name@ == file_name@ && s->Ok_0->text@ == text@,
        },
{
    assert(feed_wish(state, req, args) == feed_wish(state, again, args));
    if let FeedWish::Of(id, weeks) = feed_wish(state, req, args) {
        if known(state, req.today) {
            let a = choose|a: ScheduleSnapshot| #[trigger]
                shows(a, state, req.today, weeks as int) && a.state_timestamp == taken_at(
                    state,
                    req.now,
                ) && is_file(r, a, id@, weeks);
            let b = choose|b: ScheduleSnapshot| #[trigger]
                shows(b, state, again.today, weeks as int) && b.state_timestamp == taken_at(
                    state,
                    again.now,
                ) && is_file(s, b, id@, weeks);
            law_calendars_of_a_state_are_the_same(a, b, state, req.today, weeks as int, id@);
        }
    }
}

/// `!plan pdf` answers the same, document and name, whenever it is asked, as long as the state,
/// which knows when it was changed or made, and the day do not change.
pub proof fn law_document_is_made_alike(
    r: Result<PdfReply, CommandError>,
    s: Result<PdfReply, CommandError>,
    state: State,
    req: Request,
    again: Request,
    args: Seq<String>,
    interval: nat,
)
    requires
        answers_pdf(r, state, req, args, interval),
        answers_pdf(s, state, again, args, interval),
        asks_alike(req, again),
        state.last_modified is Some || state.created_at is Some,
    ensures
        (r is Ok) == (s is Ok),
        r is Err ==> r == s,
        r is Ok ==> match r->Ok_0 {
            PdfReply::Says(t) => s->Ok_0 is Says && s->Ok_0->Says_0@ == t@,
            PdfReply::Sets { tex, file_name } => s->Ok_0 is Sets && s->Ok_0->tex@ == tex@
                && s->Ok_0->file_name@ == file_name@,
        },
{
    let n = pdf_wish(args).0;
    let name = pdf_wish(args).1;
    let group = pdf_group(state, args);
    if req.is_admin && known(state, req.today) && !(name is Some
        && group is None) {
        let (p, a) = choose|p: ScheduleSnapshot, a: ScheduleSnapshot|
            shows(a, state, req.today, n as int) && a.state_timestamp == taken_at(state, req.now)
                && #[trigger] is_document(r, p, a, n, group, name, interval);
        let (q, b) = choose|q: ScheduleSnapshot, b: ScheduleSnapshot|
            shows(b, state, again.today, n as int) && b.state_timestamp == taken_at(
                state,
                again.now,
            ) && #[trigger] is_document(s, q, b, n, group, name, interval);
        lemma_snapshots_alike(a, b, state, req.today, n as int);
        if group is Some {
            lemma_filtered(
                a.assignments@,
                b.assignments@,
                entries_alike(),
                entry_of_group(group->0.id@),
            );
        }
        let u = p.assignments@;
        let v = q.assignments@;
        assert(u == pdf_entries(a.assignments@, group));
        assert(matched(u, v, entries_alike()));
        lemma_documents_alike(p, q, interval);
        if u.len() > 0 {
            assert(entries_alike()(u[0], v[0]));
            assert(entries_alike()(u[u.len() - 1], v[v.len() - 1]));
        }
    }
}

} // verus!
