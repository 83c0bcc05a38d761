//! Calendars: as a file, or as a feed behind a secret address.

use vstd::prelude::*;
use vstd::utf8::encode_utf8;

use crate::calendar::{
    date_of_timestamp, http_date, http_time, is_time, Date, Timestamp,
};
use crate::commands::base::{CommandError, Request};
use crate::commands::exports::{read_weeks, snapshot_of, weeks_asked};
use crate::domain::{
    fingerprint, fresh_id, hex_text, new_calendar_token, sha256, token_matches,
    verify_calendar_token, CalendarToken, PersonId,
};
use crate::ical::{entry_fits, ics_text, render_ics};
use crate::lists::{find, first_index, lemma_first_index, lemma_first_index_is, some};
use crate::planning::{is_known, day_fits, known};
use crate::schedule::{shows, taken_at, ScheduleSnapshot};
use crate::state::State;
use crate::text::{
    chars_of, decimal, find_char, first_at, same_text, show, text_of,
};

verus! {

// ── Whose calendar ───────────────────────────────────────────────────────────

/// Whose calendar is wanted, and how many weeks of it.
pub enum FeedWish {
    /// None; there is only a text.
    Wrong(Seq<char>),
    Of(PersonId, nat),
}

/// How many weeks a calendar file holds when nothing else is said.
pub const USUAL_WEEKS: usize = 26;

/// How many weeks a calendar file holds at most.
pub const MOST_WEEKS: u64 = 104;

/// Whose calendar `!ical` asks for.
pub open spec fn feed_wish(state: State, req: Request, args: Seq<String>) -> FeedWish {
    let own = state.person_of(req.sender@);
    if args.len() == 0 {
        match own {
            Some(p) => FeedWish::Of(p.id, USUAL_WEEKS as nat),
            None => FeedWish::Wrong(
                "You ("@ + req.sender@ + ") are not registered. Ask an admin to use !adduser."@,
            ),
        }
    } else if weeks_asked(args[0]@, MOST_WEEKS as nat) is Some {
        match own {
            Some(p) => FeedWish::Of(p.id, weeks_asked(args[0]@, MOST_WEEKS as nat)->0),
            None => FeedWish::Wrong("You ("@ + req.sender@ + ") are not registered."@),
        }
    } else if !req.is_admin {
        FeedWish::Wrong("❌ Admin permission required to generate iCal for others."@)
    } else {
        match state.person_named(args[0]@) {
            None => FeedWish::Wrong("Person «"@ + args[0]@ + "» not found."@),
            Some(p) => FeedWish::Of(
                p.id,
                if args.len() > 1 && weeks_asked(args[1]@, MOST_WEEKS as nat) is Some {
                    weeks_asked(args[1]@, MOST_WEEKS as nat)->0
                } else {
                    USUAL_WEEKS as nat
                },
            ),
        }
    }
}

/// Reads whose calendar `!ical` asks for, or why there is none.
fn read_wish(state: &State, req: &Request, args: &Vec<String>) -> (r: Result<
    (PersonId, usize),
    String,
>)
    ensures
        match feed_wish(*state, *req, args@) {
            FeedWish::Wrong(t) => r is Err && r->Err_0@ == t,
            FeedWish::Of(id, weeks) => r is Ok && r->Ok_0 == (id, weeks as usize) && 1 <= weeks
                <= MOST_WEEKS,
        },
{
    if args.len() == 0 {
        return match state.person_by_matrix_id(req.sender.as_str()) {
            Some(p) => Ok((p.id.clone(), USUAL_WEEKS)),
            None => Err(
                "You (".to_owned().concat(req.sender.as_str()).concat(
                    ") are not registered. Ask an admin to use !adduser.",
                ),
            ),
        };
    }
    match read_weeks(args[0].as_str(), MOST_WEEKS) {
        Some(n) => match state.person_by_matrix_id(req.sender.as_str()) {
            Some(p) => Ok((p.id.clone(), n)),
            None => Err(
                "You (".to_owned().concat(req.sender.as_str()).concat(") are not registered."),
            ),
        },
        None => {
            if !req.is_admin {
                return Err(
                    "❌ Admin permission required to generate iCal for others.".to_owned(),
                );
            }
            match state.find_person(args[0].as_str()) {
                None => Err("Person «".to_owned().concat(args[0].as_str()).concat("» not found.")),
                Some(p) => {
                    let n: usize = if args.len() > 1 {
                        match read_weeks(args[1].as_str(), MOST_WEEKS) {
                            Some(n) => n,
                            None => USUAL_WEEKS,
                        }
                    } else {
                        USUAL_WEEKS
                    };
                    Ok((p.id.clone(), n))
                },
            }
        },
    }
}

// ── Feeds ────────────────────────────────────────────────────────────────────

/// A token of somebody that still opens a feed.
pub open spec fn live_token(person_id: Seq<char>) -> spec_fn(CalendarToken) -> bool {
    |ct: CalendarToken| !ct.revoked && ct.person_id@ == person_id
}

/// A token that opens a feed for whoever shows the given one.
pub open spec fn opened_by(token: Seq<char>) -> spec_fn(CalendarToken) -> bool {
    |ct: CalendarToken| !ct.revoked && token_matches(token, ct.token_hash@)
}

/// A token, revoked when it is one of somebody.
pub open spec fn revoked(ct: CalendarToken, person_id: Seq<char>) -> CalendarToken {
    if ct.person_id@ == person_id {
        CalendarToken { revoked: true, ..ct }
    } else {
        ct
    }
}

/// Tokens with those of somebody revoked.
pub open spec fn all_revoked(tokens: Seq<CalendarToken>, person_id: Seq<char>) -> Seq<CalendarToken> {
    tokens.map_values(|ct: CalendarToken| revoked(ct, person_id))
}

/// The address of a feed.
pub open spec fn feed_url(public_url: Seq<char>, token: Seq<char>) -> Seq<char> {
    public_url + "/ical/"@ + token + ".ics"@
}

/// Whether a new token of somebody was put behind others.
pub open spec fn issues(
    pre: State,
    post: State,
    tokens: Seq<CalendarToken>,
    person_id: PersonId,
    token: Seq<char>,
    now: Timestamp,
) -> bool {
    let ct = post.calendar_tokens@.last();
    &&& post == State { calendar_tokens: post.calendar_tokens, ..pre }
    &&& post.calendar_tokens@.len() == tokens.len() + 1
    &&& post.calendar_tokens@.drop_last() == tokens
    &&& ct.id@.len() == 36
    &&& ct.person_id == person_id
    &&& ct.created_at == now
    &&& !ct.revoked
    &&& token_matches(token, ct.token_hash@)
    &&& exists|raw: Seq<u8>|
        raw.len() == 32 && token == #[trigger] hex_text(raw) && ct.token_hash@ == hex_text(
            sha256(raw),
        )
}

/// Puts a token of somebody behind the others.
pub fn issue_token(
    state: &mut State,
    person_id: &PersonId,
    id: String,
    token_hash: String,
    now: Timestamp,
)
    ensures
        *final(state) == (State { calendar_tokens: final(state).calendar_tokens, ..*old(state) }),
        final(state).calendar_tokens@ == old(state).calendar_tokens@.push(
            CalendarToken {
                id,
                token_hash,
                person_id: *person_id,
                created_at: now,
                revoked: false,
            },
        ),
{
    let ct = CalendarToken {
        id,
        token_hash,
        person_id: person_id.clone(),
        created_at: now,
        revoked: false,
    };
    state.calendar_tokens.push(ct);
}

/// Puts a new token of somebody behind the others, and returns it.
fn issue(state: &mut State, person_id: &PersonId, now: Timestamp) -> (r: String)
    ensures
        issues(*old(state), *final(state), old(state).calendar_tokens@, *person_id, r@, now),
{
    let (token, token_hash) = new_calendar_token();
    let ghost before = state.calendar_tokens@;
    issue_token(state, person_id, fresh_id(), token_hash, now);
    assert(state.calendar_tokens@.drop_last() =~= before);
    token
}

/// Whether somebody has a token that still opens a feed.
fn has_feed(state: &State, person_id: &str) -> (r: bool)
    ensures
        r == some(state.calendar_tokens@, live_token(person_id@)),
{
    let all = &state.calendar_tokens;
    let ghost p = live_token(person_id@);
    let mut i: usize = 0;
    while i < all.len()
        invariant
            i <= all.len(),
            all == &state.calendar_tokens,
            p == live_token(person_id@),
            forall|k: int| 0 <= k < i ==> !p(#[trigger] all@[k]),
        decreases all.len() - i,
    {
        if !all[i].revoked && same_text(all[i].person_id.as_str(), person_id) {
            proof {
                lemma_first_index(all@, p, i as int);
            }
            return true;
        }
        i += 1;
    }
    proof {
        lemma_first_index(all@, p, i as int);
    }
    false
}

/// Revokes the tokens of somebody.
fn revoke_all(state: &mut State, person_id: &str)
    ensures
        *final(state) == (State { calendar_tokens: final(state).calendar_tokens, ..*old(state) }),
        final(state).calendar_tokens@ == all_revoked(old(state).calendar_tokens@, person_id@),
{
    let ghost pre = *state;
    let n = state.calendar_tokens.len();
    let mut i: usize = 0;
    while i < n
        invariant
            i <= n,
            n == state.calendar_tokens@.len(),
            n == pre.calendar_tokens@.len(),
            *state == (State { calendar_tokens: state.calendar_tokens, ..pre }),
            forall|k: int|
                0 <= k < i ==> #[trigger] state.calendar_tokens@[k] == revoked(
                    pre.calendar_tokens@[k],
                    person_id@,
                ),
            forall|k: int|
                i <= k < n ==> #[trigger] state.calendar_tokens@[k] == pre.calendar_tokens@[k],
        decreases n - i,
    {
        if same_text(state.calendar_tokens[i].person_id.as_str(), person_id) {
            state.calendar_tokens[i].revoked = true;
        }
        i += 1;
    }
    assert(state.calendar_tokens@ =~= all_revoked(pre.calendar_tokens@, person_id@));
}

// ── Files ────────────────────────────────────────────────────────────────────

/// Whether a character is a letter or a digit, as `char::is_alphanumeric` says.
pub uninterp spec fn alphanumeric(c: char) -> bool;

/// `char::is_alphanumeric`: whether a character is a letter or a digit of any script. Which
/// characters those are is not stated.
#[verifier::external_body]
fn is_alphanumeric(c: char) -> (r: bool)
    ensures
        r == alphanumeric(c),
{
    c.is_alphanumeric()
}

/// A character of a file name.
pub open spec fn safe_char(c: char) -> char {
    if alphanumeric(c) || c == '-' {
        c
    } else {
        '_'
    }
}

/// A text without the signs `@` at its start.
pub open spec fn without_at(t: Seq<char>) -> Seq<char>
    decreases t.len(),
{
    if t.len() > 0 && t[0] == '@' {
        without_at(t.skip(1))
    } else {
        t
    }
}

/// The start of a text up to the first colon.
pub open spec fn before_colon(t: Seq<char>) -> Seq<char> {
    t.take(first_at(t, ':'))
}

/// The name of somebody's calendar file.
pub open spec fn ics_name(person_id: Seq<char>) -> Seq<char> {
    "putzplan_"@ + before_colon(without_at(person_id)).map_values(|c: char| safe_char(c))
        + ".ics"@
}

/// The name of somebody's calendar file.
fn ics_file_name(person_id: &str) -> (r: String)
    ensures
        r@ == ics_name(person_id@),
{
    let v = chars_of(person_id);
    let mut from: usize = 0;
    assert(v@.skip(0) =~= person_id@);
    while from < v.len() && v[from] == '@'
        invariant
            from <= v.len(),
            v@ == person_id@,
            without_at(v@.skip(from as int)) == without_at(person_id@),
        decreases v.len() - from,
    {
        assert(v@.skip(from as int).skip(1) =~= v@.skip(from + 1));
        from += 1;
    }
    let ghost rest = without_at(person_id@);
    assert(rest == v@.skip(from as int));
    let to = find_char(&v, from, ':');
    let ghost part = before_colon(rest);
    let mut name: Vec<char> = Vec::new();
    let mut i: usize = from;
    proof {
        assert(part =~= v@.subrange(from as int, to as int));
        assert(name@ =~= part.take(0).map_values(|c: char| safe_char(c)));
    }
    while i < to
        invariant
            from <= i <= to <= v.len(),
            part == v@.subrange(from as int, to as int),
            name@ == part.take(i - from).map_values(|c: char| safe_char(c)),
        decreases to - i,
    {
        let c = v[i];
        let ghost before = part.take(i - from);
        proof {
            assert(part.take(i + 1 - from) =~= before.push(c));
            assert(before.push(c).map_values(|c: char| safe_char(c)) =~= before.map_values(
                |c: char| safe_char(c),
            ).push(safe_char(c)));
        }
        name.push(
            if c == '-' || is_alphanumeric(c) {
                c
            } else {
                '_'
            },
        );
        i += 1;
    }
    proof {
        assert(part.take(i - from) =~= part);
        assert(name@.subrange(0, name@.len() as int) =~= name@);
    }
    let n = name.len();
    "putzplan_".to_owned().concat(text_of(&name, 0, n).as_str()).concat(".ics")
}

/// Whether the dates of a snapshot can be written into a calendar.
pub open spec fn writable(snapshot: ScheduleSnapshot) -> bool {
    is_time(snapshot.state_timestamp.secs as int) && forall|i: int|
        0 <= i < snapshot.assignments@.len() ==> entry_fits(#[trigger] snapshot.assignments@[i])
}

/// Whether the dates of a snapshot can be written into a calendar.
pub fn can_write(snapshot: &ScheduleSnapshot) -> (r: bool)
    ensures
        r == writable(*snapshot),
{
    if date_of_timestamp(snapshot.state_timestamp).is_none() {
        return false;
    }
    let all = &snapshot.assignments;
    let mut i: usize = 0;
    while i < all.len()
        invariant
            i <= all.len(),
            all == &snapshot.assignments,
            is_time(snapshot.state_timestamp.secs as int),
            forall|k: int| 0 <= k < i ==> entry_fits(#[trigger] all@[k]),
        decreases all.len() - i,
    {
        let a = &all[i];
        if !(day_fits(a.start.day as i64) && day_fits(a.end.day as i64) && day_fits(
            a.end.day as i64 + 1,
        )) {
            assert(!entry_fits(all@[i as int]));
            return false;
        }
        i += 1;
    }
    true
}

// ── !ical ────────────────────────────────────────────────────────────────────

/// What comes of asking for a calendar.
#[derive(Clone, Debug)]
pub enum FeedReply {
    /// A text.
    Says(String),
    /// A calendar file to be sent, with a text to follow it.
    File { data: String, file_name: String, text: String },
}

/// What is said to somebody who has a feed.
pub const HAS_FEED: &'static str =
    "📅 You already have an active calendar feed.\nUse !icalreset to get a new URL (this invalidates the old subscription).";

/// What is said with a new feed.
pub open spec fn feed_text(url: Seq<char>) -> Seq<char> {
    "📅 Your calendar feed URL:\n"@ + url
        + "\n\nAdd this URL to your calendar app for automatic updates.\n⚠️ This URL is shown only once — save it!"@
}

/// What is said with a calendar file.
pub open spec fn file_text(weeks: nat) -> Seq<char> {
    "📅 iCal · "@ + decimal(weeks)
        + " Wochen · Import .ics into your calendar app.\nTip: configure [ical_server] in config.toml for live-updating feed URLs."@
}

/// Whether this is the calendar file of somebody.
pub open spec fn is_file(
    r: Result<FeedReply, CommandError>,
    snapshot: ScheduleSnapshot,
    person_id: Seq<char>,
    weeks: nat,
) -> bool {
    if writable(snapshot) {
        r is Ok && r->Ok_0 is File && r->Ok_0->data@ == ics_text(snapshot, person_id)
            && r->Ok_0->file_name@ == ics_name(person_id) && r->Ok_0->text@ == file_text(weeks)
    } else {
        r == Err::<FeedReply, CommandError>(CommandError::OutOfRange)
    }
}

/// Whether only a text was returned.
pub open spec fn feed_says(r: Result<FeedReply, CommandError>, t: Seq<char>) -> bool {
    r is Ok && r->Ok_0 is Says && r->Ok_0->Says_0@ == t
}

/// What `!ical` does: a feed when there is a server and somebody has none yet, a file otherwise.
pub open spec fn answers_ical(
    pre: State,
    post: State,
    r: Result<FeedReply, CommandError>,
    req: Request,
    args: Seq<String>,
    public_url: Option<String>,
) -> bool {
    match feed_wish(pre, req, args) {
        FeedWish::Wrong(t) => feed_says(r, t) && post == pre,
        FeedWish::Of(id, weeks) => match public_url {
            Some(url) => if some(pre.calendar_tokens@, live_token(id@)) {
                feed_says(r, HAS_FEED@) && post == pre
            } else {
                exists|token: Seq<char>|
                    feed_says(r, feed_text(feed_url(url@, token))) && #[trigger] issues(
                        pre,
                        post,
                        pre.calendar_tokens@,
                        id,
                        token,
                        req.now,
                    )
            },
            None => post == pre && if !known(pre, req.today) {
                r == Err::<FeedReply, CommandError>(CommandError::OutOfRange)
            } else {
                exists|snapshot: ScheduleSnapshot| #[trigger]
                    shows(snapshot, pre, req.today, weeks as int) && snapshot.state_timestamp
                        == taken_at(pre, req.now) && is_file(
                        r,
                        snapshot,
                        id@,
                        weeks,
                    )
            },
        },
    }
}

/// Gives out a calendar: the address of a feed when there is a server, a file otherwise.
pub fn cmd_ical(
    state: &mut State,
    req: &Request,
    args: &Vec<String>,
    public_url: &Option<String>,
) -> (r: Result<FeedReply, CommandError>)
    ensures
        answers_ical(*old(state), *final(state), r, *req, args@, *public_url),
{
    let (id, weeks) = match read_wish(state, req, args) {
        Ok(v) => v,
        Err(t) => {
            return Ok(FeedReply::Says(t));
        },
    };
    match public_url {
        Some(url) => {
            if has_feed(state, id.as_str()) {
                return Ok(FeedReply::Says(HAS_FEED.to_owned()));
            }
            let token = issue(state, &id, req.now);
            Ok(
                FeedReply::Says(
                    "📅 Your calendar feed URL:\n".to_owned().concat(
                        show_url(url.as_str(), token.as_str()).as_str(),
                    ).concat(
                        "\n\nAdd this URL to your calendar app for automatic updates.\n⚠️ This URL is shown only once — save it!",
                    ),
                ),
            )
        },
        None => {
            if !is_known(state, req.today) {
                return Err(CommandError::OutOfRange);
            }
            let snapshot = snapshot_of(state, weeks, req.today, req.now);
            let r: Result<FeedReply, CommandError> = if can_write(&snapshot) {
                let data = render_ics(&snapshot, id.as_str());
                let file_name = ics_file_name(id.as_str());
                let text = "📅 iCal · ".to_owned().concat(show(weeks as u64).as_str()).concat(
                    " Wochen · Import .ics into your calendar app.\nTip: configure [ical_server] in config.toml for live-updating feed URLs.",
                );
                Ok(FeedReply::File { data, file_name, text })
            } else {
                Err(CommandError::OutOfRange)
            };
            assert(is_file(r, snapshot, id@, weeks as nat));
            r
        },
    }
}

/// The address of a feed.
fn show_url(public_url: &str, token: &str) -> (r: String)
    ensures
        r@ == feed_url(public_url@, token@),
{
    public_url.to_owned().concat("/ical/").concat(token).concat(".ics")
}

// ── !ical reset ──────────────────────────────────────────────────────────────

/// Whose feed `!ical reset` renews, or why none is.
pub open spec fn reset_wish(state: State, req: Request, args: Seq<String>) -> FeedWish {
    if args.len() == 0 {
        match state.person_of(req.sender@) {
            Some(p) => FeedWish::Of(p.id, 0),
            None => FeedWish::Wrong(req.sender@ + " is not registered."@),
        }
    } else if !req.is_admin {
        FeedWish::Wrong("❌ Admin permission required."@)
    } else {
        match state.person_named(args[0]@) {
            Some(p) => FeedWish::Of(p.id, 0),
            None => FeedWish::Wrong("Person «"@ + args[0]@ + "» not found."@),
        }
    }
}

/// What is said with a renewed feed.
pub open spec fn reset_text(url: Seq<char>) -> Seq<char> {
    "🔄 New calendar feed URL:\n"@ + url + "\n\n⚠️ Old URLs for this person are now invalid."@
}

/// What `!ical reset` does: all feeds of somebody are closed and a new one is opened.
pub open spec fn answers_reset(
    pre: State,
    post: State,
    r: String,
    req: Request,
    args: Seq<String>,
    public_url: Option<String>,
) -> bool {
    match public_url {
        None => r@
            == "iCal HTTP server is not configured. Add [ical_server] to config.toml."@ && post
            == pre,
        Some(url) => match reset_wish(pre, req, args) {
            FeedWish::Wrong(t) => r@ == t && post == pre,
            FeedWish::Of(id, _) => exists|token: Seq<char>|
                r@ == reset_text(feed_url(url@, token)) && #[trigger] issues(
                    pre,
                    post,
                    all_revoked(pre.calendar_tokens@, id@),
                    id,
                    token,
                    req.now,
                ),
        },
    }
}

/// Reads whose feed `!ical reset` renews, or why none is.
fn read_reset(state: &State, req: &Request, args: &Vec<String>) -> (r: Result<PersonId, String>)
    ensures
        match reset_wish(*state, *req, args@) {
            FeedWish::Wrong(t) => r is Err && r->Err_0@ == t,
            FeedWish::Of(id, _) => r == Ok::<PersonId, String>(id),
        },
{
    if args.len() == 0 {
        return match state.person_by_matrix_id(req.sender.as_str()) {
            Some(p) => Ok(p.id.clone()),
            None => Err(req.sender.clone().concat(" is not registered.")),
        };
    }
    if !req.is_admin {
        return Err("❌ Admin permission required.".to_owned());
    }
    match state.find_person(args[0].as_str()) {
        Some(p) => Ok(p.id.clone()),
        None => Err("Person «".to_owned().concat(args[0].as_str()).concat("» not found.")),
    }
}

/// Closes all feeds of somebody and opens a new one.
pub fn cmd_icalreset(
    state: &mut State,
    req: &Request,
    args: &Vec<String>,
    public_url: &Option<String>,
) -> (r: String)
    ensures
        answers_reset(*old(state), *final(state), r, *req, args@, *public_url),
{
    let url = match public_url {
        Some(url) => url,
        None => {
            return "iCal HTTP server is not configured. Add [ical_server] to config.toml.".to_owned();
        },
    };
    let id = match read_reset(state, req, args) {
        Ok(id) => id,
        Err(t) => {
            return t;
        },
    };
    revoke_all(state, id.as_str());
    let token = issue(state, &id, req.now);
    assert(issues(
        *old(state),
        *state,
        all_revoked(old(state).calendar_tokens@, id@),
        id,
        token@,
        req.now,
    ));
    "🔄 New calendar feed URL:\n".to_owned().concat(
        show_url(url.as_str(), token.as_str()).as_str(),
    ).concat("\n\n⚠️ Old URLs for this person are now invalid.")
}

// ── Serving feeds ────────────────────────────────────────────────────────────

/// The ending of the address of a feed.
pub open spec fn ics_ending() -> Seq<char> {
    seq!['.', 'i', 'c', 's']
}

/// A text without the endings `.ics`.
pub open spec fn without_ics(t: Seq<char>) -> Seq<char>
    decreases t.len(),
{
    if t.len() >= 4 && t.skip(t.len() - 4) == ics_ending() {
        without_ics(t.take(t.len() - 4))
    } else {
        t
    }
}

/// Whose feed an address opens.
pub open spec fn feed_owner(tokens: Seq<CalendarToken>, token: Seq<char>) -> Option<PersonId> {
    match find(tokens, opened_by(token)) {
        Some(ct) => Some(ct.person_id),
        None => None,
    }
}

/// How a text ends in `.ics`, letter by letter.
proof fn lemma_ends_in_ics(t: Seq<char>)
    requires
        t.len() >= 4,
    ensures
        (t.skip(t.len() - 4) == ics_ending()) == (t[t.len() - 4] == '.' && t[t.len() - 3] == 'i'
            && t[t.len() - 2] == 'c' && t[t.len() - 1] == 's'),
{
    let u = t.skip(t.len() - 4);
    assert(u[0] == t[t.len() - 4] && u[1] == t[t.len() - 3] && u[2] == t[t.len() - 2] && u[3]
        == t[t.len() - 1]);
    if t[t.len() - 4] == '.' && t[t.len() - 3] == 'i' && t[t.len() - 2] == 'c' && t[t.len() - 1]
        == 's' {
        assert(u =~= ics_ending());
    }
}

/// A text without the endings `.ics`.
fn trim_ics(t: &str) -> (r: String)
    ensures
        r@ == without_ics(t@),
{
    let v = chars_of(t);
    let mut n: usize = v.len();
    assert(v@.take(n as int) =~= t@);
    while n >= 4 && v[n - 4] == '.' && v[n - 3] == 'i' && v[n - 2] == 'c' && v[n - 1] == 's'
        invariant
            n <= v.len(),
            without_ics(v@.take(n as int)) == without_ics(t@),
        decreases n,
    {
        proof {
            let part = v@.take(n as int);
            lemma_ends_in_ics(part);
            assert(part.take(n - 4) =~= v@.take(n - 4));
        }
        n -= 4;
    }
    proof {
        let part = v@.take(n as int);
        if n >= 4 {
            lemma_ends_in_ics(part);
        }
        assert(v@.subrange(0, n as int) =~= part);
    }
    text_of(&v, 0, n)
}

/// Whose feed the last part of an address opens.
pub fn open_feed(state: &State, token_ics: &str) -> (r: Option<PersonId>)
    ensures
        r == feed_owner(state.calendar_tokens@, without_ics(token_ics@)),
{
    let token = trim_ics(token_ics);
    let all = &state.calendar_tokens;
    let ghost p = opened_by(token@);
    let mut i: usize = 0;
    while i < all.len()
        invariant
            i <= all.len(),
            all == &state.calendar_tokens,
            p == opened_by(token@),
            token@ == without_ics(token_ics@),
            forall|k: int| 0 <= k < i ==> !p(#[trigger] all@[k]),
        decreases all.len() - i,
    {
        if !all[i].revoked && verify_calendar_token(token.as_str(), all[i].token_hash.as_str()) {
            proof {
                lemma_first_index(all@, p, i as int);
            }
            return Some(all[i].person_id.clone());
        }
        i += 1;
    }
    proof {
        lemma_first_index(all@, p, i as int);
    }
    None
}

/// A calendar as it is served.
#[derive(Clone, Debug)]
pub struct Served {
    pub body: String,
    pub etag: String,
    pub last_modified: String,
}

/// What is served of a snapshot.
pub open spec fn serves(r: Served, snapshot: ScheduleSnapshot, person_id: Seq<char>) -> bool {
    &&& r.body@ == ics_text(snapshot, person_id)
    &&& r.etag@ == "\""@ + hex_text(sha256(encode_utf8(r.body@))) + "\""@
    &&& r.last_modified@ == http_time(snapshot.state_timestamp.secs as int)
}

/// How many weeks a feed holds.
pub const FEED_WEEKS: usize = 52;

/// What comes of a request for a feed.
pub open spec fn answers_request(
    r: Result<Option<Served>, CommandError>,
    state: State,
    token_ics: Seq<char>,
    today: Date,
    now: Timestamp,
) -> bool {
    match feed_owner(state.calendar_tokens@, without_ics(token_ics)) {
        None => r is Ok && r->Ok_0 is None,
        Some(id) => if !known(state, today) {
            r is Err && r->Err_0 == CommandError::OutOfRange
        } else {
            exists|snapshot: ScheduleSnapshot| #[trigger]
                shows(snapshot, state, today, FEED_WEEKS as int) && snapshot.state_timestamp
                    == taken_at(state, now) && if writable(snapshot) {
                    r is Ok && r->Ok_0 is Some && serves(r->Ok_0->0, snapshot, id@)
                } else {
                    r is Err && r->Err_0 == CommandError::OutOfRange
                }
        },
    }
}

/// Answers a request for a feed: nothing when the address opens none.
pub fn serve_ical(state: &State, token_ics: &str, today: Date, now: Timestamp) -> (r: Result<
    Option<Served>,
    CommandError,
>)
    ensures
        answers_request(r, *state, token_ics@, today, now),
{
    let id = match open_feed(state, token_ics) {
        Some(id) => id,
        None => {
            return Ok(None);
        },
    };
    if !is_known(state, today) {
        return Err(CommandError::OutOfRange);
    }
    let snapshot = snapshot_of(state, FEED_WEEKS, today, now);
    assert(shows(snapshot, *state, today, FEED_WEEKS as int));
    if !can_write(&snapshot) {
        return Err(CommandError::OutOfRange);
    }
    let body = render_ics(&snapshot, id.as_str());
    let etag = "\"".to_owned().concat(fingerprint(body.as_str()).as_str()).concat("\"");
    let last_modified = http_date(snapshot.state_timestamp);
    Ok(Some(Served { body, etag, last_modified }))
}

// ── Laws ─────────────────────────────────────────────────────────────────────

/// The last part of the address of a feed leads back to its token.
proof fn lemma_address_part(token: Seq<char>, stored: Seq<char>)
    requires
        token_matches(token, stored),
    ensures
        without_ics(token + ".ics"@) == token,
{
    reveal_strlit(".ics");
    reveal_with_fuel(without_ics, 2);
    let t = token + ".ics"@;
    assert(t.skip(t.len() - 4) =~= ics_ending());
    assert(t.take(t.len() - 4) =~= token);
    if token.len() >= 4 && token.skip(token.len() - 4) == ics_ending() {
        assert(token.skip(token.len() - 4)[3] == token[token.len() - 1]);
        assert(crate::domain::hex_value(token[token.len() - 1]) is Some);
    }
}

/// The address that `!ical` gives out opens the feed of the one it was given to, unless an earlier
/// token answers to it too.
pub proof fn law_new_feed_is_served(
    pre: State,
    post: State,
    person_id: PersonId,
    token: Seq<char>,
    now: Timestamp,
)
    requires
        issues(pre, post, pre.calendar_tokens@, person_id, token, now),
        !some(pre.calendar_tokens@, opened_by(token)),
    ensures
        feed_owner(post.calendar_tokens@, without_ics(token + ".ics"@)) == Some(person_id),
{
    lemma_address_part(token, post.calendar_tokens@.last().token_hash@);
    let all = post.calendar_tokens@;
    let p = opened_by(token);
    let n = all.len() - 1;
    lemma_first_index_is(pre.calendar_tokens@, p);
    assert forall|k: int| 0 <= k < n implies !p(#[trigger] all[k]) by {
        assert(all[k] == all.drop_last()[k]);
    }
    assert(p(all[n]));
    lemma_first_index(all, p, n);
}

/// A renewed feed closes all old ones: an address that does not open the new feed opens none of
/// that person.
pub proof fn law_reset_closes_old_feeds(
    pre: State,
    post: State,
    person_id: PersonId,
    new_token: Seq<char>,
    old_token: Seq<char>,
    now: Timestamp,
)
    requires
        issues(
            pre,
            post,
            all_revoked(pre.calendar_tokens@, person_id@),
            person_id,
            new_token,
            now,
        ),
        !token_matches(old_token, post.calendar_tokens@.last().token_hash@),
    ensures
        feed_owner(post.calendar_tokens@, old_token) is Some ==> feed_owner(
            post.calendar_tokens@,
            old_token,
        )->0@ != person_id@,
{
    let all = post.calendar_tokens@;
    let p = opened_by(old_token);
    lemma_first_index_is(all, p);
    if some(all, p) {
        let i = first_index(all, p);
        if i < all.len() - 1 {
            assert(all[i] == all.drop_last()[i]);
            assert(all[i] == revoked(pre.calendar_tokens@[i], person_id@));
        }
    }
}

} // verus!
