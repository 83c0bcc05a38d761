use cleaning_bot::calendar::{now, today, Timestamp};
use cleaning_bot::commands::base::{CommandError, Request};
use cleaning_bot::commands::exports::{cmd_cleanplan, cmd_pdf, read_weeks, PdfReply};
use cleaning_bot::commands::feeds::{
    cmd_ical, cmd_icalreset, open_feed, serve_ical, FeedReply, HAS_FEED,
};
use cleaning_bot::domain::{fingerprint, CleaningGroup, Person};
use cleaning_bot::state::State;

fn request() -> Request {
    Request {
        sender: "@alice:example.org".to_owned(),
        is_admin: false,
        today: today(),
        now: now(),
        usual: 4,
    }
}

fn url() -> Option<String> {
    Some("https://plan.example.org".to_owned())
}

fn alice_alone() -> State {
    let mut state = State::default();
    state.created_at = Some(now());
    state.last_modified = state.created_at;
    let alice = Person::new_matrix("@alice:example.org");
    let mut group = CleaningGroup::new("Großer Flur");
    group.member_ids.push(alice.id.clone());
    state.persons.push(alice);
    state.cleaning_groups.push(group);
    state
}

fn token_in(text: &str) -> String {
    let from = text.find("/ical/").unwrap() + "/ical/".len();
    let rest = &text[from..];
    rest[..rest.find(".ics").unwrap()].to_owned()
}

#[test]
fn a_new_feed_is_served_and_a_reset_closes_it() {
    let mut state = alice_alone();
    let said = match cmd_ical(&mut state, &request(), &vec![], &url()).unwrap() {
        FeedReply::Says(text) => text,
        other => panic!("{other:?}"),
    };
    let token = token_in(&said);
    assert_eq!(token.len(), 64);
    assert!(state.calendar_tokens.iter().all(|t| t.token_hash != token));
    let served = serve_ical(&state, &format!("{token}.ics"), today(), now()).unwrap().unwrap();
    assert!(served.body.contains("BEGIN:VEVENT"));
    assert_eq!(served.etag, format!("\"{}\"", fingerprint(&served.body)));
    assert!(served.last_modified.ends_with(" GMT"));

    match cmd_ical(&mut state, &request(), &vec![], &url()).unwrap() {
        FeedReply::Says(text) => assert_eq!(text, HAS_FEED),
        other => panic!("{other:?}"),
    }
    let fresh = token_in(&cmd_icalreset(&mut state, &request(), &vec![], &url()));
    assert_ne!(fresh, token);
    assert_eq!(open_feed(&state, &token), None);
    assert_eq!(open_feed(&state, &fresh), Some(state.persons[0].id.clone()));
}

#[test]
fn a_token_that_was_never_issued_opens_nothing() {
    let state = alice_alone();
    assert_eq!(open_feed(&state, "00ff.ics"), None);
    assert_eq!(open_feed(&state, "../etc/passwd"), None);
    assert!(serve_ical(&state, "zz", today(), now()).unwrap().is_none());
}

#[test]
fn without_a_server_the_calendar_comes_as_a_file() {
    let mut state = alice_alone();
    match cmd_ical(&mut state, &request(), &vec!["4".to_owned()], &None).unwrap() {
        FeedReply::File { data, file_name, text } => {
            assert!(data.starts_with("BEGIN:VCALENDAR\r\n"));
            assert!(data.ends_with("END:VCALENDAR\r\n"));
            assert!(file_name.ends_with(".ics"), "{file_name}");
            assert!(text.contains("4 Wochen"), "{text}");
        }
        other => panic!("{other:?}"),
    }
    assert!(state.calendar_tokens.is_empty());
}

#[test]
fn a_calendar_file_is_named_after_its_person() {
    let mut state = alice_alone();
    state.persons[0].id = "@éva.b-1:example.org".to_owned();
    state.cleaning_groups[0].member_ids[0] = state.persons[0].id.clone();
    match cmd_ical(&mut state, &request(), &vec![], &None).unwrap() {
        FeedReply::File { file_name, .. } => assert_eq!(file_name, "putzplan_éva_b-1.ics"),
        other => panic!("{other:?}"),
    }
}

#[test]
fn somebody_unknown_gets_no_feed() {
    let mut state = alice_alone();
    let mut stranger = request();
    stranger.sender = "@nobody:example.org".to_owned();
    match cmd_ical(&mut state, &stranger, &vec![], &url()).unwrap() {
        FeedReply::Says(text) => assert!(!text.contains("/ical/"), "{text}"),
        other => panic!("{other:?}"),
    }
    assert!(state.calendar_tokens.is_empty());
}

#[test]
fn numbers_of_weeks_are_read_within_bounds() {
    assert_eq!(read_weeks("6", 52), Some(6));
    assert_eq!(read_weeks("0", 52), Some(1));
    assert_eq!(read_weeks("99", 52), Some(52));
    assert_eq!(read_weeks("many", 52), None);
}

#[test]
fn the_plan_ahead_names_everybody_in_it() {
    let state = alice_alone();
    let reply = cmd_cleanplan(&state, &vec!["2".to_owned()], 1, today(), now()).unwrap();
    assert!(reply.text.contains("Großer Flur"), "{}", reply.text);
    assert_eq!(reply.people, ["@alice:example.org"]);
}

#[test]
fn the_file_of_a_plan_is_named_in_small_letters() {
    let mut state = alice_alone();
    state.cleaning_groups[0].name = "Die ÖFEN".to_owned();
    let args = vec!["Die".to_owned(), "ÖFEN".to_owned()];
    let refused = cmd_pdf(&state, &request(), &args, 1).unwrap_err();
    assert_eq!(refused, CommandError::NotAdmin);
    let admin = Request { is_admin: true, ..request() };
    match cmd_pdf(&state, &admin, &args, 1).unwrap() {
        PdfReply::Sets { tex, file_name } => {
            assert!(tex.contains("Die ÖFEN"));
            assert!(file_name.starts_with("cleaning-plan-die_öfen_KW"), "{file_name}");
            assert!(file_name.ends_with(".pdf"), "{file_name}");
        }
        PdfReply::Says(text) => panic!("{text}"),
    }
}

/// 1 September 2025, six in the morning, and a day later.
const THEN: Timestamp = Timestamp { secs: 1756706400, nanos: 0 };
const LATER: Timestamp = Timestamp { secs: 1756792800, nanos: 7 };

#[test]
fn a_feed_is_stamped_with_the_last_change_not_with_the_request() {
    let mut state = alice_alone();
    let said = match cmd_ical(&mut state, &request(), &vec![], &url()).unwrap() {
        FeedReply::Says(text) => text,
        other => panic!("{other:?}"),
    };
    let token = token_in(&said);
    state.last_modified = Some(THEN);
    let first = serve_ical(&state, &token, today(), now()).unwrap().unwrap();
    let second = serve_ical(&state, &token, today(), LATER).unwrap().unwrap();
    assert_eq!(first.last_modified, "Mon, 01 Sep 2025 06:00:00 GMT");
    assert!(first.body.contains("DTSTAMP:20250901T060000Z\r\n"), "{}", first.body);
    assert_eq!(first.body, second.body);
    assert_eq!(first.etag, second.etag);
    assert_eq!(first.last_modified, second.last_modified);

    state.last_modified = None;
    state.created_at = Some(LATER);
    let made = serve_ical(&state, &token, today(), now()).unwrap().unwrap();
    assert_eq!(made.last_modified, "Tue, 02 Sep 2025 06:00:00 GMT");
    state.created_at = None;
    let asked = serve_ical(&state, &token, today(), THEN).unwrap().unwrap();
    assert_eq!(asked.last_modified, "Mon, 01 Sep 2025 06:00:00 GMT");
}

#[test]
fn files_are_the_same_until_the_state_changes() {
    let mut state = alice_alone();
    state.last_modified = Some(THEN);
    let admin = Request { is_admin: true, ..request() };
    let again = Request { now: LATER, ..admin.clone() };
    let calendars: Vec<String> = [&admin, &again]
        .iter()
        .map(|req| match cmd_ical(&mut state, req, &vec![], &None).unwrap() {
            FeedReply::File { data, .. } => data,
            other => panic!("{other:?}"),
        })
        .collect();
    assert!(calendars[0].contains("DTSTAMP:20250901T060000Z\r\n"), "{}", calendars[0]);
    assert_eq!(calendars[0], calendars[1]);
    let documents: Vec<String> = [&admin, &again]
        .iter()
        .map(|req| match cmd_pdf(&state, req, &vec![], 1).unwrap() {
            PdfReply::Sets { tex, .. } => tex,
            PdfReply::Says(text) => panic!("{text}"),
        })
        .collect();
    assert!(documents[0].contains("Generated 01 Sep 2025"), "{}", documents[0]);
    assert_eq!(documents[0], documents[1]);
}
