//! Greeting those who are new in the room: who are they, and in which group do they clean?

use vstd::prelude::*;

use crate::analytics::DomainEvent;
use crate::commands::base::{CommandError, Request};
use crate::commands::members::{enter, enters_as, lemma_registered};
use crate::commands::stats::person_names;
use crate::commands::takeover::registers;
use crate::course::step;
use crate::domain::{fresh_id, CleaningGroup, Person, PersonId};
use crate::journal::{refusal, StateError};
use crate::lists::{find, lemma_filter_step, lemma_first_index, retain};
use crate::planning::{is_known, known};
use crate::state::{GreetingChoice, GreetingInfo, State};
use crate::text::{
    contains_text, join, join_texts, put_text, same_text, says, views,
};

verus! {

// ── Signs ────────────────────────────────────────────────────────────────────

/// How many choices a greeting offers at most.
pub const MOST_CHOICES: usize = 9;

/// The sign of a choice, counted from zero.
pub open spec fn number_sign(i: int) -> Seq<char> {
    if i == 0 {
        "1️⃣"@
    } else if i == 1 {
        "2️⃣"@
    } else if i == 2 {
        "3️⃣"@
    } else if i == 3 {
        "4️⃣"@
    } else if i == 4 {
        "5️⃣"@
    } else if i == 5 {
        "6️⃣"@
    } else if i == 6 {
        "7️⃣"@
    } else if i == 7 {
        "8️⃣"@
    } else {
        "9️⃣"@
    }
}

/// The sign of a choice, counted from zero.
fn show_sign(i: usize) -> (r: String)
    ensures
        r@ == number_sign(i as int),
{
    if i == 0 {
        "1️⃣".to_owned()
    } else if i == 1 {
        "2️⃣".to_owned()
    } else if i == 2 {
        "3️⃣".to_owned()
    } else if i == 3 {
        "4️⃣".to_owned()
    } else if i == 4 {
        "5️⃣".to_owned()
    } else if i == 5 {
        "6️⃣".to_owned()
    } else if i == 6 {
        "7️⃣".to_owned()
    } else if i == 7 {
        "8️⃣".to_owned()
    } else {
        "9️⃣".to_owned()
    }
}

/// The sign of somebody who is new.
pub const NEW_SIGN: &'static str = "🆕";

// ── Choosing a group ─────────────────────────────────────────────────────────

/// A greeting to be sent.
#[derive(Clone, Debug)]
pub struct Greeting {
    pub text: String,
    pub choices: Vec<GreetingChoice>,
    /// Whether it asks who somebody is, and not for a group.
    pub is_linking: bool,
}

/// The line about a group that can be chosen.
pub open spec fn group_choice_line(state: State, groups: Seq<CleaningGroup>, i: int) -> Seq<char> {
    let names = person_names(state.persons_of(groups[i].member_ids@));
    number_sign(i) + " **"@ + groups[i].name@ + "**"@ + (if names.len() == 0 {
        ""@
    } else {
        " — "@ + join(names, ", "@)
    })
}

/// How many of a list can be chosen from.
pub open spec fn offered(n: nat) -> nat {
    if n < MOST_CHOICES {
        n
    } else {
        MOST_CHOICES as nat
    }
}

/// Whether choices lead to groups, one by one.
pub open spec fn choose_groups(choices: Seq<GreetingChoice>, groups: Seq<CleaningGroup>) -> bool {
    &&& choices.len() == offered(groups.len())
    &&& forall|i: int|
        0 <= i < choices.len() ==> (#[trigger] choices[i]).emoji@ == number_sign(i)
            && choices[i].group_id == groups[i].id && choices[i].group_name == groups[i].name
            && choices[i].person_id is None
}

/// The text that asks for a group.
pub open spec fn join_text(state: State, intro: Option<Seq<char>>) -> Seq<char> {
    let groups = state.cleaning_groups@;
    join(
        (match intro {
            Some(t) => seq![t, ""@],
            None => Seq::empty(),
        }) + seq![
            "Please pick your cleaning group by reacting with the matching number:"@,
            ""@,
        ] + Seq::new(
            offered(groups.len()),
            |i: int| group_choice_line(state, groups, i),
        ),
        "\n"@,
    )
}

/// Whether a greeting asks for a group.
pub open spec fn asks_for_group(g: Greeting, state: State, intro: Option<Seq<char>>) -> bool {
    &&& g.text@ == join_text(state, intro)
    &&& choose_groups(g.choices@, state.cleaning_groups@)
    &&& !g.is_linking
}

/// The text that an option holds.
pub open spec fn inside(o: Option<String>) -> Option<Seq<char>> {
    match o {
        Some(t) => Some(t@),
        None => None,
    }
}

/// The line about a group that can be chosen.
fn show_group_choice(state: &State, i: usize) -> (r: String)
    requires
        i < state.cleaning_groups@.len(),
    ensures
        r@ == group_choice_line(*state, state.cleaning_groups@, i as int),
{
    let g = &state.cleaning_groups[i];
    let members = state.members_of(g);
    let ghost all = person_names(state.persons_of(g.member_ids@));
    let mut names: Vec<String> = Vec::new();
    let mut k: usize = 0;
    assert(views(names@) =~= all.take(0));
    while k < members.len()
        invariant
            k <= members.len(),
            members@.len() == state.persons_of(g.member_ids@).len(),
            forall|j: int|
                0 <= j < members@.len() ==> *(#[trigger] members@[j]) == state.persons_of(
                    g.member_ids@,
                )[j],
            all == person_names(state.persons_of(g.member_ids@)),
            views(names@) == all.take(k as int),
        decreases members.len() - k,
    {
        let name = members[k].display_name.clone();
        assert(all.take(k + 1) =~= all.take(k as int).push(name@));
        put_text(&mut names, name);
        k += 1;
    }
    assert(all.take(k as int) =~= all);
    let who: String = if members.len() == 0 {
        "".to_owned()
    } else {
        " — ".to_owned().concat(join_texts(&names, ", ").as_str())
    };
    show_sign(i).concat(" **").concat(g.name.as_str()).concat("**").concat(who.as_str())
}

/// Asks for a group; nothing when there are none.
pub fn join_greeting(state: &State, intro: Option<String>) -> (r: Option<Greeting>)
    ensures
        (r is Some) == (state.cleaning_groups@.len() > 0),
        r is Some ==> asks_for_group(r->0, *state, inside(intro)),
{
    let groups = &state.cleaning_groups;
    if groups.len() == 0 {
        return None;
    }
    let ghost said = inside(intro);
    let mut lines: Vec<String> = Vec::new();
    assert(views(lines@) =~= Seq::<Seq<char>>::empty());
    match intro {
        Some(t) => {
            put_text(&mut lines, t);
            put_text(&mut lines, "".to_owned());
        },
        None => {},
    }
    put_text(
        &mut lines,
        "Please pick your cleaning group by reacting with the matching number:".to_owned(),
    );
    put_text(&mut lines, "".to_owned());
    let ghost head = (match said {
        Some(t) => seq![t, ""@],
        None => Seq::empty(),
    }) + seq![
        "Please pick your cleaning group by reacting with the matching number:"@,
        ""@,
    ];
    let ghost all = Seq::new(
        offered(groups@.len()),
        |i: int| group_choice_line(*state, groups@, i),
    );
    let mut choices: Vec<GreetingChoice> = Vec::new();
    let mut i: usize = 0;
    assert(views(lines@) =~= head + all.take(0));
    while i < groups.len() && i < MOST_CHOICES
        invariant
            i <= groups.len(),
            i <= MOST_CHOICES,
            groups == &state.cleaning_groups,
            all == Seq::new(
                offered(groups@.len()),
                |i: int| group_choice_line(*state, groups@, i),
            ),
            views(lines@) == head + all.take(i as int),
            choices@.len() == i,
            forall|k: int|
                0 <= k < i ==> (#[trigger] choices@[k]).emoji@ == number_sign(k)
                    && choices@[k].group_id == groups@[k].id && choices@[k].group_name
                    == groups@[k].name && choices@[k].person_id is None,
        decreases groups.len() - i,
    {
        let line = show_group_choice(state, i);
        assert(head + all.take(i + 1) =~= (head + all.take(i as int)).push(line@));
        put_text(&mut lines, line);
        choices.push(
            GreetingChoice {
                emoji: show_sign(i),
                group_id: groups[i].id.clone(),
                group_name: groups[i].name.clone(),
                person_id: None,
            },
        );
        i += 1;
    }
    assert(all.take(i as int) =~= all);
    Some(Greeting { text: join_texts(&lines, "\n"), choices, is_linking: false })
}

// ── Who somebody is ──────────────────────────────────────────────────────────

/// Somebody on the plan who has no Matrix account yet.
pub open spec fn unlinked() -> spec_fn(Person) -> bool {
    |p: Person| p.active && p.matrix_id is None
}

/// The text that asks who somebody is.
pub open spec fn link_text(user: Seq<char>, persons: Seq<Person>) -> Seq<char> {
    join(
        seq![
            "👋 Welcome, "@ + user + "!"@,
            ""@,
            "Are you already on the cleaning plan? React with your name, or 🆕 if you are a new person:"@,
            ""@,
        ] + Seq::new(
            offered(persons.len()),
            |i: int| number_sign(i) + " **"@ + persons[i].display_name@ + "**"@,
        ) + seq![""@, "🆕 I'm a new person"@],
        "\n"@,
    )
}

/// Whether choices lead to persons, one by one, and the last one to somebody new.
pub open spec fn choose_persons(choices: Seq<GreetingChoice>, persons: Seq<Person>) -> bool {
    let n = offered(persons.len()) as int;
    &&& choices.len() == n + 1
    &&& forall|i: int|
        0 <= i < n ==> (#[trigger] choices[i]).emoji@ == number_sign(i)
            && choices[i].group_name == persons[i].display_name && choices[i].person_id
            == Some(persons[i].id)
    &&& choices[n].emoji@ == NEW_SIGN@
    &&& choices[n].person_id is None
}

/// Whether a greeting asks who somebody is.
pub open spec fn asks_who(g: Greeting, state: State, user: Seq<char>) -> bool {
    let persons = state.persons@.filter(unlinked());
    &&& g.text@ == link_text(user, persons)
    &&& choose_persons(g.choices@, persons)
    &&& g.is_linking
}

/// Asks who somebody is; nothing when everybody on the plan has a Matrix account.
pub fn link_greeting(state: &State, user: &str) -> (r: Option<Greeting>)
    ensures
        (r is Some) == (state.persons@.filter(unlinked()).len() > 0),
        r is Some ==> asks_who(r->0, *state, user@),
{
    let all = &state.persons;
    let ghost persons = all@.filter(unlinked());
    let ghost head = seq![
        "👋 Welcome, "@ + user@ + "!"@,
        ""@,
        "Are you already on the cleaning plan? React with your name, or 🆕 if you are a new person:"@,
        ""@,
    ];
    let mut lines: Vec<String> = Vec::new();
    assert(views(lines@) =~= Seq::<Seq<char>>::empty());
    put_text(&mut lines, "👋 Welcome, ".to_owned().concat(user).concat("!"));
    put_text(&mut lines, "".to_owned());
    put_text(
        &mut lines,
        "Are you already on the cleaning plan? React with your name, or 🆕 if you are a new person:".to_owned(),
    );
    put_text(&mut lines, "".to_owned());
    let mut choices: Vec<GreetingChoice> = Vec::new();
    let mut any = false;
    let mut i: usize = 0;
    proof {
        assert(all@.take(0).filter(unlinked()) =~= Seq::<Person>::empty()) by {
            reveal(Seq::filter);
        }
        assert(views(lines@) =~= head + person_lines(all@.take(0).filter(unlinked())));
    }
    while i < all.len()
        invariant
            i <= all.len(),
            all == &state.persons,
            any == (all@.take(i as int).filter(unlinked()).len() > 0),
            views(lines@) == head + person_lines(all@.take(i as int).filter(unlinked())),
            names_persons(choices@, all@.take(i as int).filter(unlinked())),
        decreases all.len() - i,
    {
        let ghost before = all@.take(i as int).filter(unlinked());
        proof {
            lemma_filter_step(all@, unlinked(), i as int);
        }
        let p = &all[i];
        if p.active && p.matrix_id.is_none() {
            any = true;
            if choices.len() < MOST_CHOICES {
                let line = show_sign(choices.len()).concat(" **").concat(
                    p.display_name.as_str(),
                ).concat("**");
                assert(person_lines(before.push(*p)) =~= person_lines(before).push(line@));
                assert(head + person_lines(before).push(line@) =~= (head + person_lines(
                    before,
                )).push(line@));
                put_text(&mut lines, line);
                let choice = GreetingChoice {
                    emoji: show_sign(choices.len()),
                    group_id: "".to_owned(),
                    group_name: p.display_name.clone(),
                    person_id: Some(p.id.clone()),
                };
                choices.push(choice);
            } else {
                assert(person_lines(before.push(*p)) =~= person_lines(before));
            }
        }
        i += 1;
    }
    assert(all@.take(i as int) =~= all@);
    if !any {
        return None;
    }
    put_text(&mut lines, "".to_owned());
    put_text(&mut lines, "🆕 I'm a new person".to_owned());
    assert(views(lines@) =~= head + person_lines(persons) + seq![""@, "🆕 I'm a new person"@]);
    let newcomer = GreetingChoice {
        emoji: NEW_SIGN.to_owned(),
        group_id: "".to_owned(),
        group_name: "".to_owned(),
        person_id: None,
    };
    choices.push(newcomer);
    Some(Greeting { text: join_texts(&lines, "\n"), choices, is_linking: true })
}

/// The lines about persons who can be chosen.
pub open spec fn person_lines(persons: Seq<Person>) -> Seq<Seq<char>> {
    Seq::new(
        offered(persons.len()),
        |i: int| number_sign(i) + " **"@ + persons[i].display_name@ + "**"@,
    )
}

/// Whether choices lead to persons, one by one.
pub open spec fn names_persons(choices: Seq<GreetingChoice>, persons: Seq<Person>) -> bool {
    &&& choices.len() == offered(persons.len())
    &&& forall|i: int|
        0 <= i < choices.len() ==> (#[trigger] choices[i]).emoji@ == number_sign(i)
            && choices[i].group_name == persons[i].display_name && choices[i].person_id
            == Some(persons[i].id)
}

// ── Welcoming ────────────────────────────────────────────────────────────────

/// What is said to somebody who comes into the room for the first time.
pub open spec fn welcomes(pre: State, post: State, r: Option<Greeting>, user: Seq<char>) -> bool {
    if says(pre.greeted_users@, user) {
        post == pre && r is None
    } else {
        &&& post == State { greeted_users: post.greeted_users, ..pre }
        &&& views(post.greeted_users@) == views(pre.greeted_users@).push(user)
        &&& if pre.persons@.filter(unlinked()).len() > 0 {
            r is Some && asks_who(r->0, pre, user)
        } else if pre.cleaning_groups@.len() > 0 {
            r is Some && asks_for_group(r->0, pre, Some("👋 Welcome, "@ + user + "!"@))
        } else {
            r is None
        }
    }
}

/// Greets somebody who comes into the room, once.
pub fn welcome(state: &mut State, user: &str) -> (r: Option<Greeting>)
    ensures
        welcomes(*old(state), *final(state), r, user@),
{
    if contains_text(&state.greeted_users, user) {
        return None;
    }
    let r = match link_greeting(state, user) {
        Some(g) => Some(g),
        None => join_greeting(
            state,
            Some("👋 Welcome, ".to_owned().concat(user).concat("!")),
        ),
    };
    put_text(&mut state.greeted_users, user.to_owned());
    r
}

/// Greetings other than one.
pub open spec fn other_greeting(event_id: Seq<char>) -> spec_fn(GreetingInfo) -> bool {
    |g: GreetingInfo| g.event_id@ != event_id
}

/// The state with a greeting, in place of any of the same event.
pub open spec fn greeting_noted(pre: State, post: State, event_id: Seq<char>) -> bool {
    &&& post == State { greeting_event_ids: post.greeting_event_ids, ..pre }
    &&& post.greeting_event_ids@.len() > 0
    &&& post.greeting_event_ids@.drop_last() == pre.greeting_event_ids@.filter(
        other_greeting(event_id),
    )
    &&& post.greeting_event_ids@.last().event_id@ == event_id
}

/// Notes a greeting that was sent, so that reactions on it are understood.
pub fn note_greeting(state: &mut State, event_id: &str, user: &str, greeting: Greeting)
    ensures
        greeting_noted(*old(state), *final(state), event_id@),
        final(state).greeting_event_ids@.last().for_user@ == user@,
        final(state).greeting_event_ids@.last().choices == greeting.choices,
        final(state).greeting_event_ids@.last().is_linking == greeting.is_linking,
{
    let keep = |g: &GreetingInfo| -> (b: bool)
        ensures
            b == (g.event_id@ != event_id@),
        { !same_text(g.event_id.as_str(), event_id) };
    retain(&mut state.greeting_event_ids, keep, Ghost(other_greeting(event_id@)));
    let ghost kept = state.greeting_event_ids@;
    state.greeting_event_ids.push(
        GreetingInfo {
            event_id: event_id.to_owned(),
            for_user: user.to_owned(),
            choices: greeting.choices,
            is_linking: greeting.is_linking,
        },
    );
    assert(state.greeting_event_ids@.drop_last() =~= kept);
}

// ── Answers to greetings ─────────────────────────────────────────────────────

/// What comes of a reaction on a message that may be a greeting.
#[derive(Clone, Debug)]
pub enum GreetingAnswer {
    /// The message is no greeting.
    NotGreeting,
    /// The reaction is of somebody else, or none of the choices.
    Ignored,
    /// Somebody is who they say; they are to be asked for a group when they are in none.
    Linked { text: String, ask_group: bool },
    /// Somebody is new, and is to be asked for a group.
    New,
    /// Somebody is in a group now.
    Joined(String),
}

/// A greeting.
pub open spec fn greeting_with_id(event_id: Seq<char>) -> spec_fn(GreetingInfo) -> bool {
    |g: GreetingInfo| g.event_id@ == event_id
}

/// A choice with a sign.
pub open spec fn choice_with(sign: Seq<char>) -> spec_fn(GreetingChoice) -> bool {
    |c: GreetingChoice| c.emoji@ == sign
}

/// The state without a greeting.
pub open spec fn greeting_gone(pre: State, post: State, event_id: Seq<char>) -> bool {
    &&& post == State { greeting_event_ids: post.greeting_event_ids, ..pre }
    &&& post.greeting_event_ids@ == pre.greeting_event_ids@.filter(other_greeting(event_id))
}

/// The names of the groups that somebody is in.
pub open spec fn names_of_groups(state: State, person_id: Seq<char>) -> Seq<Seq<char>> {
    state.groups_of(person_id).map_values(|g: CleaningGroup| g.name@)
}

/// What is said to somebody who is who they say.
pub open spec fn linked_text(state: State, name: Seq<char>, person_id: Seq<char>) -> Seq<char> {
    let groups = names_of_groups(state, person_id);
    if groups.len() > 0 {
        "✅ Welcome back, **"@ + name + "**! Your account is linked. You are in: "@ + join(
            groups,
            ", "@,
        )
    } else {
        "✅ Linked as **"@ + name + "**!"@
    }
}

/// Whether somebody was linked to a person on the plan, if there is one.
pub open spec fn linked_to(
    mid: State,
    post: State,
    r: Result<GreetingAnswer, CommandError>,
    choice: GreetingChoice,
    person_id: PersonId,
    req: Request,
) -> bool {
    let e = DomainEvent::PersonMatrixLinked { person_id, matrix_id: req.sender };
    &&& if refusal(mid, e) is None {
        step(mid, post, e, req.now)
    } else {
        post == mid
    }
    &&& r is Ok
    &&& r->Ok_0 is Linked
    &&& r->Ok_0->text@ == linked_text(post, choice.group_name@, person_id@)
    &&& r->Ok_0->ask_group == (post.groups_of(person_id@).len() == 0)
}

/// What is said of somebody who joined a group by a greeting.
pub open spec fn crew_text(sender: Seq<char>, group_name: Seq<char>) -> Seq<char> {
    "✅ "@ + sender + " joined **"@ + group_name + "** — welcome to the cleaning crew! 🧹"@
}

/// Whether somebody who is known joined the group of a choice, if it is still there and they are
/// not in it.
pub open spec fn joined_by_choice(
    met: State,
    mid: State,
    r: Result<GreetingAnswer, CommandError>,
    choice: GreetingChoice,
    person_id: PersonId,
    req: Request,
) -> bool {
    let text = crew_text(req.sender@, choice.group_name@);
    &&& r is Ok
    &&& r->Ok_0 is Joined
    &&& r->Ok_0->Joined_0@ == text
    &&& if met.group(choice.group_id@) is Some {
        enters_as(
            met,
            mid,
            Ok(r->Ok_0->Joined_0),
            req,
            choice.group_id@,
            person_id,
            text,
            text,
            false,
        )
    } else {
        mid == met
    }
}

/// What a reaction on a greeting does.
pub open spec fn answers_greeting(
    pre: State,
    post: State,
    r: Result<GreetingAnswer, CommandError>,
    req: Request,
    message_id: Seq<char>,
    sign: Seq<char>,
    id: String,
) -> bool {
    match find(pre.greeting_event_ids@, greeting_with_id(message_id)) {
        None => post == pre && r is Ok && r->Ok_0 is NotGreeting,
        Some(info) => if info.for_user@ != req.sender@ {
            post == pre && r is Ok && r->Ok_0 is Ignored
        } else {
            match find(info.choices@, choice_with(sign)) {
                None => post == pre && r is Ok && r->Ok_0 is Ignored,
                Some(choice) => if !known(pre, req.today) {
                    post == pre && r is Err && r->Err_0 == CommandError::OutOfRange
                } else if info.is_linking {
                    match choice.person_id {
                        Some(p) => exists|mid: State| #[trigger]
                            greeting_gone(pre, mid, message_id) && linked_to(
                                mid,
                                post,
                                r,
                                choice,
                                p,
                                req,
                            ),
                        None => greeting_gone(pre, post, message_id) && r is Ok && r->Ok_0 is New,
                    }
                } else {
                    exists|met: State|
                        {
                            &&& #[trigger] step(pre, met, registers(req, id), req.now)
                            &&& match met.person_of(req.sender@) {
                                None => post == met && r is Err && r->Err_0
                                    == CommandError::Refused(StateError::UnknownPerson),
                                Some(p) => exists|mid: State| #[trigger]
                                    joined_by_choice(met, mid, r, choice, p.id, req)
                                        && greeting_gone(mid, post, message_id),
                            }
                        }
                },
            }
        },
    }
}

/// The greeting that a message is, by place.
fn find_greeting(state: &State, message_id: &str) -> (r: Option<usize>)
    ensures
        match r {
            Some(i) => i < state.greeting_event_ids@.len() && find(
                state.greeting_event_ids@,
                greeting_with_id(message_id@),
            ) == Some(state.greeting_event_ids@[i as int]),
            None => find(state.greeting_event_ids@, greeting_with_id(message_id@)) is None,
        },
{
    let all = &state.greeting_event_ids;
    let ghost p = greeting_with_id(message_id@);
    let mut i: usize = 0;
    while i < all.len()
        invariant
            i <= all.len(),
            all == &state.greeting_event_ids,
            p == greeting_with_id(message_id@),
            forall|k: int| 0 <= k < i ==> !p(#[trigger] all@[k]),
        decreases all.len() - i,
    {
        if same_text(all[i].event_id.as_str(), message_id) {
            proof {
                lemma_first_index(all@, p, i as int);
            }
            return Some(i);
        }
        i += 1;
    }
    proof {
        lemma_first_index(all@, p, i as int);
    }
    None
}

/// The choice with a sign.
fn find_choice(choices: &Vec<GreetingChoice>, sign: &str) -> (r: Option<GreetingChoice>)
    ensures
        r == find(choices@, choice_with(sign@)),
{
    let ghost p = choice_with(sign@);
    let mut i: usize = 0;
    while i < choices.len()
        invariant
            i <= choices.len(),
            p == choice_with(sign@),
            forall|k: int| 0 <= k < i ==> !p(#[trigger] choices@[k]),
        decreases choices.len() - i,
    {
        if same_text(choices[i].emoji.as_str(), sign) {
            proof {
                lemma_first_index(choices@, p, i as int);
            }
            return Some(
                GreetingChoice {
                    emoji: choices[i].emoji.clone(),
                    group_id: choices[i].group_id.clone(),
                    group_name: choices[i].group_name.clone(),
                    person_id: choices[i].person_id.clone(),
                },
            );
        }
        i += 1;
    }
    proof {
        lemma_first_index(choices@, p, i as int);
    }
    None
}

/// Forgets a greeting.
fn drop_greeting(state: &mut State, message_id: &str)
    ensures
        greeting_gone(*old(state), *final(state), message_id@),
{
    let keep = |g: &GreetingInfo| -> (b: bool)
        ensures
            b == (g.event_id@ != message_id@),
        { !same_text(g.event_id.as_str(), message_id) };
    retain(&mut state.greeting_event_ids, keep, Ghost(other_greeting(message_id@)));
}

/// The names of the groups that somebody is in.
pub fn list_group_names(state: &State, person_id: &str) -> (r: Vec<String>)
    ensures
        views(r@) == names_of_groups(*state, person_id@),
{
    let groups = state.groups_for_person(person_id);
    let ghost all = names_of_groups(*state, person_id@);
    let mut r: Vec<String> = Vec::new();
    let mut i: usize = 0;
    assert(views(r@) =~= all.take(0));
    while i < groups.len()
        invariant
            i <= groups.len(),
            groups@.len() == state.groups_of(person_id@).len(),
            forall|k: int|
                0 <= k < groups@.len() ==> *(#[trigger] groups@[k]) == state.groups_of(
                    person_id@,
                )[k],
            all == names_of_groups(*state, person_id@),
            views(r@) == all.take(i as int),
        decreases groups.len() - i,
    {
        assert(all.take(i + 1) =~= all.take(i as int).push(groups@[i as int].name@));
        put_text(&mut r, groups[i].name.clone());
        i += 1;
    }
    assert(all.take(i as int) =~= all);
    r
}

/// Links somebody to a person on the plan, if there is one.
fn link_choice(state: &mut State, req: &Request, choice: &GreetingChoice, person_id: &PersonId) -> (r:
    Result<GreetingAnswer, CommandError>)
    requires
        known(*old(state), req.today),
    ensures
        linked_to(*old(state), *final(state), r, *choice, *person_id, *req),
{
    let event = DomainEvent::PersonMatrixLinked {
        person_id: person_id.clone(),
        matrix_id: req.sender.clone(),
    };
    let _ = state.apply_event_at(event, req.now);
    let groups = list_group_names(state, person_id.as_str());
    assert(views(groups@).len() == groups@.len());
    let text: String = if groups.len() > 0 {
        "✅ Welcome back, **".to_owned().concat(choice.group_name.as_str()).concat(
            "**! Your account is linked. You are in: ",
        ).concat(join_texts(&groups, ", ").as_str())
    } else {
        "✅ Linked as **".to_owned().concat(choice.group_name.as_str()).concat("**!")
    };
    Ok(GreetingAnswer::Linked { text, ask_group: groups.len() == 0 })
}

/// Carries out a reaction on a greeting; whoever joins a group becomes known under `id` unless
/// they are already.
pub fn answer_greeting_as(
    state: &mut State,
    req: &Request,
    message_id: &str,
    sign: &str,
    id: String,
) -> (r: Result<GreetingAnswer, CommandError>)
    ensures
        answers_greeting(*old(state), *final(state), r, *req, message_id@, sign@, id),
{
    let i = match find_greeting(state, message_id) {
        Some(i) => i,
        None => {
            return Ok(GreetingAnswer::NotGreeting);
        },
    };
    if !same_text(state.greeting_event_ids[i].for_user.as_str(), req.sender.as_str()) {
        return Ok(GreetingAnswer::Ignored);
    }
    let choice = match find_choice(&state.greeting_event_ids[i].choices, sign) {
        Some(c) => c,
        None => {
            return Ok(GreetingAnswer::Ignored);
        },
    };
    if !is_known(state, req.today) {
        return Err(CommandError::OutOfRange);
    }
    if state.greeting_event_ids[i].is_linking {
        drop_greeting(state, message_id);
        let ghost mid = *state;
        assert(greeting_gone(*old(state), mid, message_id@));
        return match &choice.person_id {
            Some(p) => link_choice(state, req, &choice, p),
            None => Ok(GreetingAnswer::New),
        };
    }
    let there = state.group_by_id(choice.group_id.as_str()).is_some();
    let ghost pre = *state;
    let event = DomainEvent::PersonCreated {
        person_id: id,
        display_name: req.sender.clone(),
        matrix_id: Some(req.sender.clone()),
    };
    match state.apply_event_at(event, req.now) {
        Ok(_) => {},
        Err(e) => {
            return Err(CommandError::Refused(e));
        },
    }
    let ghost met = *state;
    proof {
        assert(step(pre, met, registers(*req, id), req.now));
        if there {
            lemma_registered(pre, met, registers(*req, id), *req, choice.group_id@);
        }
    }
    let person_id = match state.person_by_matrix_id(req.sender.as_str()) {
        Some(p) => p.id.clone(),
        None => {
            return Err(CommandError::Refused(StateError::UnknownPerson));
        },
    };
    let text = "✅ ".to_owned().concat(req.sender.as_str()).concat(" joined **").concat(
        choice.group_name.as_str(),
    ).concat("** — welcome to the cleaning crew! 🧹");
    let r: Result<GreetingAnswer, CommandError> = if there {
        match enter(state, req, &choice.group_id, &person_id, text.clone(), text, false) {
            Ok(t) => Ok(GreetingAnswer::Joined(t)),
            Err(e) => Err(e),
        }
    } else {
        Ok(GreetingAnswer::Joined(text))
    };
    let ghost mid = *state;
    assert(joined_by_choice(met, mid, r, choice, person_id, *req));
    drop_greeting(state, message_id);
    r
}

/// Carries out a reaction on a greeting. Somebody new gets a random id.
pub fn answer_greeting(state: &mut State, req: &Request, message_id: &str, sign: &str) -> (r: Result<
    GreetingAnswer,
    CommandError,
>)
    ensures
        exists|id: String|
            id@.len() == 36 && #[trigger] answers_greeting(
                *old(state),
                *final(state),
                r,
                *req,
                message_id@,
                sign@,
                id,
            ),
{
    let id = fresh_id();
    answer_greeting_as(state, req, message_id, sign, id)
}

/// Nobody is greeted twice: coming into the room again changes nothing.
pub proof fn law_nobody_is_greeted_twice(
    pre: State,
    mid: State,
    post: State,
    first: Option<Greeting>,
    second: Option<Greeting>,
    user: Seq<char>,
)
    requires
        welcomes(pre, mid, first, user),
        welcomes(mid, post, second, user),
    ensures
        post == mid,
        second is None,
{
    if !says(pre.greeted_users@, user) {
        let n = pre.greeted_users@.len() as int;
        assert(views(mid.greeted_users@).len() == views(pre.greeted_users@).len() + 1);
        assert(views(mid.greeted_users@)[n] == user);
        assert(mid.greeted_users@[n]@ == user);
    }
}

} // verus!
