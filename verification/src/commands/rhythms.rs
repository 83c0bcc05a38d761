//! How often a group is cleaned.

use vstd::prelude::*;

use crate::analytics::DomainEvent;
use crate::calendar::{week_of, Date, Timestamp};
use crate::commands::base::{
    answered, no_group, no_group_text, says_only, Answer, CommandError, Request,
};
use crate::course::{law_planning_keeps_assignments, planned_ahead, step};
use crate::domain::{GroupId, SlotAssignment};
use crate::lists::{
    first_index, lemma_filter_step, lemma_find_kept, lemma_first_index, lemma_first_index_is, retain,
};
use crate::planning::{
    is_known, later_week, lemma_fewer, lemma_queue_set, lemma_known, lemma_still_known,
    materialize_and_apply, not_future_in, queue_set, known, this_week,
};
use crate::resolver::{
    copy_assignment, reconcile_queue, rewind_queue, rewound, stores_queue, turn_order,
};
use crate::rhythm::{parse_weekday, weekday_named, Rhythm, Turn};
use crate::state::{assignment_of, group_named, group_with_id, State};
use crate::text::{
    chars_of, is_same_name, parse_up_to, parsed_up_to, same_name, same_text, text_of,
};

verus! {

/// How the rhythm of a group is set.
pub const RHYTHM_USAGE: &'static str = "Usage: !groups rhythm <group> <weekly | 2x | mon thu | every 2 weeks>";

/// A rhythm that is being read.
pub struct Reading {
    pub every: Option<u32>,
    pub starts: Seq<u8>,
    /// Whether the starts are those of weekdays that were just read.
    pub days: bool,
}

/// `n` shifts per week, as evenly sized as whole days allow.
pub open spec fn even_starts(n: int) -> Seq<u8> {
    Seq::new(n as nat, |i: int| (i * 7 / n) as u8)
}

/// The number of times per week that a text such as "2x" gives.
pub open spec fn times_named(t: Seq<char>) -> Option<int> {
    if t.len() > 0 && (t.last() == 'x' || t.last() == 'X' || t.last() == '×') {
        match parsed_up_to(t.drop_last(), 7) {
            Some(n) => if n >= 1 {
                Some(n as int)
            } else {
                None
            },
            None => None,
        }
    } else {
        None
    }
}

/// Whether a text is the word "week" or "weeks".
pub open spec fn is_weeks(t: Seq<char>) -> bool {
    same_name(t, "week"@) || same_name(t, "weeks"@)
}

/// How many arguments "every N weeks" takes.
pub open spec fn every_length(args: Seq<String>) -> int {
    if args.len() > 2 && is_weeks(args[2]@) {
        3
    } else {
        2
    }
}

/// What arguments make of a rhythm, from left to right.
pub open spec fn read_rhythm(p: Reading, args: Seq<String>) -> Option<Reading>
    decreases args.len(),
{
    if args.len() == 0 {
        Some(p)
    } else if same_name(args[0]@, "weekly"@) {
        read_rhythm(
            Reading { every: Some(1u32), starts: Seq::empty(), days: false },
            args.skip(1),
        )
    } else if same_name(args[0]@, "every"@) {
        if args.len() > 1 && parsed_up_to(args[1]@, u32::MAX as nat) is Some && parsed_up_to(
            args[1]@,
            u32::MAX as nat,
        )->0 >= 1 {
            read_rhythm(
                Reading {
                    every: Some(parsed_up_to(args[1]@, u32::MAX as nat)->0 as u32),
                    days: false,
                    ..p
                },
                args.skip(every_length(args)),
            )
        } else {
            None
        }
    } else {
        match times_named(args[0]@) {
            Some(n) => read_rhythm(
                Reading {
                    starts: if n == 1 {
                        Seq::empty()
                    } else {
                        even_starts(n)
                    },
                    days: false,
                    ..p
                },
                args.skip(1),
            ),
            None => match weekday_named(args[0]@) {
                Some(d) => read_rhythm(
                    Reading {
                        starts: if p.days {
                            p.starts.push(d)
                        } else {
                            seq![d]
                        },
                        days: true,
                        ..p
                    },
                    args.skip(1),
                ),
                None => None,
            },
        }
    }
}

/// The rhythm that arguments describe, starting from a given one.
pub open spec fn rhythm_given(current: Rhythm, args: Seq<String>) -> Option<Reading> {
    if args.len() == 0 {
        None
    } else {
        read_rhythm(
            Reading { every: current.every_weeks, starts: current.shift_starts@, days: false },
            args,
        )
    }
}

/// The number of times per week that a text such as "2x" gives.
fn parse_times(t: &str) -> (r: Option<u8>)
    ensures
        (r is Some) == (times_named(t@) is Some),
        r is Some ==> r->0 == times_named(t@)->0 && 1 <= r->0 <= 7,
{
    let v = chars_of(t);
    if v.len() == 0 {
        return None;
    }
    let n: usize = v.len() - 1;
    if !(v[n] == 'x' || v[n] == 'X' || v[n] == '×') {
        return None;
    }
    let head = text_of(&v, 0, n);
    assert(head@ =~= t@.drop_last());
    match parse_up_to(head.as_str(), 7) {
        Some(k) => if k >= 1 {
            Some(k as u8)
        } else {
            None
        },
        None => None,
    }
}

/// A copy of a list of weekdays.
fn copy_days(list: &Vec<u8>) -> (r: Vec<u8>)
    ensures
        r@ == list@,
{
    let mut r: Vec<u8> = Vec::new();
    let mut i: usize = 0;
    while i < list.len()
        invariant
            i <= list.len(),
            r@ == list@.take(i as int),
        decreases list.len() - i,
    {
        assert(list@.take(i + 1) =~= list@.take(i as int).push(list@[i as int]));
        r.push(list[i]);
        i += 1;
    }
    assert(list@.take(i as int) =~= list@);
    r
}

/// Reads a rhythm from the arguments from a place on: "weekly", "2x", weekdays on which shifts
/// start, "every 2 weeks". What is not mentioned stays as it is.
pub fn parse_rhythm(current: &Rhythm, args: &Vec<String>, from: usize) -> (r: Result<Rhythm, String>)
    requires
        from <= args@.len(),
    ensures
        (r is Ok) == (rhythm_given(*current, args@.skip(from as int)) is Some),
        r is Ok ==> r->Ok_0.every_weeks == rhythm_given(
            *current,
            args@.skip(from as int),
        )->0.every && r->Ok_0.shift_starts@ == rhythm_given(
            *current,
            args@.skip(from as int),
        )->0.starts,
        r is Err ==> r->Err_0@ == RHYTHM_USAGE@,
{
    let ghost goal = rhythm_given(*current, args@.skip(from as int));
    if args.len() == from {
        return Err(RHYTHM_USAGE.to_owned());
    }
    let mut every: Option<u32> = current.every_weeks;
    let mut starts = copy_days(&current.shift_starts);
    let mut days: bool = false;
    let mut i: usize = from;
    while i < args.len()
        invariant
            i <= args.len(),
            goal == read_rhythm(Reading { every, starts: starts@, days }, args@.skip(i as int)),
            goal == rhythm_given(*current, args@.skip(from as int)),
        decreases args.len() - i,
    {
        let ghost rest = args@.skip(i as int);
        proof {
            assert(rest[0] == args@[i as int]);
            assert(rest.skip(1) =~= args@.skip(i + 1));
        }
        let word = args[i].as_str();
        if is_same_name(word, "weekly") {
            every = Some(1);
            starts = Vec::new();
            days = false;
            i += 1;
        } else if is_same_name(word, "every") {
            if i + 1 >= args.len() {
                return Err(RHYTHM_USAGE.to_owned());
            }
            assert(rest[1] == args@[i + 1]);
            match parse_up_to(args[i + 1].as_str(), u32::MAX as u64) {
                Some(n) if n >= 1 => {
                    every = Some(n as u32);
                    days = false;
                },
                _ => {
                    return Err(RHYTHM_USAGE.to_owned());
                },
            }
            let long: bool = args.len() - i > 2 && (is_same_name(args[i + 2].as_str(), "week")
                || is_same_name(args[i + 2].as_str(), "weeks"));
            proof {
                if rest.len() > 2 {
                    assert(rest[2] == args@[i + 2]);
                    assert(rest.skip(3) =~= args@.skip(i + 3));
                }
                assert(rest.skip(2) =~= args@.skip(i + 2));
            }
            if long {
                i += 3;
            } else {
                i += 2;
            }
        } else {
            match parse_times(word) {
                Some(n) => {
                    if n == 1 {
                        starts = Vec::new();
                    } else {
                        starts = Rhythm::times_per_week(n);
                        assert(starts@ =~= even_starts(n as int));
                    }
                    days = false;
                },
                None => match parse_weekday(word) {
                    Some(d) => {
                        if !days {
                            starts = Vec::new();
                        }
                        let ghost before = starts@;
                        starts.push(d);
                        assert(!days ==> starts@ =~= seq![d]);
                        days = true;
                    },
                    None => {
                        return Err(RHYTHM_USAGE.to_owned());
                    },
                },
            }
            i += 1;
        }
    }
    Ok(Rhythm { every_weeks: every, shift_starts: starts })
}

// ── Changing a rhythm ────────────────────────────────────────────────────────

/// Whether an event gives a group a rhythm.
pub open spec fn sets_rhythm(e: DomainEvent, group: Seq<char>, every: Option<u32>, starts: Seq<u8>) -> bool {
    match e {
        DomainEvent::RhythmSet { group_id, rhythm } => group_id@ == group && rhythm.every_weeks
            == every && rhythm.shift_starts@ == starts,
        _ => false,
    }
}

/// Whether a state became another by a new rhythm of a group.
pub open spec fn rhythm_set(
    pre: State,
    post: State,
    group_id: Seq<char>,
    every: Option<u32>,
    starts: Seq<u8>,
    now: Timestamp,
) -> bool {
    exists|e: DomainEvent| #[trigger]
        sets_rhythm(e, group_id, every, starts) && step(pre, post, e, now)
}

/// An assignment of a group in a week after a given one.
pub open spec fn future_in(group_id: Seq<char>, week: (i32, u32)) -> spec_fn(SlotAssignment) -> bool {
    |a: SlotAssignment| a.group_id@ == group_id && later_week(a.iso_year, a.iso_week, week)
}

/// Whether states lead from one to another when a group gets a rhythm: it is stored (`a`), the
/// assignments after the current week are taken back (`b`), those who had them stand first in the
/// turn order again (`c`), and the plan is made as far as usual.
pub open spec fn changes_by(
    pre: State,
    a: State,
    b: State,
    c: State,
    post: State,
    group_id: Seq<char>,
    every: Option<u32>,
    starts: Seq<u8>,
    req: Request,
) -> bool {
    let week = this_week(req.today);
    &&& rhythm_set(pre, a, group_id, every, starts, req.now)
    &&& b == (State { slot_assignments: b.slot_assignments, ..a })
    &&& b.slot_assignments@ == a.slot_assignments@.filter(not_future_in(group_id, week))
    &&& queue_set(
        b,
        c,
        group_id,
        rewound(
            turn_order(a, a.group(group_id)->0),
            a.slot_assignments@.filter(future_in(group_id, week)),
        ),
        req.now,
    )
    &&& planned_ahead(c, post, req.today, req.usual as int, req.now)
}

/// Whether a state became another when a group got a rhythm.
pub open spec fn rhythm_changed(
    pre: State,
    post: State,
    group_id: Seq<char>,
    every: Option<u32>,
    starts: Seq<u8>,
    req: Request,
) -> bool {
    exists|a: State, b: State, c: State| #[trigger]
        changes_by(pre, a, b, c, post, group_id, every, starts, req)
}

/// What a new rhythm changes besides the plan.
proof fn lemma_rhythm_set(
    pre: State,
    post: State,
    group_id: Seq<char>,
    every: Option<u32>,
    starts: Seq<u8>,
    now: Timestamp,
    today: Date,
)
    requires
        rhythm_set(pre, post, group_id, every, starts, now),
        known(pre, today),
    ensures
        post.slot_assignments == pre.slot_assignments,
        post.group(group_id) is Some,
        known(post, today),
{
    let e = choose|e: DomainEvent| #[trigger]
        sets_rhythm(e, group_id, every, starts) && step(pre, post, e, now);
    let p = group_with_id(group_id);
    let a = pre.cleaning_groups@;
    let b = post.cleaning_groups@;
    lemma_first_index_is(a, p);
    let i = first_index(a, p);
    assert(p(a[i]));
    assert forall|k: int| 0 <= k < i implies !p(#[trigger] b[k]) by {
        assert(!p(a[k]));
    }
    assert(p(b[i]));
    lemma_first_index(b, p, i);
}

/// The assignments of a group after the current week.
fn list_future(state: &State, group_id: &str, today: Date) -> (r: Vec<SlotAssignment>)
    requires
        today.wf(),
    ensures
        r@ == state.slot_assignments@.filter(future_in(group_id@, this_week(today))),
{
    let (year, week) = week_of(today);
    let ghost p = future_in(group_id@, this_week(today));
    let all = &state.slot_assignments;
    let mut r: Vec<SlotAssignment> = Vec::new();
    let mut i: usize = 0;
    assert(all@.take(0).filter(p) =~= Seq::<SlotAssignment>::empty()) by {
        reveal(Seq::filter);
    }
    while i < all.len()
        invariant
            i <= all.len(),
            all == &state.slot_assignments,
            p == future_in(group_id@, (year, week)),
            r@ == all@.take(i as int).filter(p),
        decreases all.len() - i,
    {
        proof {
            lemma_filter_step(all@, p, i as int);
        }
        let a = &all[i];
        if (a.iso_year > year || (a.iso_year == year && a.iso_week > week)) && same_text(
            a.group_id.as_str(),
            group_id,
        ) {
            r.push(copy_assignment(a));
        }
        i += 1;
    }
    assert(all@.take(i as int) =~= all@);
    r
}

/// Gives a group a rhythm. The current week keeps who is assigned; the weeks after it are planned
/// anew, and nobody loses their place in the turn order by that.
fn change_rhythm(state: &mut State, group_id: &GroupId, rhythm: Rhythm, req: &Request)
    requires
        old(state).group(group_id@) is Some,
        known(*old(state), req.today),
    ensures
        rhythm_changed(
            *old(state),
            *final(state),
            group_id@,
            rhythm.every_weeks,
            rhythm.shift_starts@,
            *req,
        ),
{
    let ghost pre = *state;
    let ghost every = rhythm.every_weeks;
    let ghost starts = rhythm.shift_starts@;
    let e = DomainEvent::RhythmSet { group_id: group_id.clone(), rhythm };
    assert(sets_rhythm(e, group_id@, every, starts));
    let done = state.apply_event_at(e, req.now);
    let ghost a = *state;
    proof {
        assert(done is Ok);
        assert(rhythm_set(pre, a, group_id@, every, starts, req.now));
        lemma_rhythm_set(pre, a, group_id@, every, starts, req.now, req.today);
        crate::calendar::lemma_today(req.today.day as int);
    }
    let dropped = list_future(state, group_id.as_str(), req.today);
    let queue = match state.group_by_id(group_id.as_str()) {
        Some(g) => {
            let q = reconcile_queue(state, g);
            rewind_queue(&q, &dropped)
        },
        None => Vec::new(),
    };
    let (year, week) = week_of(req.today);
    let keep = |x: &SlotAssignment| -> (k: bool)
        ensures
            k == (x.group_id@ != group_id@ || !later_week(x.iso_year, x.iso_week, (year, week))),
        {
            !same_text(x.group_id.as_str(), group_id.as_str()) || x.iso_year < year || (x.iso_year
                == year && x.iso_week <= week)
        };
    let ghost p = not_future_in(group_id@, this_week(req.today));
    retain(&mut state.slot_assignments, keep, Ghost(p));
    let ghost b = *state;
    proof {
        lemma_fewer(a, b, p);
        assert(known(a, req.today));
        assert(known(b, req.today));
    }
    let ghost order = queue@;
    let e = DomainEvent::RotationQueueSet { group_id: group_id.clone(), queue };
    assert(stores_queue(e, group_id@, order));
    let queued = state.apply_event_at(e, req.now);
    let ghost c = *state;
    proof {
        assert(queue_set(b, c, group_id@, order, req.now));
        lemma_queue_set(b, c, group_id@, order, req.now);
        lemma_still_known(b, c, req.today);
    }
    let planned = materialize_and_apply(state, req.usual as usize, req.today, req.now);
    assert(changes_by(pre, a, b, c, *state, group_id@, every, starts, *req));
}

/// What `!groups rhythm` does: a group gets the rhythm that is described.
pub open spec fn did_rhythm(
    pre: State,
    post: State,
    r: Result<String, CommandError>,
    req: Request,
    args: Seq<String>,
) -> bool {
    if !req.is_admin {
        answered(pre, post, r, Answer::Fails(CommandError::NotAdmin), req.now)
    } else if !known(pre, req.today) {
        answered(pre, post, r, Answer::Fails(CommandError::OutOfRange), req.now)
    } else if args.len() == 0 {
        says_only(pre, post, r, RHYTHM_USAGE@)
    } else {
        match pre.group_of_name(args[0]@) {
            None => says_only(pre, post, r, no_group_text(args[0]@)),
            Some(g) => match rhythm_given(g.rhythm, args.skip(1)) {
                None => says_only(pre, post, r, RHYTHM_USAGE@),
                Some(x) => {
                    &&& r is Ok
                    &&& exists|rhythm: Rhythm|
                        rhythm.every_weeks == x.every && rhythm.shift_starts@ == x.starts
                            && r->Ok_0@ == "✅ «"@ + args[0]@ + "» is now cleaned "@
                            + #[trigger] rhythm.description()
                            + ". This week stays as planned; later weeks were planned anew."@
                    &&& rhythm_changed(pre, post, g.id@, x.every, x.starts, req)
                },
            },
        }
    }
}

/// Sets how often a group is cleaned.
pub fn cmd_groups_rhythm(state: &mut State, req: &Request, args: &Vec<String>) -> (r: Result<
    String,
    CommandError,
>)
    ensures
        did_rhythm(*old(state), *final(state), r, *req, args@),
{
    if !req.is_admin {
        return Err(CommandError::NotAdmin);
    }
    if !is_known(state, req.today) {
        return Err(CommandError::OutOfRange);
    }
    if args.len() == 0 {
        return Ok(RHYTHM_USAGE.to_owned());
    }
    let group = match state.group_by_name(args[0].as_str()) {
        Some(g) => g,
        None => {
            return Ok(no_group(args[0].as_str()));
        },
    };
    let group_id = group.id.clone();
    let rhythm = match parse_rhythm(&group.rhythm, args, 1) {
        Ok(x) => x,
        Err(t) => {
            return Ok(t);
        },
    };
    proof {
        let p = group_named(args@[0]@);
        lemma_first_index_is(state.cleaning_groups@, p);
        crate::commands::base::lemma_group_known(
            *state,
            first_index(state.cleaning_groups@, p),
        );
    }
    let text = "✅ «".to_owned().concat(args[0].as_str()).concat("» is now cleaned ").concat(
        rhythm.describe().as_str(),
    ).concat(". This week stays as planned; later weeks were planned anew.");
    change_rhythm(state, &group_id, rhythm, req);
    Ok(text)
}

/// Giving a group a rhythm leaves everything alone but that group's turns after the current week:
/// whoever was assigned elsewhere, or up to the current week, still is.
pub proof fn law_rhythm_change_keeps_what_is_not_ahead(
    pre: State,
    post: State,
    group_id: Seq<char>,
    every: Option<u32>,
    starts: Seq<u8>,
    req: Request,
    g: Seq<char>,
    slot: int,
    turn: Turn,
)
    requires
        rhythm_changed(pre, post, group_id, every, starts, req),
        known(pre, req.today),
        pre.assignment(g, slot, turn) is Some,
        g != group_id || !later_week(turn.year, turn.week, this_week(req.today)),
    ensures
        post.assignment(g, slot, turn) == pre.assignment(g, slot, turn),
{
    let (a, b, c) = choose|a: State, b: State, c: State| #[trigger]
        changes_by(pre, a, b, c, post, group_id, every, starts, req);
    let usual = req.usual as int;
    let p = not_future_in(group_id, this_week(req.today));
    lemma_rhythm_set(pre, a, group_id, every, starts, req.now, req.today);
    lemma_find_kept(a.slot_assignments@, p, assignment_of(g, slot, turn));
    lemma_fewer(a, b, p);
    let order = rewound(
        turn_order(a, a.group(group_id)->0),
        a.slot_assignments@.filter(future_in(group_id, this_week(req.today))),
    );
    lemma_queue_set(b, c, group_id, order, req.now);
    lemma_still_known(b, c, req.today);
    lemma_known(c, req.today);
    law_planning_keeps_assignments(c, post, req.today, usual, req.now, g, slot, turn);
}

} // verus!
