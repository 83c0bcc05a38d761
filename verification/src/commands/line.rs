//! How a line of text becomes a command and its arguments.

use vstd::prelude::*;

use crate::domain::CleaningGroup;
use crate::lists::filter_map;
use crate::state::State;
use crate::text::{
    chars_of, find_char, is_same_name, join, join_texts, lowered, parse_up_to, parsed_up_to, put_text,
    put_texts, same_name, same_text, text_of, to_lower, views,
};

verus! {

// ── Words ────────────────────────────────────────────────────────────────────

/// A sign that groups words: a straight or a typographic double quote.
pub open spec fn is_quote(c: char) -> bool {
    c == '"' || c == '“' || c == '”' || c == '„'
}

/// What stands between words.
pub open spec fn is_gap(c: char) -> bool {
    c == ' ' || c == '\t'
}

/// A line read up to some place.
#[verifier::ext_equal]
pub struct Scan {
    /// The words that are complete.
    pub words: Seq<Seq<char>>,
    /// The word that is being read.
    pub word: Seq<char>,
    /// Whether a quote is open.
    pub quoted: bool,
}

/// A line read to its end: gaps outside of quotes end a word, and quotes are left out.
pub open spec fn scan(line: Seq<char>) -> Scan
    decreases line.len(),
{
    if line.len() == 0 {
        Scan { words: Seq::empty(), word: Seq::empty(), quoted: false }
    } else {
        let s = scan(line.drop_last());
        let c = line.last();
        if is_quote(c) {
            Scan { quoted: !s.quoted, ..s }
        } else if is_gap(c) && !s.quoted {
            if s.word.len() > 0 {
                Scan { words: s.words.push(s.word), word: Seq::empty(), ..s }
            } else {
                s
            }
        } else {
            Scan { word: s.word.push(c), ..s }
        }
    }
}

/// The words of a line; what stands in quotes is one word.
pub open spec fn words_of(line: Seq<char>) -> Seq<Seq<char>> {
    let s = scan(line);
    if s.word.len() > 0 {
        s.words.push(s.word)
    } else {
        s.words
    }
}

/// The text of characters.
fn text_of_all(v: &Vec<char>) -> (r: String)
    ensures
        r@ == v@,
{
    assert(v@.subrange(0, v@.len() as int) =~= v@);
    let n = v.len();
    text_of(v, 0, n)
}

/// Splits a line into words. Gaps outside of double quotes, straight or typographic ones, end a
/// word; quotes are left out, and an apostrophe is a letter.
pub fn tokenize(line: &str) -> (r: Vec<String>)
    ensures
        views(r@) == words_of(line@),
{
    let v = chars_of(line);
    let mut words: Vec<String> = Vec::new();
    let mut word: Vec<char> = Vec::new();
    let mut quoted = false;
    let mut i: usize = 0;
    proof {
        assert(views(words@) =~= Seq::<Seq<char>>::empty());
        assert(v@.take(0) =~= Seq::<char>::empty());
    }
    while i < v.len()
        invariant
            i <= v.len(),
            scan(v@.take(i as int)) == (Scan { words: views(words@), word: word@, quoted }),
        decreases v.len() - i,
    {
        let c = v[i];
        proof {
            assert(v@.take(i + 1).drop_last() =~= v@.take(i as int));
            assert(v@.take(i + 1).last() == c);
        }
        if c == '"' || c == '“' || c == '”' || c == '„' {
            quoted = !quoted;
        } else if (c == ' ' || c == '\t') && !quoted {
            if word.len() > 0 {
                put_text(&mut words, text_of_all(&word));
                word = Vec::new();
            }
        } else {
            word.push(c);
        }
        i += 1;
    }
    assert(v@.take(i as int) =~= line@);
    if word.len() > 0 {
        put_text(&mut words, text_of_all(&word));
    }
    words
}

/// A word of a line is not empty and holds no quotes.
pub open spec fn is_word(w: Seq<char>) -> bool {
    w.len() > 0 && forall|i: int| 0 <= i < w.len() ==> !is_quote(#[trigger] w[i])
}

/// The words of a scanned line are not empty and hold no quotes.
proof fn lemma_scan(line: Seq<char>)
    ensures
        forall|i: int| 0 <= i < scan(line).words.len() ==> is_word(#[trigger] scan(line).words[i]),
        forall|i: int| 0 <= i < scan(line).word.len() ==> !is_quote(#[trigger] scan(line).word[i]),
    decreases line.len(),
{
    if line.len() > 0 {
        lemma_scan(line.drop_last());
        let s = scan(line.drop_last());
        let t = scan(line);
        assert forall|i: int| 0 <= i < t.words.len() implies is_word(#[trigger] t.words[i]) by {
            if i < s.words.len() {
                assert(t.words[i] == s.words[i]);
            } else {
                assert(t.words[i] == s.word);
            }
        }
        assert forall|i: int| 0 <= i < t.word.len() implies !is_quote(#[trigger] t.word[i]) by {
            if i < s.word.len() {
                assert(t.word[i] == s.word[i]);
            }
        }
    }
}

/// No argument is empty, and none holds a quote.
pub proof fn law_words_are_not_empty_and_hold_no_quotes(line: Seq<char>)
    ensures
        forall|i: int| 0 <= i < words_of(line).len() ==> is_word(#[trigger] words_of(line)[i]),
{
    lemma_scan(line);
}

/// A line without gaps and quotes is one word.
proof fn lemma_scan_plain(w: Seq<char>)
    requires
        forall|i: int| 0 <= i < w.len() ==> !is_quote(#[trigger] w[i]) && !is_gap(w[i]),
    ensures
        scan(w) == (Scan { words: Seq::empty(), word: w, quoted: false }),
    decreases w.len(),
{
    if w.len() > 0 {
        assert forall|i: int| 0 <= i < w.drop_last().len() implies !is_quote(
            #[trigger] w.drop_last()[i],
        ) && !is_gap(w.drop_last()[i]) by {
            assert(w.drop_last()[i] == w[i]);
        }
        lemma_scan_plain(w.drop_last());
        assert(w.drop_last().push(w.last()) =~= w);
    } else {
        assert(w =~= Seq::empty());
    }
}

/// A line read on within open quotes takes in what has no quotes as it is.
proof fn lemma_scan_quoted(start: Seq<char>, w: Seq<char>)
    requires
        scan(start).quoted,
        forall|i: int| 0 <= i < w.len() ==> !is_quote(#[trigger] w[i]),
    ensures
        scan(start + w) == (Scan { word: scan(start).word + w, ..scan(start) }),
    decreases w.len(),
{
    if w.len() > 0 {
        let f = w.drop_last();
        assert forall|i: int| 0 <= i < f.len() implies !is_quote(#[trigger] f[i]) by {
            assert(f[i] == w[i]);
        }
        lemma_scan_quoted(start, f);
        assert((start + w).drop_last() =~= start + f);
        assert((start + w).last() == w.last());
        assert((scan(start).word + f).push(w.last()) =~= scan(start).word + w);
    } else {
        assert(start + w =~= start);
        assert(scan(start).word + w =~= scan(start).word);
    }
}

/// Anything in quotes that holds no quotes itself, gaps and apostrophes included, is one argument.
pub proof fn law_quoted_text_is_one_word(w: Seq<char>, open: char, close: char)
    requires
        w.len() > 0,
        forall|i: int| 0 <= i < w.len() ==> !is_quote(#[trigger] w[i]),
        is_quote(open),
        is_quote(close),
    ensures
        words_of(seq![open] + w + seq![close]) == seq![w],
{
    let start = seq![open];
    assert(start.drop_last() =~= Seq::<char>::empty());
    reveal_with_fuel(scan, 2);
    assert(scan(start).quoted);
    assert(scan(start).word =~= Seq::<char>::empty());
    lemma_scan_quoted(start, w);
    let line = start + w + seq![close];
    assert(line.drop_last() =~= start + w);
    assert(line.last() == close);
    assert(scan(line).word =~= w);
    assert(scan(line).words =~= Seq::<Seq<char>>::empty());
    assert(words_of(line) =~= seq![w]);
}

/// A word without quotes and gaps is an argument as it is.
pub proof fn law_plain_word_is_one_word(w: Seq<char>)
    requires
        w.len() > 0,
        forall|i: int| 0 <= i < w.len() ==> !is_quote(#[trigger] w[i]) && !is_gap(w[i]),
    ensures
        words_of(w) == seq![w],
{
    lemma_scan_plain(w);
    assert(words_of(w) =~= seq![w]);
}

// ── Arguments ────────────────────────────────────────────────────────────────

/// Arguments as one, when there are any.
pub open spec fn joined(args: Seq<Seq<char>>) -> Seq<Seq<char>> {
    if args.len() == 0 {
        Seq::empty()
    } else {
        seq![join(args, " "@)]
    }
}

/// The group that the first arguments name together.
pub open spec fn group_of_first(state: State, args: Seq<Seq<char>>, n: int) -> Option<CleaningGroup> {
    state.group_of_name(join(args.take(n), " "@))
}

/// How many of the first arguments, at most `n` and at least two, name a group together; none
/// when no number of them does.
pub open spec fn longest_name(state: State, args: Seq<Seq<char>>, n: int) -> int
    decreases n,
{
    if n < 2 {
        0
    } else if group_of_first(state, args, n) is Some {
        n
    } else {
        longest_name(state, args, n - 1)
    }
}

/// Arguments with the longest run at their start that names a group as one, leaving at least
/// `min_rest` after it.
pub open spec fn group_first(state: State, args: Seq<Seq<char>>, min_rest: int) -> Seq<Seq<char>> {
    let n = longest_name(state, args, args.len() - min_rest);
    if n == 0 {
        args
    } else {
        seq![group_of_first(state, args, n)->0.name@] + args.skip(n)
    }
}

/// The group that the arguments from a place on name together.
pub open spec fn group_of_last(state: State, args: Seq<Seq<char>>, from: int) -> Option<CleaningGroup> {
    state.group_of_name(join(args.skip(from), " "@))
}

/// The first place from which on the arguments name a group together.
pub open spec fn longest_end(state: State, args: Seq<Seq<char>>, from: int) -> int
    decreases args.len() - from,
{
    if from >= args.len() || group_of_last(state, args, from) is Some {
        from
    } else {
        longest_end(state, args, from + 1)
    }
}

/// Arguments with the longest run at their end that names a group as one, and all before it as
/// the name of a person.
pub open spec fn person_then_group(state: State, args: Seq<Seq<char>>) -> Seq<Seq<char>> {
    let at = longest_end(state, args, 1);
    if at >= args.len() {
        args
    } else {
        seq![join(args.take(at), " "@), group_of_last(state, args, at)->0.name@]
    }
}

/// Arguments with a number at their end apart, and all before it as the name of a person.
pub open spec fn person_then_number(args: Seq<Seq<char>>) -> Seq<Seq<char>> {
    if args.len() >= 2 && parsed_up_to(args.last(), u32::MAX as nat) is Some {
        seq![join(args.drop_last(), " "@), args.last()]
    } else {
        joined(args)
    }
}

/// Whether a text is one of two.
pub open spec fn either(t: Seq<char>, a: Seq<char>, b: Seq<char>) -> bool {
    t == a || t == b
}

/// The arguments of `!groups`.
pub open spec fn groups_args(state: State, args: Seq<Seq<char>>) -> Seq<Seq<char>> {
    let sub = lowered(args[0]);
    let first = seq![args[0]];
    let rest = args.skip(1);
    if sub == "remove"@ {
        if rest.len() >= 2 && same_name(rest.last(), "confirm"@) {
            first + joined(rest.drop_last()) + seq![rest.last()]
        } else {
            first + joined(rest)
        }
    } else if sub == "add"@ || either(sub, "enable"@, "disable"@) {
        first + joined(rest)
    } else if sub == "slot"@ && rest.len() > 0 {
        let tail = group_first(state, rest.skip(1), 1);
        first + seq![rest[0]] + tail.take(if tail.len() > 0 {
            1
        } else {
            0
        }) + joined(
            tail.skip(
                if tail.len() > 0 {
                    1
                } else {
                    0
                },
            ),
        )
    } else if sub == "room"@ && rest.len() > 0 {
        first + seq![rest[0]] + group_first(state, rest.skip(1), 1)
    } else if sub == "weight"@ {
        if rest.len() >= 2 {
            let head = group_first(state, rest.drop_last(), 0);
            first + seq![head[0]] + joined(head.skip(1)) + seq![rest.last()]
        } else {
            args
        }
    } else {
        joined(args)
    }
}

/// The arguments of `!plan`.
pub open spec fn plan_args(state: State, args: Seq<Seq<char>>) -> Seq<Seq<char>> {
    let sub = lowered(args[0]);
    let first = seq![args[0]];
    let rest = args.skip(1);
    if sub == "skip"@ || either(sub, "assign"@, "unassign"@) {
        first + group_first(state, rest, 0)
    } else if either(sub, "remind"@, "reset"@) {
        first + joined(rest)
    } else {
        args
    }
}

/// The arguments of `!member`.
pub open spec fn member_args(state: State, args: Seq<Seq<char>>) -> Seq<Seq<char>> {
    let sub = lowered(args[0]);
    let first = seq![args[0]];
    let rest = args.skip(1);
    if either(sub, "add"@, "remove"@) {
        first + person_then_group(state, rest)
    } else if sub == "away"@ {
        first + person_then_number(rest)
    } else if sub == "back"@ {
        first + joined(rest)
    } else if sub == "link"@ && rest.len() >= 2 {
        first + seq![join(rest.drop_last(), " "@), rest.last()]
    } else {
        args
    }
}

/// The arguments of a command, regrouped so that each name of several words is one.
pub open spec fn normalized(state: State, cmd: Seq<char>, args: Seq<Seq<char>>) -> Seq<Seq<char>> {
    if either(cmd, "!done"@, "!undo"@) || cmd == "!next"@ || either(cmd, "!join"@, "!leave"@) {
        joined(args)
    } else if cmd == "!takeover"@ {
        group_first(state, args, 0)
    } else if args.len() == 0 {
        args
    } else if cmd == "!swap"@ {
        if either(lowered(args[0]), "accept"@, "reject"@) {
            args
        } else {
            seq![args[0]] + group_first(state, args.skip(1), 0)
        }
    } else if cmd == "!stats"@ {
        if lowered(args[0]) == "fairness"@ {
            seq![args[0]] + joined(args.skip(1))
        } else {
            joined(args)
        }
    } else if cmd == "!ical"@ {
        if lowered(args[0]) == "reset"@ {
            seq![args[0]] + joined(args.skip(1))
        } else {
            person_then_number(args)
        }
    } else if cmd == "!groups"@ {
        groups_args(state, args)
    } else if cmd == "!plan"@ {
        plan_args(state, args)
    } else if cmd == "!member"@ {
        member_args(state, args)
    } else {
        args
    }
}

/// The texts of a list from one place up to another.
pub fn part(args: &Vec<String>, from: usize, to: usize) -> (r: Vec<String>)
    requires
        from <= to <= args@.len(),
    ensures
        views(r@) == views(args@).subrange(from as int, to as int),
{
    let ghost all = views(args@).subrange(from as int, to as int);
    let mut r: Vec<String> = Vec::new();
    let mut i: usize = from;
    assert(views(r@) =~= all.take(0));
    while i < to
        invariant
            from <= i <= to <= args@.len(),
            all == views(args@).subrange(from as int, to as int),
            views(r@) == all.take(i - from),
        decreases to - i,
    {
        assert(all.take(i + 1 - from) =~= all.take(i - from).push(args@[i as int]@));
        put_text(&mut r, args[i].clone());
        i += 1;
    }
    assert(all.take(i - from) =~= all);
    r
}

/// Arguments as one, when there are any.
fn as_one(args: &Vec<String>) -> (r: Vec<String>)
    ensures
        views(r@) == joined(views(args@)),
{
    let mut r: Vec<String> = Vec::new();
    assert(views(r@) =~= Seq::<Seq<char>>::empty());
    if args.len() > 0 {
        put_text(&mut r, join_texts(args, " "));
    }
    assert(views(args@).len() == args@.len());
    assert(views(r@) =~= joined(views(args@)));
    r
}

/// Arguments with the longest run at their start that names a group as one.
fn name_group_first(state: &State, args: &Vec<String>, min_rest: usize) -> (r: Vec<String>)
    ensures
        views(r@) == group_first(*state, views(args@), min_rest as int),
{
    let ghost all = views(args@);
    assert(all.len() == args@.len());
    if args.len() < min_rest {
        return part(args, 0, args.len());
    }
    let mut n: usize = args.len() - min_rest;
    assert(all.subrange(0, all.len() as int) =~= all);
    while n >= 2
        invariant
            n <= args@.len(),
            all == views(args@),
            all.len() == args@.len(),
            longest_name(*state, all, n as int) == longest_name(
                *state,
                all,
                args@.len() - min_rest,
            ),
        decreases n,
    {
        let head = part(args, 0, n);
        assert(all.subrange(0, n as int) =~= all.take(n as int));
        match state.group_by_name(join_texts(&head, " ").as_str()) {
            Some(g) => {
                let mut r: Vec<String> = Vec::new();
                assert(views(r@) =~= Seq::<Seq<char>>::empty());
                put_text(&mut r, g.name.clone());
                let tail = part(args, n, args.len());
                put_texts(&mut r, &tail);
                proof {
                    assert(all.subrange(n as int, all.len() as int) =~= all.skip(n as int));
                    assert(views(r@) =~= group_first(*state, all, min_rest as int));
                }
                return r;
            },
            None => {},
        }
        n -= 1;
    }
    part(args, 0, args.len())
}

/// Arguments with the longest run at their end that names a group as one, and all before it as
/// the name of a person.
fn name_person_then_group(state: &State, args: &Vec<String>) -> (r: Vec<String>)
    ensures
        views(r@) == person_then_group(*state, views(args@)),
{
    let ghost all = views(args@);
    let mut at: usize = 1;
    assert(all.len() == args@.len());
    assert(all.subrange(0, all.len() as int) =~= all);
    while at < args.len()
        invariant
            1 <= at,
            all == views(args@),
            all.len() == args@.len(),
            longest_end(*state, all, at as int) == longest_end(*state, all, 1),
        decreases args.len() - at,
    {
        let tail = part(args, at, args.len());
        assert(all.subrange(at as int, all.len() as int) =~= all.skip(at as int));
        match state.group_by_name(join_texts(&tail, " ").as_str()) {
            Some(g) => {
                let head = part(args, 0, at);
                let mut r: Vec<String> = Vec::new();
                assert(views(r@) =~= Seq::<Seq<char>>::empty());
                put_text(&mut r, join_texts(&head, " "));
                put_text(&mut r, g.name.clone());
                proof {
                    assert(all.subrange(0, at as int) =~= all.take(at as int));
                    assert(views(r@) =~= person_then_group(*state, all));
                }
                return r;
            },
            None => {},
        }
        at += 1;
    }
    part(args, 0, args.len())
}

/// Arguments with the last one apart, and all before it as one.
fn all_but_last(args: &Vec<String>) -> (r: Vec<String>)
    requires
        args@.len() >= 2,
    ensures
        views(r@) == seq![join(views(args@).drop_last(), " "@), views(args@).last()],
{
    let head = part(args, 0, args.len() - 1);
    let mut r: Vec<String> = Vec::new();
    assert(views(r@) =~= Seq::<Seq<char>>::empty());
    put_text(&mut r, join_texts(&head, " "));
    put_text(&mut r, args[args.len() - 1].clone());
    assert(views(args@).subrange(0, args@.len() - 1) =~= views(args@).drop_last());
    assert(views(r@) =~= seq![join(views(args@).drop_last(), " "@), views(args@).last()]);
    r
}

/// Arguments with a number at their end apart, and all before it as the name of a person.
fn name_person_then_number(args: &Vec<String>) -> (r: Vec<String>)
    ensures
        views(r@) == person_then_number(views(args@)),
{
    assert(views(args@).len() == args@.len());
    if args.len() >= 2 && parse_up_to(
        args[args.len() - 1].as_str(),
        u32::MAX as u64,
    ).is_some() {
        all_but_last(args)
    } else {
        as_one(args)
    }
}

/// The first argument with others behind it.
fn behind(first: &String, rest: &Vec<String>) -> (r: Vec<String>)
    ensures
        views(r@) == seq![first@] + views(rest@),
{
    let mut r: Vec<String> = Vec::new();
    assert(views(r@) =~= Seq::<Seq<char>>::empty());
    put_text(&mut r, first.clone());
    assert(views(r@) =~= seq![first@]);
    put_texts(&mut r, rest);
    r
}

/// Whether a text is one of two.
fn is_either(t: &str, a: &str, b: &str) -> (r: bool)
    ensures
        r == either(t@, a@, b@),
{
    same_text(t, a) || same_text(t, b)
}

/// Regroups the arguments of `!groups`.
fn regroup_groups(state: &State, args: &Vec<String>) -> (r: Vec<String>)
    requires
        args@.len() > 0,
    ensures
        views(r@) == groups_args(*state, views(args@)),
{
    let lower = to_lower(args[0].as_str());
    let sub = lower.as_str();
    let first = &args[0];
    let rest = part(args, 1, args.len());
    let ghost all = views(args@);
    let ghost tail = views(rest@);
    proof {
        assert(all.len() == args@.len());
        assert(tail.len() == rest@.len());
        assert(all.subrange(1, all.len() as int) =~= all.skip(1));
        assert(all.subrange(0, all.len() as int) =~= all);
    }
    if same_text(sub, "remove") {
        if rest.len() >= 2 && is_same_name(rest[rest.len() - 1].as_str(), "confirm") {
            let name = as_one(&part(&rest, 0, rest.len() - 1));
            assert(tail.subrange(0, tail.len() - 1) =~= tail.drop_last());
            let mut r = behind(first, &name);
            put_text(&mut r, rest[rest.len() - 1].clone());
            assert(views(r@) =~= groups_args(*state, all));
            return r;
        }
        return behind(first, &as_one(&rest));
    }
    if same_text(sub, "add") || is_either(sub, "enable", "disable") {
        return behind(first, &as_one(&rest));
    }
    if same_text(sub, "slot") && rest.len() > 0 {
        let more = part(&rest, 1, rest.len());
        assert(tail.subrange(1, tail.len() as int) =~= tail.skip(1));
        let named = name_group_first(state, &more, 1);
        let ghost n = views(named@);
        assert(n.len() == named@.len());
        let k: usize = if named.len() > 0 {
            1
        } else {
            0
        };
        let group = part(&named, 0, k);
        let slot = as_one(&part(&named, k, named.len()));
        proof {
            assert(n.subrange(0, k as int) =~= n.take(k as int));
            assert(n.subrange(k as int, n.len() as int) =~= n.skip(k as int));
        }
        let mut r = behind(first, &Vec::new());
        assert(views(r@) =~= seq![first@]);
        put_text(&mut r, rest[0].clone());
        put_texts(&mut r, &group);
        put_texts(&mut r, &slot);
        assert(views(r@) =~= groups_args(*state, all));
        return r;
    }
    if same_text(sub, "room") && rest.len() > 0 {
        let more = part(&rest, 1, rest.len());
        assert(tail.subrange(1, tail.len() as int) =~= tail.skip(1));
        let named = name_group_first(state, &more, 1);
        let mut r = behind(first, &Vec::new());
        assert(views(r@) =~= seq![first@]);
        put_text(&mut r, rest[0].clone());
        put_texts(&mut r, &named);
        assert(views(r@) =~= groups_args(*state, all));
        return r;
    }
    if same_text(sub, "weight") {
        if rest.len() < 2 {
            return part(args, 0, args.len());
        }
        let named = name_group_first(state, &part(&rest, 0, rest.len() - 1), 0);
        let ghost n = views(named@);
        proof {
            assert(tail.subrange(0, tail.len() - 1) =~= tail.drop_last());
            assert(n.len() == named@.len());
            lemma_group_first_keeps(*state, tail.drop_last(), 0);
            assert(n.subrange(1, n.len() as int) =~= n.skip(1));
        }
        let room = as_one(&part(&named, 1, named.len()));
        let mut r = behind(first, &Vec::new());
        assert(views(r@) =~= seq![first@]);
        put_text(&mut r, named[0].clone());
        put_texts(&mut r, &room);
        put_text(&mut r, rest[rest.len() - 1].clone());
        assert(views(r@) =~= groups_args(*state, all));
        return r;
    }
    as_one(args)
}

/// Naming a group leaves at least one argument of several.
proof fn lemma_group_first_keeps(state: State, args: Seq<Seq<char>>, min_rest: int)
    requires
        args.len() > 0,
        min_rest >= 0,
    ensures
        group_first(state, args, min_rest).len() > 0,
{
    lemma_longest_name(state, args, args.len() - min_rest);
}

/// The number of arguments that name a group is within bounds.
proof fn lemma_longest_name(state: State, args: Seq<Seq<char>>, n: int)
    ensures
        longest_name(state, args, n) == 0 || 2 <= longest_name(state, args, n) <= n,
    decreases n,
{
    if n >= 2 {
        lemma_longest_name(state, args, n - 1);
    }
}

/// Regroups the arguments of `!plan`.
fn regroup_plan(state: &State, args: &Vec<String>) -> (r: Vec<String>)
    requires
        args@.len() > 0,
    ensures
        views(r@) == plan_args(*state, views(args@)),
{
    let lower = to_lower(args[0].as_str());
    let sub = lower.as_str();
    let rest = part(args, 1, args.len());
    proof {
        assert(views(args@).subrange(1, args@.len() as int) =~= views(args@).skip(1));
        assert(views(args@).subrange(0, args@.len() as int) =~= views(args@));
    }
    if same_text(sub, "skip") || is_either(sub, "assign", "unassign") {
        behind(&args[0], &name_group_first(state, &rest, 0))
    } else if is_either(sub, "remind", "reset") {
        behind(&args[0], &as_one(&rest))
    } else {
        part(args, 0, args.len())
    }
}

/// Regroups the arguments of `!member`.
fn regroup_member(state: &State, args: &Vec<String>) -> (r: Vec<String>)
    requires
        args@.len() > 0,
    ensures
        views(r@) == member_args(*state, views(args@)),
{
    let lower = to_lower(args[0].as_str());
    let sub = lower.as_str();
    let rest = part(args, 1, args.len());
    proof {
        assert(views(args@).subrange(1, args@.len() as int) =~= views(args@).skip(1));
        assert(views(args@).subrange(0, args@.len() as int) =~= views(args@));
        assert(views(rest@).len() == rest@.len());
    }
    if is_either(sub, "add", "remove") {
        behind(&args[0], &name_person_then_group(state, &rest))
    } else if same_text(sub, "away") {
        behind(&args[0], &name_person_then_number(&rest))
    } else if same_text(sub, "back") {
        behind(&args[0], &as_one(&rest))
    } else if same_text(sub, "link") && rest.len() >= 2 {
        behind(&args[0], &all_but_last(&rest))
    } else {
        part(args, 0, args.len())
    }
}

/// Regroups the arguments of a command so that names of several words need no quotes.
pub fn normalize_args(state: &State, cmd: &str, args: &Vec<String>) -> (r: Vec<String>)
    ensures
        views(r@) == normalized(*state, cmd@, views(args@)),
{
    proof {
        assert(views(args@).len() == args@.len());
        assert(views(args@).subrange(0, args@.len() as int) =~= views(args@));
    }
    if is_either(cmd, "!done", "!undo") || same_text(cmd, "!next") || is_either(
        cmd,
        "!join",
        "!leave",
    ) {
        return as_one(args);
    }
    if same_text(cmd, "!takeover") {
        return name_group_first(state, args, 0);
    }
    if args.len() == 0 {
        return part(args, 0, 0);
    }
    let lower = to_lower(args[0].as_str());
    let sub = lower.as_str();
    let rest = part(args, 1, args.len());
    assert(views(args@).subrange(1, args@.len() as int) =~= views(args@).skip(1));
    if same_text(cmd, "!swap") {
        if is_either(sub, "accept", "reject") {
            part(args, 0, args.len())
        } else {
            behind(&args[0], &name_group_first(state, &rest, 0))
        }
    } else if same_text(cmd, "!stats") {
        if same_text(sub, "fairness") {
            behind(&args[0], &as_one(&rest))
        } else {
            as_one(args)
        }
    } else if same_text(cmd, "!ical") {
        if same_text(sub, "reset") {
            behind(&args[0], &as_one(&rest))
        } else {
            name_person_then_number(args)
        }
    } else if same_text(cmd, "!groups") {
        regroup_groups(state, args)
    } else if same_text(cmd, "!plan") {
        regroup_plan(state, args)
    } else if same_text(cmd, "!member") {
        regroup_member(state, args)
    } else {
        part(args, 0, args.len())
    }
}

/// A single argument stays as it is, whatever the command: a name in quotes is not taken apart.
pub proof fn law_single_argument_stays(state: State, cmd: Seq<char>, w: Seq<char>)
    ensures
        normalized(state, cmd, seq![w]) == seq![w],
{
    let args = seq![w];
    let none = Seq::<Seq<char>>::empty();
    assert(args.skip(1) =~= none);
    assert(args.drop_last() =~= none);
    assert(joined(args) =~= args) by {
        crate::text::lemma_join_push(none, w, " "@);
        assert(none.push(w) =~= args);
    }
    assert(seq![w] + none =~= args);
}

// ── Messages ─────────────────────────────────────────────────────────────────

/// Whether a character is white space, as `char::is_whitespace` says.
pub uninterp spec fn whitespace(c: char) -> bool;

/// `char::is_whitespace`: whether a character is white space of any script. Which characters
/// those are is not stated.
#[verifier::external_body]
fn is_whitespace(c: char) -> (r: bool)
    ensures
        r == whitespace(c),
{
    c.is_whitespace()
}

/// A text without white space at its ends.
pub open spec fn trimmed(t: Seq<char>) -> Seq<char>
    decreases t.len(),
{
    if t.len() > 0 && whitespace(t[0]) {
        trimmed(t.skip(1))
    } else if t.len() > 0 && whitespace(t.last()) {
        trimmed(t.drop_last())
    } else {
        t
    }
}

/// The lines of a text.
pub open spec fn lines_of(t: Seq<char>) -> Seq<Seq<char>>
    decreases t.len(),
{
    if t.len() == 0 {
        seq![Seq::empty()]
    } else {
        let r = lines_of(t.drop_last());
        if t.last() == '\n' {
            r.push(Seq::empty())
        } else {
            r.update(r.len() - 1, r.last().push(t.last()))
        }
    }
}

/// A line that calls a command, without white space at its ends.
pub open spec fn command_in() -> spec_fn(Seq<char>) -> Option<Seq<char>> {
    |line: Seq<char>|
        {
            let t = trimmed(line);
            if t.len() > 0 && t[0] == '!' {
                Some(t)
            } else {
                None
            }
        }
}

/// The lines of a message that call commands.
pub open spec fn commands_in(body: Seq<char>) -> Seq<Seq<char>> {
    filter_map(lines_of(body), command_in())
}

/// A part of a list of characters without white space at its ends.
fn trim_part(v: &Vec<char>, from: usize, to: usize) -> (r: (usize, usize))
    requires
        from <= to <= v@.len(),
    ensures
        from <= r.0 <= r.1 <= to,
        v@.subrange(r.0 as int, r.1 as int) == trimmed(v@.subrange(from as int, to as int)),
{
    let ghost goal = trimmed(v@.subrange(from as int, to as int));
    let mut a: usize = from;
    let mut b: usize = to;
    while a < b && is_whitespace(v[a])
        invariant
            from <= a <= b,
            b == to,
            to <= v@.len(),
            trimmed(v@.subrange(a as int, b as int)) == goal,
        ensures
            from <= a <= b,
            b == to,
            trimmed(v@.subrange(a as int, b as int)) == goal,
            a < b ==> !whitespace(v@[a as int]),
        decreases b - a,
    {
        assert(v@.subrange(a as int, b as int).skip(1) =~= v@.subrange(a + 1, b as int));
        a += 1;
    }
    while a < b && is_whitespace(v[b - 1])
        invariant
            from <= a <= b <= to,
            to <= v@.len(),
            trimmed(v@.subrange(a as int, b as int)) == goal,
            a < b ==> !whitespace(v@[a as int]),
        ensures
            from <= a <= b <= to,
            trimmed(v@.subrange(a as int, b as int)) == goal,
            a < b ==> !whitespace(v@[a as int]),
            a < b ==> !whitespace(v@[b - 1]),
        decreases b - a,
    {
        assert(v@.subrange(a as int, b as int).drop_last() =~= v@.subrange(a as int, b - 1));
        b -= 1;
    }
    assert(v@.subrange(a as int, b as int) == goal);
    (a, b)
}

/// Reading on from a place, the current line grows until it ends.
proof fn lemma_lines(t: Seq<char>, from: int, to: int)
    requires
        0 <= from <= to <= t.len(),
        from == 0 || t[from - 1] == '\n',
        forall|k: int| from <= k < to ==> t[k] != '\n',
    ensures
        lines_of(t.take(to)).len() > 0,
        lines_of(t.take(to)).last() == t.subrange(from, to),
        lines_of(t.take(to)).drop_last() == if from == 0 {
            Seq::<Seq<char>>::empty()
        } else {
            lines_of(t.take(from - 1))
        },
    decreases to,
{
    let part = t.take(to);
    if to == 0 {
        assert(part =~= Seq::empty());
        assert(t.subrange(0, 0) =~= Seq::<char>::empty());
        assert(lines_of(part).drop_last() =~= Seq::<Seq<char>>::empty());
    } else {
        assert(part.drop_last() =~= t.take(to - 1));
        if from == to {
            assert(lines_of(part).drop_last() =~= lines_of(t.take(from - 1)));
            assert(t.subrange(from, to) =~= Seq::<char>::empty());
        } else {
            lemma_lines(t, from, to - 1);
            let r = lines_of(t.take(to - 1));
            assert(lines_of(part) =~= r.update(r.len() - 1, r.last().push(t[to - 1])));
            assert(t.subrange(from, to - 1).push(t[to - 1]) =~= t.subrange(from, to));
            assert(lines_of(part).drop_last() =~= r.drop_last());
        }
    }
}

/// The lines of a message that call commands, without white space at their ends.
pub fn command_lines(body: &str) -> (r: Vec<String>)
    ensures
        views(r@) == commands_in(body@),
{
    let v = chars_of(body);
    let mut r: Vec<String> = Vec::new();
    let mut from: usize = 0;
    let ghost mut before: Seq<Seq<char>> = Seq::empty();
    proof {
        assert(views(r@) =~= Seq::<Seq<char>>::empty());
    }
    loop
        invariant_except_break
            from <= v@.len(),
            v@ == body@,
            from == 0 || v@[from - 1] == '\n',
            before == (if from == 0 {
                Seq::<Seq<char>>::empty()
            } else {
                lines_of(v@.take(from - 1))
            }),
            views(r@) == filter_map(before, command_in()),
        ensures
            views(r@) == commands_in(body@),
        decreases v@.len() + 1 - from,
    {
        let to = find_char(&v, from, '\n');
        let ghost line = v@.subrange(from as int, to as int);
        let (a, b) = trim_part(&v, from, to);
        proof {
            lemma_lines(v@, from as int, to as int);
            let all = lines_of(v@.take(to as int));
            assert(all =~= before.push(line));
            assert(before.push(line).drop_last() =~= before);
        }
        if a < b && v[a] == '!' {
            put_text(&mut r, text_of(&v, a, b));
        }
        proof {
            before = before.push(line);
        }
        if to == v.len() {
            assert(v@.take(to as int) =~= body@);
            break;
        }
        from = to + 1;
    }
    r
}

} // verus!
