//! Text as a sequence of characters: numbers, joining, matching and splitting.

use vstd::prelude::*;

verus! {

/// `String::push` of the standard library appends one character to the end.
pub assume_specification[ String::push ](s: &mut String, c: char)
    ensures
        final(s)@ == old(s)@.push(c),
;

// ── Sequences of texts ───────────────────────────────────────────────────────

/// What each string of a list says.
pub open spec fn views(s: Seq<String>) -> Seq<Seq<char>> {
    s.map_values(|t: String| t@)
}

/// Whether one of the strings of a list says `t`.
pub open spec fn says(s: Seq<String>, t: Seq<char>) -> bool {
    exists|i: int| 0 <= i < s.len() && (#[trigger] s[i])@ == t
}

/// Whether `list` holds a string that says what `t` says.
pub fn contains_text(list: &Vec<String>, t: &str) -> (r: bool)
    ensures
        r == says(list@, t@),
{
    let mut i: usize = 0;
    while i < list.len()
        invariant
            i <= list.len(),
            forall|k: int| 0 <= k < i ==> (#[trigger] list@[k])@ != t@,
        decreases list.len() - i,
    {
        if same_text(list[i].as_str(), t) {
            return true;
        }
        i += 1;
    }
    false
}

/// Whether two strings say the same.
pub fn same_text(a: &str, b: &str) -> (r: bool)
    ensures
        r == (a@ == b@),
{
    let x: String = a.to_owned();
    let y: String = b.to_owned();
    x == y
}

/// Whether an optional string is there and says `t`.
pub fn option_is(o: &Option<String>, t: &str) -> (r: bool)
    ensures
        r == (o is Some && o->0@ == t@),
{
    match o {
        Some(s) => same_text(s.as_str(), t),
        None => false,
    }
}

/// A copy of a list of strings.
pub fn copy_texts(list: &Vec<String>) -> (r: Vec<String>)
    ensures
        r@ == list@,
{
    let r = list.clone();
    assert(r@ =~= list@);
    r
}

/// The texts one after another, with `sep` between two of them.
pub open spec fn join(parts: Seq<Seq<char>>, sep: Seq<char>) -> Seq<char>
    decreases parts.len(),
{
    if parts.len() == 0 {
        Seq::empty()
    } else if parts.len() == 1 {
        parts[0]
    } else {
        join(parts.drop_last(), sep) + sep + parts.last()
    }
}

/// Joins strings with `sep` between two of them.
pub fn join_texts(parts: &Vec<String>, sep: &str) -> (r: String)
    ensures
        r@ == join(views(parts@), sep@),
{
    if parts.len() == 0 {
        return String::new();
    }
    let mut r: String = parts[0].clone();
    let mut i: usize = 1;
    assert(views(parts@).take(1) =~= seq![parts@[0]@]);
    while i < parts.len()
        invariant
            1 <= i <= parts.len(),
            r@ == join(views(parts@).take(i as int), sep@),
        decreases parts.len() - i,
    {
        proof {
            let more = views(parts@).take(i + 1);
            assert(more.drop_last() =~= views(parts@).take(i as int));
            assert(more.last() == parts@[i as int]@);
        }
        r.append(sep);
        r.append(parts[i].as_str());
        i += 1;
    }
    assert(views(parts@).take(parts@.len() as int) =~= views(parts@));
    r
}

/// Pushing a string pushes what it says.
pub proof fn lemma_views_push(s: Seq<String>, t: String)
    ensures
        views(s.push(t)) == views(s).push(t@),
{
    assert(views(s.push(t)) =~= views(s).push(t@));
}

/// Puts texts at the end of others.
pub fn put_texts(texts: &mut Vec<String>, more: &Vec<String>)
    ensures
        views(final(texts)@) == views(old(texts)@) + views(more@),
{
    let ghost before = views(texts@);
    let mut i: usize = 0;
    assert(views(texts@) =~= before + views(more@).take(0));
    while i < more.len()
        invariant
            i <= more.len(),
            views(texts@) == before + views(more@).take(i as int),
        decreases more.len() - i,
    {
        let line = more[i].clone();
        proof {
            lemma_views_push(texts@, line);
            assert(before + views(more@).take(i + 1) =~= (before + views(more@).take(
                i as int,
            )).push(line@));
        }
        texts.push(line);
        i += 1;
    }
    assert(views(more@).take(i as int) =~= views(more@));
}

/// Puts one text at the end of others.
pub fn put_text(texts: &mut Vec<String>, t: String)
    ensures
        views(final(texts)@) == views(old(texts)@).push(t@),
{
    proof {
        lemma_views_push(texts@, t);
    }
    texts.push(t);
}

/// Joining a list with one more text.
pub proof fn lemma_join_push(parts: Seq<Seq<char>>, last: Seq<char>, sep: Seq<char>)
    ensures
        join(parts.push(last), sep) == if parts.len() == 0 {
            last
        } else {
            join(parts, sep) + sep + last
        },
{
    assert(parts.push(last).drop_last() =~= parts);
}

// ── Characters ───────────────────────────────────────────────────────────────

/// The characters of a string.
pub fn chars_of(s: &str) -> (v: Vec<char>)
    ensures
        v@ == s@,
{
    let mut v: Vec<char> = Vec::new();
    for c in it: s.chars()
        invariant
            v@ == s@.take(it.index()),
            it.seq() == s@,
    {
        proof {
            assert(s@.take(it.index() + 1) =~= s@.take(it.index()).push(c));
        }
        v.push(c);
    }
    proof {
        assert(s@.take(s@.len() as int) =~= s@);
    }
    v
}

/// The string made of the characters from `from` up to `to`.
pub fn text_of(v: &Vec<char>, from: usize, to: usize) -> (r: String)
    requires
        from <= to <= v.len(),
    ensures
        r@ == v@.subrange(from as int, to as int),
{
    let mut r = String::new();
    let mut i: usize = from;
    while i < to
        invariant
            from <= i <= to <= v.len(),
            r@ == v@.subrange(from as int, i as int),
        decreases to - i,
    {
        assert(v@.subrange(from as int, i + 1) =~= v@.subrange(from as int, i as int).push(v@[i as int]));
        r.push(v[i]);
        i += 1;
    }
    r
}

/// A capital ASCII letter as its small one, anything else as it is.
pub open spec fn small(c: char) -> char {
    if 'A' <= c && c <= 'Z' {
        ((c as u32 + 32) as u32) as char
    } else {
        c
    }
}

/// A text with its ASCII letters made small.
pub open spec fn lowered(t: Seq<char>) -> Seq<char> {
    t.map_values(|c: char| small(c))
}

/// Whether two texts are the same up to the case of ASCII letters.
pub open spec fn same_name(a: Seq<char>, b: Seq<char>) -> bool {
    lowered(a) == lowered(b)
}

/// A capital ASCII letter as its small one, anything else as it is.
pub fn small_letter(c: char) -> (r: char)
    ensures
        r == small(c),
{
    if 'A' <= c && c <= 'Z' {
        let low: u8 = c as u8 + 32;
        low as char
    } else {
        c
    }
}

/// A string with its ASCII letters made small.
pub fn to_lower(s: &str) -> (r: String)
    ensures
        r@ == lowered(s@),
{
    let v = chars_of(s);
    let mut r = String::new();
    let mut i: usize = 0;
    while i < v.len()
        invariant
            i <= v.len(),
            v@ == s@,
            r@ == lowered(s@).take(i as int),
        decreases v.len() - i,
    {
        assert(lowered(s@).take(i + 1) =~= lowered(s@).take(i as int).push(small(v@[i as int])));
        r.push(small_letter(v[i]));
        i += 1;
    }
    assert(lowered(s@).take(s@.len() as int) =~= lowered(s@));
    r
}

/// Whether two strings are the same up to the case of ASCII letters.
pub fn is_same_name(a: &str, b: &str) -> (r: bool)
    ensures
        r == same_name(a@, b@),
{
    to_lower(a) == to_lower(b)
}

/// A text with each character written out by `f`.
pub open spec fn spelled(t: Seq<char>, f: spec_fn(char) -> Seq<char>) -> Seq<char>
    decreases t.len(),
{
    if t.len() == 0 {
        Seq::empty()
    } else {
        spelled(t.drop_last(), f) + f(t.last())
    }
}

/// Writing out a text starts with writing out its first character.
pub proof fn lemma_spelled_front(t: Seq<char>, f: spec_fn(char) -> Seq<char>)
    requires
        t.len() > 0,
    ensures
        spelled(t, f) == f(t[0]) + spelled(t.skip(1), f),
    decreases t.len(),
{
    if t.len() == 1 {
        assert(t.drop_last() =~= Seq::<char>::empty());
        assert(t.skip(1) =~= Seq::<char>::empty());
        assert(spelled(t, f) =~= f(t[0]) + spelled(t.skip(1), f));
    } else {
        lemma_spelled_front(t.drop_last(), f);
        assert(t.skip(1).drop_last() =~= t.drop_last().skip(1));
        assert(spelled(t, f) =~= f(t[0]) + spelled(t.skip(1), f));
    }
}

/// A text with every `from` replaced by `to`.
pub open spec fn replaced(t: Seq<char>, from: char, to: Seq<char>) -> Seq<char>
    decreases t.len(),
{
    if t.len() == 0 {
        Seq::empty()
    } else {
        replaced(t.drop_last(), from, to) + (if t.last() == from {
            to
        } else {
            seq![t.last()]
        })
    }
}

/// A string with every `from` replaced by `to`.
pub fn replace_char(s: &str, from: char, to: &str) -> (r: String)
    ensures
        r@ == replaced(s@, from, to@),
{
    let v = chars_of(s);
    let mut r = String::new();
    let mut i: usize = 0;
    while i < v.len()
        invariant
            i <= v.len(),
            v@ == s@,
            r@ == replaced(s@.take(i as int), from, to@),
        decreases v.len() - i,
    {
        proof {
            assert(s@.take(i + 1).drop_last() =~= s@.take(i as int));
        }
        if v[i] == from {
            r.append(to);
        } else {
            let ghost before = r@;
            r.push(v[i]);
            assert(r@ =~= before + seq![v@[i as int]]);
        }
        i += 1;
    }
    assert(s@.take(s@.len() as int) =~= s@);
    r
}

// ── Numbers ──────────────────────────────────────────────────────────────────

/// The character of a digit below ten.
pub open spec fn digit(d: int) -> char {
    (48 + d) as char
}

/// A number in decimal, without leading zeros.
pub open spec fn decimal(n: nat) -> Seq<char>
    decreases n,
{
    if n < 10 {
        seq![digit(n as int)]
    } else {
        decimal(n / 10).push(digit((n % 10) as int))
    }
}

/// An integer in decimal, with a sign when it is negative.
pub open spec fn signed_decimal(n: int) -> Seq<char> {
    if n < 0 {
        seq!['-'] + decimal((-n) as nat)
    } else {
        decimal(n as nat)
    }
}

/// A number in decimal with at least two digits.
pub open spec fn two_digits(n: nat) -> Seq<char> {
    if n < 10 {
        seq!['0'] + decimal(n)
    } else {
        decimal(n)
    }
}

/// Writes a number in decimal.
pub fn show(n: u64) -> (r: String)
    ensures
        r@ == decimal(n as nat),
    decreases n,
{
    if n < 10 {
        let mut r = String::new();
        let d: u8 = 48 + n as u8;
        r.push(d as char);
        assert(r@ =~= decimal(n as nat));
        r
    } else {
        let mut r = show(n / 10);
        let d: u8 = 48 + (n % 10) as u8;
        r.push(d as char);
        r
    }
}

/// Writes an integer in decimal.
pub fn show_signed(n: i64) -> (r: String)
    requires
        n > i64::MIN,
    ensures
        r@ == signed_decimal(n as int),
{
    if n < 0 {
        let mut r = String::new();
        r.push('-');
        let m: i64 = -n;
        let rest = show(m as u64);
        assert(r@ =~= seq!['-']);
        r.append(rest.as_str());
        r
    } else {
        show(n as u64)
    }
}

/// Writes a number in decimal with at least two digits.
pub fn show_two(n: u64) -> (r: String)
    ensures
        r@ == two_digits(n as nat),
{
    let d = show(n);
    if n < 10 {
        let mut r = String::new();
        r.push('0');
        assert(r@ =~= seq!['0']);
        r.append(d.as_str());
        r
    } else {
        d
    }
}

/// Whether a character is a decimal digit.
pub open spec fn is_digit(c: char) -> bool {
    '0' <= c && c <= '9'
}

/// The value of a run of digits, most significant first.
pub open spec fn digits_value(t: Seq<char>) -> nat
    decreases t.len(),
{
    if t.len() == 0 {
        0
    } else {
        digits_value(t.drop_last()) * 10 + ((t.last() as int - 48) as nat)
    }
}

/// A text without a plus sign in front.
pub open spec fn unsigned_part(t: Seq<char>) -> Seq<char> {
    if t.len() > 0 && t[0] == '+' {
        t.skip(1)
    } else {
        t
    }
}

/// The number that a text spells: digits, at least one, with an optional plus sign in front.
pub open spec fn parsed_nat(t: Seq<char>) -> Option<nat> {
    let d = unsigned_part(t);
    if d.len() > 0 && (forall|i: int| 0 <= i < d.len() ==> is_digit(#[trigger] d[i])) {
        Some(digits_value(d))
    } else {
        None
    }
}

/// The number that a text spells when it is at most `max`.
pub open spec fn parsed_up_to(t: Seq<char>, max: nat) -> Option<nat> {
    match parsed_nat(t) {
        Some(n) => if n <= max {
            Some(n)
        } else {
            None
        },
        None => None,
    }
}

/// A longer run of digits is worth at least as much as its start.
proof fn lemma_digits_grow(t: Seq<char>, i: int)
    requires
        0 <= i <= t.len(),
        forall|k: int| 0 <= k < t.len() ==> is_digit(#[trigger] t[k]),
    ensures
        digits_value(t.take(i)) <= digits_value(t),
    decreases t.len(),
{
    if i == t.len() {
        assert(t.take(i) =~= t);
    } else {
        lemma_digits_grow(t.drop_last(), i);
        assert(t.drop_last().take(i) =~= t.take(i));
    }
}

/// Reads a number of at most `max`.
pub fn parse_up_to(s: &str, max: u64) -> (r: Option<u64>)
    ensures
        r is Some <==> parsed_up_to(s@, max as nat) is Some,
        r is Some ==> r->0 == parsed_up_to(s@, max as nat)->0,
{
    let v = chars_of(s);
    let start: usize = if v.len() > 0 && v[0] == '+' {
        1
    } else {
        0
    };
    let ghost d = unsigned_part(s@);
    assert(d =~= s@.skip(start as int));
    if start == v.len() {
        return None;
    }
    let mut i: usize = start;
    let mut n: u64 = 0;
    let mut over: bool = false;
    while i < v.len()
        invariant
            start <= i <= v.len(),
            v@ == s@,
            d == s@.skip(start as int),
            d == unsigned_part(s@),
            forall|k: int| 0 <= k < i - start ==> is_digit(#[trigger] d[k]),
            !over ==> n == digits_value(d.take(i - start)) && n <= max,
            over ==> digits_value(d.take(i - start)) > max,
        decreases v.len() - i,
    {
        let c = v[i];
        assert(d[i - start] == c);
        if !('0' <= c && c <= '9') {
            assert(!is_digit(d[i - start]));
            return None;
        }
        proof {
            assert(d.take(i - start + 1).drop_last() =~= d.take(i - start));
        }
        let k: u64 = (c as u8 - 48) as u64;
        if !over {
            if n > u64::MAX / 10 || n * 10 > u64::MAX - k || n * 10 + k > max {
                over = true;
            } else {
                n = n * 10 + k;
            }
        }
        i += 1;
    }
    assert(d.take(d.len() as int) =~= d);
    if over {
        None
    } else {
        Some(n)
    }
}

/// The integer that a text spells: as a number, or with a minus sign in front of digits.
pub open spec fn parsed_int(t: Seq<char>) -> Option<int> {
    if t.len() > 0 && t[0] == '-' {
        let d = t.skip(1);
        if d.len() > 0 && (forall|i: int| 0 <= i < d.len() ==> is_digit(#[trigger] d[i])) {
            Some(-(digits_value(d) as int))
        } else {
            None
        }
    } else {
        match parsed_nat(t) {
            Some(n) => Some(n as int),
            None => None,
        }
    }
}

/// The 32-bit integer that a text spells.
pub open spec fn parsed_i32(t: Seq<char>) -> Option<int> {
    match parsed_int(t) {
        Some(n) => if i32::MIN <= n <= i32::MAX {
            Some(n)
        } else {
            None
        },
        None => None,
    }
}

/// Reads a 32-bit integer.
pub fn parse_i32(s: &str) -> (r: Option<i32>)
    ensures
        r is Some <==> parsed_i32(s@) is Some,
        r is Some ==> r->0 == parsed_i32(s@)->0,
{
    let v = chars_of(s);
    if v.len() > 0 && v[0] == '-' {
        let rest = text_of(&v, 1, v.len());
        let ghost d = s@.skip(1);
        assert(rest@ =~= d);
        if v.len() > 1 && v[1] == '+' {
            assert(d[0] == '+');
            assert(!is_digit(d[0]));
            return None;
        }
        assert(unsigned_part(d) == d);
        match parse_up_to(rest.as_str(), 2147483648) {
            Some(n) => Some((0 - n as i64) as i32),
            None => None,
        }
    } else {
        match parse_up_to(s, 2147483647) {
            Some(n) => Some(n as i32),
            None => None,
        }
    }
}

/// The first place where a text holds `c`, or its length.
pub open spec fn first_at(t: Seq<char>, c: char) -> int
    decreases t.len(),
{
    if t.len() == 0 {
        0
    } else if t[0] == c {
        0
    } else {
        1 + first_at(t.skip(1), c)
    }
}

/// What the first place is: nothing before it is `c`, and it is unless it is the end.
pub proof fn lemma_first_at(t: Seq<char>, c: char)
    ensures
        0 <= first_at(t, c) <= t.len(),
        forall|k: int| 0 <= k < first_at(t, c) ==> #[trigger] t[k] != c,
        first_at(t, c) < t.len() ==> t[first_at(t, c)] == c,
    decreases t.len(),
{
    if t.len() > 0 && t[0] != c {
        lemma_first_at(t.skip(1), c);
        assert forall|k: int| 0 <= k < first_at(t, c) implies #[trigger] t[k] != c by {
            if k > 0 {
                assert(t.skip(1)[k - 1] == t[k]);
            }
        }
    }
}

/// The first place at or after `from` where `v` holds `c`, or its length.
pub fn find_char(v: &Vec<char>, from: usize, c: char) -> (r: usize)
    requires
        from <= v.len(),
    ensures
        from <= r <= v.len(),
        r == from + first_at(v@.skip(from as int), c),
        forall|k: int| from <= k < r ==> v@[k] != c,
        r < v.len() ==> v@[r as int] == c,
    decreases v.len() - from,
{
    if from == v.len() {
        return from;
    }
    if v[from] == c {
        from
    } else {
        assert(v@.skip(from as int).skip(1) =~= v@.skip(from + 1));
        find_char(v, from + 1, c)
    }
}

} // verus!
