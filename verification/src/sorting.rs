//! Sorting that keeps the order of elements that rank alike.

use vstd::prelude::*;

use crate::text::{chars_of, views};

verus! {

/// Values that are put in order.
pub trait Ranked: Sized {
    /// Whether `self` comes before `other`.
    spec fn before(self, other: Self) -> bool;

    /// Nothing comes before itself, of two values at most one comes before the other, and what
    /// does not come after a second value does not come after a third that the second does not
    /// come after.
    proof fn ranks(a: Self, b: Self, c: Self)
        ensures
            !a.before(a),
            a.before(b) ==> !b.before(a),
            !b.before(a) && !c.before(b) ==> !c.before(a),
    ;

    /// Whether `self` comes before `other`.
    fn is_before(&self, other: &Self) -> (r: bool)
        ensures
            r == self.before(*other),
    ;
}

/// The place behind all elements that `x` does not come before.
pub open spec fn place<T: Ranked>(s: Seq<T>, x: T) -> int
    decreases s.len(),
{
    if s.len() == 0 || !x.before(s.last()) {
        s.len() as int
    } else {
        place(s.drop_last(), x)
    }
}

/// A sequence put in order; elements of which neither comes before the other keep their order.
pub open spec fn sorted<T: Ranked>(s: Seq<T>) -> Seq<T>
    decreases s.len(),
{
    if s.len() == 0 {
        s
    } else {
        let r = sorted(s.drop_last());
        r.insert(place(r, s.last()), s.last())
    }
}

/// Whether no element comes before an earlier one.
pub open spec fn in_order<T: Ranked>(s: Seq<T>) -> bool {
    forall|i: int, j: int| 0 <= i < j < s.len() ==> !(#[trigger] s[j]).before(#[trigger] s[i])
}

/// The place lies within the sequence, `x` comes before everything from it on, and not before the
/// element in front of it.
pub proof fn lemma_place<T: Ranked>(s: Seq<T>, x: T)
    ensures
        0 <= place(s, x) <= s.len(),
        forall|k: int| place(s, x) <= k < s.len() ==> x.before(#[trigger] s[k]),
        place(s, x) > 0 ==> !x.before(s[place(s, x) - 1]),
    decreases s.len(),
{
    if s.len() > 0 && x.before(s.last()) {
        lemma_place(s.drop_last(), x);
        assert forall|k: int| place(s, x) <= k < s.len() implies x.before(#[trigger] s[k]) by {
            if k < s.len() - 1 {
                assert(s[k] == s.drop_last()[k]);
            }
        }
    }
}

/// Sorting keeps the elements and puts them in order.
pub proof fn lemma_sorted<T: Ranked>(s: Seq<T>)
    ensures
        sorted(s).len() == s.len(),
        sorted(s).to_multiset() == s.to_multiset(),
        in_order(sorted(s)),
    decreases s.len(),
{
    broadcast use vstd::seq_lib::group_to_multiset_ensures;

    if s.len() > 0 {
        let u = s.drop_last();
        let x = s.last();
        lemma_sorted(u);
        let r = sorted(u);
        let at = place(r, x);
        lemma_place(r, x);
        assert(u.push(x) =~= s);
        let t = r.insert(at, x);
        vstd::seq_lib::to_multiset_insert(r, at, x);
        assert forall|i: int, j: int| 0 <= i < j < t.len() implies !(#[trigger] t[j]).before(
            #[trigger] t[i],
        ) by {
            if i < at && j == at {
                if i < at - 1 {
                    T::ranks(r[i], r[at - 1], x);
                }
            } else if i == at {
                T::ranks(x, r[j - 1], x);
            } else {
                let a = if i < at {
                    i
                } else {
                    i - 1
                };
                let b = if j < at {
                    j
                } else {
                    j - 1
                };
                assert(t[i] == r[a] && t[j] == r[b]);
            }
        }
    }
}

/// A sequence that is in order stays as it is.
pub proof fn lemma_sorted_already<T: Ranked>(s: Seq<T>)
    requires
        in_order(s),
    ensures
        sorted(s) == s,
    decreases s.len(),
{
    if s.len() > 0 {
        let u = s.drop_last();
        assert forall|i: int, j: int| 0 <= i < j < u.len() implies !(#[trigger] u[j]).before(
            #[trigger] u[i],
        ) by {
            assert(u[i] == s[i] && u[j] == s[j]);
        }
        lemma_sorted_already(u);
        if u.len() > 0 {
            assert(u.last() == s[s.len() - 2]);
            assert(s[s.len() - 1] == s.last());
        }
        assert(u.insert(u.len() as int, s.last()) =~= s);
    }
}

/// Sorts a list; elements of which neither comes before the other keep their order.
pub fn sort<T: Ranked>(list: Vec<T>) -> (r: Vec<T>)
    ensures
        r@ == sorted(list@),
{
    let ghost all = list@;
    let mut rest = list;
    let mut r: Vec<T> = Vec::new();
    let ghost mut done: int = 0;
    assert(all.take(0) =~= Seq::<T>::empty());
    assert(all.skip(0) =~= all);
    while rest.len() > 0
        invariant
            0 <= done <= all.len(),
            rest@ == all.skip(done),
            r@ == sorted(all.take(done)),
        decreases rest.len(),
    {
        let x = rest.remove(0);
        let mut at: usize = r.len();
        let ghost whole = r@;
        assert(whole.take(r.len() as int) =~= whole);
        while at > 0 && x.is_before(&r[at - 1])
            invariant
                at <= r.len(),
                r@ == whole,
                place(whole, x) == place(whole.take(at as int), x),
            decreases at,
        {
            proof {
                assert(whole.take(at as int).drop_last() =~= whole.take(at - 1));
            }
            at -= 1;
        }
        proof {
            assert(place(whole, x) == at);
            let more = all.take(done + 1);
            assert(more.drop_last() =~= all.take(done));
            assert(more.last() == x);
            assert(all.skip(done).remove(0) =~= all.skip(done + 1));
            done = done + 1;
        }
        r.insert(at, x);
    }
    assert(all.take(done) =~= all);
    r
}

// ── Texts in order ───────────────────────────────────────────────────────────

/// Whether a text comes before another: by the first character that differs, or by being its
/// start.
pub open spec fn text_before(a: Seq<char>, b: Seq<char>) -> bool
    decreases a.len(),
{
    if b.len() == 0 {
        false
    } else if a.len() == 0 {
        true
    } else if a[0] == b[0] {
        text_before(a.skip(1), b.skip(1))
    } else {
        a[0] < b[0]
    }
}

/// Texts are ranked by `text_before`, and two texts of which neither comes first are the same.
pub proof fn lemma_text_before(a: Seq<char>, b: Seq<char>, c: Seq<char>)
    ensures
        !text_before(a, a),
        text_before(a, b) ==> !text_before(b, a),
        !text_before(b, a) && !text_before(c, b) ==> !text_before(c, a),
        !text_before(a, b) && !text_before(b, a) ==> a == b,
    decreases a.len() + b.len() + c.len(),
{
    if a.len() > 0 {
        lemma_text_before(
            a.skip(1),
            if b.len() > 0 {
                b.skip(1)
            } else {
                b
            },
            if c.len() > 0 {
                c.skip(1)
            } else {
                c
            },
        );
    }
    if !text_before(a, b) && !text_before(b, a) {
        if a.len() > 0 && b.len() > 0 {
            assert(a.skip(1) == b.skip(1));
            assert(a =~= seq![a[0]] + a.skip(1));
            assert(b =~= seq![b[0]] + b.skip(1));
        } else {
            assert(a =~= b);
        }
    }
}

/// Whether a string comes before another.
pub fn comes_before(a: &str, b: &str) -> (r: bool)
    ensures
        r == text_before(a@, b@),
{
    let x = chars_of(a);
    let y = chars_of(b);
    let mut i: usize = 0;
    assert(x@.skip(0) =~= a@);
    assert(y@.skip(0) =~= b@);
    while i < x.len() && i < y.len() && x[i] == y[i]
        invariant
            i <= x.len(),
            i <= y.len(),
            text_before(a@, b@) == text_before(x@.skip(i as int), y@.skip(i as int)),
        decreases x.len() - i,
    {
        assert(x@.skip(i as int).skip(1) =~= x@.skip(i + 1));
        assert(y@.skip(i as int).skip(1) =~= y@.skip(i + 1));
        i += 1;
    }
    if i == y.len() {
        false
    } else if i == x.len() {
        true
    } else {
        x[i] < y[i]
    }
}

impl Ranked for String {
    open spec fn before(self, other: Self) -> bool {
        text_before(self@, other@)
    }

    proof fn ranks(a: Self, b: Self, c: Self) {
        lemma_text_before(a@, b@, c@);
    }

    fn is_before(&self, other: &Self) -> (r: bool) {
        comes_before(self.as_str(), other.as_str())
    }
}

/// The place behind all texts that a text does not come before.
pub open spec fn text_place(s: Seq<Seq<char>>, x: Seq<char>) -> int
    decreases s.len(),
{
    if s.len() == 0 || !text_before(x, s.last()) {
        s.len() as int
    } else {
        text_place(s.drop_last(), x)
    }
}

/// Texts put in order.
pub open spec fn ordered(s: Seq<Seq<char>>) -> Seq<Seq<char>>
    decreases s.len(),
{
    if s.len() == 0 {
        s
    } else {
        let r = ordered(s.drop_last());
        r.insert(text_place(r, s.last()), s.last())
    }
}

/// A text is placed by what it says.
proof fn lemma_text_place(s: Seq<String>, x: String)
    ensures
        place(s, x) == text_place(views(s), x@),
    decreases s.len(),
{
    if s.len() > 0 {
        lemma_text_place(s.drop_last(), x);
        assert(views(s).drop_last() =~= views(s.drop_last()));
        assert(views(s).last() == s.last()@);
    }
}

/// Texts are sorted by what they say.
proof fn lemma_ordered(s: Seq<String>)
    ensures
        views(sorted(s)) == ordered(views(s)),
    decreases s.len(),
{
    if s.len() > 0 {
        let r = sorted(s.drop_last());
        lemma_ordered(s.drop_last());
        lemma_text_place(r, s.last());
        lemma_place(r, s.last());
        assert(views(s).drop_last() =~= views(s.drop_last()));
        assert(views(s).last() == s.last()@);
        assert(views(sorted(s)) =~= views(r).insert(place(r, s.last()), s.last()@));
    } else {
        assert(views(sorted(s)) =~= ordered(views(s)));
    }
}

/// Sorts texts.
pub fn sort_texts(list: Vec<String>) -> (r: Vec<String>)
    ensures
        views(r@) == ordered(views(list@)),
{
    proof {
        lemma_ordered(list@);
    }
    sort(list)
}

} // verus!
