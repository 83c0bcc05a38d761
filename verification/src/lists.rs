//! Searching and filtering sequences.

use vstd::prelude::*;

verus! {

/// The first place where `p` holds, or the length when it holds nowhere.
pub open spec fn first_index<A>(s: Seq<A>, p: spec_fn(A) -> bool) -> int
    decreases s.len(),
{
    if s.len() == 0 {
        0
    } else if p(s[0]) {
        0
    } else {
        1 + first_index(s.skip(1), p)
    }
}

/// Whether `p` holds somewhere.
pub open spec fn some<A>(s: Seq<A>, p: spec_fn(A) -> bool) -> bool {
    first_index(s, p) < s.len()
}

/// The first element for which `p` holds.
pub open spec fn find<A>(s: Seq<A>, p: spec_fn(A) -> bool) -> Option<A> {
    if some(s, p) {
        Some(s[first_index(s, p)])
    } else {
        None
    }
}

/// Number of elements for which `p` holds.
pub open spec fn count<A>(s: Seq<A>, p: spec_fn(A) -> bool) -> nat {
    s.filter(p).len()
}

/// What `f` makes of the elements for which it makes something, in order.
pub open spec fn filter_map<A, B>(s: Seq<A>, f: spec_fn(A) -> Option<B>) -> Seq<B>
    decreases s.len(),
{
    if s.len() == 0 {
        Seq::empty()
    } else {
        match f(s.last()) {
            Some(b) => filter_map(s.drop_last(), f).push(b),
            None => filter_map(s.drop_last(), f),
        }
    }
}

/// One element more.
pub proof fn lemma_filter_map_step<A, B>(s: Seq<A>, f: spec_fn(A) -> Option<B>, i: int)
    requires
        0 <= i < s.len(),
    ensures
        filter_map(s.take(i + 1), f) == match f(s[i]) {
            Some(b) => filter_map(s.take(i), f).push(b),
            None => filter_map(s.take(i), f),
        },
{
    assert(s.take(i + 1).drop_last() =~= s.take(i));
}

/// A search that failed before `i` and succeeds there, or has run through, has found the first
/// place.
pub proof fn lemma_first_index<A>(s: Seq<A>, p: spec_fn(A) -> bool, i: int)
    requires
        0 <= i <= s.len(),
        forall|k: int| 0 <= k < i ==> !p(#[trigger] s[k]),
        i < s.len() ==> p(s[i]),
    ensures
        first_index(s, p) == i,
    decreases s.len(),
{
    if s.len() > 0 && i > 0 {
        assert(!p(s[0]));
        assert forall|k: int| 0 <= k < i - 1 implies !p(#[trigger] s.skip(1)[k]) by {
            assert(s.skip(1)[k] == s[k + 1]);
        }
        lemma_first_index(s.skip(1), p, i - 1);
    }
}

/// What the first place is: nothing before it satisfies `p`, and it does unless it is the end.
pub proof fn lemma_first_index_is<A>(s: Seq<A>, p: spec_fn(A) -> bool)
    ensures
        0 <= first_index(s, p) <= s.len(),
        forall|k: int| 0 <= k < first_index(s, p) ==> !p(#[trigger] s[k]),
        first_index(s, p) < s.len() ==> p(s[first_index(s, p)]),
    decreases s.len(),
{
    if s.len() > 0 && !p(s[0]) {
        lemma_first_index_is(s.skip(1), p);
        assert forall|k: int| 0 <= k < first_index(s, p) implies !p(#[trigger] s[k]) by {
            if k > 0 {
                assert(s.skip(1)[k - 1] == s[k]);
            }
        }
    }
}

/// `p` holds somewhere exactly when there is a place where it holds.
pub proof fn lemma_some<A>(s: Seq<A>, p: spec_fn(A) -> bool)
    ensures
        some(s, p) <==> exists|k: int| 0 <= k < s.len() && p(#[trigger] s[k]),
{
    lemma_first_index_is(s, p);
}

/// Filtering one element more.
pub proof fn lemma_filter_step<A>(s: Seq<A>, p: spec_fn(A) -> bool, i: int)
    requires
        0 <= i < s.len(),
    ensures
        s.take(i + 1).filter(p) == if p(s[i]) {
            s.take(i).filter(p).push(s[i])
        } else {
            s.take(i).filter(p)
        },
{
    reveal(Seq::filter);
    assert(s.take(i + 1).drop_last() =~= s.take(i));
}

/// Filtering never makes a sequence longer, and what it keeps was there and satisfies `p`.
pub proof fn lemma_filter<A>(s: Seq<A>, p: spec_fn(A) -> bool)
    ensures
        s.filter(p).len() <= s.len(),
        forall|i: int|
            0 <= i < s.filter(p).len() ==> p(#[trigger] s.filter(p)[i]) && s.contains(
                s.filter(p)[i],
            ),
        forall|i: int|
            0 <= i < s.len() && p(#[trigger] s[i]) ==> s.filter(p).contains(s[i]),
    decreases s.len(),
{
    reveal(Seq::filter);
    if s.len() > 0 {
        let u = s.drop_last();
        lemma_filter(u, p);
        let f = s.filter(p);
        assert forall|i: int| 0 <= i < f.len() implies p(#[trigger] f[i]) && s.contains(f[i]) by {
            if i < u.filter(p).len() {
                assert(f[i] == u.filter(p)[i]);
                let k = choose|k: int| 0 <= k < u.len() && u[k] == f[i];
                assert(s[k] == f[i]);
            } else {
                assert(s[s.len() - 1] == f[i]);
            }
        }
        assert forall|i: int| 0 <= i < s.len() && p(#[trigger] s[i]) implies f.contains(s[i]) by {
            if i < u.len() {
                assert(u[i] == s[i]);
                let k = choose|k: int| 0 <= k < u.filter(p).len() && u.filter(p)[k] == s[i];
                assert(f[k] == s[i]);
            } else {
                assert(f[f.len() - 1] == s[i]);
            }
        }
    }
}

/// Filtering again for what a filter keeps is filtering for it at once.
pub proof fn lemma_filter_through<A>(s: Seq<A>, p: spec_fn(A) -> bool, q: spec_fn(A) -> bool)
    requires
        forall|x: A| #[trigger] q(x) ==> p(x),
    ensures
        s.filter(p).filter(q) == s.filter(q),
    decreases s.len(),
{
    reveal(Seq::filter);
    if s.len() > 0 {
        let u = s.drop_last();
        let x = s.last();
        lemma_filter_through(u, p, q);
        if p(x) {
            assert(u.filter(p).push(x).drop_last() =~= u.filter(p));
            assert(u.filter(p).push(x).last() == x);
        }
    }
}

/// Filtering again for what a filter leaves out finds nothing.
pub proof fn lemma_filter_out<A>(s: Seq<A>, p: spec_fn(A) -> bool, q: spec_fn(A) -> bool)
    requires
        forall|x: A| #[trigger] q(x) ==> !p(x),
    ensures
        s.filter(p).filter(q).len() == 0,
{
    let r = s.filter(p);
    lemma_filter(s, p);
    lemma_filter(r, q);
    if r.filter(q).len() > 0 {
        let x = r.filter(q)[0];
        assert(q(x));
        let k = choose|k: int| 0 <= k < r.len() && r[k] == x;
        assert(p(r[k]));
    }
}

/// Filtering with one element more at the end.
pub proof fn lemma_filter_push<A>(s: Seq<A>, x: A, p: spec_fn(A) -> bool)
    ensures
        s.push(x).filter(p) == if p(x) {
            s.filter(p).push(x)
        } else {
            s.filter(p)
        },
{
    reveal(Seq::filter);
    assert(s.push(x).drop_last() =~= s);
}

/// Searching with one element more at the end.
pub proof fn lemma_find_push<A>(s: Seq<A>, x: A, q: spec_fn(A) -> bool)
    ensures
        find(s.push(x), q) == if find(s, q) is Some {
            find(s, q)
        } else if q(x) {
            Some(x)
        } else {
            None
        },
{
    let t = s.push(x);
    lemma_first_index_is(s, q);
    let i = first_index(s, q);
    assert forall|k: int| 0 <= k < i implies !q(#[trigger] t[k]) by {
        assert(t[k] == s[k]);
    }
    if i < s.len() {
        assert(t[i] == s[i]);
        lemma_first_index(t, q, i);
    } else if q(x) {
        lemma_first_index(t, q, i);
    } else {
        assert forall|k: int| 0 <= k < t.len() implies !q(#[trigger] t[k]) by {
            if k < s.len() {
                assert(t[k] == s[k]);
            }
        }
        lemma_first_index(t, q, t.len() as int);
    }
}

/// A search finds the same after filtering when the filter keeps all that is searched for.
pub proof fn lemma_find_kept<A>(s: Seq<A>, p: spec_fn(A) -> bool, q: spec_fn(A) -> bool)
    requires
        forall|x: A| #[trigger] q(x) ==> p(x),
    ensures
        find(s.filter(p), q) == find(s, q),
    decreases s.len(),
{
    reveal(Seq::filter);
    if s.len() > 0 {
        let u = s.drop_last();
        lemma_find_kept(u, p, q);
        lemma_find_push(u, s.last(), q);
        assert(u.push(s.last()) =~= s);
        lemma_find_push(u.filter(p), s.last(), q);
    } else {
        assert(s.filter(p) =~= s);
    }
}

/// Filtering two sequences one after another.
pub proof fn lemma_filter_add<A>(a: Seq<A>, b: Seq<A>, p: spec_fn(A) -> bool)
    ensures
        (a + b).filter(p) == a.filter(p) + b.filter(p),
    decreases b.len(),
{
    reveal(Seq::filter);
    if b.len() == 0 {
        assert(a + b =~= a);
        assert(a.filter(p) + b.filter(p) =~= a.filter(p));
    } else {
        lemma_filter_add(a, b.drop_last(), p);
        assert((a + b).drop_last() =~= a + b.drop_last());
        assert((a + b).filter(p) =~= a.filter(p) + b.filter(p));
    }
}

/// Takes the elements out of a list for which `keep` fails.
pub(crate) fn retain<T, F: Fn(&T) -> bool>(list: &mut Vec<T>, keep: F, Ghost(p): Ghost<spec_fn(T) -> bool>)
    requires
        forall|x: T| #[trigger] call_requires(keep, (&x,)),
        forall|x: T, r: bool| #[trigger] call_ensures(keep, (&x,), r) ==> r == p(x),
    ensures
        final(list)@ == old(list)@.filter(p),
{
    let ghost all = list@;
    let ghost mut done: int = 0;
    let mut i: usize = 0;
    assert(all.take(0).filter(p) =~= Seq::<T>::empty()) by {
        reveal(Seq::filter);
    }
    assert(list@ =~= all.take(0).filter(p) + all.skip(0));
    while i < list.len()
        invariant
            0 <= done <= all.len(),
            i <= list.len(),
            list@ == all.take(done).filter(p) + all.skip(done),
            i == all.take(done).filter(p).len(),
            forall|x: T| #[trigger] call_requires(keep, (&x,)),
            forall|x: T, r: bool| #[trigger] call_ensures(keep, (&x,), r) ==> r == p(x),
        decreases list.len() - i,
    {
        let ghost kept = all.take(done).filter(p);
        proof {
            assert(list@[i as int] == all[done]);
            lemma_filter_step(all, p, done);
        }
        if keep(&list[i]) {
            assert(list@ =~= kept.push(all[done]) + all.skip(done + 1));
            i += 1;
        } else {
            list.remove(i);
            assert(list@ =~= kept + all.skip(done + 1));
        }
        proof {
            done = done + 1;
        }
    }
    assert(all.take(done) =~= all) by {
        assert(all.skip(done).len() == 0);
    }
    assert(list@ =~= all.filter(p));
}

/// How many elements of a list satisfy `test`.
pub(crate) fn count_where<T, F: Fn(&T) -> bool>(list: &Vec<T>, test: F, Ghost(p): Ghost<spec_fn(T) -> bool>) -> (r:
    usize)
    requires
        forall|x: T| #[trigger] call_requires(test, (&x,)),
        forall|x: T, b: bool| #[trigger] call_ensures(test, (&x,), b) ==> b == p(x),
    ensures
        r == count(list@, p),
        r <= list@.len(),
{
    let mut r: usize = 0;
    let mut i: usize = 0;
    assert(list@.take(0).filter(p) =~= Seq::<T>::empty()) by {
        reveal(Seq::filter);
    }
    while i < list.len()
        invariant
            i <= list.len(),
            r <= i,
            r == list@.take(i as int).filter(p).len(),
            forall|x: T| #[trigger] call_requires(test, (&x,)),
            forall|x: T, b: bool| #[trigger] call_ensures(test, (&x,), b) ==> b == p(x),
        decreases list.len() - i,
    {
        proof {
            lemma_filter_step(list@, p, i as int);
        }
        if test(&list[i]) {
            r += 1;
        }
        i += 1;
    }
    assert(list@.take(i as int) =~= list@);
    r
}

// ── Lists that match ─────────────────────────────────────────────────────────

/// Whether two lists match place by place.
pub open spec fn matched<A>(s: Seq<A>, t: Seq<A>, r: spec_fn(A, A) -> bool) -> bool {
    &&& s.len() == t.len()
    &&& forall|i: int| #![trigger s[i]] #![trigger t[i]] 0 <= i < s.len() ==> r(s[i], t[i])
}

/// Searches in lists that match find the same place, when what they search for matches.
pub proof fn lemma_index_matched<A>(
    s: Seq<A>,
    t: Seq<A>,
    r: spec_fn(A, A) -> bool,
    p: spec_fn(A) -> bool,
    q: spec_fn(A) -> bool,
)
    requires
        matched(s, t, r),
        forall|a: A, b: A| #[trigger] r(a, b) ==> p(a) == q(b),
    ensures
        first_index(s, p) == first_index(t, q),
{
    lemma_first_index_is(s, p);
    let i = first_index(s, p);
    assert forall|k: int| 0 <= k < i implies !q(#[trigger] t[k]) by {
        assert(r(s[k], t[k]));
    }
    if i < s.len() {
        assert(r(s[i], t[i]));
    }
    lemma_first_index(t, q, i);
}

/// Filtering lists that match leaves lists that match, when what is kept matches.
proof fn lemma_filter_matched<A>(
    s: Seq<A>,
    t: Seq<A>,
    r: spec_fn(A, A) -> bool,
    p: spec_fn(A) -> bool,
    i: int,
)
    requires
        matched(s, t, r),
        0 <= i <= s.len(),
        forall|a: A, b: A| #[trigger] r(a, b) ==> p(a) == p(b),
    ensures
        matched(s.take(i).filter(p), t.take(i).filter(p), r),
    decreases i,
{
    if i == 0 {
        reveal(Seq::filter);
    } else {
        lemma_filter_matched(s, t, r, p, i - 1);
        lemma_filter_step(s, p, i - 1);
        lemma_filter_step(t, p, i - 1);
        assert(r(s[i - 1], t[i - 1]));
    }
}

/// The same for the whole lists.
pub proof fn lemma_filtered<A>(s: Seq<A>, t: Seq<A>, r: spec_fn(A, A) -> bool, p: spec_fn(A) -> bool)
    requires
        matched(s, t, r),
        forall|a: A, b: A| #[trigger] r(a, b) ==> p(a) == p(b),
    ensures
        matched(s.filter(p), t.filter(p), r),
{
    lemma_filter_matched(s, t, r, p, s.len() as int);
    assert(s.take(s.len() as int) =~= s);
    assert(t.take(t.len() as int) =~= t);
}

} // verus!
