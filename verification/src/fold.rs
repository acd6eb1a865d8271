//! Sums, counts and searches over sequences, as specifications speak of them.

use vstd::prelude::*;

verus! {

/// The sum of `f` over `s`.
pub open spec fn total<T>(s: Seq<T>, f: spec_fn(T) -> int) -> int
    decreases s.len(),
{
    if s.len() == 0 {
        0
    } else {
        total(s.drop_last(), f) + f(s.last())
    }
}

/// How many elements of `s` satisfy `p`.
pub open spec fn count<T>(s: Seq<T>, p: spec_fn(T) -> bool) -> int
    decreases s.len(),
{
    if s.len() == 0 {
        0
    } else {
        count(s.drop_last(), p) + if p(s.last()) {
            1int
        } else {
            0int
        }
    }
}

/// What `f` gives, in order, for those elements of `s` for which it gives something.
pub open spec fn collect<T, U>(s: Seq<T>, f: spec_fn(T) -> Option<U>) -> Seq<U>
    decreases s.len(),
{
    if s.len() == 0 {
        Seq::empty()
    } else {
        match f(s.last()) {
            Some(u) => collect(s.drop_last(), f).push(u),
            None => collect(s.drop_last(), f),
        }
    }
}

/// What `f` gives for the last element of `s` for which it gives something.
pub open spec fn last_some<T, U>(s: Seq<T>, f: spec_fn(T) -> Option<U>) -> Option<U>
    decreases s.len(),
{
    if s.len() == 0 {
        None
    } else {
        match f(s.last()) {
            Some(u) => Some(u),
            None => last_some(s.drop_last(), f),
        }
    }
}

/// What `f` gives for the first element of `s` for which it gives something.
pub open spec fn first_some<T, U>(s: Seq<T>, f: spec_fn(T) -> Option<U>) -> Option<U>
    decreases s.len(),
{
    if s.len() == 0 {
        None
    } else {
        match first_some(s.drop_last(), f) {
            Some(u) => Some(u),
            None => f(s.last()),
        }
    }
}

/// One more element in front of the cut: what each of the folds above makes of it.
pub proof fn lemma_take_more<T>(s: Seq<T>, i: int)
    requires
        0 <= i < s.len(),
    ensures
        s.take(i + 1).drop_last() == s.take(i),
        s.take(i + 1).last() == s[i],
        s.take(i + 1).len() == i + 1,
        s.take(i).len() == i,
{
    assert(s.take(i + 1).drop_last() =~= s.take(i));
}

/// The whole of `s` as a cut of it.
pub proof fn lemma_take_all<T>(s: Seq<T>)
    ensures
        s.take(s.len() as int) == s,
{
    assert(s.take(s.len() as int) =~= s);
}

/// A sum of terms between 0 and `m` lies between 0 and `m` times their number.
pub proof fn lemma_total_bound<T>(s: Seq<T>, f: spec_fn(T) -> int, m: int)
    requires
        forall|x: T| 0 <= #[trigger] f(x) <= m,
    ensures
        0 <= total(s, f) <= m * s.len(),
    decreases s.len(),
{
    if s.len() > 0 {
        lemma_total_bound(s.drop_last(), f, m);
        assert(m * s.len() == m * (s.len() - 1) + m) by (nonlinear_arith);
    } else {
        assert(m * 0 == 0) by (nonlinear_arith);
    }
}

/// A count lies between 0 and the length.
pub proof fn lemma_count_bound<T>(s: Seq<T>, p: spec_fn(T) -> bool)
    ensures
        0 <= count(s, p) <= s.len(),
    decreases s.len(),
{
    if s.len() > 0 {
        lemma_count_bound(s.drop_last(), p);
    }
}

/// A sum of terms that are not negative does not shrink as more are added.
pub proof fn lemma_total_grows<T>(s: Seq<T>, f: spec_fn(T) -> int, i: int)
    requires
        0 <= i <= s.len(),
        forall|x: T| 0 <= #[trigger] f(x),
    ensures
        0 <= total(s.take(i), f) <= total(s, f),
    decreases s.len(),
{
    if i == s.len() {
        lemma_take_all(s);
        if i > 0 {
            lemma_total_grows(s.drop_last(), f, i - 1);
            lemma_take_all(s.drop_last());
        }
    } else {
        lemma_total_grows(s.drop_last(), f, i);
        assert(s.drop_last().take(i) =~= s.take(i));
    }
}

/// Sums and counts of two lists add up to those of both.
pub proof fn lemma_join<T>(a: Seq<T>, b: Seq<T>, f: spec_fn(T) -> int, p: spec_fn(T) -> bool)
    ensures
        total(a + b, f) == total(a, f) + total(b, f),
        count(a + b, p) == count(a, p) + count(b, p),
    decreases b.len(),
{
    if b.len() > 0 {
        lemma_join(a, b.drop_last(), f, p);
        assert((a + b).drop_last() =~= a + b.drop_last());
        assert((a + b).last() == b.last());
    } else {
        assert(a + b =~= a);
    }
}

/// A sum whose terms are no more than two others together is no more than their two sums.
pub proof fn lemma_total_within<T>(s: Seq<T>, f: spec_fn(T) -> int, g: spec_fn(T) -> int, h: spec_fn(T) -> int)
    requires
        forall|i: int| 0 <= i < s.len() ==> f(#[trigger] s[i]) <= g(s[i]) + h(s[i]),
    ensures
        total(s, f) <= total(s, g) + total(s, h),
    decreases s.len(),
{
    if s.len() > 0 {
        let r = s.drop_last();
        assert forall|i: int| 0 <= i < r.len() implies f(#[trigger] r[i]) <= g(r[i]) + h(r[i]) by {
            assert(r[i] == s[i]);
        }
        lemma_total_within(r, f, g, h);
        assert(s.last() == s[s.len() - 1]);
    }
}

/// A sum whose terms are two others together is their two sums together.
pub proof fn lemma_total_sums<T>(s: Seq<T>, f: spec_fn(T) -> int, g: spec_fn(T) -> int, h: spec_fn(T) -> int)
    requires
        forall|x: T| #[trigger] f(x) == g(x) + h(x),
    ensures
        total(s, f) == total(s, g) + total(s, h),
    decreases s.len(),
{
    if s.len() > 0 {
        lemma_total_sums(s.drop_last(), f, g, h);
    }
}

/// A sum without one of its terms.
pub proof fn lemma_total_remove<T>(s: Seq<T>, f: spec_fn(T) -> int, k: int)
    requires
        0 <= k < s.len(),
    ensures
        total(s, f) == total(s.remove(k), f) + f(s[k]),
    decreases s.len(),
{
    let r = s.drop_last();
    if k == s.len() - 1 {
        assert(s.remove(k) =~= r);
    } else {
        lemma_total_remove(r, f, k);
        assert(s.remove(k).drop_last() =~= r.remove(k));
        assert(s.remove(k).last() == s.last());
        assert(r[k] == s[k]);
    }
}

/// A sum does not depend on the order of its terms.
pub proof fn lemma_total_any_order<T>(s: Seq<T>, t: Seq<T>, f: spec_fn(T) -> int)
    requires
        s.to_multiset() == t.to_multiset(),
    ensures
        total(s, f) == total(t, f),
    decreases s.len(),
{
    s.to_multiset_ensures();
    t.to_multiset_ensures();
    if s.len() > 0 {
        let n = s.len() - 1;
        let a = s[n];
        assert(s.contains(a));
        assert(t.to_multiset().count(a) > 0);
        assert(t.contains(a));
        let k = choose|k: int| 0 <= k < t.len() && t[k] == a;
        assert(s.remove(n).to_multiset() =~= t.remove(k).to_multiset());
        lemma_total_any_order(s.remove(n), t.remove(k), f);
        lemma_total_remove(s, f, n);
        lemma_total_remove(t, f, k);
    }
}

/// What is collected is what some element gives, and everything that an element gives is collected.
pub proof fn lemma_collected<T, U>(s: Seq<T>, f: spec_fn(T) -> Option<U>, u: U)
    ensures
        collect(s, f).contains(u) <==> exists|i: int| 0 <= i < s.len() && f(#[trigger] s[i]) == Some(u),
    decreases s.len(),
{
    if s.len() > 0 {
        let r = s.drop_last();
        lemma_collected(r, f, u);
        let c = collect(r, f);
        if collect(s, f).contains(u) {
            let n = choose|n: int| 0 <= n < collect(s, f).len() && collect(s, f)[n] == u;
            if n < c.len() {
                assert(c[n] == u);
                assert(c.contains(u));
                let i = choose|i: int| 0 <= i < r.len() && f(#[trigger] r[i]) == Some(u);
                assert(f(s[i]) == Some(u));
            } else {
                assert(f(s[s.len() - 1]) == Some(u));
            }
        }
        if exists|i: int| 0 <= i < s.len() && f(#[trigger] s[i]) == Some(u) {
            let i = choose|i: int| 0 <= i < s.len() && f(#[trigger] s[i]) == Some(u);
            if i < r.len() {
                assert(f(r[i]) == Some(u));
                let n = choose|n: int| 0 <= n < c.len() && c[n] == u;
                assert(collect(s, f)[n] == u);
            } else {
                assert(collect(s, f)[c.len() as int] == u);
            }
        }
    }
}

/// The first element that gives something decides, and without one there is nothing.
pub proof fn lemma_first<T, U>(s: Seq<T>, f: spec_fn(T) -> Option<U>, i: int)
    requires
        0 <= i <= s.len(),
        forall|j: int| 0 <= j < i ==> f(#[trigger] s[j]) is None,
        i < s.len() ==> f(s[i]) is Some,
    ensures
        first_some(s, f) == (if i < s.len() {
            f(s[i])
        } else {
            None
        }),
    decreases s.len(),
{
    if s.len() > 0 {
        let r = s.drop_last();
        if i < s.len() - 1 {
            assert forall|j: int| 0 <= j < i implies f(#[trigger] r[j]) is None by {
                assert(r[j] == s[j]);
            }
            assert(r[i] == s[i]);
            lemma_first(r, f, i);
        } else {
            assert forall|j: int| 0 <= j < s.len() - 1 implies f(#[trigger] r[j]) is None by {
                assert(r[j] == s[j]);
            }
            lemma_first(r, f, s.len() - 1);
            assert(i == s.len() ==> f(s[s.len() - 1]) is None);
        }
    }
}

} // verus!
