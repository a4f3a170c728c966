//! Sums of multisets over the elements of a sequence.
//!
//! A join is such a sum, over the rows of a table and over the pairs of a
//! relation. What a sum comes to does not depend on the order of the sequence,
//! which is why every order of probing and merging gives the same rows.

use vstd::multiset::*;
use vstd::prelude::*;
use vstd::seq_lib::*;

verus! {

/// The multisets `f(x)` of all elements `x` of `s`, added up.
pub open spec fn sum<A, B>(s: Seq<A>, f: spec_fn(A) -> Multiset<B>) -> Multiset<B>
    decreases s.len(),
{
    if s.len() == 0 {
        Multiset::empty()
    } else {
        sum(s.drop_last(), f).add(f(s.last()))
    }
}

/// One more element adds what it gives.
pub proof fn lemma_sum_push<A, B>(s: Seq<A>, x: A, f: spec_fn(A) -> Multiset<B>)
    ensures
        sum(s.push(x), f) == sum(s, f).add(f(x)),
{
    assert(s.push(x).drop_last() =~= s);
}

/// The sum over two sequences put together is the sum of the two sums.
pub proof fn lemma_sum_concat<A, B>(s1: Seq<A>, s2: Seq<A>, f: spec_fn(A) -> Multiset<B>)
    ensures
        sum(s1 + s2, f) == sum(s1, f).add(sum(s2, f)),
    decreases s2.len(),
{
    if s2.len() == 0 {
        assert(s1 + s2 =~= s1);
        assert(sum(s1, f).add(Multiset::empty()) =~= sum(s1, f));
    } else {
        lemma_sum_concat(s1, s2.drop_last(), f);
        assert((s1 + s2).drop_last() =~= s1 + s2.drop_last());
        assert((s1 + s2).last() == s2.last());
        assert(sum(s1, f).add(sum(s2.drop_last(), f)).add(f(s2.last())) =~= sum(s1, f).add(
            sum(s2.drop_last(), f).add(f(s2.last())),
        ));
    }
}

/// The sum over a sequence is the sum without one element, and what that element
/// gives.
pub proof fn lemma_sum_remove<A, B>(s: Seq<A>, k: int, f: spec_fn(A) -> Multiset<B>)
    requires
        0 <= k < s.len(),
    ensures
        sum(s, f) == sum(s.remove(k), f).add(f(s[k])),
{
    let a = s.take(k);
    let b = s.skip(k + 1);
    assert(s =~= a.push(s[k]) + b);
    assert(s.remove(k) =~= a + b);
    lemma_sum_concat(a.push(s[k]), b, f);
    lemma_sum_concat(a, b, f);
    lemma_sum_push(a, s[k], f);
    assert(sum(a, f).add(f(s[k])).add(sum(b, f)) =~= sum(a, f).add(sum(b, f)).add(f(s[k])));
}

/// A sum does not depend on the order of the elements.
pub proof fn lemma_sum_perm<A, B>(s1: Seq<A>, s2: Seq<A>, f: spec_fn(A) -> Multiset<B>)
    requires
        s1.to_multiset() == s2.to_multiset(),
    ensures
        sum(s1, f) == sum(s2, f),
    decreases s1.len(),
{
    broadcast use group_to_multiset_ensures;

    assert(s1.len() == s1.to_multiset().len());
    assert(s2.len() == s2.to_multiset().len());
    if s1.len() > 0 {
        let x = s1.last();
        let s1p = s1.drop_last();
        assert(s1 =~= s1p.push(x));
        assert(s1.to_multiset() =~= s1p.to_multiset().insert(x));
        assert(s2.to_multiset().count(x) > 0);
        assert(s2.contains(x));
        let k = choose|k: int| 0 <= k < s2.len() && s2[k] == x;
        let s2p = s2.remove(k);
        assert(s2p.to_multiset() =~= s2.to_multiset().remove(x));
        assert(s1p.to_multiset() =~= s1.to_multiset().remove(x));
        lemma_sum_perm(s1p, s2p, f);
        lemma_sum_remove(s2, k, f);
    }
}

/// Two functions that agree on the elements of `s` have the same sum over it.
pub proof fn lemma_sum_pointwise<A, B>(
    s: Seq<A>,
    f: spec_fn(A) -> Multiset<B>,
    g: spec_fn(A) -> Multiset<B>,
)
    requires
        forall|k: int| 0 <= k < s.len() ==> f(#[trigger] s[k]) == g(s[k]),
    ensures
        sum(s, f) == sum(s, g),
    decreases s.len(),
{
    if s.len() > 0 {
        lemma_sum_pointwise(s.drop_last(), f, g);
        assert(s.last() == s[s.len() - 1]);
    }
}

/// The sum of two functions is the sum of their sums.
pub proof fn lemma_sum_add<A, B>(
    s: Seq<A>,
    f: spec_fn(A) -> Multiset<B>,
    g: spec_fn(A) -> Multiset<B>,
    h: spec_fn(A) -> Multiset<B>,
)
    requires
        forall|k: int| 0 <= k < s.len() ==> h(#[trigger] s[k]) == f(s[k]).add(g(s[k])),
    ensures
        sum(s, h) == sum(s, f).add(sum(s, g)),
    decreases s.len(),
{
    if s.len() == 0 {
        assert(Multiset::<B>::empty().add(Multiset::empty()) =~= Multiset::<B>::empty());
    } else {
        let d = s.drop_last();
        lemma_sum_add(d, f, g, h);
        assert(s.last() == s[s.len() - 1]);
        assert(sum(d, f).add(sum(d, g)).add(f(s.last()).add(g(s.last()))) =~= sum(d, f).add(
            f(s.last()),
        ).add(sum(d, g).add(g(s.last()))));
    }
}

/// A function of sequences that adds `h(x)` for each element `x` pushed.
pub open spec fn additive<A, B>(
    g: spec_fn(Seq<A>) -> Multiset<B>,
    h: spec_fn(A) -> Multiset<B>,
) -> bool {
    &&& g(Seq::empty()) == Multiset::<B>::empty()
    &&& forall|s: Seq<A>, x: A| #[trigger] g(s.push(x)) == g(s).add(h(x))
}

/// An additive function is the sum of what it adds.
pub proof fn lemma_additive_sum<A, B>(
    g: spec_fn(Seq<A>) -> Multiset<B>,
    h: spec_fn(A) -> Multiset<B>,
    s: Seq<A>,
)
    requires
        additive(g, h),
    ensures
        g(s) == sum(s, h),
    decreases s.len(),
{
    if s.len() == 0 {
        assert(s =~= Seq::empty());
    } else {
        lemma_additive_sum(g, h, s.drop_last());
        assert(s =~= s.drop_last().push(s.last()));
    }
}

/// An additive function does not depend on the order of the elements.
pub proof fn lemma_additive_perm<A, B>(
    g: spec_fn(Seq<A>) -> Multiset<B>,
    h: spec_fn(A) -> Multiset<B>,
    s1: Seq<A>,
    s2: Seq<A>,
)
    requires
        additive(g, h),
        s1.to_multiset() == s2.to_multiset(),
    ensures
        g(s1) == g(s2),
{
    lemma_additive_sum(g, h, s1);
    lemma_additive_sum(g, h, s2);
    lemma_sum_perm(s1, s2, h);
}


/// A sum of empty multisets is empty.
pub proof fn lemma_sum_zero<A, B>(s: Seq<A>, f: spec_fn(A) -> Multiset<B>)
    requires
        forall|k: int| 0 <= k < s.len() ==> f(#[trigger] s[k]) == Multiset::<B>::empty(),
    ensures
        sum(s, f) == Multiset::<B>::empty(),
    decreases s.len(),
{
    if s.len() > 0 {
        lemma_sum_zero(s.drop_last(), f);
        assert(s.last() == s[s.len() - 1]);
        assert(Multiset::<B>::empty().add(Multiset::empty()) =~= Multiset::<B>::empty());
    }
}

/// The empty sequence has the empty multiset.
pub proof fn lemma_empty_multiset<A>()
    ensures
        Seq::<A>::empty().to_multiset() == Multiset::<A>::empty(),
{
    broadcast use group_to_multiset_ensures;

    assert(Seq::<A>::empty().to_multiset().len() == 0);
    assert(Seq::<A>::empty().to_multiset() =~= Multiset::<A>::empty());
}

/// Pushing an element adds it to the multiset.
pub proof fn lemma_push_multiset<A>(s: Seq<A>, x: A)
    ensures
        s.push(x).to_multiset() == s.to_multiset().add(Multiset::singleton(x)),
{
    broadcast use group_to_multiset_ensures;

    assert(s.to_multiset().insert(x) =~= s.to_multiset().add(Multiset::singleton(x)));
}

} // verus!
