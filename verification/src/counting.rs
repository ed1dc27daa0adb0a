//! Counting the entries of a sequence, and what two sequences with the same
//! entries, each as often in one as in the other, have in common.

use vstd::prelude::*;

verus! {

/// The number of entries of `s` of which `p` holds.
pub open spec fn count_if<T>(s: Seq<T>, p: spec_fn(T) -> bool) -> nat
    decreases s.len(),
{
    if s.len() == 0 {
        0
    } else {
        count_if(s.drop_last(), p) + if p(s.last()) { 1nat } else { 0nat }
    }
}

/// The property of being equal to `x`.
pub open spec fn is_value<T>(x: T) -> spec_fn(T) -> bool {
    |y: T| y == x
}

/// The property that `p` holds of the image under `f`.
pub open spec fn after<A, B>(f: spec_fn(A) -> B, p: spec_fn(B) -> bool) -> spec_fn(A) -> bool {
    |a: A| p(f(a))
}

/// How often `x` occurs in `s`.
pub open spec fn count<T>(s: Seq<T>, x: T) -> nat {
    count_if(s, is_value(x))
}

/// Two properties that agree on every entry are counted alike.
pub proof fn lemma_count_if_congruent<T>(s: Seq<T>, p: spec_fn(T) -> bool, q: spec_fn(T) -> bool)
    requires
        forall|i: int| 0 <= i < s.len() ==> p(#[trigger] s[i]) == q(s[i]),
    ensures
        count_if(s, p) == count_if(s, q),
    decreases s.len(),
{
    if s.len() > 0 {
        assert(p(s[s.len() - 1]) == q(s[s.len() - 1]));
        assert forall|i: int| 0 <= i < s.drop_last().len() implies p(#[trigger] s.drop_last()[i])
            == q(s.drop_last()[i]) by {
            assert(s.drop_last()[i] == s[i]);
        }
        lemma_count_if_congruent(s.drop_last(), p, q);
    }
}

/// A property that holds of no entry is counted zero times.
pub proof fn lemma_count_if_none<T>(s: Seq<T>, p: spec_fn(T) -> bool)
    requires
        forall|i: int| 0 <= i < s.len() ==> !p(#[trigger] s[i]),
    ensures
        count_if(s, p) == 0,
    decreases s.len(),
{
    if s.len() > 0 {
        assert(!p(s[s.len() - 1]));
        assert forall|i: int| 0 <= i < s.drop_last().len() implies !p(#[trigger] s.drop_last()[i]) by {
            assert(s.drop_last()[i] == s[i]);
        }
        lemma_count_if_none(s.drop_last(), p);
    }
}

/// Taking one entry out lowers the count by one if the property holds of it,
/// and leaves the count as it is otherwise.
pub proof fn lemma_count_if_remove<T>(s: Seq<T>, j: int, p: spec_fn(T) -> bool)
    requires
        0 <= j < s.len(),
    ensures
        count_if(s, p) == count_if(s.remove(j), p) + if p(s[j]) { 1nat } else { 0nat },
    decreases s.len(),
{
    if j == s.len() - 1 {
        assert(s.remove(j) =~= s.drop_last());
    } else {
        assert(s.remove(j).drop_last() =~= s.drop_last().remove(j));
        assert(s.remove(j).last() == s.last());
        lemma_count_if_remove(s.drop_last(), j, p);
    }
}

/// A property that is counted at least once holds of some entry.
pub proof fn lemma_count_if_some<T>(s: Seq<T>, p: spec_fn(T) -> bool) -> (j: int)
    requires
        count_if(s, p) > 0,
    ensures
        0 <= j < s.len(),
        p(s[j]),
    decreases s.len(),
{
    if p(s.last()) {
        s.len() - 1
    } else {
        lemma_count_if_some(s.drop_last(), p)
    }
}

/// Counting in the image of a sequence is counting in the sequence itself.
pub proof fn lemma_count_if_map<A, B>(s: Seq<A>, f: spec_fn(A) -> B, p: spec_fn(B) -> bool)
    ensures
        count_if(s.map_values(f), p) == count_if(s, after(f, p)),
    decreases s.len(),
{
    if s.len() > 0 {
        assert(s.map_values(f).drop_last() =~= s.drop_last().map_values(f));
        lemma_count_if_map(s.drop_last(), f, p);
    }
}

/// Where `f` sends no entry of `s` other than `x` to the image of `x`, the
/// image of `x` occurs in the image of `s` as often as `x` occurs in `s`.
pub proof fn lemma_count_map_injective<A, B>(s: Seq<A>, f: spec_fn(A) -> B, x: A)
    requires
        forall|i: int| 0 <= i < s.len() && f(#[trigger] s[i]) == f(x) ==> s[i] == x,
    ensures
        count(s.map_values(f), f(x)) == count(s, x),
{
    lemma_count_if_map(s, f, is_value(f(x)));
    lemma_count_if_congruent(s, after(f, is_value(f(x))), is_value(x));
}

/// Two sequences in which every value occurs equally often have the same
/// length, and every property is counted alike in them.
pub proof fn lemma_same_counts<T>(s: Seq<T>, t: Seq<T>, p: spec_fn(T) -> bool)
    requires
        forall|x: T| #[trigger] count(s, x) == count(t, x),
    ensures
        s.len() == t.len(),
        count_if(s, p) == count_if(t, p),
    decreases s.len(),
{
    if s.len() == 0 {
        if t.len() > 0 {
            assert(count(s, t.last()) == count(t, t.last()));
            assert(is_value(t.last())(t.last()));
        }
    } else {
        let x0 = s.last();
        assert(count(s, x0) == count(t, x0));
        assert(is_value(x0)(x0));
        let j = lemma_count_if_some(t, is_value(x0));
        assert(t[j] == x0);
        assert forall|x: T| #[trigger] count(s.drop_last(), x) == count(t.remove(j), x) by {
            assert(count(s, x) == count(t, x));
            lemma_count_if_remove(t, j, is_value(x));
        }
        lemma_same_counts(s.drop_last(), t.remove(j), p);
        lemma_count_if_remove(t, j, p);
    }
}

} // verus!
