//! Order statistics: what "the k-th smallest" and "the median" of a series of
//! integers are.

use vstd::prelude::*;

verus! {

/// How many entries of `s` are smaller than `v`.
pub open spec fn count_below(s: Seq<int>, v: int) -> nat
    decreases s.len(),
{
    if s.len() == 0 {
        0
    } else {
        count_below(s.drop_last(), v) + (if s.last() < v {
            1nat
        } else {
            0nat
        })
    }
}

/// The `k`-th smallest entry, counting from zero: the one at index `k` once
/// the series is sorted.
pub open spec fn kth_smallest(s: Seq<int>, k: int) -> int {
    s.sort()[k]
}

/// Twice the median: the middle entry counted twice, or the sum of the two
/// middle ones.
pub open spec fn doubled_median(s: Seq<int>) -> int {
    kth_smallest(s, (s.len() - 1) / 2) + kth_smallest(s, s.len() as int / 2)
}

proof fn lemma_count_is_filter_len(s: Seq<int>, v: int)
    ensures
        count_below(s, v) == s.to_multiset().filter(|x: int| x < v).len(),
    decreases s.len(),
{
    broadcast use vstd::multiset::group_multiset_axioms;

    let below = |x: int| x < v;
    if s.len() == 0 {
        assert(s.to_multiset().filter(below) =~= vstd::multiset::Multiset::empty()) by {
            s.to_multiset_ensures();
        }
    } else {
        let rest = s.drop_last();
        lemma_count_is_filter_len(rest, v);
        assert(s == rest.push(s.last()));
        rest.to_multiset_ensures();
        assert(s.to_multiset() =~= rest.to_multiset().insert(s.last()));
        if s.last() < v {
            assert(s.to_multiset().filter(below) =~= rest.to_multiset().filter(below).insert(
                s.last(),
            ));
        } else {
            assert(s.to_multiset().filter(below) =~= rest.to_multiset().filter(below));
        }
    }
}

/// In a sorted series the entries below `v` come first.
proof fn lemma_sorted_count(t: Seq<int>, v: int, k: int)
    requires
        forall|i: int, j: int| 0 <= i < j < t.len() ==> t[i] <= t[j],
        0 <= k < t.len(),
    ensures
        t[k] < v ==> count_below(t, v) > k,
        t[k] >= v ==> count_below(t, v) <= k,
    decreases t.len(),
{
    let rest = t.drop_last();
    if k < t.len() - 1 {
        lemma_sorted_count(rest, v, k);
        assert(rest[k] == t[k]);
        assert(t[k] <= t.last());
    } else {
        if t.len() > 1 {
            lemma_sorted_count(rest, v, k - 1);
            assert(rest[k - 1] <= t[k]);
        }
        lemma_count_at_most_len(rest, v);
    }
}

pub proof fn lemma_count_at_most_len(s: Seq<int>, v: int)
    ensures
        count_below(s, v) <= s.len(),
    decreases s.len(),
{
    if s.len() > 0 {
        lemma_count_at_most_len(s.drop_last(), v);
    }
}

/// An entry with at most `k` entries below it and more than `k` not above it
/// is the `k`-th smallest.
pub proof fn lemma_rank_pins(s: Seq<int>, k: int, v: int)
    requires
        0 <= k < s.len(),
        count_below(s, v) <= k < count_below(s, v + 1),
    ensures
        kth_smallest(s, k) == v,
{
    let t = s.sort();
    s.lemma_sort_ensures();
    lemma_count_is_filter_len(s, v);
    lemma_count_is_filter_len(t, v);
    lemma_count_is_filter_len(s, v + 1);
    lemma_count_is_filter_len(t, v + 1);
    assert(t.len() == s.len()) by {
        s.to_multiset_ensures();
        t.to_multiset_ensures();
    }
    assert forall|i: int, j: int| 0 <= i < j < t.len() implies t[i] <= t[j] by {
        let leq = |x: int, y: int| x <= y;
        assert(leq(t[i], t[j]));
    }
    lemma_sorted_count(t, v, k);
    lemma_sorted_count(t, v + 1, k);
}

/// Counting goes along with a strictly increasing linear change of scale.
proof fn lemma_scaled_count(s: Seq<int>, t: Seq<int>, a: int, b: int, v: int)
    requires
        a >= 1,
        s.len() == t.len(),
        forall|i: int| 0 <= i < s.len() ==> #[trigger] t[i] == a * s[i] + b,
    ensures
        count_below(t, a * v + b) == count_below(s, v),
        count_below(t, a * v + b + 1) == count_below(s, v + 1),
    decreases s.len(),
{
    if s.len() > 0 {
        lemma_scaled_count(s.drop_last(), t.drop_last(), a, b, v);
        let x = s.last();
        assert(t.last() == a * x + b);
        assert((a * x < a * v) <==> (x < v)) by (nonlinear_arith)
            requires
                a >= 1,
        ;
        assert((a * x < a * v + 1) <==> (x < v + 1)) by (nonlinear_arith)
            requires
                a >= 1,
        ;
    }
}

/// The `k`-th smallest entry goes along with a strictly increasing linear
/// change of scale.
pub proof fn lemma_scaled_rank(s: Seq<int>, t: Seq<int>, a: int, b: int, k: int, v: int)
    requires
        a >= 1,
        s.len() == t.len(),
        forall|i: int| 0 <= i < s.len() ==> #[trigger] t[i] == a * s[i] + b,
        0 <= k < s.len(),
        count_below(s, v) <= k < count_below(s, v + 1),
    ensures
        kth_smallest(t, k) == a * v + b,
{
    lemma_scaled_count(s, t, a, b, v);
    lemma_rank_pins(t, k, a * v + b);
}

} // verus!
