use vstd::prelude::*;

verus! {

/// How many entries of `s` equal `v`.
pub open spec fn count_eq(s: Seq<i32>, v: int) -> nat
    decreases s.len(),
{
    if s.len() == 0 {
        0
    } else {
        count_eq(s.drop_last(), v) + (if s.last() == v {
            1nat
        } else {
            0nat
        })
    }
}

/// How many entries of `s` are at most `k`.
pub open spec fn count_le(s: Seq<i32>, k: int) -> nat
    decreases s.len(),
{
    if s.len() == 0 {
        0
    } else {
        count_le(s.drop_last(), k) + (if s.last() <= k {
            1nat
        } else {
            0nat
        })
    }
}

/// Every entry of `s` lies in `[0, b)`.
pub open spec fn in_range(s: Seq<i32>, b: int) -> bool {
    forall|i: int| 0 <= i < s.len() ==> 0 <= #[trigger] s[i] < b
}

/// `s` is in ascending order.
pub open spec fn is_sorted(s: Seq<i32>) -> bool {
    forall|i: int, j: int| 0 <= i <= j < s.len() ==> s[i] <= s[j]
}

/// Law: a prefix of a sorted sequence is sorted, so keys that `sort_keys`
/// left in order pass `full_verify` for any `n` up to their number.
pub proof fn lemma_sorted_prefix(s: Seq<i32>, n: int)
    requires
        is_sorted(s),
        0 <= n <= s.len(),
    ensures
        is_sorted(s.take(n)),
{
    assert forall|i: int, j: int| 0 <= i <= j < n implies s.take(n)[i] <= s.take(n)[j] by {
        assert(s[i] <= s[j]);
    }
}

/// The entries at most `k` are those at most `k - 1` and those equal to `k`.
pub proof fn lemma_count_le_split(s: Seq<i32>, k: int)
    ensures
        count_le(s, k) == count_le(s, k - 1) + count_eq(s, k),
    decreases s.len(),
{
    if s.len() > 0 {
        lemma_count_le_split(s.drop_last(), k);
    }
}

/// Counts never exceed the length.
pub proof fn lemma_count_bounds(s: Seq<i32>, k: int)
    ensures
        count_eq(s, k) <= s.len(),
        count_le(s, k) <= s.len(),
    decreases s.len(),
{
    if s.len() > 0 {
        lemma_count_bounds(s.drop_last(), k);
    }
}

/// Counting at most `k` grows with `k`.
pub proof fn lemma_count_le_mono(s: Seq<i32>, j: int, k: int)
    requires
        j <= k,
    ensures
        count_le(s, j) <= count_le(s, k),
    decreases s.len(),
{
    if s.len() > 0 {
        lemma_count_le_mono(s.drop_last(), j, k);
    }
}

/// Below the range nothing is counted; at its top everything is.
pub proof fn lemma_count_le_ends(s: Seq<i32>, b: int)
    requires
        in_range(s, b),
    ensures
        count_le(s, -1) == 0,
        count_le(s, b - 1) == s.len(),
        forall|v: int| v < 0 || v >= b ==> count_eq(s, v) == 0,
    decreases s.len(),
{
    if s.len() > 0 {
        let t = s.drop_last();
        assert(in_range(t, b)) by {
            assert forall|i: int| 0 <= i < t.len() implies 0 <= #[trigger] t[i] < b by {
                assert(t[i] == s[i]);
            }
        }
        assert(0 <= s[s.len() - 1] < b);
        lemma_count_le_ends(t, b);
        assert forall|v: int| v < 0 || v >= b implies count_eq(s, v) == 0 by {
            assert(count_eq(t, v) == 0);
        }
    }
}

/// Appending one entry adds one to its own count only.
pub proof fn lemma_count_push(s: Seq<i32>, x: i32, v: int)
    ensures
        count_eq(s.push(x), v) == count_eq(s, v) + (if x == v {
            1nat
        } else {
            0nat
        }),
        count_le(s.push(x), v) == count_le(s, v) + (if x <= v {
            1nat
        } else {
            0nat
        }),
{
    assert(s.push(x).drop_last() =~= s);
}

/// A value that is counted occurs in the sequence.
pub proof fn lemma_count_eq_occurs(s: Seq<i32>, v: int)
    requires
        count_eq(s, v) > 0,
    ensures
        exists|i: int| 0 <= i < s.len() && s[i] == v,
    decreases s.len(),
{
    if s.last() != v {
        lemma_count_eq_occurs(s.drop_last(), v);
        let i = choose|i: int| 0 <= i < s.drop_last().len() && s.drop_last()[i] == v;
        assert(s[i] == v);
    }
}

/// `count_eq` is the multiplicity of the value in the multiset of the sequence.
pub proof fn lemma_count_eq_multiset(s: Seq<i32>, v: i32)
    ensures
        count_eq(s, v as int) == s.to_multiset().count(v),
    decreases s.len(),
{
    broadcast use vstd::seq_lib::group_to_multiset_ensures;

    if s.len() == 0 {
        assert(s.to_multiset() =~= vstd::multiset::Multiset::<i32>::empty());
    } else {
        let t = s.drop_last();
        lemma_count_eq_multiset(t, v);
        assert(t.push(s.last()) =~= s);
    }
}

/// Two sequences with the same counts have the same multiset of entries.
pub proof fn lemma_same_counts_same_multiset(s: Seq<i32>, t: Seq<i32>)
    requires
        forall|v: int| count_eq(s, v) == count_eq(t, v),
    ensures
        s.to_multiset() == t.to_multiset(),
{
    assert forall|v: i32| s.to_multiset().count(v) == t.to_multiset().count(v) by {
        lemma_count_eq_multiset(s, v);
        lemma_count_eq_multiset(t, v);
        assert(count_eq(s, v as int) == count_eq(t, v as int));
    }
    assert(s.to_multiset() =~= t.to_multiset());
}

} // verus!
