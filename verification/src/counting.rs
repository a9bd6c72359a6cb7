//! The counting-sort engine: a frequency table over a bounded alphabet of
//! unsigned integers, and the linear-time sort built on it.

use vstd::prelude::*;

verus! {

use crate::errors::SortError;
use vstd::arithmetic::power2::{pow2, lemma_pow2_unfold, lemma_pow2_strictly_increases};
use vstd::multiset::Multiset;

/// How many times the integer `v` occurs in `s`.
pub open spec fn occurrences(s: Seq<u32>, v: int) -> nat
    decreases s.len(),
{
    if s.len() == 0 {
        0
    } else {
        occurrences(s.drop_last(), v) + (if s.last() as int == v {
            1nat
        } else {
            0nat
        })
    }
}

/// The sequence is in non-decreasing order.
pub open spec fn is_sorted(s: Seq<u32>) -> bool {
    forall|i: int, j: int| 0 <= i <= j < s.len() ==> s[i] <= s[j]
}

/// Every element lies strictly below the bound `k`.
pub open spec fn all_below(s: Seq<u32>, k: int) -> bool {
    forall|i: int| 0 <= i < s.len() ==> s[i] < k
}

/// Sum of the first `n` entries of a frequency table.
pub open spec fn sum_first(s: Seq<usize>, n: int) -> int
    decreases n,
{
    if n <= 0 {
        0
    } else {
        sum_first(s, n - 1) + s[n - 1]
    }
}

/// Sum of all entries of a frequency table.
pub open spec fn table_sum(s: Seq<usize>) -> int {
    sum_first(s, s.len() as int)
}

/// The exclusive bound on values of word width `w`, following the
/// range-doubling convention: `2 * 2^w`.
pub open spec fn width_bound(w: u8) -> int {
    2 * pow2(w as nat) as int
}

proof fn lemma_occurrences_push(s: Seq<u32>, x: u32, v: int)
    ensures
        occurrences(s.push(x), v) == occurrences(s, v) + (if x as int == v {
            1nat
        } else {
            0nat
        }),
{
    assert(s.push(x).drop_last() =~= s);
    assert(s.push(x).last() == x);
}

proof fn lemma_occurrences_le_len(s: Seq<u32>, v: int)
    ensures
        occurrences(s, v) <= s.len(),
    decreases s.len(),
{
    if s.len() > 0 {
        lemma_occurrences_le_len(s.drop_last(), v);
    }
}

/// A value that every element stays strictly below occurs zero times,
/// as does any negative value.
proof fn lemma_occurrences_outside(s: Seq<u32>, k: int, v: int)
    requires
        all_below(s, k),
        v >= k || v < 0,
    ensures
        occurrences(s, v) == 0,
    decreases s.len(),
{
    if s.len() > 0 {
        assert(all_below(s.drop_last(), k)) by {
            assert forall|i: int| 0 <= i < s.drop_last().len() implies s.drop_last()[i] < k by {
                assert(s.drop_last()[i] == s[i]);
            }
        }
        lemma_occurrences_outside(s.drop_last(), k, v);
        assert(s.last() == s[s.len() - 1]);
    }
}

/// A value that occurs at all is the value of some element, so it fits in 32 bits.
proof fn lemma_occurrences_value_fits(s: Seq<u32>, v: int)
    requires
        occurrences(s, v) > 0,
    ensures
        0 <= v <= u32::MAX,
    decreases s.len(),
{
    if s.len() > 0 {
        if s.last() as int == v {
        } else {
            lemma_occurrences_value_fits(s.drop_last(), v);
        }
    }
}

/// Counting occurrences agrees with the multiset view of the sequence.
proof fn lemma_occurrences_multiset(s: Seq<u32>, v: u32)
    ensures
        s.to_multiset().count(v) == occurrences(s, v as int),
    decreases s.len(),
{
    broadcast use vstd::seq_lib::group_to_multiset_ensures;
    broadcast use vstd::multiset::group_multiset_axioms;

    if s.len() == 0 {
        assert(s.to_multiset() =~= Multiset::<u32>::empty());
    } else {
        lemma_occurrences_multiset(s.drop_last(), v);
        assert(s =~= s.drop_last().push(s.last()));
        assert(s.to_multiset() =~= s.drop_last().to_multiset().insert(s.last()));
    }
}

/// Two sequences in which every value occurs equally often hold the same multiset.
proof fn lemma_equal_occurrences_multiset(a: Seq<u32>, b: Seq<u32>)
    requires
        forall|v: int| occurrences(a, v) == occurrences(b, v),
    ensures
        a.to_multiset() == b.to_multiset(),
{
    broadcast use vstd::multiset::group_multiset_axioms;

    assert forall|v: u32| a.to_multiset().count(v) == b.to_multiset().count(v) by {
        lemma_occurrences_multiset(a, v);
        lemma_occurrences_multiset(b, v);
    }
    assert(a.to_multiset() =~= b.to_multiset());
}

/// The sum of a prefix depends only on the entries inside the prefix.
proof fn lemma_sum_first_congruence(a: Seq<usize>, b: Seq<usize>, n: int)
    requires
        forall|i: int| 0 <= i < n ==> a[i] == b[i],
    ensures
        sum_first(a, n) == sum_first(b, n),
    decreases n,
{
    if n > 0 {
        lemma_sum_first_congruence(a, b, n - 1);
    }
}

/// Raising one entry raises the prefix sum by the same amount.
proof fn lemma_sum_first_update(s: Seq<usize>, j: int, x: usize, n: int)
    requires
        0 <= j < n <= s.len(),
    ensures
        sum_first(s.update(j, x), n) == sum_first(s, n) - s[j] + x,
    decreases n,
{
    if j == n - 1 {
        lemma_sum_first_congruence(s.update(j, x), s, n - 1);
    } else {
        lemma_sum_first_update(s, j, x, n - 1);
    }
}

/// A table of zero entries sums to zero.
proof fn lemma_sum_first_zero(s: Seq<usize>, n: int)
    requires
        forall|i: int| 0 <= i < n ==> s[i] == 0,
    ensures
        sum_first(s, n) == 0,
    decreases n,
{
    if n > 0 {
        lemma_sum_first_zero(s, n - 1);
    }
}

/// The frequency table of `vals` over the alphabet `[0, k)`: entry `v`
/// holds how often `v` occurs in `vals`, and the entries sum to the length
/// of `vals`.  A value at or above `k` is reported as `OutOfRangeValue`.
pub fn frequency_table(vals: &Vec<u32>, k: usize) -> (r: Result<Vec<usize>, SortError>)
    ensures
        r matches Ok(t) ==> {
            &&& t@.len() == k
            &&& forall|v: int| 0 <= v < k ==> t@[v] == occurrences(vals@, v)
            &&& table_sum(t@) == vals@.len()
            &&& all_below(vals@, k as int)
        },
        r is Ok <==> all_below(vals@, k as int),
        r is Err ==> r == Err::<Vec<usize>, SortError>(SortError::OutOfRangeValue),
{
    let mut counts: Vec<usize> = Vec::new();
    while counts.len() < k
        invariant
            counts@.len() <= k,
            forall|v: int| 0 <= v < counts@.len() ==> counts@[v] == 0,
        decreases k - counts@.len(),
    {
        counts.push(0);
    }
    proof {
        lemma_sum_first_zero(counts@, k as int);
    }
    let mut idx: usize = 0;
    while idx < vals.len()
        invariant
            idx <= vals@.len(),
            counts@.len() == k,
            forall|v: int| 0 <= v < k ==> counts@[v] == occurrences(vals@.take(idx as int), v),
            table_sum(counts@) == idx,
            all_below(vals@.take(idx as int), k as int),
        decreases vals@.len() - idx,
    {
        let val = vals[idx];
        if (val as usize) >= k {
            assert(vals@[idx as int] >= k);
            return Err(SortError::OutOfRangeValue);
        }
        let vi = val as usize;
        proof {
            assert(vals@.take(idx as int + 1) =~= vals@.take(idx as int).push(vals@[idx as int]));
            lemma_occurrences_le_len(vals@.take(idx as int), vi as int);
            lemma_sum_first_update(counts@, vi as int, (counts@[vi as int] + 1) as usize, k as int);
            assert forall|v: int| 0 <= v < k implies occurrences(
                vals@.take(idx as int + 1),
                v,
            ) == occurrences(vals@.take(idx as int), v) + (if v == vi as int {
                1nat
            } else {
                0nat
            }) by {
                lemma_occurrences_push(vals@.take(idx as int), vals@[idx as int], v);
            }
        }
        let c = counts[vi];
        counts[vi] = c + 1;
        idx = idx + 1;
    }
    proof {
        assert(vals@.take(vals@.len() as int) =~= vals@);
    }
    Ok(counts)
}

/// Appending an element no smaller than everything present keeps the
/// sequence sorted.
proof fn lemma_sorted_push(s: Seq<u32>, x: u32)
    requires
        is_sorted(s),
        forall|i: int| 0 <= i < s.len() ==> s[i] <= x,
    ensures
        is_sorted(s.push(x)),
{
    assert forall|i: int, j: int| 0 <= i <= j < s.push(x).len() implies s.push(x)[i] <= s.push(x)[j] by {
        if j < s.len() {
            assert(s.push(x)[i] == s[i] && s.push(x)[j] == s[j]);
        } else {
            assert(s.push(x)[j] == x);
            if i < s.len() {
                assert(s.push(x)[i] == s[i]);
            }
        }
    }
}

/// Counting sort proper: a new vector holding the same multiset of values
/// as `vals`, in non-decreasing order, built through a frequency table over
/// the alphabet `[0, k)`.  A value at or above `k` is reported as
/// `OutOfRangeValue`; nothing is sorted in that case.
pub fn counting_sort(vals: &Vec<u32>, k: usize) -> (r: Result<Vec<u32>, SortError>)
    ensures
        r matches Ok(out) ==> {
            &&& is_sorted(out@)
            &&& out@.to_multiset() == vals@.to_multiset()
            &&& out@.len() == vals@.len()
            &&& all_below(out@, k as int)
            &&& all_below(vals@, k as int)
        },
        r is Ok <==> all_below(vals@, k as int),
        r is Err ==> r == Err::<Vec<u32>, SortError>(SortError::OutOfRangeValue),
{
    let counts = match frequency_table(vals, k) {
        Ok(c) => c,
        Err(e) => {
            return Err(e);
        },
    };
    let mut out: Vec<u32> = Vec::new();
    let mut ci: usize = 0;
    while ci < k
        invariant
            ci <= k,
            counts@.len() == k,
            forall|v: int| 0 <= v < k ==> counts@[v] == occurrences(vals@, v),
            all_below(vals@, k as int),
            is_sorted(out@),
            forall|i: int| 0 <= i < out@.len() ==> (out@[i] as int) < ci,
            forall|v: int| 0 <= v < ci ==> occurrences(out@, v) == counts@[v],
            forall|v: int| v >= ci ==> occurrences(out@, v) == 0,
        decreases k - ci,
    {
        let cc = counts[ci];
        let mut j: usize = 0;
        while j < cc
            invariant
                j <= cc,
                ci < k,
                counts@.len() == k,
                cc == counts@[ci as int],
                forall|v: int| 0 <= v < k ==> counts@[v] == occurrences(vals@, v),
                is_sorted(out@),
                forall|i: int| 0 <= i < out@.len() ==> (out@[i] as int) <= ci,
                forall|v: int| 0 <= v < ci ==> occurrences(out@, v) == counts@[v],
                occurrences(out@, ci as int) == j,
                forall|v: int| v > ci ==> occurrences(out@, v) == 0,
            decreases cc - j,
        {
            let ghost prev = out@;
            proof {
                assert(occurrences(vals@, ci as int) > 0);
                lemma_occurrences_value_fits(vals@, ci as int);
                lemma_sorted_push(prev, ci as u32);
            }
            out.push(ci as u32);
            proof {
                assert(out@ == prev.push(ci as u32));
                assert forall|v: int| occurrences(out@, v) == occurrences(prev, v) + (if v
                    == ci as int {
                    1nat
                } else {
                    0nat
                }) by {
                    lemma_occurrences_push(prev, ci as u32, v);
                }
            }
            j = j + 1;
        }
        ci = ci + 1;
    }
    proof {
        assert forall|v: int| occurrences(out@, v) == occurrences(vals@, v) by {
            if v < 0 {
                lemma_occurrences_outside(out@, k as int, v);
                lemma_occurrences_outside(vals@, k as int, v);
            } else if v >= k {
                lemma_occurrences_outside(vals@, k as int, v);
            }
        }
        lemma_equal_occurrences_multiset(out@, vals@);
        broadcast use vstd::seq_lib::group_to_multiset_ensures;

        assert(out@.len() == out@.to_multiset().len());
        assert(vals@.len() == vals@.to_multiset().len());
    }
    Ok(out)
}

/// The exclusive bound `2 * 2^w` on values of word width `w`, or
/// `InvalidArgument` where that bound does not fit in 64 bits.
pub fn bound_for_width(w: u8) -> (r: Result<u64, SortError>)
    ensures
        r matches Ok(k) ==> k == width_bound(w),
        r is Ok <==> width_bound(w) <= u64::MAX,
        r is Err ==> r == Err::<u64, SortError>(SortError::InvalidArgument),
{
    proof {
        vstd::arithmetic::power2::lemma2_to64();
    }
    let mut k: u64 = 2;
    let mut i: u8 = 0;
    while i < w
        invariant
            i <= w,
            k == 2 * pow2(i as nat),
        decreases w - i,
    {
        if k > u64::MAX / 2 {
            proof {
                lemma_pow2_unfold((i + 1) as nat);
                if ((i + 1) as nat) < (w as nat) {
                    lemma_pow2_strictly_increases((i + 1) as nat, w as nat);
                }
            }
            return Err(SortError::InvalidArgument);
        }
        k = k * 2;
        i = i + 1;
        proof {
            lemma_pow2_unfold(i as nat);
        }
    }
    Ok(k)
}

/// Sorts `vals` by counting, deriving the bound from the word width `w` as
/// `2 * 2^w`.  A bound that does not fit the machine's addressable range is
/// reported as `InvalidArgument`, a value at or above the bound as
/// `OutOfRangeValue`.
pub fn count_and_sort(vals: Vec<u32>, w: u8) -> (r: Result<Vec<u32>, SortError>)
    ensures
        r matches Ok(out) ==> {
            &&& is_sorted(out@)
            &&& out@.to_multiset() == vals@.to_multiset()
            &&& out@.len() == vals@.len()
            &&& all_below(out@, width_bound(w))
            &&& all_below(vals@, width_bound(w))
        },
        r is Ok <==> width_bound(w) <= usize::MAX && all_below(vals@, width_bound(w)),
        r == Err::<Vec<u32>, SortError>(SortError::InvalidArgument) <==> width_bound(w)
            > usize::MAX,
        r == Err::<Vec<u32>, SortError>(SortError::OutOfRangeValue) <==> (width_bound(w)
            <= usize::MAX && !all_below(vals@, width_bound(w))),
{
    let k64 = match bound_for_width(w) {
        Ok(k) => k,
        Err(e) => {
            return Err(e);
        },
    };
    if k64 > usize::MAX as u64 {
        return Err(SortError::InvalidArgument);
    }
    counting_sort(&vals, k64 as usize)
}

/// Every adjacent pair of a sorted sequence is in order.
pub proof fn lemma_sorted_adjacent(s: Seq<u32>)
    requires
        is_sorted(s),
    ensures
        forall|i: int| 0 <= i && i + 1 < s.len() ==> #[trigger] s[i] <= s[i + 1],
{
}

/// Two sorted sequences holding the same multiset are the same sequence.
/// In particular, sorting an already-sorted sequence hands it back
/// unchanged: the sorted permutation of a multiset is unique.
pub proof fn lemma_sorted_permutation_unique(a: Seq<u32>, b: Seq<u32>)
    requires
        is_sorted(a),
        is_sorted(b),
        a.to_multiset() == b.to_multiset(),
    ensures
        a == b,
{
    let leq = |x: u32, y: u32| x <= y;
    assert(vstd::relations::sorted_by(a, leq)) by {
        assert forall|i: int, j: int| 0 <= i < j < a.len() implies #[trigger] leq(a[i], a[j]) by {
            assert(a[i] <= a[j]);
        }
    }
    assert(vstd::relations::sorted_by(b, leq)) by {
        assert forall|i: int, j: int| 0 <= i < j < b.len() implies #[trigger] leq(b[i], b[j]) by {
            assert(b[i] <= b[j]);
        }
    }
    assert(vstd::relations::total_ordering(leq));
    vstd::seq_lib::lemma_sorted_unique(a, b, leq);
    assert(a =~= b);
}

/// Rounds a word width up to the nearest machine integer width, or 0 where
/// no width up to 24 bits fits.
pub fn real_wordsize(ww: i8) -> (r: i8)
    ensures
        ww <= 8 ==> r == 8,
        8 < ww <= 16 ==> r == 16,
        16 < ww <= 24 ==> r == 32,
        ww > 24 ==> r == 0,
{
    if ww <= 8 {
        8
    } else if ww <= 16 {
        16
    } else if ww <= 24 {
        32
    } else {
        0
    }
}

} // verus!
