//! Bitonic sorting network: sorts payloads by keys with a comparator
//! schedule that depends on the length alone.
use crate::ct::{ct_gt_u64, select_u64};
use crate::tree::is_power_of_two;
use crate::OramBlock;
use vstd::arithmetic::power2::pow2;
use vstd::prelude::*;

verus! {

/// The key and the payload at each index, side by side.
pub open spec fn keyed<T>(keys: Seq<u64>, items: Seq<T>) -> Seq<(u64, T)> {
    Seq::new(keys.len(), |i: int| (keys[i], items[i]))
}

/// `x` is `0* 1* 0*`, its ones exactly at `[a, b)`.
pub open spec fn ones_inside(x: Seq<bool>, a: int, b: int) -> bool {
    &&& 0 <= a <= b <= x.len()
    &&& forall|i: int| 0 <= i < x.len() ==> #[trigger] x[i] == (a <= i < b)
}

/// `x` is `1* 0* 1*`, its zeros exactly at `[a, b)`.
pub open spec fn zeros_inside(x: Seq<bool>, a: int, b: int) -> bool {
    &&& 0 <= a <= b <= x.len()
    &&& forall|i: int| 0 <= i < x.len() ==> #[trigger] x[i] == !(a <= i < b)
}

/// `x` is a bitonic sequence of bits: `0* 1* 0*` or `1* 0* 1*`.
pub open spec fn bitonic_bits(x: Seq<bool>) -> bool {
    exists|a: int, b: int| ones_inside(x, a, b) || zeros_inside(x, a, b)
}

/// The conjunction of the two halves of `x`, entry by entry.
pub open spec fn and_half(x: Seq<bool>, m: int) -> Seq<bool> {
    Seq::new(m as nat, |i: int| x[i] && x[i + m])
}

/// The disjunction of the two halves of `x`, entry by entry.
pub open spec fn or_half(x: Seq<bool>, m: int) -> Seq<bool> {
    Seq::new(m as nat, |i: int| x[i] || x[i + m])
}

/// The half-cleaner on bits of the form `0* 1* 0*`.
proof fn lemma_half_clean_ones_inside(x: Seq<bool>, m: int, a: int, b: int)
    requires
        m >= 1,
        x.len() == 2 * m,
        ones_inside(x, a, b),
    ensures
        bitonic_bits(and_half(x, m)),
        bitonic_bits(or_half(x, m)),
        (forall|i: int| 0 <= i < m ==> !#[trigger] and_half(x, m)[i]) || (forall|i: int|
            0 <= i < m ==> #[trigger] or_half(x, m)[i]),
{
    let l = and_half(x, m);
    let h = or_half(x, m);
    if a < b - m {
        assert(ones_inside(l, a, b - m));
        assert(ones_inside(h, 0, m));
    } else {
        assert(ones_inside(l, 0, 0));
        if b <= m {
            assert(ones_inside(h, a, b));
        } else if a >= m {
            assert(ones_inside(h, a - m, b - m));
        } else if b - m >= a {
            assert(ones_inside(h, 0, m));
        } else {
            assert(zeros_inside(h, b - m, a));
        }
    }
}

/// The half-cleaner on bits of the form `1* 0* 1*`, by complement.
proof fn lemma_half_clean_zeros_inside(x: Seq<bool>, m: int, a: int, b: int)
    requires
        m >= 1,
        x.len() == 2 * m,
        zeros_inside(x, a, b),
    ensures
        bitonic_bits(and_half(x, m)),
        bitonic_bits(or_half(x, m)),
        (forall|i: int| 0 <= i < m ==> !#[trigger] and_half(x, m)[i]) || (forall|i: int|
            0 <= i < m ==> #[trigger] or_half(x, m)[i]),
{
    let y = Seq::new(x.len(), |i: int| !x[i]);
    assert(ones_inside(y, a, b));
    lemma_half_clean_ones_inside(y, m, a, b);
    let l = and_half(x, m);
    let h = or_half(x, m);
    let yl = and_half(y, m);
    let yh = or_half(y, m);
    assert forall|i: int| 0 <= i < m implies #[trigger] l[i] == !yh[i] by {}
    assert forall|i: int| 0 <= i < m implies #[trigger] h[i] == !yl[i] by {}
    let (c, d) = choose|c: int, d: int| ones_inside(yh, c, d) || zeros_inside(yh, c, d);
    if ones_inside(yh, c, d) {
        assert(zeros_inside(l, c, d));
    } else {
        assert(ones_inside(l, c, d));
    }
    let (e, f) = choose|e: int, f: int| ones_inside(yl, e, f) || zeros_inside(yl, e, f);
    if ones_inside(yl, e, f) {
        assert(zeros_inside(h, e, f));
    } else {
        assert(ones_inside(h, e, f));
    }
    if forall|i: int| 0 <= i < m ==> !#[trigger] yl[i] {
        assert forall|i: int| 0 <= i < m implies #[trigger] h[i] by {
            assert(!yl[i]);
        }
    } else {
        assert forall|i: int| 0 <= i < m implies !#[trigger] l[i] by {
            assert(yh[i]);
        }
    }
}

/// The half-cleaner maps a bitonic sequence of bits to two bitonic halves,
/// the conjunction all zeros or the disjunction all ones.
pub proof fn lemma_half_clean(x: Seq<bool>, m: int)
    requires
        m >= 1,
        x.len() == 2 * m,
        bitonic_bits(x),
    ensures
        bitonic_bits(and_half(x, m)),
        bitonic_bits(or_half(x, m)),
        (forall|i: int| 0 <= i < m ==> !#[trigger] and_half(x, m)[i]) || (forall|i: int|
            0 <= i < m ==> #[trigger] or_half(x, m)[i]),
{
    let (a, b) = choose|a: int, b: int| ones_inside(x, a, b) || zeros_inside(x, a, b);
    if ones_inside(x, a, b) {
        lemma_half_clean_ones_inside(x, m, a, b);
    } else {
        lemma_half_clean_zeros_inside(x, m, a, b);
    }
}

/// The key that a comparator puts first: the smaller one when ascending.
pub open spec fn lower(a: u64, b: u64, ascending: bool) -> u64 {
    if ascending == (a <= b) {
        a
    } else {
        b
    }
}

/// The key that a comparator puts second: the larger one when ascending.
pub open spec fn upper(a: u64, b: u64, ascending: bool) -> u64 {
    if ascending == (a <= b) {
        b
    } else {
        a
    }
}

/// Two sequences of pairs, each sorted by its first components, with the same
/// multiset and pairwise distinct first components, are equal.
proof fn lemma_sorted_pairs_unique<T>(s1: Seq<(u64, T)>, s2: Seq<(u64, T)>)
    requires
        s1.to_multiset() == s2.to_multiset(),
        forall|i: int, j: int| 0 <= i <= j < s1.len() ==> #[trigger] s1[i].0 <= #[trigger] s1[j].0,
        forall|i: int, j: int| 0 <= i <= j < s2.len() ==> #[trigger] s2[i].0 <= #[trigger] s2[j].0,
        forall|i: int, j: int| 0 <= i < j < s1.len() ==> #[trigger] s1[i].0 != #[trigger] s1[j].0,
    ensures
        s1 == s2,
    decreases s1.len(),
{
    broadcast use vstd::seq_lib::group_to_multiset_ensures, vstd::multiset::group_multiset_properties;

    assert(s1.len() == s1.to_multiset().len());
    assert(s2.len() == s2.to_multiset().len());
    if s1.len() == 0 {
        assert(s1 =~= s2);
    } else {
        let a = s1[0];
        let b = s2[0];
        s1.to_multiset_ensures();
        s2.to_multiset_ensures();
        assert(s2.contains(b));
        assert(s2.to_multiset().count(b) > 0);
        assert(s1.to_multiset().count(b) > 0);
        assert(s1.contains(b));
        let jb = choose|j: int| 0 <= j < s1.len() && s1[j] == b;
        assert(s1.contains(a));
        assert(s1.to_multiset().count(a) > 0);
        assert(s2.to_multiset().count(a) > 0);
        assert(s2.contains(a));
        let ja = choose|j: int| 0 <= j < s2.len() && s2[j] == a;
        assert(s1[0].0 <= s1[jb].0);
        assert(s2[0].0 <= s2[ja].0);
        if jb != 0 {
            assert(s1[0].0 != s1[jb].0);
        }
        assert(a == b);
        let t1 = s1.drop_first();
        let t2 = s2.drop_first();
        vstd::seq_lib::lemma_multiset_commutative(seq![a], t1);
        vstd::seq_lib::lemma_multiset_commutative(seq![b], t2);
        assert(seq![a] + t1 =~= s1);
        assert(seq![b] + t2 =~= s2);
        assert(t1.to_multiset() =~= s1.to_multiset().remove(a));
        assert(t2.to_multiset() =~= s2.to_multiset().remove(b));
        assert forall|i: int, j: int| 0 <= i <= j < t1.len() implies #[trigger] t1[i].0 <= #[trigger] t1[j].0 by {
            assert(s1[i + 1].0 <= s1[j + 1].0);
        }
        assert forall|i: int, j: int| 0 <= i <= j < t2.len() implies #[trigger] t2[i].0 <= #[trigger] t2[j].0 by {
            assert(s2[i + 1].0 <= s2[j + 1].0);
        }
        assert forall|i: int, j: int| 0 <= i < j < t1.len() implies #[trigger] t1[i].0 != #[trigger] t1[j].0 by {
            assert(s1[i + 1].0 != s1[j + 1].0);
        }
        lemma_sorted_pairs_unique(t1, t2);
        assert(s1 =~= s2);
    }
}

/// With distinct keys, sorting by key has a single outcome. Any two results
/// allowed by the contract of `bitonic_sort_by_keys` on one input are equal,
/// and a stable sort by key, which also orders the keys and keeps the pairs,
/// gives that result too.
pub proof fn lemma_sort_by_distinct_keys_is_unique<T>(
    keys: Seq<u64>,
    items: Seq<T>,
    keys1: Seq<u64>,
    items1: Seq<T>,
    keys2: Seq<u64>,
    items2: Seq<T>,
)
    requires
        items.len() == keys.len(),
        forall|i: int, j: int| 0 <= i < j < keys.len() ==> #[trigger] keys[i] != #[trigger] keys[j],
        keys1.len() == keys.len(),
        items1.len() == keys.len(),
        keys2.len() == keys.len(),
        items2.len() == keys.len(),
        keyed(keys1, items1).to_multiset() == keyed(keys, items).to_multiset(),
        keyed(keys2, items2).to_multiset() == keyed(keys, items).to_multiset(),
        forall|i: int, j: int| 0 <= i <= j < keys1.len() ==> #[trigger] keys1[i] <= #[trigger] keys1[j],
        forall|i: int, j: int| 0 <= i <= j < keys2.len() ==> #[trigger] keys2[i] <= #[trigger] keys2[j],
    ensures
        keys1 == keys2,
        items1 == items2,
{
    broadcast use vstd::seq_lib::group_to_multiset_ensures;

    let orig = keyed(keys, items);
    let p1 = keyed(keys1, items1);
    let p2 = keyed(keys2, items2);
    assert(orig.no_duplicates()) by {
        assert forall|i: int, j: int| 0 <= i < orig.len() && 0 <= j < orig.len() && i != j implies orig[i]
            != orig[j] by {
            if i < j {
                assert(keys[i] != keys[j]);
            } else {
                assert(keys[j] != keys[i]);
            }
        }
    }
    orig.lemma_multiset_has_no_duplicates();
    p1.lemma_multiset_has_no_duplicates_conv();
    assert forall|i: int, j: int| 0 <= i < j < p1.len() implies #[trigger] p1[i].0 != #[trigger] p1[j].0 by {
        p1.to_multiset_ensures();
        orig.to_multiset_ensures();
        assert(p1.contains(p1[i]));
        assert(p1.contains(p1[j]));
        assert(p1.to_multiset().count(p1[i]) > 0);
        assert(p1.to_multiset().count(p1[j]) > 0);
        assert(orig.contains(p1[i]));
        assert(orig.contains(p1[j]));
        let a = choose|a: int| 0 <= a < orig.len() && orig[a] == p1[i];
        let b = choose|b: int| 0 <= b < orig.len() && orig[b] == p1[j];
        assert(p1[i] != p1[j]);
        if a < b {
            assert(keys[a] != keys[b]);
        } else if b < a {
            assert(keys[b] != keys[a]);
        }
    }
    assert forall|i: int, j: int| 0 <= i <= j < p1.len() implies #[trigger] p1[i].0 <= #[trigger] p1[j].0 by {
        assert(keys1[i] <= keys1[j]);
    }
    assert forall|i: int, j: int| 0 <= i <= j < p2.len() implies #[trigger] p2[i].0 <= #[trigger] p2[j].0 by {
        assert(keys2[i] <= keys2[j]);
    }
    lemma_sorted_pairs_unique(p1, p2);
    assert forall|i: int| 0 <= i < keys1.len() implies #[trigger] keys1[i] == keys2[i] by {
        assert(p1[i] == p2[i]);
    }
    assert forall|i: int| 0 <= i < items1.len() implies #[trigger] items1[i] == items2[i] by {
        assert(p1[i] == p2[i]);
    }
    assert(keys1 =~= keys2);
    assert(items1 =~= items2);
}

/// Exchanging two entries of a sequence keeps its multiset.
pub proof fn lemma_swap_keeps_multiset<A>(s: Seq<A>, i: int, j: int)
    requires
        0 <= i < s.len(),
        0 <= j < s.len(),
    ensures
        s.update(i, s[j]).update(j, s[i]).to_multiset() == s.to_multiset(),
{
    broadcast use vstd::seq_lib::group_to_multiset_ensures, vstd::multiset::group_multiset_properties;

    let t = s.update(i, s[j]);
    assert(t.to_multiset() == s.to_multiset().insert(s[j]).remove(s[i]));
    assert(t.update(j, s[i]).to_multiset() == t.to_multiset().insert(s[i]).remove(t[j]));
    if i == j {
        assert(s.update(i, s[j]).update(j, s[i]) =~= s);
    } else {
        assert(t[j] == s[j]);
        assert(s.to_multiset().insert(s[j]).remove(s[i]).insert(s[i]).remove(s[j]) =~= s.to_multiset());
    }
}

/// Orders the entries at `i < j` by key, ascending or descending, with a constant-time swap.
fn compare_and_swap<T: OramBlock>(
    items: &mut Vec<T>,
    keys: &mut Vec<u64>,
    i: usize,
    j: usize,
    ascending: bool,
)
    requires
        old(items)@.len() == old(keys)@.len(),
        i < j < old(keys)@.len(),
    ensures
        final(items)@.len() == old(items)@.len(),
        final(keys)@.len() == old(keys)@.len(),
        keyed(final(keys)@, final(items)@).to_multiset() == keyed(old(keys)@, old(items)@).to_multiset(),
        final(items)@.to_multiset() == old(items)@.to_multiset(),
        final(keys)@.to_multiset() == old(keys)@.to_multiset(),
        final(keys)@[i as int] == lower(old(keys)@[i as int], old(keys)@[j as int], ascending),
        final(keys)@[j as int] == upper(old(keys)@[i as int], old(keys)@[j as int], ascending),
        forall|k: int|
            0 <= k < final(keys)@.len() && k != i && k != j ==> final(keys)@[k] == old(keys)@[k]
                && final(items)@[k] == old(items)@[k],
{
    let ki = keys[i];
    let kj = keys[j];
    let up = ct_gt_u64(ki, kj);
    let down = ct_gt_u64(kj, ki);
    let swap = (ascending && up) || (!ascending && down);
    let ti = items[i];
    let tj = items[j];
    let ghost before = keyed(keys@, items@);
    let ghost items_before = items@;
    let ghost keys_before = keys@;
    keys.set(i, select_u64(ki, kj, swap));
    keys.set(j, select_u64(kj, ki, swap));
    items.set(i, T::conditional_select(&ti, &tj, swap));
    items.set(j, T::conditional_select(&tj, &ti, swap));
    proof {
        lemma_swap_keeps_multiset(before, i as int, j as int);
        lemma_swap_keeps_multiset(items_before, i as int, j as int);
        lemma_swap_keeps_multiset(keys_before, i as int, j as int);
        if swap {
            assert(keys@ =~= keys_before.update(i as int, keys_before[j as int]).update(
                j as int,
                keys_before[i as int],
            ));
            assert(items@ =~= items_before.update(i as int, items_before[j as int]).update(
                j as int,
                items_before[i as int],
            ));
            assert(keyed(keys@, items@) =~= before.update(i as int, before[j as int]).update(
                j as int,
                before[i as int],
            ));
        } else {
            assert(keys@ =~= keys_before);
            assert(items@ =~= items_before);
            assert(keyed(keys@, items@) =~= before);
        }
    }
}

/// The largest power of two strictly below `n`.
fn greatest_power_of_two_below(n: usize) -> (r: usize)
    requires
        n > 1,
    ensures
        0 < r < n,
        n <= 2 * r,
        is_power_of_two(r as int),
        is_power_of_two(n as int) ==> n == 2 * r,
{
    let mut k: usize = 1;
    let ghost e: nat = 0;
    proof {
        vstd::arithmetic::power2::lemma2_to64();
    }
    while k < n - k
        invariant
            0 < k < n,
            k == pow2(e),
        decreases n - k,
    {
        proof {
            vstd::arithmetic::power2::lemma_pow2_adds(e, 1);
            vstd::arithmetic::power2::lemma2_to64();
        }
        k = k + k;
        proof {
            e = e + 1;
        }
    }
    proof {
        vstd::arithmetic::power2::lemma_pow2_adds(e, 1);
        vstd::arithmetic::power2::lemma2_to64();
        if is_power_of_two(n as int) {
            let j = choose|j: nat| pow2(j) == n;
            if j <= e {
                if j < e {
                    vstd::arithmetic::power2::lemma_pow2_strictly_increases(j, e);
                }
            } else if j > e + 1 {
                vstd::arithmetic::power2::lemma_pow2_strictly_increases(e + 1, j);
            }
        }
    }
    k
}

/// The bits of the keys of `[lo, lo + n)` at or above `t`, followed by `pad`,
/// `len` of them in all.
pub open spec fn bits(keys: Seq<u64>, t: u64, lo: int, n: int, pad: bool, len: int) -> Seq<bool> {
    Seq::new(len as nat, |i: int| if i < n { keys[lo + i] >= t } else { pad })
}

/// Against the threshold `t`, the keys of `[lo, lo + n)` are sorted: the
/// ones at or above `t` come last when ascending, first when descending.
pub open spec fn sorted_at(keys: Seq<u64>, t: u64, lo: int, n: int, ascending: bool) -> bool {
    exists|k: int| #[trigger] split_at(keys, t, lo, n, ascending, k)
}

/// Against the threshold `t`, the keys of `[lo, lo + n)` change side at `lo + k`.
pub open spec fn split_at(keys: Seq<u64>, t: u64, lo: int, n: int, ascending: bool, k: int) -> bool {
    &&& 0 <= k <= n
    &&& forall|j: int|
        lo <= j < lo + n ==> (#[trigger] keys[j] >= t) == if ascending {
            j >= lo + k
        } else {
            j < lo + k
        }
}

/// Every key of `[lo, lo + n)` is below `t`.
pub open spec fn all_below(keys: Seq<u64>, t: u64, lo: int, n: int) -> bool {
    forall|j: int| lo <= j < lo + n ==> #[trigger] keys[j] < t
}

/// Every key of `[lo, lo + n)` is at or above `t`.
pub open spec fn all_at_least(keys: Seq<u64>, t: u64, lo: int, n: int) -> bool {
    forall|j: int| lo <= j < lo + n ==> #[trigger] keys[j] >= t
}

/// Against the threshold `t`, the range `[lo, lo + n)` is ready for a merge:
/// its bits are bitonic, and stay so when padded with the bits of keys that
/// sort last, unless `n` is a power of two.
pub open spec fn mergeable(keys: Seq<u64>, t: u64, lo: int, n: int, ascending: bool) -> bool {
    n <= 1 || (bitonic_bits(bits(keys, t, lo, n, ascending, n)) && (is_power_of_two(n) || forall|p: int|
        p >= 0 ==> #[trigger] bitonic_bits(bits(keys, t, lo, n, ascending, n + p))))
}

/// A prefix of bitonic bits is bitonic.
proof fn lemma_bitonic_prefix(x: Seq<bool>, k: int)
    requires
        bitonic_bits(x),
        0 <= k <= x.len(),
    ensures
        bitonic_bits(x.subrange(0, k)),
{
    let (a, b) = choose|a: int, b: int| ones_inside(x, a, b) || zeros_inside(x, a, b);
    let a2 = if a < k { a } else { k };
    let b2 = if b < k { b } else { k };
    if ones_inside(x, a, b) {
        assert(ones_inside(x.subrange(0, k), a2, b2));
    } else {
        assert(zeros_inside(x.subrange(0, k), a2, b2));
    }
}

/// Bitonic bits that end with `pad` stay bitonic when more `pad` bits follow.
proof fn lemma_bitonic_extend(x: Seq<bool>, y: Seq<bool>, pad: bool)
    requires
        bitonic_bits(x),
        x.len() >= 1,
        x.last() == pad,
        y.len() >= x.len(),
        forall|i: int| 0 <= i < y.len() ==> #[trigger] y[i] == if i < x.len() { x[i] } else { pad },
    ensures
        bitonic_bits(y),
{
    let (a, b) = choose|a: int, b: int| ones_inside(x, a, b) || zeros_inside(x, a, b);
    let n = x.len() as int;
    assert(x[n - 1] == pad);
    if ones_inside(x, a, b) {
        if pad {
            assert(ones_inside(y, a, y.len() as int));
        } else {
            assert(ones_inside(y, a, b));
        }
    } else {
        if pad {
            assert(zeros_inside(y, a, b));
        } else {
            assert(zeros_inside(y, a, y.len() as int));
        }
    }
}

/// The halves after a half-cleaner are separated against `t`: when ascending,
/// the first half lies below `t` or the second at or above it; when
/// descending, the other way round.
pub open spec fn separated(keys: Seq<u64>, t: u64, lo: int, m: int, n: int, ascending: bool) -> bool {
    if ascending {
        all_below(keys, t, lo, m) || all_at_least(keys, t, lo + m, n - m)
    } else {
        all_below(keys, t, lo + m, n - m) || all_at_least(keys, t, lo, m)
    }
}

/// What the comparators of a merge, between `j` and `j + m` for `j` in
/// `[lo, lo + n - m)`, make of `k0`.
pub open spec fn half_cleaned(k0: Seq<u64>, k1: Seq<u64>, lo: int, n: int, m: int, ascending: bool) -> bool {
    &&& k1.len() == k0.len()
    &&& forall|j: int|
        0 <= j < k0.len() ==> #[trigger] k1[j] == if lo <= j < lo + n - m {
            lower(k0[j], k0[j + m], ascending)
        } else if lo + m <= j < lo + n {
            upper(k0[j - m], k0[j], ascending)
        } else {
            k0[j]
        }
}

/// A half-cleaner leaves both halves ready for their own merges, separated.
proof fn lemma_half_clean_keys(
    k0: Seq<u64>,
    k1: Seq<u64>,
    t: u64,
    lo: int,
    n: int,
    m: int,
    ascending: bool,
)
    requires
        0 <= lo,
        lo + n <= k0.len(),
        0 < m < n <= 2 * m,
        is_power_of_two(m),
        is_power_of_two(n) ==> n == 2 * m,
        mergeable(k0, t, lo, n, ascending),
        half_cleaned(k0, k1, lo, n, m, ascending),
    ensures
        mergeable(k1, t, lo, m, ascending),
        mergeable(k1, t, lo + m, n - m, ascending),
        separated(k1, t, lo, m, n, ascending),
        all_below(k0, t, lo, n) ==> all_below(k1, t, lo, n),
        all_at_least(k0, t, lo, n) ==> all_at_least(k1, t, lo, n),
{
    let x = bits(k0, t, lo, n, ascending, 2 * m);
    if is_power_of_two(n) {
        assert(x =~= bits(k0, t, lo, n, ascending, n));
    } else {
        assert(bitonic_bits(bits(k0, t, lo, n, ascending, n + (2 * m - n))));
    }
    lemma_half_clean(x, m);
    let a = and_half(x, m);
    let o = or_half(x, m);
    let low = bits(k1, t, lo, m, ascending, m);
    let high = bits(k1, t, lo + m, n - m, ascending, m);
    assert forall|i: int| 0 <= i < m implies #[trigger] low[i] == if ascending { a[i] } else { o[i] } by {
        assert(k1[lo + i] == if i < n - m {
            lower(k0[lo + i], k0[lo + i + m], ascending)
        } else {
            k0[lo + i]
        });
    }
    assert forall|i: int| 0 <= i < m implies #[trigger] high[i] == if ascending { o[i] } else { a[i] } by {
        if i < n - m {
            assert(k1[lo + m + i] == upper(k0[lo + i], k0[lo + m + i], ascending));
        }
    }
    if ascending {
        assert(low =~= a);
        assert(high =~= o);
    } else {
        assert(low =~= o);
        assert(high =~= a);
    }
    // The second half, shorter than the first unless `n == 2 * m`.
    if n - m > 1 {
        assert(bits(k1, t, lo + m, n - m, ascending, n - m) =~= high.subrange(0, n - m));
        lemma_bitonic_prefix(high, n - m);
        if n - m < m {
            assert forall|p: int| p >= 0 implies #[trigger] bitonic_bits(
                bits(k1, t, lo + m, n - m, ascending, n - m + p),
            ) by {
                let y = bits(k1, t, lo + m, n - m, ascending, n - m + p);
                if n - m + p <= m {
                    assert(y =~= high.subrange(0, n - m + p));
                    lemma_bitonic_prefix(high, n - m + p);
                } else {
                    lemma_bitonic_extend(high, y, ascending);
                }
            }
        }
    }
    if ascending {
        if forall|i: int| 0 <= i < m ==> !#[trigger] a[i] {
            assert forall|j: int| lo <= j < lo + m implies #[trigger] k1[j] < t by {
                assert(!a[j - lo]);
            }
        } else {
            assert forall|j: int| lo + m <= j < lo + n implies #[trigger] k1[j] >= t by {
                assert(o[j - lo - m]);
            }
        }
    } else {
        if forall|i: int| 0 <= i < m ==> !#[trigger] a[i] {
            assert forall|j: int| lo + m <= j < lo + n implies #[trigger] k1[j] < t by {
                assert(!a[j - lo - m]);
            }
        } else {
            assert forall|j: int| lo <= j < lo + m implies #[trigger] k1[j] >= t by {
                assert(o[j - lo]);
            }
        }
    }
    if all_below(k0, t, lo, n) {
        assert forall|j: int| lo <= j < lo + n implies #[trigger] k1[j] < t by {
            assert(k0[j] < t);
            if lo <= j < lo + n - m {
                assert(k0[j + m] < t);
            } else if lo + m <= j {
                assert(k0[j - m] < t);
            }
        }
    }
    if all_at_least(k0, t, lo, n) {
        assert forall|j: int| lo <= j < lo + n implies #[trigger] k1[j] >= t by {
            assert(k0[j] >= t);
            if lo <= j < lo + n - m {
                assert(k0[j + m] >= t);
            } else if lo + m <= j {
                assert(k0[j - m] >= t);
            }
        }
    }
}

/// Two sorted halves, separated, make a sorted whole.
proof fn lemma_combine_sorted(keys: Seq<u64>, t: u64, lo: int, m: int, n: int, ascending: bool)
    requires
        0 <= m <= n,
        sorted_at(keys, t, lo, m, ascending),
        sorted_at(keys, t, lo + m, n - m, ascending),
        separated(keys, t, lo, m, n, ascending),
    ensures
        sorted_at(keys, t, lo, n, ascending),
{
    let kl = choose|k: int| #[trigger] split_at(keys, t, lo, m, ascending, k);
    let kh = choose|k: int| #[trigger] split_at(keys, t, lo + m, n - m, ascending, k);
    if ascending {
        if all_below(keys, t, lo, m) {
            assert(split_at(keys, t, lo, n, ascending, m + kh));
        } else {
            assert(split_at(keys, t, lo, n, ascending, kl));
        }
    } else {
        if all_below(keys, t, lo + m, n - m) {
            assert(split_at(keys, t, lo, n, ascending, kl));
        } else {
            assert(split_at(keys, t, lo, n, ascending, m + kh));
        }
    }
}

/// Readiness for a merge depends on the keys of the range alone.
proof fn lemma_mergeable_frame(a: Seq<u64>, b: Seq<u64>, t: u64, lo: int, n: int, ascending: bool)
    requires
        mergeable(a, t, lo, n, ascending),
        forall|j: int| lo <= j < lo + n ==> #[trigger] b[j] == a[j],
    ensures
        mergeable(b, t, lo, n, ascending),
{
    if n > 1 {
        assert(bits(b, t, lo, n, ascending, n) =~= bits(a, t, lo, n, ascending, n));
        if !is_power_of_two(n) {
            assert forall|p: int| p >= 0 implies #[trigger] bitonic_bits(bits(b, t, lo, n, ascending, n + p)) by {
                assert(bits(b, t, lo, n, ascending, n + p) =~= bits(a, t, lo, n, ascending, n + p));
            }
        }
    }
}

/// Sortedness of a range depends on the keys of that range alone.
proof fn lemma_sorted_frame(a: Seq<u64>, b: Seq<u64>, t: u64, lo: int, n: int, ascending: bool)
    requires
        sorted_at(a, t, lo, n, ascending),
        forall|j: int| lo <= j < lo + n ==> #[trigger] b[j] == a[j],
    ensures
        sorted_at(b, t, lo, n, ascending),
{
    let k = choose|k: int| #[trigger] split_at(a, t, lo, n, ascending, k);
    assert forall|j: int| lo <= j < lo + n implies (#[trigger] b[j] >= t) == if ascending {
        j >= lo + k
    } else {
        j < lo + k
    } by {
        assert((a[j] >= t) == if ascending {
            j >= lo + k
        } else {
            j < lo + k
        });
    }
    assert(split_at(b, t, lo, n, ascending, k));
}

/// Merges the range `[lo, lo + n)` in the given direction.
fn bitonic_merge<T: OramBlock>(
    items: &mut Vec<T>,
    keys: &mut Vec<u64>,
    lo: usize,
    n: usize,
    ascending: bool,
)
    requires
        old(items)@.len() == old(keys)@.len(),
        lo + n <= old(keys)@.len(),
        forall|t: u64| mergeable(old(keys)@, t, lo as int, n as int, ascending),
    ensures
        final(items)@.len() == old(items)@.len(),
        final(keys)@.len() == old(keys)@.len(),
        keyed(final(keys)@, final(items)@).to_multiset() == keyed(old(keys)@, old(items)@).to_multiset(),
        final(items)@.to_multiset() == old(items)@.to_multiset(),
        final(keys)@.to_multiset() == old(keys)@.to_multiset(),
        forall|j: int|
            0 <= j < old(keys)@.len() && !(lo <= j < lo + n) ==> #[trigger] final(keys)@[j] == old(
                keys,
            )@[j],
        forall|t: u64|
            all_below(old(keys)@, t, lo as int, n as int) ==> #[trigger] all_below(
                final(keys)@,
                t,
                lo as int,
                n as int,
            ),
        forall|t: u64|
            all_at_least(old(keys)@, t, lo as int, n as int) ==> #[trigger] all_at_least(
                final(keys)@,
                t,
                lo as int,
                n as int,
            ),
        forall|t: u64| #[trigger] sorted_at(final(keys)@, t, lo as int, n as int, ascending),
    decreases n,
{
    let len = keys.len();
    if n > 1 {
        let m = greatest_power_of_two_below(n);
        let end = lo + n - m;
        let ghost k0 = keys@;
        let mut i: usize = lo;
        while i < end
            invariant
                end == lo + n - m,
                len == keys@.len(),
                items@.len() == keys@.len(),
                items@.len() == old(items)@.len(),
                lo <= i <= lo + n - m,
                0 < m < n <= 2 * m,
                lo + n <= keys@.len(),
                k0 == old(keys)@,
                keyed(keys@, items@).to_multiset() == keyed(old(keys)@, old(items)@).to_multiset(),
                items@.to_multiset() == old(items)@.to_multiset(),
                keys@.to_multiset() == old(keys)@.to_multiset(),
                forall|j: int|
                    0 <= j < len ==> #[trigger] keys@[j] == if lo <= j < i {
                        lower(k0[j], k0[j + m], ascending)
                    } else if lo + m <= j < i + m {
                        upper(k0[j - m], k0[j], ascending)
                    } else {
                        k0[j]
                    },
            decreases lo + n - m - i,
        {
            compare_and_swap(items, keys, i, i + m, ascending);
            i += 1;
        }
        let ghost k1 = keys@;
        proof {
            assert(half_cleaned(k0, k1, lo as int, n as int, m as int, ascending));
            assert forall|t: u64|
                #![trigger mergeable(k1, t, lo as int, m as int, ascending)]
                mergeable(k1, t, lo as int, m as int, ascending) && mergeable(
                    k1,
                    t,
                    lo + m,
                    n - m,
                    ascending,
                ) && separated(k1, t, lo as int, m as int, n as int, ascending) && (all_below(
                    k0,
                    t,
                    lo as int,
                    n as int,
                ) ==> all_below(k1, t, lo as int, n as int)) && (all_at_least(k0, t, lo as int, n as int)
                    ==> all_at_least(k1, t, lo as int, n as int)) by {
                lemma_half_clean_keys(k0, k1, t, lo as int, n as int, m as int, ascending);
            }
        }
        bitonic_merge(items, keys, lo, m, ascending);
        let ghost k2 = keys@;
        proof {
            assert forall|t: u64| #[trigger] mergeable(k2, t, lo + m, n - m, ascending) by {
                assert(mergeable(k1, t, lo as int, m as int, ascending));
                lemma_mergeable_frame(k1, k2, t, lo + m, n - m, ascending);
            }
        }
        bitonic_merge(items, keys, lo + m, n - m, ascending);
        proof {
            let k3 = keys@;
            assert forall|t: u64| #[trigger] sorted_at(k3, t, lo as int, n as int, ascending) by {
                assert(mergeable(k1, t, lo as int, m as int, ascending));
                assert(sorted_at(k2, t, lo as int, m as int, ascending));
                lemma_sorted_frame(k2, k3, t, lo as int, m as int, ascending);
                assert(sorted_at(k3, t, lo + m, n - m, ascending));
                if ascending {
                    if all_below(k1, t, lo as int, m as int) {
                        assert(all_below(k2, t, lo as int, m as int));
                    } else {
                        assert(all_at_least(k2, t, lo + m, n - m)) by {
                            assert forall|j: int| lo + m <= j < lo + n implies #[trigger] k2[j] >= t by {
                                assert(k1[j] >= t);
                            }
                        }
                        assert(all_at_least(k3, t, lo + m, n - m));
                    }
                } else {
                    if all_below(k1, t, lo + m, n - m) {
                        assert(all_below(k2, t, lo + m, n - m)) by {
                            assert forall|j: int| lo + m <= j < lo + n implies #[trigger] k2[j] < t by {
                                assert(k1[j] < t);
                            }
                        }
                        assert(all_below(k3, t, lo + m, n - m));
                    } else {
                        assert(all_at_least(k2, t, lo as int, m as int));
                    }
                }
                lemma_combine_sorted(k3, t, lo as int, m as int, n as int, ascending);
            }
            assert forall|t: u64| all_below(k0, t, lo as int, n as int) implies #[trigger] all_below(
                k3,
                t,
                lo as int,
                n as int,
            ) by {
                assert(mergeable(k1, t, lo as int, m as int, ascending));
                assert(all_below(k1, t, lo as int, m as int));
                assert(all_below(k2, t, lo as int, m as int));
                assert(all_below(k2, t, lo + m, n - m)) by {
                    assert forall|j: int| lo + m <= j < lo + n implies #[trigger] k2[j] < t by {
                        assert(k1[j] < t);
                    }
                }
                assert(all_below(k3, t, lo + m, n - m));
            }
            assert forall|t: u64| all_at_least(k0, t, lo as int, n as int) implies #[trigger] all_at_least(
                k3,
                t,
                lo as int,
                n as int,
            ) by {
                assert(mergeable(k1, t, lo as int, m as int, ascending));
                assert(all_at_least(k1, t, lo as int, m as int));
                assert(all_at_least(k2, t, lo as int, m as int));
                assert(all_at_least(k2, t, lo + m, n - m)) by {
                    assert forall|j: int| lo + m <= j < lo + n implies #[trigger] k2[j] >= t by {
                        assert(k1[j] >= t);
                    }
                }
                assert(all_at_least(k3, t, lo + m, n - m));
            }
        }
    } else {
        proof {
            assert forall|t: u64| #[trigger] sorted_at(keys@, t, lo as int, n as int, ascending) by {
                if n == 0 {
                    assert(split_at(keys@, t, lo as int, n as int, ascending, 0));
                } else if (keys@[lo as int] >= t) == ascending {
                    assert(split_at(keys@, t, lo as int, n as int, ascending, 0));
                } else {
                    assert(split_at(keys@, t, lo as int, n as int, ascending, 1));
                }
            }
        }
    }
}

/// Sorts the range `[lo, lo + n)` in the given direction.
fn bitonic_sort_range<T: OramBlock>(
    items: &mut Vec<T>,
    keys: &mut Vec<u64>,
    lo: usize,
    n: usize,
    ascending: bool,
)
    requires
        old(items)@.len() == old(keys)@.len(),
        lo + n <= old(keys)@.len(),
    ensures
        final(items)@.len() == old(items)@.len(),
        final(keys)@.len() == old(keys)@.len(),
        keyed(final(keys)@, final(items)@).to_multiset() == keyed(old(keys)@, old(items)@).to_multiset(),
        final(items)@.to_multiset() == old(items)@.to_multiset(),
        final(keys)@.to_multiset() == old(keys)@.to_multiset(),
        forall|j: int|
            0 <= j < old(keys)@.len() && !(lo <= j < lo + n) ==> #[trigger] final(keys)@[j] == old(
                keys,
            )@[j],
        forall|t: u64| #[trigger] sorted_at(final(keys)@, t, lo as int, n as int, ascending),
    decreases n,
{
    let len = keys.len();
    if n > 1 {
        let m = n / 2;
        bitonic_sort_range(items, keys, lo, m, !ascending);
        let ghost k1 = keys@;
        bitonic_sort_range(items, keys, lo + m, n - m, ascending);
        let ghost k2 = keys@;
        proof {
            assert forall|t: u64| #[trigger] mergeable(k2, t, lo as int, n as int, ascending) by {
                assert(sorted_at(k1, t, lo as int, m as int, !ascending));
                lemma_sorted_frame(k1, k2, t, lo as int, m as int, !ascending);
                assert(sorted_at(k2, t, lo as int, m as int, !ascending));
                assert(sorted_at(k2, t, lo + m, n - m, ascending));
                let first = !ascending;
                let kl = choose|k: int| #[trigger] split_at(k2, t, lo as int, m as int, first, k);
                let kh = choose|k: int| #[trigger] split_at(k2, t, lo + m, n - m, ascending, k);
                assert forall|p: int| p >= 0 implies #[trigger] bitonic_bits(
                    bits(k2, t, lo as int, n as int, ascending, n + p),
                ) by {
                    let x = bits(k2, t, lo as int, n as int, ascending, n + p);
                    if ascending {
                        assert(zeros_inside(x, kl, m + kh));
                    } else {
                        assert(ones_inside(x, kl, m + kh));
                    }
                }
                assert(bits(k2, t, lo as int, n as int, ascending, n + 0) =~= bits(
                    k2,
                    t,
                    lo as int,
                    n as int,
                    ascending,
                    n as int,
                ));
            }
        }
        bitonic_merge(items, keys, lo, n, ascending);
    } else {
        proof {
            assert forall|t: u64| #[trigger] sorted_at(keys@, t, lo as int, n as int, ascending) by {
                if n == 0 {
                    assert(split_at(keys@, t, lo as int, n as int, ascending, 0));
                } else if (keys@[lo as int] >= t) == ascending {
                    assert(split_at(keys@, t, lo as int, n as int, ascending, 0));
                } else {
                    assert(split_at(keys@, t, lo as int, n as int, ascending, 1));
                }
            }
        }
    }
}

/// Sorts `items` by `keys`, ascending, moving each key with its payload.
///
/// The sequence of compared index pairs is fixed by the length, and every
/// exchange is a constant-time select, so the memory trace does not depend
/// on the keys. Payloads with equal keys may come out in another order than
/// they went in.
pub fn bitonic_sort_by_keys<T: OramBlock>(items: &mut Vec<T>, keys: &mut Vec<u64>)
    requires
        old(items)@.len() == old(keys)@.len(),
    ensures
        final(items)@.len() == old(items)@.len(),
        final(keys)@.len() == old(keys)@.len(),
        keyed(final(keys)@, final(items)@).to_multiset() == keyed(old(keys)@, old(items)@).to_multiset(),
        final(items)@.to_multiset() == old(items)@.to_multiset(),
        final(keys)@.to_multiset() == old(keys)@.to_multiset(),
        forall|i: int, j: int|
            0 <= i <= j < final(keys)@.len() ==> #[trigger] final(keys)@[i] <= #[trigger] final(keys)@[j],
{
    let n = keys.len();
    bitonic_sort_range(items, keys, 0, n, true);
    proof {
        assert forall|i: int, j: int| 0 <= i <= j < keys@.len() implies #[trigger] keys@[i] <= #[trigger] keys@[j] by {
            let t = keys@[i];
            assert(sorted_at(keys@, t, 0, n as int, true));
            let k = choose|k: int| #[trigger] split_at(keys@, t, 0, n as int, true, k);
            assert(keys@[i] >= t);
        }
    }
}

} // verus!
