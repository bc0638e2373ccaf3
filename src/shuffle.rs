//! Oblivious random permutations, built on the bitonic sort.
use crate::bitonic::{bitonic_sort_by_keys, keyed};
use crate::path_oram::uniform_u64;
use rand::rngs::StdRng;
use vstd::prelude::*;

verus! {

/// The sequence `0, 1, ..., n - 1`.
pub open spec fn iota(n: nat) -> Seq<u64> {
    Seq::new(n, |i: int| i as u64)
}

/// A sequence with the multiset of `0..n` holds only values below `n`.
pub proof fn lemma_permutation_bounded(s: Seq<u64>, n: nat, i: int)
    requires
        s.to_multiset() == iota(n).to_multiset(),
        0 <= i < s.len(),
        n <= u64::MAX + 1,
    ensures
        s[i] < n,
{
    broadcast use vstd::seq_lib::group_to_multiset_ensures;

    assert(s.contains(s[i]));
    assert(iota(n).to_multiset().count(s[i]) > 0);
    assert(iota(n).contains(s[i]));
    let j = choose|j: int| 0 <= j < iota(n).len() && iota(n)[j] == s[i];
}

/// A sequence with the multiset of `0..n` has no repeated entry.
pub proof fn lemma_permutation_distinct(s: Seq<u64>, n: nat)
    requires
        s.to_multiset() == iota(n).to_multiset(),
        n <= u64::MAX + 1,
    ensures
        s.no_duplicates(),
{
    assert(iota(n).no_duplicates()) by {
        assert forall|i: int, j: int| 0 <= i < n && 0 <= j < n && i != j implies iota(n)[i] != iota(n)[j] by {}
    }
    iota(n).lemma_multiset_has_no_duplicates();
    s.lemma_multiset_has_no_duplicates_conv();
}

/// An ascending sequence with the multiset of `0..n` is `0..n` itself.
proof fn lemma_sorted_permutation_is_iota(s: Seq<u64>, n: nat)
    requires
        s.to_multiset() == iota(n).to_multiset(),
        n <= u64::MAX,
        forall|i: int, j: int| 0 <= i <= j < s.len() ==> #[trigger] s[i] <= #[trigger] s[j],
    ensures
        s == iota(n),
{
    broadcast use vstd::seq_lib::group_to_multiset_ensures;

    assert(s.len() == s.to_multiset().len());
    assert(iota(n).len() == iota(n).to_multiset().len());
    lemma_permutation_distinct(s, n);
    assert forall|i: int| 0 <= i < s.len() implies s[i] < n by {
        lemma_permutation_bounded(s, n, i);
    }
    assert forall|i: int| 0 <= i < s.len() - 1 implies #[trigger] s[i] < s[i + 1] by {
        assert(s[i] <= s[i + 1]);
        assert(s[i] != s[i + 1]);
    }
    lemma_increasing_at_least(s, s.len() as int);
    lemma_increasing_at_most(s, n, 0);
    assert(s =~= iota(n));
}

/// In a strictly increasing sequence of naturals, entry `i` is at least `i`.
proof fn lemma_increasing_at_least(s: Seq<u64>, k: int)
    requires
        0 <= k <= s.len(),
        forall|i: int| 0 <= i < s.len() - 1 ==> #[trigger] s[i] < s[i + 1],
    ensures
        forall|i: int| 0 <= i < k ==> s[i] >= i,
    decreases k,
{
    if k > 0 {
        lemma_increasing_at_least(s, k - 1);
        if k >= 2 {
            assert(s[k - 2] < s[k - 1]);
        }
    }
}

/// In a strictly increasing sequence of length `n` below `n`, entry `i` is at most `i`.
proof fn lemma_increasing_at_most(s: Seq<u64>, n: nat, k: int)
    requires
        s.len() == n,
        0 <= k <= n,
        forall|i: int| 0 <= i < s.len() ==> s[i] < n,
        forall|i: int| 0 <= i < s.len() - 1 ==> #[trigger] s[i] < s[i + 1],
    ensures
        forall|i: int| k <= i < n ==> s[i] <= i,
    decreases n - k,
{
    if k < n {
        lemma_increasing_at_most(s, n, k + 1);
        if k + 1 < n {
            assert(s[k] < s[k + 1]);
        }
    }
}

/// Returns `0, 1, ..., n - 1`.
fn indices(n: usize) -> (r: Vec<u64>)
    ensures
        r@ == iota(n as nat),
{
    let mut r: Vec<u64> = Vec::new();
    let mut i: usize = 0;
    while i < n
        invariant
            i <= n,
            r@ == iota(i as nat),
        decreases n - i,
    {
        r.push(i as u64);
        i += 1;
        assert(r@ =~= iota(i as nat));
    }
    r
}

/// Returns a uniformly random permutation of `0..n`, obtained by sorting the
/// indices by fresh random keys.
pub fn random_permutation_of_0_through_n_exclusive(n: usize, rng: &mut StdRng) -> (r: Vec<u64>)
    ensures
        r@.len() == n,
        r@.to_multiset() == iota(n as nat).to_multiset(),
{
    let mut items = indices(n);
    let mut keys: Vec<u64> = Vec::new();
    let mut i: usize = 0;
    while i < n
        invariant
            i <= n,
            keys@.len() == i,
        decreases n - i,
    {
        keys.push(uniform_u64(rng, 0, u64::MAX));
        i += 1;
    }
    bitonic_sort_by_keys(&mut items, &mut keys);
    items
}

/// Returns the inverse of `permutation`, a permutation of `0..n`, obtained by
/// sorting the indices by the entries of `permutation`.
pub fn invert_permutation_oblivious(permutation: &Vec<u64>) -> (r: Vec<u64>)
    requires
        permutation@.to_multiset() == iota(permutation@.len()).to_multiset(),
    ensures
        r@.len() == permutation@.len(),
        r@.to_multiset() == iota(permutation@.len()).to_multiset(),
        forall|i: int| 0 <= i < permutation@.len() ==> #[trigger] r@[permutation@[i] as int] == i,
{
    let n = permutation.len();
    let mut items = indices(n);
    let mut keys: Vec<u64> = Vec::new();
    let mut i: usize = 0;
    while i < n
        invariant
            i <= n,
            n == permutation@.len(),
            keys@ == permutation@.subrange(0, i as int),
        decreases n - i,
    {
        keys.push(permutation[i]);
        i += 1;
        assert(keys@ =~= permutation@.subrange(0, i as int));
    }
    assert(keys@ =~= permutation@);
    let ghost keys0 = keys@;
    let ghost items0 = items@;
    bitonic_sort_by_keys(&mut items, &mut keys);
    proof {
        broadcast use vstd::seq_lib::group_to_multiset_ensures;

        lemma_sorted_permutation_is_iota(keys@, n as nat);
        lemma_permutation_distinct(permutation@, n as nat);
        let orig = keyed(keys0, items0);
        let sorted = keyed(keys@, items@);
        orig.to_multiset_ensures();
        sorted.to_multiset_ensures();
        assert forall|i: int| 0 <= i < n implies #[trigger] items@[permutation@[i] as int] == i by {
            let j = permutation@[i] as int;
            lemma_permutation_bounded(permutation@, n as nat, i);
            assert(keys@[j] == j);
            assert(sorted[j] == (keys@[j], items@[j]));
            assert(sorted.contains(sorted[j]));
            assert(sorted.to_multiset().count(sorted[j]) > 0);
            assert(orig.contains(sorted[j]));
            let k = choose|k: int| 0 <= k < orig.len() && orig[k] == sorted[j];
            assert(keys0[k] == j && items0[k] == k);
            assert(permutation@[k] == permutation@[i]);
            if k != i {
                assert(permutation@[k] != permutation@[i]);
            }
        }
    }
    items
}

} // verus!
