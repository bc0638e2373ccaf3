//! Index arithmetic on a complete binary tree numbered from 1.
//!
//! The root is node 1 and the children of node `n` are `2n` and `2n + 1`, so
//! the leaves of a tree of height `h` are the nodes in `[2^h, 2^(h+1))`.
use vstd::arithmetic::power2::{lemma_pow2_strictly_increases, pow2};
use vstd::bits::{lemma_u64_pow2_no_overflow, lemma_u64_shl_is_mul, lemma_u64_shr_is_div};
use vstd::prelude::*;

verus! {

/// The numeric type of a node of the tree.
pub type TreeIndex = u64;

/// The numeric type of the height of the tree.
pub type TreeHeight = u64;

/// The largest height of a tree whose nodes fit a `TreeIndex`, sentinels excluded.
pub const MAXIMUM_TREE_HEIGHT: TreeHeight = 62;

/// `n` is a leaf of the tree of height `h`.
pub open spec fn is_leaf(n: int, h: nat) -> bool {
    pow2(h) <= n < pow2(h + 1)
}

/// The ancestor of `leaf` at depth `d` in the tree of height `h`.
pub open spec fn ancestor_at_depth(leaf: int, d: nat, h: nat) -> int {
    leaf / (pow2((h - d) as nat) as int)
}

/// Returns `2^h`, the first leaf of the tree of height `h`.
pub fn first_leaf(h: TreeHeight) -> (r: TreeIndex)
    requires
        h <= MAXIMUM_TREE_HEIGHT,
    ensures
        r == pow2(h as nat),
        r >= 1,
        2 * r < u64::MAX,
{
    proof {
        lemma_u64_pow2_no_overflow(h as nat);
        lemma_u64_pow2_no_overflow((h + 1) as nat);
        lemma_u64_shl_is_mul(1, h);
        vstd::arithmetic::power2::lemma_pow2_pos(h as nat);
        vstd::arithmetic::power2::lemma_pow2_adds(h as nat, 1);
        vstd::arithmetic::power2::lemma2_to64();
    }
    1u64 << h
}

/// Returns the node at depth `depth` on the path from the root to `leaf`.
pub fn node_on_path(leaf: TreeIndex, depth: TreeHeight, height: TreeHeight) -> (r: TreeIndex)
    requires
        depth <= height <= MAXIMUM_TREE_HEIGHT,
    ensures
        r == ancestor_at_depth(leaf as int, depth as nat, height as nat),
{
    proof {
        lemma_u64_shr_is_div(leaf, (height - depth) as u64);
    }
    leaf >> (height - depth)
}

/// The deepest depth `d <= k` at which `a` and `b`, leaves of the tree of
/// height `h`, have the same ancestor, or 0 if none.
pub open spec fn common_ancestor_depth_below(a: int, b: int, h: nat, k: nat) -> nat
    decreases k,
{
    if ancestor_at_depth(a, k, h) == ancestor_at_depth(b, k, h) || k == 0 {
        k
    } else {
        common_ancestor_depth_below(a, b, h, (k - 1) as nat)
    }
}

/// Returns the depth of the deepest common ancestor of `a` and `b` in the tree
/// of height `height`, visiting every depth.
pub fn ct_common_ancestor_depth(a: TreeIndex, b: TreeIndex, height: TreeHeight) -> (r: TreeHeight)
    requires
        height <= MAXIMUM_TREE_HEIGHT,
    ensures
        r == common_ancestor_depth_below(a as int, b as int, height as nat, height as nat),
{
    let mut r: u64 = 0;
    let mut level: u64 = 0;
    while level <= height
        invariant
            level <= height + 1,
            height <= MAXIMUM_TREE_HEIGHT,
            level == 0 ==> r == 0,
            level > 0 ==> r == common_ancestor_depth_below(a as int, b as int, height as nat, (level - 1) as nat),
        decreases height + 1 - level,
    {
        let same = crate::ct::ct_eq_u64(node_on_path(a, level, height), node_on_path(b, level, height));
        r = crate::ct::select_u64(r, level, same);
        level += 1;
    }
    r
}

/// The ancestor of a leaf at depth `d` is a node of depth `d`.
pub proof fn lemma_ancestor_bounds(leaf: int, d: nat, h: nat)
    requires
        d <= h,
        is_leaf(leaf, h),
    ensures
        is_leaf(ancestor_at_depth(leaf, d, h), d),
{
    let e = (h - d) as nat;
    let p = pow2(e) as int;
    vstd::arithmetic::power2::lemma_pow2_pos(e);
    vstd::arithmetic::power2::lemma_pow2_adds(d, e);
    vstd::arithmetic::power2::lemma_pow2_adds(d + 1, e);
    assert(d + e == h);
    assert(d + 1 + e == h + 1);
    vstd::arithmetic::div_mod::lemma_div_is_ordered(pow2(d) * p, leaf, p);
    vstd::arithmetic::div_mod::lemma_div_by_multiple(pow2(d) as int, p);
    vstd::arithmetic::mul::lemma_mul_is_commutative(p, pow2(d + 1) as int);
    vstd::arithmetic::div_mod::lemma_multiply_divide_lt(leaf, p, pow2(d + 1) as int);
}

/// The ancestors of a leaf, read from the leaf up, halve at each step.
pub proof fn lemma_ancestor_step(leaf: int, d: nat, h: nat)
    requires
        0 < d <= h,
        leaf >= 0,
    ensures
        ancestor_at_depth(leaf, (d - 1) as nat, h) == ancestor_at_depth(leaf, d, h) / 2,
{
    vstd::arithmetic::power2::lemma_pow2_adds((h - d) as nat, 1);
    vstd::arithmetic::power2::lemma2_to64();
    vstd::arithmetic::power2::lemma_pow2_pos((h - d) as nat);
    vstd::arithmetic::div_mod::lemma_div_denominator(leaf, pow2((h - d) as nat) as int, 2);
    assert(((h - (d - 1)) as nat) == ((h - d) as nat) + 1);
    lemma_pow2_strictly_increases((h - d) as nat, ((h - d) as nat) + 1);
}

/// `c` is a power of two.
pub open spec fn is_power_of_two(c: int) -> bool {
    exists|k: nat| pow2(k) == c
}

/// Returns `k` with `2^k == c` when `c` is a power of two, and `None` otherwise.
pub fn checked_log2(c: u64) -> (r: Option<u64>)
    ensures
        r is Some <==> is_power_of_two(c as int),
        r is Some ==> r->Some_0 <= 63 && pow2(r->Some_0 as nat) == c,
{
    let mut k: u64 = 0;
    let mut p: u64 = 1;
    proof {
        vstd::arithmetic::power2::lemma2_to64();
    }
    while p < c && k < 63
        invariant
            k <= 63,
            p == pow2(k as nat),
            k > 0 ==> pow2((k - 1) as nat) < c,
        decreases 63 - k,
    {
        proof {
            lemma_u64_pow2_no_overflow((k + 1) as nat);
            vstd::arithmetic::power2::lemma_pow2_adds(k as nat, 1);
            vstd::arithmetic::power2::lemma2_to64();
        }
        p = p * 2;
        k = k + 1;
    }
    if p == c {
        Some(k)
    } else {
        proof {
            vstd::arithmetic::power2::lemma2_to64();
            assert forall|j: nat| pow2(j) != c by {
                if j < k {
                    if j < k - 1 {
                        lemma_pow2_strictly_increases(j, (k - 1) as nat);
                    }
                } else if j > k {
                    lemma_pow2_strictly_increases(k as nat, j);
                    if k == 63 && j > 64 {
                        lemma_pow2_strictly_increases(64, j);
                    }
                }
            }
        }
        None
    }
}

} // verus!
