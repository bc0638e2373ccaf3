//! The oblivious stash: the buffer of blocks between the reads and the
//! write-backs of a path.
use crate::bitonic::{bitonic_sort_by_keys, keyed};
use crate::bucket::{Bucket, PathOramBlock, DUMMY_ADDRESS};
use crate::ct::{ct_and, ct_eq_u64, ct_or, select_u64};
use crate::database::{saturating, CountAccessesDatabase};
use crate::tree::{
    ancestor_at_depth, first_leaf, is_leaf, node_on_path, TreeIndex, MAXIMUM_TREE_HEIGHT,
};
use crate::{Address, OramBlock, OramError, StashSize};
use vstd::arithmetic::power2::pow2;
use vstd::prelude::*;

verus! {

/// How many dummy slots are added when an eviction finds the stash too small.
pub const STASH_GROWTH_INCREMENT: usize = 10;

/// The value that a scan of `s[0..i]` for `address` holds: that of the last
/// block with that address, or the default value.
pub open spec fn scanned_value<V: OramBlock>(s: Seq<PathOramBlock<V>>, address: Address, i: int) -> V
    decreases i,
{
    if i <= 0 {
        V::spec_default()
    } else if s[i - 1].address == address {
        s[i - 1].value
    } else {
        scanned_value(s, address, i - 1)
    }
}

/// When every block of `s[0..i]` that carries `address` holds `x`, and one does,
/// a scan of `s[0..i]` for `address` reads `x`.
pub proof fn lemma_scan_reads_common_value<V: OramBlock>(
    s: Seq<PathOramBlock<V>>,
    address: Address,
    x: V,
    i: int,
)
    requires
        0 <= i <= s.len(),
        forall|j: int| 0 <= j < i && #[trigger] s[j].address == address ==> s[j].value == x,
        exists|j: int| 0 <= j < i && #[trigger] s[j].address == address,
    ensures
        scanned_value(s, address, i) == x,
    decreases i,
{
    if s[i - 1].address != address {
        let j = choose|j: int| 0 <= j < i && #[trigger] s[j].address == address;
        assert(j < i - 1);
        lemma_scan_reads_common_value(s, address, x, i - 1);
    }
}

/// Read after write on one stash: take `before`, whose last slot is a dummy,
/// and `after`, related to it as `ObliviousStash::access` relates the stash
/// before and after a call whose callback returns `x`. Then a scan of `after`
/// for `address`, which is what the next access returns, reads `x`.
pub proof fn lemma_stash_read_after_write<V: OramBlock>(
    before: Seq<PathOramBlock<V>>,
    after: Seq<PathOramBlock<V>>,
    address: Address,
    x: V,
)
    requires
        before.len() > 0,
        before.last().is_dummy(),
        address != DUMMY_ADDRESS,
        after.len() == before.len(),
        forall|i: int|
            0 <= i < before.len() - 1 && before[i].address != address ==> #[trigger] after[i] == before[i],
        forall|i: int|
            0 <= i < before.len() && #[trigger] before[i].address == address ==> after[i].address == address
                && after[i].value == x,
        holds_address(before, address) ==> after.last() == before.last(),
        !holds_address(before, address) ==> after.last().address == address && after.last().value == x,
    ensures
        scanned_value(after, address, after.len() as int) == x,
{
    let n = before.len() as int;
    assert forall|j: int| 0 <= j < n && #[trigger] after[j].address == address implies after[j].value == x by {
        if before[j].address != address {
            if j < n - 1 {
                assert(after[j] == before[j]);
            } else {
                assert(!holds_address(before, address));
            }
        }
    }
    if holds_address(before, address) {
        let j = choose|j: int| 0 <= j < n && #[trigger] before[j].address == address;
        assert(after[j].address == address);
    } else {
        assert(after[n - 1].address == address);
    }
    lemma_scan_reads_common_value(after, address, x, n);
}

/// The slots of the buckets on the path from the root to `leaf`, depth by
/// depth, for the depths below `k`.
pub open spec fn path_contents<V, const Z: usize>(
    mem: Seq<Bucket<V, Z>>,
    leaf: TreeIndex,
    h: nat,
    k: nat,
) -> Seq<PathOramBlock<V>>
    decreases k,
{
    if k == 0 {
        Seq::empty()
    } else {
        path_contents(mem, leaf, h, (k - 1) as nat) + mem[ancestor_at_depth(leaf as int, (k - 1) as nat, h)].blocks@
    }
}

/// Buckets that hold consecutive runs of `z` slots of `s` hold its prefix.
proof fn lemma_path_contents_prefix<V, const Z: usize>(
    mem: Seq<Bucket<V, Z>>,
    leaf: TreeIndex,
    h: nat,
    k: nat,
    s: Seq<PathOramBlock<V>>,
)
    requires
        Z * k <= s.len(),
        forall|d: nat| d < k ==> (#[trigger] mem[ancestor_at_depth(leaf as int, d, h)]).blocks@ == s.subrange(
            Z * d,
            Z * d + Z,
        ),
    ensures
        path_contents(mem, leaf, h, k) == s.subrange(0, Z * k),
    decreases k,
{
    if k > 0 {
        let j = (k - 1) as nat;
        assert(Z * j + Z == Z * k) by (nonlinear_arith)
            requires
                j + 1 == k,
        ;
        assert(Z * j <= Z * k) by (nonlinear_arith)
            requires
                j < k,
        ;
        lemma_path_contents_prefix(mem, leaf, h, j, s);
        assert(mem[ancestor_at_depth(leaf as int, j, h)].blocks@ == s.subrange(Z * j, Z * j + Z));
        assert(path_contents(mem, leaf, h, k) == path_contents(mem, leaf, h, j) + mem[ancestor_at_depth(
            leaf as int,
            j,
            h,
        )].blocks@);
        assert(s.subrange(0, Z * j) + s.subrange(Z * j, Z * k) =~= s.subrange(0, Z * k));
    } else {
        assert(Z * k == 0) by (nonlinear_arith)
            requires
                k == 0,
        ;
        assert(s.subrange(0, 0) =~= Seq::<PathOramBlock<V>>::empty());
    }
}

/// An eviction keeps every block: take `before` and `after`, the stash before
/// and after `ObliviousStash::write_to_path`, and `mem`, the buckets after it,
/// related as its contract relates them. The slots of the path's buckets and
/// those of the stash beyond the path then hold, together, the blocks of
/// `before` and `extra` dummies.
pub proof fn lemma_eviction_keeps_blocks<V: OramBlock, const Z: usize>(
    before: Seq<PathOramBlock<V>>,
    after: Seq<PathOramBlock<V>>,
    mem: Seq<Bucket<V, Z>>,
    leaf: TreeIndex,
    h: nat,
    extra: nat,
)
    requires
        Z * (h + 1) <= after.len(),
        after.to_multiset() == before.to_multiset().add(dummies::<V>(extra).to_multiset()),
        forall|d: nat| d <= h ==> (#[trigger] mem[ancestor_at_depth(leaf as int, d, h)]).blocks@ == after.subrange(
            Z * d,
            Z * d + Z,
        ),
    ensures
        path_contents(mem, leaf, h, h + 1).to_multiset().add(
            after.subrange(Z * (h + 1), after.len() as int).to_multiset(),
        ) == before.to_multiset().add(dummies::<V>(extra).to_multiset()),
{
    let p = Z * (h + 1);
    lemma_path_contents_prefix(mem, leaf, h, h + 1, after);
    vstd::seq_lib::lemma_multiset_commutative(after.subrange(0, p), after.subrange(p, after.len() as int));
    assert(after.subrange(0, p) + after.subrange(p, after.len() as int) =~= after);
}

/// Some block of `s` carries `address`.
pub open spec fn holds_address<V>(s: Seq<PathOramBlock<V>>, address: Address) -> bool {
    exists|i: int| 0 <= i < s.len() && #[trigger] s[i].address == address
}

/// The number of real blocks in `s[from..to]`.
pub open spec fn count_real<V: OramBlock>(s: Seq<PathOramBlock<V>>, from: int, to: int) -> nat
    decreases to - from,
{
    if to <= from {
        0
    } else {
        count_real(s, from, to - 1) + if s[to - 1].is_dummy() {
            0nat
        } else {
            1nat
        }
    }
}

/// `n` dummy blocks.
pub open spec fn dummies<V: OramBlock>(n: nat) -> Seq<PathOramBlock<V>> {
    Seq::new(n, |i: int| PathOramBlock::<V>::spec_dummy())
}

/// The number of levels of a path that fills `path_size` slots `z` at a time.
pub open spec fn path_levels(path_size: int, z: int) -> int {
    path_size / z
}

/// `node` is on the path from the root to `leaf` in the tree of height `h`.
pub open spec fn on_path(node: int, leaf: int, h: nat) -> bool {
    exists|d: nat| d <= h && node == #[trigger] ancestor_at_depth(leaf, d, h)
}

/// The assignment of `b` to level `k` of the path to `leaf` respects the
/// path invariant: a level of the path, `k <= h`, receives only dummies and
/// blocks whose own leaf has the same ancestor at depth `k`.
pub open spec fn placed<V: OramBlock>(k: u64, b: PathOramBlock<V>, leaf: TreeIndex, h: nat) -> bool {
    k <= h ==> (b.is_dummy() || ancestor_at_depth(b.position as int, k as nat, h) == ancestor_at_depth(
        leaf as int,
        k as nat,
        h,
    ))
}

/// Every key of `keys` assigns its block of `blocks` as `placed` allows.
pub open spec fn all_placed<V: OramBlock>(
    keys: Seq<u64>,
    blocks: Seq<PathOramBlock<V>>,
    leaf: TreeIndex,
    h: nat,
) -> bool {
    forall|j: int| 0 <= j < keys.len() ==> #[trigger] placed(keys[j], blocks[j], leaf, h)
}

/// Every block in the bucket at depth `d <= h` on the path to `leaf` is a
/// dummy or has, at depth `d`, the same ancestor as `leaf`: it lies on the
/// path of its own leaf.
pub open spec fn path_respected<V: OramBlock, const Z: usize>(mem: Seq<Bucket<V, Z>>, leaf: TreeIndex, h: nat) -> bool {
    forall|d: nat, k: int|
        d <= h && 0 <= k < Z ==> placed(
            d as u64,
            #[trigger] mem[ancestor_at_depth(leaf as int, d, h)].blocks@[k],
            leaf,
            h,
        )
}

/// Tells whether slot `j` of the first `path_size` carries key `j / z`, for every `j`.
fn path_keys_match(keys: &Vec<u64>, z: usize, path_size: usize) -> (r: bool)
    requires
        z > 0,
        path_size <= keys@.len(),
    ensures
        r == forall|j: int| 0 <= j < path_size ==> #[trigger] keys@[j] == (j / z as int) as u64,
{
    let mut r = true;
    let mut j: usize = 0;
    while j < path_size
        invariant
            j <= path_size,
            path_size <= keys@.len(),
            z > 0,
            r == forall|i: int| 0 <= i < j ==> #[trigger] keys@[i] == (i / z as int) as u64,
        decreases path_size - j,
    {
        let expected = (j / z) as u64;
        r = ct_and(r, ct_eq_u64(keys[j], expected));
        j += 1;
    }
    r
}

/// `a` dummies then `b` dummies are `a + b` dummies.
proof fn lemma_dummies_add<V: OramBlock>(a: nat, b: nat)
    ensures
        dummies::<V>(a).to_multiset().add(dummies::<V>(b).to_multiset()) == dummies::<V>(a + b).to_multiset(),
{
    vstd::seq_lib::lemma_multiset_commutative(dummies::<V>(a), dummies::<V>(b));
    assert(dummies::<V>(a) + dummies::<V>(b) =~= dummies::<V>(a + b));
}

/// Changing the keys of dummies alone keeps `all_placed`.
proof fn lemma_all_placed_dummy_keys<V: OramBlock>(
    keys: Seq<u64>,
    keys2: Seq<u64>,
    blocks: Seq<PathOramBlock<V>>,
    leaf: TreeIndex,
    h: nat,
)
    requires
        keys2.len() == keys.len(),
        all_placed(keys, blocks, leaf, h),
        forall|j: int| 0 <= j < keys.len() ==> #[trigger] keys2[j] == keys[j] || blocks[j].is_dummy(),
    ensures
        all_placed(keys2, blocks, leaf, h),
{
    assert forall|j: int| 0 <= j < keys2.len() implies #[trigger] placed(keys2[j], blocks[j], leaf, h) by {
        assert(keys2[j] == keys[j] || blocks[j].is_dummy());
        assert(placed(keys[j], blocks[j], leaf, h));
    }
}

/// `all_placed` survives any rearrangement of the key-block pairs.
proof fn lemma_all_placed_permuted<V: OramBlock>(
    keys: Seq<u64>,
    blocks: Seq<PathOramBlock<V>>,
    keys2: Seq<u64>,
    blocks2: Seq<PathOramBlock<V>>,
    leaf: TreeIndex,
    h: nat,
)
    requires
        keys.len() == blocks.len(),
        keys2.len() == blocks2.len(),
        all_placed(keys, blocks, leaf, h),
        keyed(keys2, blocks2).to_multiset() == keyed(keys, blocks).to_multiset(),
    ensures
        all_placed(keys2, blocks2, leaf, h),
{
    broadcast use vstd::seq_lib::group_to_multiset_ensures;

    let p = keyed(keys, blocks);
    let p2 = keyed(keys2, blocks2);
    p.to_multiset_ensures();
    p2.to_multiset_ensures();
    assert forall|j: int| 0 <= j < keys2.len() implies #[trigger] placed(keys2[j], blocks2[j], leaf, h) by {
        assert(p2[j] == (keys2[j], blocks2[j]));
        assert(p2.contains(p2[j]));
        assert(p2.to_multiset().count(p2[j]) > 0);
        assert(p.contains(p2[j]));
        let i = choose|i: int| 0 <= i < p.len() && p[i] == p2[j];
        assert(placed(keys[i], blocks[i], leaf, h));
    }
}

/// Appending a dummy to `s` appends one to the dummies it has over `base`.
proof fn lemma_push_dummy<V: OramBlock>(
    s: Seq<PathOramBlock<V>>,
    base: Seq<PathOramBlock<V>>,
    n: nat,
)
    requires
        s.to_multiset() == base.to_multiset().add(dummies::<V>(n).to_multiset()),
    ensures
        s.push(PathOramBlock::<V>::spec_dummy()).to_multiset() == base.to_multiset().add(
            dummies::<V>(n + 1).to_multiset(),
        ),
{
    broadcast use vstd::seq_lib::group_to_multiset_ensures, vstd::multiset::group_multiset_properties;

    let d = PathOramBlock::<V>::spec_dummy();
    assert(dummies::<V>(n + 1) =~= dummies::<V>(n).push(d));
    assert(base.to_multiset().add(dummies::<V>(n).to_multiset()).insert(d) =~= base.to_multiset().add(
        dummies::<V>(n).to_multiset().insert(d),
    ));
}

/// Appends `STASH_GROWTH_INCREMENT` dummies to `blocks` and as many unassigned keys to `keys`.
fn grow<V: OramBlock>(
    blocks: &mut Vec<PathOramBlock<V>>,
    keys: &mut Vec<u64>,
    Ghost(base): Ghost<Seq<PathOramBlock<V>>>,
)
    requires
        old(blocks)@.len() >= base.len(),
        old(blocks)@.to_multiset() == base.to_multiset().add(
            dummies::<V>((old(blocks)@.len() - base.len()) as nat).to_multiset(),
        ),
        old(blocks)@.len() + STASH_GROWTH_INCREMENT <= usize::MAX,
        old(keys)@.len() == old(blocks)@.len(),
    ensures
        final(blocks)@.len() == old(blocks)@.len() + STASH_GROWTH_INCREMENT,
        final(keys)@.len() == old(keys)@.len() + STASH_GROWTH_INCREMENT,
        final(blocks)@.subrange(0, old(blocks)@.len() as int) == old(blocks)@,
        final(blocks)@.last() == PathOramBlock::<V>::spec_dummy(),
        forall|j: int| 0 <= j < old(keys)@.len() ==> #[trigger] final(keys)@[j] == old(keys)@[j],
        forall|j: int|
            old(keys)@.len() <= j < final(keys)@.len() ==> #[trigger] final(keys)@[j] == u64::MAX
                && final(blocks)@[j] == PathOramBlock::<V>::spec_dummy(),
        final(blocks)@.to_multiset() == base.to_multiset().add(
            dummies::<V>((final(blocks)@.len() - base.len()) as nat).to_multiset(),
        ),
{
    let mut i: usize = 0;
    while i < STASH_GROWTH_INCREMENT
        invariant
            i <= STASH_GROWTH_INCREMENT,
            blocks@.len() == old(blocks)@.len() + i,
            keys@.len() == old(keys)@.len() + i,
            blocks@.len() >= base.len(),
            old(blocks)@.len() + STASH_GROWTH_INCREMENT <= usize::MAX,
            blocks@.subrange(0, old(blocks)@.len() as int) == old(blocks)@,
            i > 0 ==> blocks@.last() == PathOramBlock::<V>::spec_dummy(),
            forall|j: int| 0 <= j < old(keys)@.len() ==> #[trigger] keys@[j] == old(keys)@[j],
            forall|j: int|
                old(keys)@.len() <= j < keys@.len() ==> #[trigger] keys@[j] == u64::MAX
                    && blocks@[j] == PathOramBlock::<V>::spec_dummy(),
            keys@.len() == blocks@.len(),
            blocks@.to_multiset() == base.to_multiset().add(
                dummies::<V>((blocks@.len() - base.len()) as nat).to_multiset(),
            ),
        decreases STASH_GROWTH_INCREMENT - i,
    {
        proof {
            lemma_push_dummy(blocks@, base, (blocks@.len() - base.len()) as nat);
        }
        let ghost prev = blocks@;
        let ghost prev_keys = keys@;
        blocks.push(PathOramBlock::<V>::dummy());
        keys.push(u64::MAX);
        assert(blocks@.subrange(0, old(blocks)@.len() as int) =~= prev.subrange(
            0,
            old(blocks)@.len() as int,
        ));
        assert forall|j: int| old(keys)@.len() <= j < keys@.len() implies #[trigger] keys@[j] == u64::MAX
            && blocks@[j] == PathOramBlock::<V>::spec_dummy() by {
            if j < prev_keys.len() {
                assert(old(keys)@.len() <= j < prev_keys.len());
                assert(prev_keys[j] == u64::MAX);
                assert(prev[j] == PathOramBlock::<V>::spec_dummy());
                assert(keys@[j] == prev_keys[j]);
                assert(blocks@[j] == prev[j]);
            }
        }
        i += 1;
    }
}

/// Assigns each real block of `blocks` to the deepest level of the path to
/// `position` that is an ancestor of its leaf and has room, or to the overflow.
fn assign_real_blocks<V: OramBlock>(
    blocks: &Vec<PathOramBlock<V>>,
    keys: &mut Vec<u64>,
    counts: &mut Vec<u64>,
    position: TreeIndex,
    height: u64,
    z: u64,
)
    requires
        old(keys)@.len() == blocks@.len(),
        old(counts)@.len() == height + 1,
        height <= MAXIMUM_TREE_HEIGHT,
        all_placed(old(keys)@, blocks@, position, height as nat),
    ensures
        final(keys)@.len() == old(keys)@.len(),
        final(counts)@.len() == old(counts)@.len(),
        all_placed(final(keys)@, blocks@, position, height as nat),
{
    let n = blocks.len();
    let levels = counts.len();
    let arbitrary_leaf = first_leaf(height);
    let mut i: usize = 0;
    while i < n
        invariant
            i <= n,
            n == blocks@.len(),
            keys@.len() == n,
            counts@.len() == levels,
            levels == height + 1,
            height <= MAXIMUM_TREE_HEIGHT,
            all_placed(keys@, blocks@, position, height as nat),
        decreases n - i,
    {
        let block = blocks[i];
        let is_dummy = block.ct_is_dummy();
        let block_position = select_u64(block.position, arbitrary_leaf, is_dummy);
        let mut assigned = false;
        let mut level: usize = levels;
        while level > 0
            invariant
                level <= levels,
                i < n,
                n == blocks@.len(),
                keys@.len() == n,
                counts@.len() == levels,
                levels == height + 1,
                height <= MAXIMUM_TREE_HEIGHT,
                block == blocks@[i as int],
                is_dummy == block.is_dummy(),
                !is_dummy ==> block_position == block.position,
                all_placed(keys@, blocks@, position, height as nat),
            decreases level,
        {
            level = level - 1;
            let count = counts[level];
            let full = ct_eq_u64(count, z);
            let on_path = ct_eq_u64(
                node_on_path(block_position, level as u64, height),
                node_on_path(position, level as u64, height),
            );
            let should_assign = ct_and(ct_and(on_path, !full), ct_and(!is_dummy, !assigned));
            assigned = ct_or(assigned, should_assign);
            counts.set(level, select_u64(count, count.wrapping_add(1), should_assign));
            let key = keys[i];
            keys.set(i, select_u64(key, level as u64, should_assign));
            assert(placed(keys@[i as int], blocks@[i as int], position, height as nat));
        }
        let key = keys[i];
        keys.set(i, select_u64(key, u64::MAX - 1, ct_and(!assigned, !is_dummy)));
        assert(placed(keys@[i as int], blocks@[i as int], position, height as nat));
        i += 1;
    }
}

/// Assigns the dummies of `blocks[from..to]` to the levels that still have
/// room, shallowest first.
pub(crate) fn assign_dummies<V: OramBlock>(
    blocks: &Vec<PathOramBlock<V>>,
    keys: &mut Vec<u64>,
    counts: &mut Vec<u64>,
    from: usize,
    to: usize,
    z: u64,
)
    requires
        old(keys)@.len() == blocks@.len(),
        from <= to <= blocks@.len(),
    ensures
        final(keys)@.len() == old(keys)@.len(),
        final(counts)@.len() == old(counts)@.len(),
        forall|j: int|
            0 <= j < old(keys)@.len() ==> #[trigger] final(keys)@[j] == old(keys)@[j] || blocks@[j].is_dummy(),
{
    let levels = counts.len();
    let mut i: usize = from;
    while i < to
        invariant
            from <= i <= to,
            to <= blocks@.len(),
            keys@.len() == blocks@.len(),
            counts@.len() == levels,
            old(keys)@.len() == blocks@.len(),
            forall|j: int|
                0 <= j < old(keys)@.len() ==> #[trigger] keys@[j] == old(keys)@[j] || blocks@[j].is_dummy(),
        decreases to - i,
    {
        let is_free = blocks[i].ct_is_dummy();
        let mut assigned = false;
        let mut level: usize = 0;
        while level < levels
            invariant
                level <= levels,
                i < to,
                to <= blocks@.len(),
                keys@.len() == blocks@.len(),
                counts@.len() == levels,
                is_free == blocks@[i as int].is_dummy(),
                old(keys)@.len() == blocks@.len(),
                forall|j: int|
                    0 <= j < old(keys)@.len() ==> #[trigger] keys@[j] == old(keys)@[j] || blocks@[j].is_dummy(),
            decreases levels - level,
        {
            let count = counts[level];
            let full = ct_eq_u64(count, z);
            let no_op = ct_or(ct_or(assigned, full), !is_free);
            let key = keys[i];
            assert(key == old(keys)@[i as int] || blocks@[i as int].is_dummy()) by {
                assert(keys@[i as int] == key);
            }
            keys.set(i, select_u64(key, level as u64, !no_op));
            assert(!no_op ==> is_free);
            assert(keys@[i as int] == old(keys)@[i as int] || blocks@[i as int].is_dummy());
            counts.set(level, select_u64(count, count.wrapping_add(1), !no_op));
            assigned = ct_or(assigned, !no_op);
            level += 1;
        }
        i += 1;
    }
}

/// Tells whether some level of the path still has room.
pub(crate) fn exists_unfilled_level(counts: &Vec<u64>, z: u64) -> (r: bool)
    ensures
        r == exists|l: int| 0 <= l < counts@.len() && #[trigger] counts@[l] != z,
{
    let mut result = false;
    let mut level: usize = 0;
    while level < counts.len()
        invariant
            level <= counts@.len(),
            result == exists|l: int| 0 <= l < level && #[trigger] counts@[l] != z,
        decreases counts@.len() - level,
    {
        let full = ct_eq_u64(counts[level], z);
        result = ct_or(result, !full);
        level += 1;
    }
    result
}

/// Reads the buckets on the path from the root to `position` into the first
/// `path_size` slots, the bucket at depth `d` into slots `[z * d, z * d + z)`.
pub(crate) fn read_path_into<V: OramBlock, const Z: usize>(
    blocks: &mut Vec<PathOramBlock<V>>,
    path_size: u64,
    physical_memory: &mut CountAccessesDatabase<Bucket<V, Z>>,
    position: TreeIndex,
)
    requires
        path_size <= old(blocks)@.len(),
        path_fits(path_size as int, Z as int, position, old(physical_memory).entries().len() as int),
    ensures
        final(blocks)@.len() == old(blocks)@.len(),
        forall|k: int|
            #![trigger final(blocks)@[k]]
            0 <= k < path_size ==> final(blocks)@[k] == old(physical_memory).entries()[
                ancestor_at_depth(
                    position as int,
                    (k / Z as int) as nat,
                    (path_levels(path_size as int, Z as int) - 1) as nat,
                )].blocks@[k % Z as int],
        forall|k: int|
            #![trigger final(blocks)@[k]]
            path_size <= k < old(blocks)@.len() ==> final(blocks)@[k] == old(blocks)@[k],
        final(physical_memory).entries() == old(physical_memory).entries(),
        final(physical_memory).spec_read_count() == saturating(
            old(physical_memory).spec_read_count() + path_levels(
                path_size as int,
                Z as int,
            ),
        ),
        final(physical_memory).spec_write_count() == old(physical_memory).spec_write_count(),
{
    let ghost h: nat = (path_levels(path_size as int, Z as int) - 1) as nat;
    let ghost mem = physical_memory.entries();
    let len = blocks.len();
    let n_buckets = physical_memory.capacity();
    let levels: u64 = path_size / (Z as u64);
    let height: u64 = levels - 1;
    proof {
        vstd::arithmetic::div_mod::lemma_fundamental_div_mod(path_size as int, Z as int);
        assert(path_size == Z * levels);
    }
    let mut i: u64 = levels;
    while i > 0
        invariant
            i <= levels,
            levels == h + 1,
            height == h,
            h <= MAXIMUM_TREE_HEIGHT,
            len == blocks@.len(),
            path_size == Z * levels,
            path_size <= len,
            is_leaf(position as int, h),
            mem == old(physical_memory).entries(),
            physical_memory.entries() == mem,
            mem.len() == pow2(levels as nat),
            n_buckets == mem.len(),
            physical_memory.spec_read_count() == saturating(
                old(physical_memory).spec_read_count() + (levels - i),
            ),
            physical_memory.spec_write_count() == old(physical_memory).spec_write_count(),
            forall|k: int|
                #![trigger blocks@[k]]
                Z * i <= k < path_size ==> blocks@[k] == mem[ancestor_at_depth(
                    position as int,
                    (k / Z as int) as nat,
                    h,
                )].blocks@[k % Z as int],
            forall|k: int|
                #![trigger blocks@[k]]
                path_size <= k < len ==> blocks@[k] == old(blocks)@[k],
        decreases i,
    {
        i = i - 1;
        let bucket_index = node_on_path(position, i, height);
        proof {
            crate::tree::lemma_ancestor_bounds(position as int, i as nat, h);
        }
        assert(bucket_index < mem.len()) by {
            if (i + 1) < levels {
                vstd::arithmetic::power2::lemma_pow2_strictly_increases((i + 1) as nat, levels as nat);
            }
        }
        let bucket = physical_memory.read_db(bucket_index as usize);
        proof {
            assert(Z * i + Z <= Z * levels) by (nonlinear_arith)
                requires
                    i < levels,
            ;
            assert(Z * i + Z == Z * (i + 1)) by (nonlinear_arith);
        }
        let base: usize = Z * (i as usize);
        let mut slot: usize = 0;
        while slot < Z
            invariant
                slot <= Z,
                base == Z * i,
                base + Z == Z * (i + 1),
                base + Z <= path_size,
                len == blocks@.len(),
                    path_size <= len,
                forall|k: int|
                    #![trigger blocks@[k]]
                    Z * (i + 1) <= k < path_size ==> blocks@[k] == mem[ancestor_at_depth(
                        position as int,
                        (k / Z as int) as nat,
                        h,
                    )].blocks@[k % Z as int],
                forall|k: int|
                    #![trigger blocks@[k]]
                    base <= k < base + slot ==> blocks@[k] == bucket.blocks@[k - base],
                forall|k: int|
                    #![trigger blocks@[k]]
                    path_size <= k < len ==> blocks@[k] == old(blocks)@[k],
            decreases Z - slot,
        {
            blocks.set(base + slot, bucket.blocks[slot]);
            slot += 1;
        }
        proof {
            assert forall|k: int| Z * i <= k < path_size implies #[trigger] blocks@[k]
                == mem[ancestor_at_depth(position as int, (k / Z as int) as nat, h)].blocks@[k
                % Z as int] by {
                if k < Z * (i + 1) {
                    assert(i * Z == Z * i) by (nonlinear_arith);
                    vstd::arithmetic::div_mod::lemma_fundamental_div_mod_converse(
                        k,
                        Z as int,
                        i as int,
                        k - base,
                    );
                }
            }
        }
    }
}

/// Writes slots `[z * d, z * d + z)` of `blocks` to the bucket at depth `d` of
/// the path from the root to `position`, for every depth of the path.
pub(crate) fn write_path_from<V: OramBlock, const Z: usize>(
    blocks: &Vec<PathOramBlock<V>>,
    path_size: u64,
    physical_memory: &mut CountAccessesDatabase<Bucket<V, Z>>,
    position: TreeIndex,
)
    requires
        path_size <= blocks@.len(),
        path_fits(path_size as int, Z as int, position, old(physical_memory).entries().len() as int),
    ensures
        final(physical_memory).entries().len() == old(physical_memory).entries().len(),
        forall|d: nat|
            d < path_levels(path_size as int, Z as int) ==> (
            #[trigger] final(physical_memory).entries()[ancestor_at_depth(
                position as int,
                d,
                (path_levels(path_size as int, Z as int) - 1) as nat,
            )]).blocks@ == blocks@.subrange(Z * d, Z * d + Z),
        forall|j: int|
            0 <= j < old(physical_memory).entries().len() && !on_path(
                j,
                position as int,
                (path_levels(path_size as int, Z as int) - 1) as nat,
            ) ==> #[trigger] final(physical_memory).entries()[j] == old(physical_memory).entries()[j],
        final(physical_memory).spec_read_count() == old(physical_memory).spec_read_count(),
        final(physical_memory).spec_write_count() == saturating(
            old(physical_memory).spec_write_count() + path_levels(path_size as int, Z as int),
        ),
{
    let ghost h: nat = (path_levels(path_size as int, Z as int) - 1) as nat;
    let ghost mem = physical_memory.entries();
    let n_buckets = physical_memory.capacity();
    let levels: u64 = path_size / (Z as u64);
    let height: u64 = levels - 1;
    proof {
        vstd::arithmetic::div_mod::lemma_fundamental_div_mod(path_size as int, Z as int);
        assert(path_size == Z * levels);
    }
    let len = blocks.len();
    let mut depth: u64 = 0;
    while depth < levels
        invariant
            depth <= levels,
            levels == h + 1,
            height == h,
            h <= MAXIMUM_TREE_HEIGHT,
                            path_size == Z * levels,
            path_size <= blocks@.len(),
            len == blocks@.len(),
            is_leaf(position as int, h),
            n_buckets == mem.len(),
            mem == old(physical_memory).entries(),
            physical_memory.entries().len() == mem.len(),
            mem.len() == pow2(levels as nat),
            physical_memory.spec_read_count() == old(physical_memory).spec_read_count(),
            physical_memory.spec_write_count() == saturating(
                old(physical_memory).spec_write_count() + depth,
            ),
            forall|d: nat|
                d < depth ==> (#[trigger] physical_memory.entries()[ancestor_at_depth(
                    position as int,
                    d,
                    h,
                )]).blocks@ == blocks@.subrange(Z * d, Z * d + Z),
            forall|j: int|
                0 <= j < mem.len() && !(exists|d: nat|
                    d < depth && j == #[trigger] ancestor_at_depth(position as int, d, h))
                    ==> #[trigger] physical_memory.entries()[j] == mem[j],
        decreases levels - depth,
    {
        proof {
            assert(Z * depth + Z <= Z * levels) by (nonlinear_arith)
                requires
                    depth < levels,
            ;
            assert(Z * depth + Z == Z * (depth + 1)) by (nonlinear_arith);
        }
        let base: usize = Z * (depth as usize);
        let mut bucket = Bucket::<V, Z>::empty();
        let mut slot: usize = 0;
        while slot < Z
            invariant
                slot <= Z,
                base + Z <= blocks@.len(),
                len == blocks@.len(),
                forall|k: int| 0 <= k < slot ==> bucket.blocks@[k] == #[trigger] blocks@[base + k],
            decreases Z - slot,
        {
            bucket.blocks[slot] = blocks[base + slot];
            slot += 1;
        }
        assert forall|k: int| 0 <= k < Z implies bucket.blocks@[k] == #[trigger] blocks@.subrange(
            base as int,
            base + Z,
        )[k] by {
            assert(bucket.blocks@[k] == blocks@[base + k]);
        }
        assert(bucket.blocks@ =~= blocks@.subrange(base as int, base + Z));
        let node = node_on_path(position, depth, height);
        proof {
            crate::tree::lemma_ancestor_bounds(position as int, depth as nat, h);
            assert forall|d: nat| d < depth implies #[trigger] ancestor_at_depth(position as int, d, h)
                != node by {
                crate::tree::lemma_ancestor_bounds(position as int, d, h);
                if d + 1 < depth {
                    vstd::arithmetic::power2::lemma_pow2_strictly_increases(d + 1, depth as nat);
                }
            }
            if depth + 1 < levels {
                vstd::arithmetic::power2::lemma_pow2_strictly_increases((depth + 1) as nat, levels as nat);
            }
        }
        let ghost before = physical_memory.entries();
        physical_memory.write_db(node as usize, bucket);
        proof {
            assert forall|d: nat| d < depth + 1 implies (#[trigger] physical_memory.entries()[ancestor_at_depth(
                position as int,
                d,
                h,
            )]).blocks@ == blocks@.subrange(Z * d, Z * d + Z) by {
                crate::tree::lemma_ancestor_bounds(position as int, d, h);
                if d + 1 < levels {
                    vstd::arithmetic::power2::lemma_pow2_strictly_increases(d + 1, levels as nat);
                }
                if d < depth {
                    assert(ancestor_at_depth(position as int, d, h) != node);
                    assert(before[ancestor_at_depth(position as int, d, h)].blocks@ == blocks@.subrange(
                        Z * d,
                        Z * d + Z,
                    ));
                }
            }
        }
        depth += 1;
    }
    proof {
        assert forall|j: int|
            0 <= j < mem.len() && !on_path(j, position as int, h) implies #[trigger] physical_memory.entries()[j]
            == mem[j] by {
            if exists|d: nat| d < levels && j == #[trigger] ancestor_at_depth(position as int, d, h) {
                let d = choose|d: nat| d < levels && j == #[trigger] ancestor_at_depth(position as int, d, h);
                assert(on_path(j, position as int, h));
            }
        }
    }
}

/// Scans every slot of `blocks` for `address`: keeps the value of the last
/// block that holds it, and moves each such block to `new_position` with
/// `value_callback` of the value read. Returns the value read, or the default
/// value, and whether some block held `address`.
pub(crate) fn scan_and_update<V: OramBlock, F: Fn(&V) -> V>(
    blocks: &mut Vec<PathOramBlock<V>>,
    address: Address,
    new_position: TreeIndex,
    value_callback: &F,
) -> (r: (V, bool))
    requires
        forall|v: V| value_callback.requires((&v,)),
    ensures
        final(blocks)@.len() == old(blocks)@.len(),
        r.0 == scanned_value(old(blocks)@, address, old(blocks)@.len() as int),
        r.1 == holds_address(old(blocks)@, address),
        !r.1 ==> r.0 == V::spec_default(),
        forall|j: int|
            #![trigger final(blocks)@[j]]
            0 <= j < old(blocks)@.len() && old(blocks)@[j].address != address ==> final(blocks)@[j]
                == old(blocks)@[j],
        forall|j: int|
            #![trigger final(blocks)@[j]]
            0 <= j < old(blocks)@.len() && old(blocks)@[j].address == address ==> {
                &&& final(blocks)@[j].address == address
                &&& final(blocks)@[j].position == new_position
                &&& value_callback.ensures(
                    (&scanned_value(old(blocks)@, address, j + 1),),
                    final(blocks)@[j].value,
                )
            },
{
    let len = blocks.len();
    let mut result: V = V::default_value();
    let mut found = false;
    let mut i: usize = 0;
    while i < len
        invariant
            i <= len,
            len == blocks@.len(),
            len == old(blocks)@.len(),
            forall|v: V| value_callback.requires((&v,)),
            result == scanned_value(old(blocks)@, address, i as int),
            found <==> exists|j: int| 0 <= j < i && #[trigger] old(blocks)@[j].address == address,
            !found ==> result == V::spec_default(),
            forall|j: int|
                #![trigger blocks@[j]]
                i <= j < len ==> blocks@[j] == old(blocks)@[j],
            forall|j: int|
                #![trigger blocks@[j]]
                0 <= j < i && old(blocks)@[j].address != address ==> blocks@[j] == old(blocks)@[j],
            forall|j: int|
                #![trigger blocks@[j]]
                0 <= j < i && old(blocks)@[j].address == address ==> {
                    &&& blocks@[j].address == address
                    &&& blocks@[j].position == new_position
                    &&& value_callback.ensures(
                        (&scanned_value(old(blocks)@, address, j + 1),),
                        blocks@[j].value,
                    )
                },
        decreases len - i,
    {
        let block = blocks[i];
        let is_requested = ct_eq_u64(block.address, address);
        found = ct_or(found, is_requested);
        result = V::conditional_select(&result, &block.value, is_requested);
        let position = select_u64(block.position, new_position, is_requested);
        let value_to_write = value_callback(&result);
        let value = V::conditional_select(&block.value, &value_to_write, is_requested);
        blocks.set(i, PathOramBlock { value, address: block.address, position });
        i += 1;
    }
    proof {
        if holds_address(old(blocks)@, address) {
            let j = choose|j: int| 0 <= j < old(blocks)@.len() && #[trigger] old(blocks)@[j].address == address;
            assert(found);
        }
    }
    (result, found)
}

/// Counts the real blocks of `blocks` from slot `from` on.
pub(crate) fn count_real_from<V: OramBlock>(blocks: &Vec<PathOramBlock<V>>, from: u64) -> (r: u64)
    requires
        from <= blocks@.len(),
    ensures
        r == count_real(blocks@, from as int, blocks@.len() as int),
{
    let len = blocks.len();
    let mut result: u64 = 0;
    let mut i: usize = from as usize;
    assert(i == from);
    while i < len
        invariant
            from <= i <= len,
            len == blocks@.len(),
            result == count_real(blocks@, from as int, i as int),
            result <= i - from,
        decreases len - i,
    {
        if !blocks[i].ct_is_dummy() {
            result += 1;
        }
        i += 1;
    }
    result
}

/// A path of `path_size` slots, `z` per level, reaches the leaf `leaf` of a
/// tree of `n_buckets` buckets.
pub open spec fn path_fits(path_size: int, z: int, leaf: TreeIndex, n_buckets: int) -> bool {
    &&& z > 0
    &&& path_size % z == 0
    &&& 1 <= path_levels(path_size, z) <= MAXIMUM_TREE_HEIGHT + 1
    &&& n_buckets == pow2(path_levels(path_size, z) as nat)
    &&& is_leaf(leaf as int, (path_levels(path_size, z) - 1) as nat)
}

/// A Path ORAM stash whose slots are scanned and written back obliviously.
#[derive(Debug)]
pub struct ObliviousStash<V> {
    blocks: Vec<PathOramBlock<V>>,
    path_size: StashSize,
}

impl<V: OramBlock> View for ObliviousStash<V> {
    type V = Seq<PathOramBlock<V>>;

    closed spec fn view(&self) -> Seq<PathOramBlock<V>> {
        self.blocks@
    }
}

impl<V: OramBlock> ObliviousStash<V> {
    /// The number of slots that a path fills.
    pub closed spec fn spec_path_size(&self) -> nat {
        self.path_size as nat
    }

    /// The slots beyond the path exist.
    pub open spec fn wf(&self) -> bool {
        self.spec_path_size() < self@.len()
    }

    /// Between accesses the last slot is a dummy, kept for a write to an address
    /// that holds no block yet.
    pub open spec fn ready(&self) -> bool {
        &&& self.wf()
        &&& self@.last().is_dummy()
    }

    /// The path of `leaf` in a tree of `n_buckets` buckets matches this stash.
    pub open spec fn fits_path(&self, z: int, leaf: TreeIndex, n_buckets: int) -> bool {
        path_fits(self.spec_path_size() as int, z, leaf, n_buckets)
    }

    /// Returns a stash of `path_size + overflow_size` dummy slots.
    pub fn new(path_size: StashSize, overflow_size: StashSize) -> (r: Result<Self, OramError>)
        ensures
            path_size + overflow_size > usize::MAX ==> r == Err::<Self, OramError>(
                OramError::IntegerConversionError,
            ),
            path_size + overflow_size <= usize::MAX ==> r is Ok && r->Ok_0@ == dummies::<V>(
                (path_size + overflow_size) as nat,
            ) && r->Ok_0.spec_path_size() == path_size,
    {
        let total = match path_size.checked_add(overflow_size) {
            Some(t) => t,
            None => {
                return Err(OramError::IntegerConversionError);
            },
        };
        if total > usize::MAX as u64 {
            return Err(OramError::IntegerConversionError);
        }
        let n = total as usize;
        let mut blocks: Vec<PathOramBlock<V>> = Vec::new();
        let mut i: usize = 0;
        while i < n
            invariant
                i <= n,
                blocks@ == dummies::<V>(i as nat),
            decreases n - i,
        {
            blocks.push(PathOramBlock::<V>::dummy());
            i += 1;
            assert(blocks@ =~= dummies::<V>(i as nat));
        }
        Ok(ObliviousStash { blocks, path_size })
    }

    /// Returns the number of slots.
    pub fn len(&self) -> (r: usize)
        ensures
            r == self@.len(),
    {
        self.blocks.len()
    }

    /// Returns the number of slots that a path fills.
    pub fn path_size(&self) -> (r: StashSize)
        ensures
            r == self.spec_path_size(),
    {
        self.path_size
    }

    /// Reads the buckets on the path from the root to `position` into the path
    /// slots, the bucket at depth `d` into slots `[z * d, z * d + z)`.
    pub fn read_from_path<const Z: usize>(
        &mut self,
        physical_memory: &mut CountAccessesDatabase<Bucket<V, Z>>,
        position: TreeIndex,
    ) -> (r: Result<(), OramError>)
        requires
            old(self).wf(),
            old(self).fits_path(Z as int, position, old(physical_memory).entries().len() as int),
        ensures
            r is Ok,
            final(self).spec_path_size() == old(self).spec_path_size(),
            final(self)@.len() == old(self)@.len(),
            forall|k: int|
                #![trigger final(self)@[k]]
                0 <= k < old(self).spec_path_size() ==> final(self)@[k] == old(physical_memory).entries()[
                    ancestor_at_depth(
                        position as int,
                        (k / Z as int) as nat,
                        (path_levels(old(self).spec_path_size() as int, Z as int) - 1) as nat,
                    )].blocks@[k % Z as int],
            forall|k: int|
                #![trigger final(self)@[k]]
                old(self).spec_path_size() <= k < old(self)@.len() ==> final(self)@[k] == old(self)@[k],
            final(physical_memory).entries() == old(physical_memory).entries(),
            final(physical_memory).spec_read_count() == saturating(
                old(physical_memory).spec_read_count() + path_levels(
                    old(self).spec_path_size() as int,
                    Z as int,
                ),
            ),
            final(physical_memory).spec_write_count() == old(physical_memory).spec_write_count(),
    {
        read_path_into(&mut self.blocks, self.path_size, physical_memory, position);
        Ok(())
    }

    /// Evicts the stash into the path from the root to `position`.
    ///
    /// Each real block is assigned to the deepest bucket on the path that is an
    /// ancestor of its own leaf and has room, or to the overflow; dummies fill
    /// the room that is left. The stash is then sorted by assignment and slots
    /// `[z * d, z * d + z)` are written to the bucket at depth `d`. When the
    /// dummies do not suffice, or no dummy is left for the last slot, the stash
    /// grows by `STASH_GROWTH_INCREMENT` slots at a time: that event is visible,
    /// and rare for the default sizes. Should the sorted path slots not carry
    /// the keys of their levels, the path is written with dummies and the
    /// stash keeps every block beyond its path slots.
    pub fn write_to_path<const Z: usize>(
        &mut self,
        physical_memory: &mut CountAccessesDatabase<Bucket<V, Z>>,
        position: TreeIndex,
    ) -> (r: Result<(), OramError>)
        requires
            old(self).wf(),
            old(self).fits_path(Z as int, position, old(physical_memory).entries().len() as int),
            old(self)@.len() + old(self).spec_path_size() * (STASH_GROWTH_INCREMENT + 1)
                + STASH_GROWTH_INCREMENT <= usize::MAX,
        ensures
            r is Ok,
            final(self).spec_path_size() == old(self).spec_path_size(),
            final(self).ready(),
            old(self)@.len() <= final(self)@.len(),
            final(self)@.len() <= old(self)@.len() + old(self).spec_path_size() * (STASH_GROWTH_INCREMENT + 1)
                + STASH_GROWTH_INCREMENT,
            final(self)@.to_multiset() == old(self)@.to_multiset().add(
                dummies::<V>((final(self)@.len() - old(self)@.len()) as nat).to_multiset(),
            ),
            final(physical_memory).entries().len() == old(physical_memory).entries().len(),
            forall|d: nat|
                d < path_levels(old(self).spec_path_size() as int, Z as int) ==> (
                #[trigger] final(physical_memory).entries()[ancestor_at_depth(
                    position as int,
                    d,
                    (path_levels(old(self).spec_path_size() as int, Z as int) - 1) as nat,
                )]).blocks@ == final(self)@.subrange(Z * d, Z * d + Z),
            forall|j: int|
                0 <= j < old(physical_memory).entries().len() && !on_path(
                    j,
                    position as int,
                    (path_levels(old(self).spec_path_size() as int, Z as int) - 1) as nat,
                ) ==> #[trigger] final(physical_memory).entries()[j]
                    == old(physical_memory).entries()[j],
            path_respected(
                final(physical_memory).entries(),
                position,
                (path_levels(old(self).spec_path_size() as int, Z as int) - 1) as nat,
            ),
            final(physical_memory).spec_read_count() == old(physical_memory).spec_read_count(),
            final(physical_memory).spec_write_count() == saturating(
                old(physical_memory).spec_write_count() + path_levels(
                    old(self).spec_path_size() as int,
                    Z as int,
                ),
            ),
    {
        let ghost initial = self.blocks@;
        let levels: u64 = self.path_size / (Z as u64);
        let height: u64 = levels - 1;
        let z = Z as u64;
        proof {
            vstd::arithmetic::div_mod::lemma_fundamental_div_mod(self.path_size as int, Z as int);
            assert(self.path_size == Z * levels);
            assert(levels <= self.path_size) by (nonlinear_arith)
                requires
                    self.path_size == Z * levels,
                    Z > 0,
            ;
        }
        let len = self.blocks.len();
        let mut keys: Vec<u64> = Vec::new();
        let mut i: usize = 0;
        while i < len
            invariant
                i <= len,
                keys@.len() == i,
                forall|j: int| 0 <= j < i ==> #[trigger] keys@[j] == u64::MAX,
            decreases len - i,
        {
            keys.push(u64::MAX);
            i += 1;
        }
        assert(all_placed(keys@, self.blocks@, position, (levels - 1) as nat)) by {
            assert forall|j: int| 0 <= j < keys@.len() implies #[trigger] placed(
                keys@[j],
                self.blocks@[j],
                position,
                (levels - 1) as nat,
            ) by {
                assert(keys@[j] == u64::MAX);
            }
        }
        let mut counts: Vec<u64> = Vec::new();
        let mut l: u64 = 0;
        while l < levels
            invariant
                l <= levels,
                counts@.len() == l,
            decreases levels - l,
        {
            counts.push(0);
            l += 1;
        }
        assign_real_blocks(&self.blocks, &mut keys, &mut counts, position, height, z);
        let ghost keys1 = keys@;
        assign_dummies(&self.blocks, &mut keys, &mut counts, 0, len - 1, z);
        proof {
            lemma_all_placed_dummy_keys(keys1, keys@, self.blocks@, position, (levels - 1) as nat);
            assert(self.blocks@ =~= initial);
            assert(dummies::<V>(0) =~= Seq::<PathOramBlock<V>>::empty());
            broadcast use vstd::seq_lib::group_to_multiset_ensures, vstd::multiset::group_multiset_properties;
            assert(initial.to_multiset().add(dummies::<V>(0).to_multiset()) =~= initial.to_multiset());
        }
        // Each round of growth fills at least one more slot of the path, so
        // `path_size` rounds always suffice.
        let max_rounds: u64 = self.path_size;
        let mut rounds: u64 = 0;
        let mut unfilled = exists_unfilled_level(&counts, z);
        while unfilled && rounds < max_rounds
            invariant
                rounds <= max_rounds,
                max_rounds == self.path_size,
                self.path_size == old(self).path_size,
                keys@.len() == self.blocks@.len(),
                counts@.len() == levels,
                self.blocks@.len() == initial.len() + rounds * STASH_GROWTH_INCREMENT,
                self.blocks@.len() >= initial.len(),
                self.path_size < initial.len(),
                initial.len() + self.path_size * (STASH_GROWTH_INCREMENT + 1) + STASH_GROWTH_INCREMENT
                    <= usize::MAX,
                all_placed(keys@, self.blocks@, position, (levels - 1) as nat),
                self.blocks@.to_multiset() == initial.to_multiset().add(
                    dummies::<V>((self.blocks@.len() - initial.len()) as nat).to_multiset(),
                ),
            decreases max_rounds - rounds,
        {
            let first_unassigned = self.blocks.len() - 1;
            proof {
                assert(self.path_size * STASH_GROWTH_INCREMENT <= self.path_size * (STASH_GROWTH_INCREMENT
                    + 1)) by (nonlinear_arith);
                assert(rounds * STASH_GROWTH_INCREMENT + STASH_GROWTH_INCREMENT <= self.path_size
                    * STASH_GROWTH_INCREMENT + STASH_GROWTH_INCREMENT) by (nonlinear_arith)
                    requires
                        rounds < self.path_size,
                ;
            }
            let ghost keys0 = keys@;
            let ghost blocks0 = self.blocks@;
            grow(&mut self.blocks, &mut keys, Ghost(initial));
            proof {
                assert forall|j: int| 0 <= j < keys@.len() implies #[trigger] placed(
                    keys@[j],
                    self.blocks@[j],
                    position,
                    (levels - 1) as nat,
                ) by {
                    if j < keys0.len() {
                        assert(self.blocks@[j] == self.blocks@.subrange(0, blocks0.len() as int)[j]);
                        assert(placed(keys0[j], blocks0[j], position, (levels - 1) as nat));
                    }
                }
            }
            let new_len = self.blocks.len();
            let ghost keys2 = keys@;
            assign_dummies(&self.blocks, &mut keys, &mut counts, first_unassigned, new_len - 1, z);
            proof {
                lemma_all_placed_dummy_keys(keys2, keys@, self.blocks@, position, (levels - 1) as nat);
            }
            unfilled = exists_unfilled_level(&counts, z);
            rounds += 1;
            proof {
                assert(self.blocks@.len() == initial.len() + rounds * STASH_GROWTH_INCREMENT) by (
                nonlinear_arith)
                    requires
                        self.blocks@.len() == initial.len() + (rounds - 1) * STASH_GROWTH_INCREMENT
                            + STASH_GROWTH_INCREMENT,
                ;
            }
        }
        proof {
            assert(self.blocks@.len() <= initial.len() + self.path_size * STASH_GROWTH_INCREMENT) by (
            nonlinear_arith)
                requires
                    self.blocks@.len() == initial.len() + rounds * STASH_GROWTH_INCREMENT,
                    rounds <= self.path_size,
            ;
        }
        let ghost keys_before_sort = keys@;
        let ghost blocks_before_sort = self.blocks@;
        bitonic_sort_by_keys(&mut self.blocks, &mut keys);
        proof {
            lemma_all_placed_permuted(
                keys_before_sort,
                blocks_before_sort,
                keys@,
                self.blocks@,
                position,
                (levels - 1) as nat,
            );
        }
        let path_slots = self.path_size as usize;
        proof {
            assert(self.path_size * (STASH_GROWTH_INCREMENT + 1) == self.path_size * STASH_GROWTH_INCREMENT
                + self.path_size) by (nonlinear_arith);
        }
        let matched = path_keys_match(&keys, Z, path_slots);
        if !matched {
            // Some level of the path did not receive exactly `Z` blocks: write
            // the path with dummies and keep every block beyond the path slots.
            let ghost before = self.blocks@;
            let mut shifted: Vec<PathOramBlock<V>> = Vec::new();
            let mut j: usize = 0;
            while j < path_slots
                invariant
                    j <= path_slots,
                    shifted@ == dummies::<V>(j as nat),
                decreases path_slots - j,
            {
                shifted.push(PathOramBlock::<V>::dummy());
                j += 1;
                assert(shifted@ =~= dummies::<V>(j as nat));
            }
            let mut k: usize = 0;
            let n = self.blocks.len();
            while k < n
                invariant
                    k <= n,
                    n == self.blocks@.len(),
                    self.blocks@ == before,
                    shifted@ == dummies::<V>(path_slots as nat) + before.subrange(0, k as int),
                    path_slots + before.len() <= usize::MAX,
                decreases n - k,
            {
                shifted.push(self.blocks[k]);
                k += 1;
                assert(shifted@ =~= dummies::<V>(path_slots as nat) + before.subrange(0, k as int));
            }
            proof {
                assert(before.subrange(0, n as int) =~= before);
                vstd::seq_lib::lemma_multiset_commutative(dummies::<V>(path_slots as nat), before);
                lemma_dummies_add::<V>((before.len() - initial.len()) as nat, path_slots as nat);
                broadcast use vstd::multiset::group_multiset_properties;

                assert(shifted@.to_multiset() =~= initial.to_multiset().add(
                    dummies::<V>((shifted@.len() - initial.len()) as nat).to_multiset(),
                ));
            }
            self.blocks = shifted;
            let mut keys_shifted: Vec<u64> = Vec::new();
            let mut j2: usize = 0;
            while j2 < self.blocks.len()
                invariant
                    j2 <= self.blocks@.len(),
                    keys_shifted@.len() == j2,
                decreases self.blocks@.len() - j2,
            {
                keys_shifted.push(u64::MAX);
                j2 += 1;
            }
            keys = keys_shifted;
        }
        assert(self.blocks@.len() <= initial.len() + self.path_size * (STASH_GROWTH_INCREMENT + 1));
        let ghost evicted = self.blocks@;
        assert(forall|j: int| 0 <= j < self.path_size ==> #[trigger] placed(
            (j / Z as int) as u64,
            evicted[j],
            position,
            (levels - 1) as nat,
        )) by {
            assert forall|j: int| 0 <= j < self.path_size implies #[trigger] placed(
                (j / Z as int) as u64,
                evicted[j],
                position,
                (levels - 1) as nat,
            ) by {
                if matched {
                    assert(keys@[j] == (j / Z as int) as u64);
                    assert(placed(keys@[j], evicted[j], position, (levels - 1) as nat));
                } else {
                    assert(evicted[j] == dummies::<V>(self.path_size as nat)[j]);
                }
            }
        }
        write_path_from(&self.blocks, self.path_size, physical_memory, position);
        let last = self.blocks.len() - 1;
        let ghost sorted = self.blocks@;
        if !self.blocks[last].ct_is_dummy() {
            grow(&mut self.blocks, &mut keys, Ghost(initial));
        }
        proof {
            assert forall|d: nat| d < levels implies self.blocks@.subrange(Z * d, Z * d + Z)
                == #[trigger] sorted.subrange(Z * d, Z * d + Z) by {
                assert(Z * d + Z <= Z * levels) by (nonlinear_arith)
                    requires
                        d < levels,
                ;
                assert(self.blocks@.subrange(Z * d, Z * d + Z) =~= sorted.subrange(Z * d, Z * d + Z));
            }
            let h = (levels - 1) as nat;
            let mem = physical_memory.entries();
            assert forall|d: nat, k: int| d <= h && 0 <= k < Z implies placed(
                d as u64,
                #[trigger] mem[ancestor_at_depth(position as int, d, h)].blocks@[k],
                position,
                h,
            ) by {
                assert(Z * d + Z <= Z * levels) by (nonlinear_arith)
                    requires
                        d < levels,
                ;
                assert(mem[ancestor_at_depth(position as int, d, h)].blocks@ == sorted.subrange(Z * d, Z * d + Z));
                let j = Z * d + k;
                assert(j / Z as int == d) by {
                    assert(d * Z == Z * d) by (nonlinear_arith);
                    vstd::arithmetic::div_mod::lemma_fundamental_div_mod_converse(j, Z as int, d as int, k);
                }
                assert(placed((j / Z as int) as u64, evicted[j], position, h));
            }
        }
        Ok(())
    }

    /// Scans every slot for `address`: reads the value of the block that holds it,
    /// moves that block to `new_position` and stores `value_callback` of the value
    /// read. Where no block holds `address`, the last slot receives a new block.
    ///
    /// Every slot is read and written whether it matches or not.
    pub fn access<F: Fn(&V) -> V>(
        &mut self,
        address: Address,
        new_position: TreeIndex,
        value_callback: F,
    ) -> (r: Result<V, OramError>)
        requires
            old(self).ready(),
            address != DUMMY_ADDRESS,
            forall|v: V| value_callback.requires((&v,)),
        ensures
            r == Ok::<V, OramError>(scanned_value(old(self)@, address, old(self)@.len() as int)),
            final(self).spec_path_size() == old(self).spec_path_size(),
            final(self)@.len() == old(self)@.len(),
            final(self).wf(),
            forall|i: int|
                #![trigger final(self)@[i]]
                0 <= i < old(self)@.len() - 1 && old(self)@[i].address != address ==> final(self)@[i]
                    == old(self)@[i],
            forall|i: int|
                #![trigger final(self)@[i]]
                0 <= i < old(self)@.len() && old(self)@[i].address == address ==> {
                    &&& final(self)@[i].address == address
                    &&& final(self)@[i].position == new_position
                    &&& value_callback.ensures(
                        (&scanned_value(old(self)@, address, i + 1),),
                        final(self)@[i].value,
                    )
                },
            holds_address(old(self)@, address) ==> final(self)@.last() == old(self)@.last(),
            !holds_address(old(self)@, address) ==> {
                &&& final(self)@.last().address == address
                &&& final(self)@.last().position == new_position
                &&& value_callback.ensures((&V::spec_default(),), final(self)@.last().value)
            },
    {
        let len = self.blocks.len();
        let (result, found) = scan_and_update(&mut self.blocks, address, new_position, &value_callback);
        let last = len - 1;
        let last_block = self.blocks[last];
        let fresh = PathOramBlock { value: value_callback(&result), address, position: new_position };
        self.blocks.set(last, PathOramBlock::select(&last_block, &fresh, !found));
        Ok(result)
    }

    /// Returns the number of real blocks beyond the path slots.
    pub fn occupancy(&self) -> (r: StashSize)
        requires
            self.wf(),
        ensures
            r == count_real(self@, self.spec_path_size() as int, self@.len() as int),
    {
        count_real_from(&self.blocks, self.path_size)
    }
}

/// A Path ORAM stash: the buffer that takes in the buckets of a path, is
/// scanned for one address, and is evicted back to the path.
pub trait Stash<V: OramBlock>: Sized {
    /// The slots of the stash.
    spec fn slots(&self) -> Seq<PathOramBlock<V>>;

    /// The number of slots that a path fills.
    spec fn path_slots(&self) -> nat;

    /// The stash is ready for a scan.
    spec fn can_access(&self) -> bool;

    /// The stash is ready for an eviction.
    spec fn can_evict(&self) -> bool;

    /// Returns a stash of `path_size + overflow_size` dummy slots, or an error.
    fn new(path_size: StashSize, overflow_size: StashSize) -> (r: Result<Self, OramError>)
        ensures
            path_size + overflow_size > usize::MAX ==> r == Err::<Self, OramError>(
                OramError::IntegerConversionError,
            ),
            r is Ok ==> r->Ok_0.slots() == dummies::<V>((path_size + overflow_size) as nat)
                && r->Ok_0.path_slots() == path_size,
    ;

    /// Reads the buckets on the path to `position` into the path slots, the
    /// bucket at depth `d` into slots `[z * d, z * d + z)`.
    fn read_from_path<const Z: usize>(
        &mut self,
        physical_memory: &mut CountAccessesDatabase<Bucket<V, Z>>,
        position: TreeIndex,
    ) -> (r: Result<(), OramError>)
        requires
            old(self).can_access(),
            path_fits(
                old(self).path_slots() as int,
                Z as int,
                position,
                old(physical_memory).entries().len() as int,
            ),
        ensures
            r is Ok,
            final(self).can_access(),
            final(self).path_slots() == old(self).path_slots(),
            final(self).slots().len() == old(self).slots().len(),
            forall|k: int|
                #![trigger final(self).slots()[k]]
                0 <= k < old(self).path_slots() ==> final(self).slots()[k] == old(physical_memory).entries()[
                    ancestor_at_depth(
                        position as int,
                        (k / Z as int) as nat,
                        (path_levels(old(self).path_slots() as int, Z as int) - 1) as nat,
                    )].blocks@[k % Z as int],
            forall|k: int|
                #![trigger final(self).slots()[k]]
                old(self).path_slots() <= k < old(self).slots().len() ==> final(self).slots()[k]
                    == old(self).slots()[k],
            final(physical_memory).entries() == old(physical_memory).entries(),
    ;

    /// Evicts the stash to the path to `position`: bucket `d` of the path gets
    /// slots `[z * d, z * d + z)` of the stash after the call.
    fn write_to_path<const Z: usize>(
        &mut self,
        physical_memory: &mut CountAccessesDatabase<Bucket<V, Z>>,
        position: TreeIndex,
    ) -> (r: Result<(), OramError>)
        requires
            old(self).can_evict(),
            path_fits(
                old(self).path_slots() as int,
                Z as int,
                position,
                old(physical_memory).entries().len() as int,
            ),
        ensures
            r is Ok,
            final(self).can_access(),
            final(self).path_slots() == old(self).path_slots(),
            old(self).slots().len() <= final(self).slots().len(),
            final(self).slots().to_multiset() == old(self).slots().to_multiset().add(
                dummies::<V>((final(self).slots().len() - old(self).slots().len()) as nat).to_multiset(),
            ),
            forall|d: nat|
                d < path_levels(old(self).path_slots() as int, Z as int) ==> (
                #[trigger] final(physical_memory).entries()[ancestor_at_depth(
                    position as int,
                    d,
                    (path_levels(old(self).path_slots() as int, Z as int) - 1) as nat,
                )]).blocks@ == final(self).slots().subrange(Z * d, Z * d + Z),
            forall|j: int|
                0 <= j < old(physical_memory).entries().len() && !on_path(
                    j,
                    position as int,
                    (path_levels(old(self).path_slots() as int, Z as int) - 1) as nat,
                ) ==> #[trigger] final(physical_memory).entries()[j]
                    == old(physical_memory).entries()[j],
    ;

    /// Scans every slot for `address`, returns the value found (or the default
    /// value), and moves the blocks that carry `address` to `new_position` with
    /// `value_callback` of the value read.
    fn access<F: Fn(&V) -> V>(
        &mut self,
        address: Address,
        new_position: TreeIndex,
        value_callback: F,
    ) -> (r: Result<V, OramError>)
        requires
            old(self).can_access(),
            address != DUMMY_ADDRESS,
            forall|v: V| value_callback.requires((&v,)),
        ensures
            r == Ok::<V, OramError>(scanned_value(old(self).slots(), address, old(self).slots().len() as int)),
            final(self).path_slots() == old(self).path_slots(),
            final(self).slots().len() == old(self).slots().len(),
            old(self).can_evict() ==> final(self).can_evict(),
            forall|i: int|
                #![trigger final(self).slots()[i]]
                0 <= i < old(self).slots().len() - 1 && old(self).slots()[i].address != address
                    ==> final(self).slots()[i] == old(self).slots()[i],
            forall|i: int|
                #![trigger final(self).slots()[i]]
                0 <= i < old(self).slots().len() && old(self).slots()[i].address == address ==> {
                    &&& final(self).slots()[i].address == address
                    &&& final(self).slots()[i].position == new_position
                    &&& value_callback.ensures(
                        (&scanned_value(old(self).slots(), address, i + 1),),
                        final(self).slots()[i].value,
                    )
                },
    ;

    /// Returns the number of real blocks beyond the path slots.
    fn occupancy(&self) -> (r: StashSize)
        requires
            self.path_slots() <= self.slots().len(),
        ensures
            r == count_real(self.slots(), self.path_slots() as int, self.slots().len() as int),
    ;
}

impl<V: OramBlock> Stash<V> for ObliviousStash<V> {
    open spec fn slots(&self) -> Seq<PathOramBlock<V>> {
        self@
    }

    open spec fn path_slots(&self) -> nat {
        self.spec_path_size()
    }

    open spec fn can_access(&self) -> bool {
        self.ready()
    }

    open spec fn can_evict(&self) -> bool {
        &&& self.wf()
        &&& self@.len() + self.spec_path_size() * (STASH_GROWTH_INCREMENT + 1) + STASH_GROWTH_INCREMENT
            <= usize::MAX
    }

    fn new(path_size: StashSize, overflow_size: StashSize) -> (r: Result<Self, OramError>) {
        ObliviousStash::<V>::new(path_size, overflow_size)
    }

    fn read_from_path<const Z: usize>(
        &mut self,
        physical_memory: &mut CountAccessesDatabase<Bucket<V, Z>>,
        position: TreeIndex,
    ) -> (r: Result<(), OramError>) {
        ObliviousStash::<V>::read_from_path(self, physical_memory, position)
    }

    fn write_to_path<const Z: usize>(
        &mut self,
        physical_memory: &mut CountAccessesDatabase<Bucket<V, Z>>,
        position: TreeIndex,
    ) -> (r: Result<(), OramError>) {
        ObliviousStash::<V>::write_to_path(self, physical_memory, position)
    }

    fn access<F: Fn(&V) -> V>(
        &mut self,
        address: Address,
        new_position: TreeIndex,
        value_callback: F,
    ) -> (r: Result<V, OramError>) {
        ObliviousStash::<V>::access(self, address, new_position, value_callback)
    }

    fn occupancy(&self) -> (r: StashSize) {
        count_real_from(&self.blocks, self.path_size)
    }
}

} // verus!
