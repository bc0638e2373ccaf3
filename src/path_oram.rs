//! The Path ORAM front-end.
use crate::bucket::{Bucket, PositionBlock};
use crate::database::{saturating, CountAccessesDatabase};
use crate::position_map::PositionMap;
use crate::stash::{
    dummies, holds_address, on_path, path_respected, scanned_value, ObliviousStash, STASH_GROWTH_INCREMENT,
};
use crate::tree::{TreeHeight, MAXIMUM_TREE_HEIGHT};
use crate::bucket::PathOramBlock;
use crate::shuffle::{invert_permutation_oblivious, iota, random_permutation_of_0_through_n_exclusive};
use crate::tree::{ancestor_at_depth, TreeIndex, checked_log2, first_leaf, is_leaf, is_power_of_two};
use crate::{Address, BlockSize, BucketSize, Oram, OramBlock, OramError};
use rand::rngs::StdRng;
use rand::Rng;
use vstd::arithmetic::power2::pow2;
use vstd::prelude::*;

verus! {

/// The number of slots of the stash beyond those of a path.
pub const OVERFLOW_SIZE: u64 = 40;

/// The numeric type of the capacity below which the position map is linear.
pub type RecursionThreshold = u64;

/// The default capacity at or below which the position map is linear.
pub const DEFAULT_RECURSION_THRESHOLD: RecursionThreshold = 4096;

/// The default number of blocks per bucket.
pub const DEFAULT_BLOCKS_PER_BUCKET: BucketSize = 4;

/// The default number of leaves per position block.
pub const DEFAULT_POSITION_BLOCK_SIZE: BlockSize = 4096;

/// The capacity of the ORAM that holds the position map of `c` addresses,
/// `ab` to a block.
pub open spec fn inner_capacity(c: int, ab: int) -> int {
    let blocks = (c - 1) / ab + 1;
    if blocks < 2 {
        2
    } else {
        blocks
    }
}

/// A capacity of `c` addresses is admissible for `z` blocks per bucket, `ab`
/// leaves per position block and a linear position map at or below `rt`
/// addresses: `c` is a power of two of at least 2, `z >= 2`, `ab >= 1`, and
/// above `rt` the position map's own ORAM is smaller and admissible.
pub open spec fn admissible(c: int, z: int, ab: int, rt: int) -> bool
    decreases c,
{
    &&& is_power_of_two(c)
    &&& c >= 2
    &&& z >= 2
    &&& ab >= 1
    &&& c > rt ==> inner_capacity(c, ab) < c && admissible(inner_capacity(c, ab), z, ab, rt)
}

/// The bucket of leaf `l` holds, in its first two slots, the addresses of
/// slots `2 (l - first)` and `2 (l - first) + 1` of `perm`, with their values.
pub open spec fn leaf_holds_slots<V: OramBlock, const Z: usize>(
    bucket: Bucket<V, Z>,
    l: int,
    first: int,
    perm: Seq<u64>,
    values: Seq<V>,
) -> bool {
    forall|k: int|
        0 <= k < Z ==> #[trigger] bucket.blocks@[k] == if k < 2 {
            PathOramBlock {
                value: values[perm[2 * (l - first) + k] as int],
                address: perm[2 * (l - first) + k],
                position: l as u64,
            }
        } else {
            PathOramBlock::<V>::spec_dummy()
        }
}

/// A real block `b` holds the value that `contents` gives its address, and
/// the leaf that `leaves` gives it.
pub open spec fn agrees<V: OramBlock>(b: PathOramBlock<V>, contents: Seq<V>, leaves: Seq<TreeIndex>) -> bool {
    !b.is_dummy() ==> {
        &&& b.address < contents.len()
        &&& b.address < leaves.len()
        &&& b.value == contents[b.address as int]
        &&& b.position == leaves[b.address as int]
    }
}

/// The callback gives one result for each argument.
pub open spec fn deterministic<V, F: Fn(&V) -> V>(callback: F) -> bool {
    forall|v: V, r1: V, r2: V|
        #![trigger callback.ensures((&v,), r1), callback.ensures((&v,), r2)]
        callback.ensures((&v,), r1) && callback.ensures((&v,), r2) ==> r1 == r2
}

/// `z` blocks per bucket leave room, in `usize`, for a stash of the largest
/// tree and for its growth.
pub open spec fn sizes_fit(z: int) -> bool {
    z * 768 + 50 <= usize::MAX
}

/// Tells whether `block_capacity` is admissible for these parameters.
pub fn check_configuration<const Z: usize, const AB: usize, const RT: u64>(block_capacity: u64) -> (r: Result<
    (),
    OramError,
>)
    ensures
        r is Ok <==> admissible(block_capacity as int, Z as int, AB as int, RT as int),
        r is Err ==> r == Err::<(), OramError>(OramError::InvalidConfigurationError),
    decreases block_capacity,
{
    if checked_log2(block_capacity).is_none() || block_capacity < 2 || Z < 2 || AB == 0 {
        return Err(OramError::InvalidConfigurationError);
    }
    if block_capacity > RT {
        let blocks = (block_capacity - 1) / (AB as u64) + 1;
        let inner = if blocks < 2 {
            2
        } else {
            blocks
        };
        if inner >= block_capacity {
            return Err(OramError::InvalidConfigurationError);
        }
        return check_configuration::<Z, AB, RT>(inner);
    }
    Ok(())
}

/// The contents after the writes `writes`, in order, each an address and a value.
pub open spec fn after_writes<V>(c: Seq<V>, writes: Seq<(int, V)>) -> Seq<V>
    decreases writes.len(),
{
    if writes.len() == 0 {
        c
    } else {
        after_writes(c, writes.drop_last()).update(writes.last().0, writes.last().1)
    }
}

/// Two entries of `s` at different indices are equal: the multiset counts
/// that element at least twice.
proof fn lemma_count_at_least_two<A>(s: Seq<A>, i: int, j: int)
    requires
        0 <= i < j < s.len(),
        s[i] == s[j],
    ensures
        s.to_multiset().count(s[i]) >= 2,
{
    broadcast use vstd::seq_lib::group_to_multiset_ensures;

    let p = s.subrange(0, j);
    let q = s.subrange(j, s.len() as int);
    assert(p + q =~= s);
    vstd::seq_lib::lemma_multiset_commutative(p, q);
    assert(p[i] == s[i]);
    assert(p.contains(s[i]));
    assert(q[0] == s[i]);
    assert(q.contains(s[i]));
}

/// An element at no two indices of `s` is counted at most once.
proof fn lemma_count_at_most_one<A>(s: Seq<A>, b: A)
    requires
        forall|i: int, j: int| 0 <= i < s.len() && 0 <= j < s.len() && i != j && #[trigger] s[i] == b ==> #[trigger] s[j]
            != b,
    ensures
        s.to_multiset().count(b) <= 1,
    decreases s.len(),
{
    broadcast use vstd::seq_lib::group_to_multiset_ensures;

    if s.len() > 0 {
        let init = s.drop_last();
        assert forall|i: int, j: int|
            0 <= i < init.len() && 0 <= j < init.len() && i != j && #[trigger] init[i] == b implies #[trigger] init[j]
            != b by {
            assert(s[i] == b);
        }
        lemma_count_at_most_one(init, b);
        assert(init.push(s.last()) =~= s);
        if s.last() == b {
            if init.contains(b) {
                let i = choose|i: int| 0 <= i < init.len() && init[i] == b;
                assert(s[i] == b);
            }
            assert(init.to_multiset().count(b) == 0);
        }
    }
}

/// The value of the last write to `a` among `writes`, if any.
pub open spec fn last_write<V>(writes: Seq<(int, V)>, a: int) -> Option<V>
    decreases writes.len(),
{
    if writes.len() == 0 {
        None
    } else if writes.last().0 == a {
        Some(writes.last().1)
    } else {
        last_write(writes.drop_last(), a)
    }
}

/// Read your writes: the contents after a sequence of writes hold at each
/// address the value of the last write to it, and the value before the
/// writes where there was none. `read` returns the contents at its address
/// and `write` updates them, so a read returns the most recent value written.
pub proof fn lemma_read_your_writes<V>(c: Seq<V>, writes: Seq<(int, V)>, a: int)
    requires
        0 <= a < c.len(),
        forall|i: int| 0 <= i < writes.len() ==> 0 <= #[trigger] writes[i].0 < c.len(),
    ensures
        after_writes(c, writes).len() == c.len(),
        after_writes(c, writes)[a] == match last_write(writes, a) {
            Some(v) => v,
            None => c[a],
        },
    decreases writes.len(),
{
    if writes.len() > 0 {
        let init = writes.drop_last();
        assert forall|i: int| 0 <= i < init.len() implies 0 <= #[trigger] init[i].0 < c.len() by {
            assert(init[i] == writes[i]);
        }
        lemma_read_your_writes(c, init, a);
        assert(0 <= writes.last().0 < c.len()) by {
            assert(writes[writes.len() - 1].0 < c.len());
        }
    }
}

/// A Path ORAM with the default parameters.
pub type DefaultOram<V> = PathOram<
    V,
    DEFAULT_BLOCKS_PER_BUCKET,
    DEFAULT_POSITION_BLOCK_SIZE,
    DEFAULT_RECURSION_THRESHOLD,
>;

/// `rand::rngs::StdRng`, the generator that construction and accesses draw
/// from; verified code only passes it on, and nothing of its state is modelled.
#[verifier::external_type_specification]
#[verifier::external_body]
pub struct ExStdRng(StdRng);

/// Relies on `rand::Rng::gen_range` over a half-open range of `u64`: a value
/// in `[low, high)`; it panics on an empty range, which `requires` excludes.
#[verifier::external_body]
pub(crate) fn uniform_u64(rng: &mut StdRng, low: u64, high: u64) -> (r: u64)
    requires
        low < high,
    ensures
        low <= r < high,
{
    rng.gen_range(low..high)
}

/// Draws a leaf of the tree of height `height` uniformly.
pub fn random_leaf(height: TreeHeight, rng: &mut StdRng) -> (r: u64)
    requires
        height <= MAXIMUM_TREE_HEIGHT,
    ensures
        is_leaf(r as int, height as nat),
{
    let first = first_leaf(height);
    proof {
        vstd::arithmetic::power2::lemma_pow2_adds(height as nat, 1);
        vstd::arithmetic::power2::lemma2_to64();
    }
    uniform_u64(rng, first, 2 * first)
}

/// A doubly oblivious Path ORAM over values `V`, with `Z` blocks per bucket,
/// `AB` leaves per position block and a linear position map at or below `RT` addresses.
pub struct PathOram<V, const Z: usize, const AB: usize, const RT: u64> {
    /// The untrusted memory that is accessed on the client's behalf.
    pub physical_memory: CountAccessesDatabase<Bucket<V, Z>>,
    /// The stash.
    pub stash: ObliviousStash<V>,
    /// The position map.
    pub position_map: PositionMap<AB, Z, RT>,
    /// The height of the tree.
    pub height: TreeHeight,
    /// The value held at each address.
    pub contents: Ghost<Seq<V>>,
}

impl<V: OramBlock, const Z: usize, const AB: usize, const RT: u64> PathOram<V, Z, AB, RT> {
    /// The number of addresses, which is also the number of buckets.
    pub open spec fn capacity(&self) -> int {
        self.physical_memory.entries().len() as int
    }

    /// The shape of the tree, the stash and the position map agree.
    pub open spec fn wf(&self) -> bool
        decreases self,
    {
        &&& Z >= 2
        &&& self.height <= MAXIMUM_TREE_HEIGHT
        &&& self.capacity() == pow2((self.height + 1) as nat)
        &&& self.stash.ready()
        &&& self.stash.spec_path_size() == Z * (self.height + 1)
        &&& self.position_map.wf()
        &&& self.position_map.covers() >= self.capacity()
        &&& self.position_map.is_linear() ==> forall|a: int|
            0 <= a < self.capacity() ==> is_leaf(#[trigger] self.position_map.positions()[a] as int, self.height as nat)
    }

    /// Returns an ORAM of `block_capacity` addresses, each holding the default value.
    ///
    /// The capacity must be a power of two of at least 2.
    pub fn new(block_capacity: Address, rng: &mut StdRng) -> (r: Result<Self, OramError>)
        ensures
            !(is_power_of_two(block_capacity as int) && block_capacity >= 2) ==> r == Err::<
                Self,
                OramError,
            >(OramError::InvalidConfigurationError),
            r == Err::<Self, OramError>(OramError::InvalidConfigurationError) <==> !admissible(
                block_capacity as int,
                Z as int,
                AB as int,
                RT as int,
            ),
            admissible(block_capacity as int, Z as int, AB as int, RT as int) && block_capacity
                <= usize::MAX && sizes_fit(Z as int) ==> r is Ok,
            r is Ok ==> r->Ok_0.wf() && r->Ok_0.capacity() == block_capacity && r->Ok_0.can_evict(),
            r is Ok ==> r->Ok_0.initial_layout(Seq::new(block_capacity as nat, |i: int| V::spec_default())),
            r is Ok ==> r->Ok_0.inv() && r->Ok_0.contents@ == Seq::new(
                block_capacity as nat,
                |i: int| V::spec_default(),
            ),
            r is Ok ==> forall|a: int|
                0 <= a < block_capacity ==> #[trigger] r->Ok_0.initially_holds(a, V::spec_default()),
            r is Err ==> r->Err_0 != OramError::AddressOutOfBoundsError,
    {
        match check_configuration::<Z, AB, RT>(block_capacity) {
            Ok(()) => {},
            Err(e) => {
                return Err(e);
            },
        }
        if block_capacity > usize::MAX as u64 {
            return Err(OramError::IntegerConversionError);
        }
        let n = block_capacity as usize;
        let mut values: Vec<V> = Vec::new();
        let mut i: usize = 0;
        while i < n
            invariant
                i <= n,
                values@.len() == i,
                forall|j: int| 0 <= j < i ==> #[trigger] values@[j] == V::spec_default(),
            decreases n - i,
        {
            values.push(V::default_value());
            i += 1;
        }
        let r = Self::new_with_values(block_capacity, &values, rng);
        proof {
            if r is Ok {
                assert forall|a: int| 0 <= a < block_capacity implies #[trigger] r->Ok_0.initially_holds(
                    a,
                    V::spec_default(),
                ) by {
                    assert(r->Ok_0.initially_holds(a, values@[a]));
                }
                assert(values@ =~= Seq::new(block_capacity as nat, |i: int| V::spec_default()));
            }
        }
        r
    }

    /// Returns an ORAM whose address `a` holds `values[a]`; the number of
    /// values must be a power of two of at least 2.
    ///
    /// The addresses are spread two to a leaf by a random permutation, and the
    /// position map is built with the matching leaves in place.
    pub fn new_with_values(capacity: u64, values: &Vec<V>, rng: &mut StdRng) -> (r: Result<Self, OramError>)
        requires
            values@.len() == capacity,
        ensures
            !(is_power_of_two(values@.len() as int) && values@.len() >= 2) ==> r == Err::<
                Self,
                OramError,
            >(OramError::InvalidConfigurationError),
            r == Err::<Self, OramError>(OramError::InvalidConfigurationError) <==> !admissible(
                values@.len() as int,
                Z as int,
                AB as int,
                RT as int,
            ),
            admissible(values@.len() as int, Z as int, AB as int, RT as int) && sizes_fit(Z as int) ==> r is Ok,
            r is Ok ==> r->Ok_0.wf() && r->Ok_0.capacity() == values@.len() && r->Ok_0.can_evict(),
            r is Ok ==> r->Ok_0.initial_layout(values@),
            r is Ok ==> r->Ok_0.inv() && r->Ok_0.contents@ == values@,
            r is Ok ==> forall|a: int|
                0 <= a < values@.len() ==> #[trigger] r->Ok_0.initially_holds(a, values@[a]),
            r is Err ==> r->Err_0 != OramError::AddressOutOfBoundsError,
        decreases capacity, 1nat,
    {
        let n_buckets = values.len();
        let block_capacity = capacity;
        match check_configuration::<Z, AB, RT>(block_capacity) {
            Ok(()) => {},
            Err(e) => {
                return Err(e);
            },
        }
        let levels = match checked_log2(block_capacity) {
            Some(k) => k,
            None => {
                return Err(OramError::InvalidConfigurationError);
            },
        };
        if block_capacity <= 1 || Z < 2 || AB == 0 {
            return Err(OramError::InvalidConfigurationError);
        }
        proof {
            vstd::arithmetic::power2::lemma2_to64();
        }
        let height: u64 = levels - 1;
        proof {
            if sizes_fit(Z as int) {
                assert(Z * levels <= Z * 63) by (nonlinear_arith)
                    requires
                        levels <= 63,
                ;
            }
        }
        let path_size = match (Z as u64).checked_mul(levels) {
            Some(p) => p,
            None => {
                return Err(OramError::IntegerConversionError);
            },
        };
        // Room for the stash and for the most that one eviction adds to it.
        if path_size > (usize::MAX as u64 - 50) / 12 {
            return Err(OramError::IntegerConversionError);
        }
        let stash = match ObliviousStash::<V>::new(path_size, OVERFLOW_SIZE) {
            Ok(s) => s,
            Err(e) => {
                return Err(e);
            },
        };
        let slot_indices_to_addresses = random_permutation_of_0_through_n_exclusive(n_buckets, rng);
        let addresses_to_slot_indices = invert_permutation_oblivious(&slot_indices_to_addresses);
        let first = first_leaf(height);
        proof {
            vstd::arithmetic::power2::lemma_pow2_adds(height as nat, 1);
            assert(block_capacity == 2 * first);
        }
        // The leaf of address `a` is that of slot `addresses_to_slot_indices[a]`.
        let mut leaves: Vec<TreeIndex> = Vec::new();
        let mut a: usize = 0;
        while a < n_buckets
            invariant
                a <= n_buckets,
                leaves@.len() == a,
                addresses_to_slot_indices@.len() == n_buckets,
                addresses_to_slot_indices@.to_multiset() == iota(n_buckets as nat).to_multiset(),
                n_buckets == block_capacity,
                block_capacity == 2 * first,
                forall|b: int| 0 <= b < a ==> #[trigger] leaves@[b] == first + addresses_to_slot_indices@[b] / 2,
            decreases n_buckets - a,
        {
            let slot = addresses_to_slot_indices[a];
            proof {
                crate::shuffle::lemma_permutation_bounded(addresses_to_slot_indices@, n_buckets as nat, a as int);
            }
            leaves.push(first + slot / 2);
            a += 1;
        }
        let position_map = match PositionMap::<AB, Z, RT>::new_with_leaves(&leaves, rng) {
            Ok(m) => m,
            Err(e) => {
                return Err(e);
            },
        };
        let empty = Bucket::<V, Z>::empty();
        let mut physical_memory = CountAccessesDatabase::new(n_buckets, empty);
        // Two blocks per leaf, with randomly permuted addresses and their values.
        let mut leaf: u64 = first;
        while leaf < 2 * first
            invariant
                first <= leaf <= 2 * first,
                block_capacity == 2 * first,
                n_buckets == block_capacity,
                n_buckets == values@.len(),
                Z >= 2,
                slot_indices_to_addresses@.len() == n_buckets,
                slot_indices_to_addresses@.to_multiset() == iota(n_buckets as nat).to_multiset(),
                physical_memory.entries().len() == n_buckets,
                forall|l: int|
                    first <= l < leaf ==> #[trigger] leaf_holds_slots(
                        physical_memory.entries()[l],
                        l,
                        first as int,
                        slot_indices_to_addresses@,
                        values@,
                    ),
                empty.is_empty(),
                forall|l: int|
                    (0 <= l < first || leaf <= l < n_buckets) ==> #[trigger] physical_memory.entries()[l] == empty,
            decreases 2 * first - leaf,
        {
            let mut bucket = empty;
            let address_index = ((leaf - first) * 2) as usize;
            let address0 = slot_indices_to_addresses[address_index];
            let address1 = slot_indices_to_addresses[address_index + 1];
            proof {
                crate::shuffle::lemma_permutation_bounded(
                    slot_indices_to_addresses@,
                    n_buckets as nat,
                    address_index as int,
                );
                crate::shuffle::lemma_permutation_bounded(
                    slot_indices_to_addresses@,
                    n_buckets as nat,
                    address_index + 1,
                );
            }
            bucket.blocks[0] = PathOramBlock {
                value: values[address0 as usize],
                address: address0,
                position: leaf,
            };
            bucket.blocks[1] = PathOramBlock {
                value: values[address1 as usize],
                address: address1,
                position: leaf,
            };
            physical_memory.write_db(leaf as usize, bucket);
            assert(leaf_holds_slots(
                physical_memory.entries()[leaf as int],
                leaf as int,
                first as int,
                slot_indices_to_addresses@,
                values@,
            ));
            leaf += 1;
        }
        let r = PathOram { physical_memory, stash, position_map, height, contents: Ghost(values@) };
        proof {
            let perm = slot_indices_to_addresses@;
            let inv = addresses_to_slot_indices@;
            broadcast use vstd::seq_lib::group_to_multiset_ensures;

            assert forall|a: int| 0 <= a < n_buckets implies #[trigger] r.initially_holds(a, values@[a]) by {
                assert(iota(n_buckets as nat)[a] == a as u64);
                assert(iota(n_buckets as nat).contains(a as u64));
                assert(perm.to_multiset().count(a as u64) > 0);
                assert(perm.contains(a as u64));
                let i = choose|i: int| 0 <= i < perm.len() && perm[i] == a as u64;
                assert(inv[perm[i] as int] == i);
                let l = first + i / 2;
                assert(first <= l < 2 * first);
                assert(leaf_holds_slots(r.physical_memory.entries()[l], l, first as int, perm, values@));
                assert(i == 2 * (l - first) + i % 2);
                assert(leaves@[a] == first + inv[a] / 2);
                assert(leaves@[a] == l);
                assert(r.position_map.is_linear() ==> r.position_map.positions() == leaves@);
                assert(is_leaf(l, height as nat));
                let blk = PathOramBlock { value: values@[a], address: a as u64, position: l as u64 };
                assert(r.physical_memory.entries()[l].blocks@[i % 2] == blk);
                assert(0 <= i % 2 < Z);
            }
            crate::shuffle::lemma_permutation_distinct(perm, n_buckets as nat);
            let mem = r.physical_memory.entries();
            assert forall|l: int, k: int| first <= l < 2 * first && 0 <= k < Z implies if k < 2 {
                &&& !(#[trigger] mem[l].blocks@[k]).is_dummy()
                &&& mem[l].blocks@[k].address < values@.len()
                &&& mem[l].blocks@[k].position == l
                &&& mem[l].blocks@[k].value == values@[mem[l].blocks@[k].address as int]
            } else {
                mem[l].blocks@[k] == PathOramBlock::<V>::spec_dummy()
            } by {
                assert(leaf_holds_slots(mem[l], l, first as int, perm, values@));
                if k < 2 {
                    crate::shuffle::lemma_permutation_bounded(perm, n_buckets as nat, 2 * (l - first) + k);
                }
            }
            assert forall|l1: int, k1: int, l2: int, k2: int|
                first <= l1 < 2 * first && first <= l2 < 2 * first && 0 <= k1 < 2 && 0 <= k2 < 2 && (l1 != l2
                    || k1 != k2) implies (#[trigger] mem[l1].blocks@[k1]).address != (#[trigger] mem[l2].blocks@[
                k2]).address by {
                assert(leaf_holds_slots(mem[l1], l1, first as int, perm, values@));
                assert(leaf_holds_slots(mem[l2], l2, first as int, perm, values@));
                assert(2 * (l1 - first) + k1 != 2 * (l2 - first) + k2);
            }
            assert forall|j: int| 0 <= j < first implies (#[trigger] mem[j]).is_empty() by {
                assert(mem[j] == empty);
            }
            let pos = r.position_map.positions();
            let h = r.height as nat;
            assert forall|a: int| 0 <= a < r.capacity() implies is_leaf(#[trigger] pos[a] as int, h) by {
                crate::shuffle::lemma_permutation_bounded(inv, n_buckets as nat, a);
                assert(leaves@[a] == first + inv[a] / 2);
            }
            assert(pow2(0) == 1) by {
                vstd::arithmetic::power2::lemma2_to64();
            }
            assert forall|j: int, k: int| 0 <= j < r.capacity() && 0 <= k < Z implies agrees(
                #[trigger] mem[j].blocks@[k],
                values@,
                pos,
            ) && (!mem[j].blocks@[k].is_dummy() ==> on_path(j, mem[j].blocks@[k].position as int, h)) by {
                if j < first {
                    assert(mem[j] == empty);
                    assert(mem[j].blocks@[k] == PathOramBlock::<V>::spec_dummy());
                } else {
                    assert(leaf_holds_slots(mem[j], j, first as int, perm, values@));
                    if k < 2 {
                        let x = 2 * (j - first) + k;
                        crate::shuffle::lemma_permutation_bounded(perm, n_buckets as nat, x);
                        assert(inv[perm[x] as int] == x);
                        assert(leaves@[perm[x] as int] == first + inv[perm[x] as int] / 2);
                        assert(((h - h) as nat) == 0nat);
                        assert(j / 1 == j);
                        assert(ancestor_at_depth(j, h, h) == j);
                        assert(on_path(j, j, h));
                    }
                }
            }
            assert forall|i: int| r.stash.spec_path_size() <= i < r.stash@.len() implies agrees(
                #[trigger] r.stash@[i],
                values@,
                pos,
            ) by {}
            assert forall|a: int| 0 <= a < r.capacity() implies #[trigger] r.holds_live(a) by {
                assert(r.initially_holds(a, values@[a]));
                let (l, k) = choose|l: int, k: int|
                    #![trigger r.physical_memory.entries()[l].blocks@[k]]
                    is_leaf(l, r.height as nat) && 0 <= k < Z && r.physical_memory.entries()[l].blocks@[k]
                        == (PathOramBlock { value: values@[a], address: a as u64, position: l as u64 }) && (
                    r.position_map.is_linear() ==> r.position_map.positions()[a] == l);
                assert(r.physical_memory.entries()[l].blocks@[k].address == a);
            }
        }
        Ok(r)
    }

    /// Performs an oblivious access: returns the value `v` stored at `address`
    /// and stores `callback(v)` in its place.
    ///
    /// Only whether `address` is in bounds decides a branch; the buckets read and
    /// written are those of a leaf drawn afresh at the previous access.
    pub fn access<F: Fn(&V) -> V>(&mut self, address: Address, callback: F, rng: &mut StdRng) -> (r: Result<
        V,
        OramError,
    >)
        requires
            old(self).inv(),
            forall|v: V| callback.requires((&v,)),
            deterministic(callback),
        ensures
            final(self).wf(),
            final(self).inv(),
            final(self).capacity() == old(self).capacity(),
            final(self).position_map.layers() == old(self).position_map.layers(),
            address < old(self).capacity() && old(self).can_evict() ==> {
                &&& r == Ok::<V, OramError>(old(self).contents@[address as int])
                &&& callback.ensures((&old(self).contents@[address as int],), final(self).contents@[address as int])
                &&& final(self).contents@ == old(self).contents@.update(
                    address as int,
                    final(self).contents@[address as int],
                )
            },
            address >= old(self).capacity() ==> r == Err::<V, OramError>(OramError::AddressOutOfBoundsError)
                && *final(self) == *old(self) && *final(rng) == *old(rng),
            address < old(self).capacity() && !old(self).can_evict() ==> r == Err::<V, OramError>(
                OramError::IntegerConversionError,
            ) && *final(self) == *old(self),
            address < old(self).capacity() && old(self).can_evict() ==> r is Ok && final(self).counted_access_of(
                *old(self),
            ) && final(self).evicted_along_one_path(*old(self)) && final(self).linear_map_followed(
                *old(self),
                address as int,
            ),
        decreases old(self).position_map.layers(), 1nat,
    {
        let capacity = self.physical_memory.capacity();
        if address >= capacity as u64 {
            return Err(OramError::AddressOutOfBoundsError);
        }
        let stash_len = self.stash.len();
        let path_size = self.stash.path_size();
        proof {
            vstd::arithmetic::power2::lemma_pow2_pos((self.height + 1) as nat);
            assert(path_size <= Z * 64) by (nonlinear_arith)
                requires
                    path_size == Z * (self.height + 1),
                    self.height <= 62,
            ;
        }
        let fits = match (path_size as usize).checked_mul(STASH_GROWTH_INCREMENT + 1) {
            Some(growth) => match stash_len.checked_add(growth) {
                Some(total) => total.checked_add(STASH_GROWTH_INCREMENT).is_some(),
                None => false,
            },
            None => false,
        };
        if !fits {
            return Err(OramError::IntegerConversionError);
        }
        let new_position = random_leaf(self.height, rng);
        let ghost p0 = self.position_map.positions();
        let position = match self.position_map.write(address, new_position, rng) {
            Ok(p) => p,
            Err(e) => {
                return Err(e);
            },
        };
        proof {
            assert(is_leaf(position as int, self.height as nat));
        }
        proof {
            vstd::arithmetic::div_mod::lemma_div_by_multiple((self.height + 1) as int, Z as int);
            vstd::arithmetic::mul::lemma_mul_is_commutative(Z as int, (self.height + 1) as int);
            vstd::arithmetic::div_mod::lemma_mod_multiples_basic((self.height + 1) as int, Z as int);
        }
        let ghost mem0 = self.physical_memory.entries();
        let ghost s0 = self.stash@;
        let ghost cb = callback;
        let _ = self.stash.read_from_path(&mut self.physical_memory, position);
        let ghost s1 = self.stash@;
        let result = match self.stash.access(address, new_position, callback) {
            Ok(v) => v,
            Err(e) => {
                return Err(e);
            },
        };
        let ghost s2 = self.stash@;
        let _ = self.stash.write_to_path(&mut self.physical_memory, position);
        let ghost c0 = self.contents@;
        let ghost v_new = choose|v: V| cb.ensures((&c0[address as int],), v);
        self.contents = Ghost(c0.update(address as int, v_new));
        proof {
            {
                self.lemma_access_keeps_inv(
                    *old(self), address as int, position, new_position, p0, mem0, s0, s1, s2, result,
                    cb, v_new,
                );
            }
            assert(self.evicted_along(*old(self), position));
            if old(self).position_map.is_linear() {
                assert(old(self).position_map.positions().update(address as int, new_position)
                    == self.position_map.positions());
                assert forall|a: int| 0 <= a < self.capacity() implies is_leaf(
                    #[trigger] self.position_map.positions()[a] as int,
                    self.height as nat,
                ) by {
                    if a != address {
                        assert(self.position_map.positions()[a] == old(self).position_map.positions()[a]);
                    }
                }
            }
        }
        Ok(result)
    }

    /// One access keeps the ORAM invariant, returns the value the contents
    /// held, and stores the callback's result: the steps of `access`, related
    /// as their contracts relate them.
    proof fn lemma_access_keeps_inv<F: Fn(&V) -> V>(
        &self,
        before: Self,
        a: int,
        position: TreeIndex,
        new_position: TreeIndex,
        p0: Seq<TreeIndex>,
        mem0: Seq<Bucket<V, Z>>,
        s0: Seq<PathOramBlock<V>>,
        s1: Seq<PathOramBlock<V>>,
        s2: Seq<PathOramBlock<V>>,
        result: V,
        callback: F,
        v_new: V,
    )
        requires
            before.inv(),
            0 <= a < before.capacity(),
            self.wf(),
            self.height == before.height,
            self.capacity() == before.capacity(),
            self.position_map.inv(),
            p0 == before.position_map.positions(),
            self.position_map.positions() == p0.update(a, new_position),
            position == p0[a],
            is_leaf(new_position as int, before.height as nat),
            mem0 == before.physical_memory.entries(),
            s0 == before.stash@,
            self.stash.spec_path_size() == before.stash.spec_path_size(),
            s1.len() == s0.len(),
            forall|k: int|
                #![trigger s1[k]]
                0 <= k < before.stash.spec_path_size() ==> s1[k] == mem0[ancestor_at_depth(
                    position as int,
                    (k / Z as int) as nat,
                    before.height as nat,
                )].blocks@[k % Z as int],
            forall|k: int|
                #![trigger s1[k]]
                before.stash.spec_path_size() <= k < s0.len() ==> s1[k] == s0[k],
            result == scanned_value(s1, a as u64, s1.len() as int),
            s2.len() == s1.len(),
            s1.len() > 0,
            s1.last().is_dummy(),
            forall|i: int|
                #![trigger s2[i]]
                0 <= i < s1.len() - 1 && s1[i].address != a ==> s2[i] == s1[i],
            forall|i: int|
                #![trigger s2[i]]
                0 <= i < s1.len() && s1[i].address == a ==> {
                    &&& s2[i].address == a
                    &&& s2[i].position == new_position
                    &&& callback.ensures((&scanned_value(s1, a as u64, i + 1),), s2[i].value)
                },
            holds_address(s1, a as u64) ==> s2.last() == s1.last(),
            deterministic(callback),
            self.stash@.to_multiset() == s2.to_multiset().add(
                dummies::<V>((self.stash@.len() - s2.len()) as nat).to_multiset(),
            ),
            s2.len() <= self.stash@.len(),
            forall|d: nat|
                d <= before.height ==> (#[trigger] self.physical_memory.entries()[ancestor_at_depth(
                    position as int,
                    d,
                    before.height as nat,
                )]).blocks@ == self.stash@.subrange(Z * d, Z * d + Z),
            forall|j: int|
                0 <= j < before.capacity() && !on_path(j, position as int, before.height as nat)
                    ==> #[trigger] self.physical_memory.entries()[j] == mem0[j],
            path_respected(self.physical_memory.entries(), position, before.height as nat),
            self.contents@ == before.contents@.update(a, v_new),
            v_new == choose|v: V| callback.ensures((&before.contents@[a],), v),
        ensures
            self.inv(),
            result == before.contents@[a],
            callback.ensures((&before.contents@[a],), v_new),
    {
        broadcast use vstd::seq_lib::group_to_multiset_ensures;

        let h = before.height as nat;
        let cap = before.capacity();
        let c0 = before.contents@;
        let c1 = self.contents@;
        let p1 = self.position_map.positions();
        let pp = before.stash.spec_path_size() as int;
        let levels = (h + 1) as int;
        let s3 = self.stash@;
        let mem3 = self.physical_memory.entries();
        assert(pp == Z * levels);
        assert(is_leaf(position as int, h));
        assert(cap < u64::MAX) by {
            assert(cap == pow2(h + 1));
            assert(h <= 62);
            vstd::arithmetic::power2::lemma2_to64();
            vstd::arithmetic::power2::lemma2_to64_rest();
            assert(pow2(63) == 0x8000_0000_0000_0000);
            if h + 1 < 63 {
                vstd::arithmetic::power2::lemma_pow2_strictly_increases(h + 1, 63);
            }
        }
        vstd::arithmetic::power2::lemma_pow2_adds(h, 1);
        vstd::arithmetic::power2::lemma2_to64();
        // Where a slot of the path lands in the stash, and back.
        assert forall|d: int, k: int| 0 <= d < levels && 0 <= k < Z implies (#[trigger] (Z * d + k)) / (Z as int) == d
            && (Z * d + k) % (Z as int) == k && Z * d + k < pp by {
            assert(d * Z == Z * d) by (nonlinear_arith);
            vstd::arithmetic::div_mod::lemma_fundamental_div_mod_converse(Z * d + k, Z as int, d, k);
            assert(Z * d + k < Z * levels) by (nonlinear_arith)
                requires
                    d < levels,
                    k < Z,
            ;
        }
        assert forall|d: nat| d <= h implies #[trigger] ancestor_at_depth(position as int, d, h) < cap
            && ancestor_at_depth(position as int, d, h) >= 1 by {
            crate::tree::lemma_ancestor_bounds(position as int, d, h);
            vstd::arithmetic::power2::lemma_pow2_pos(d);
            if d < h {
                vstd::arithmetic::power2::lemma_pow2_strictly_increases(d + 1, h + 1);
            }
        }
        // Every block of the stash after the path read agrees with the contents.
        assert forall|i: int| 0 <= i < s1.len() implies agrees(#[trigger] s1[i], c0, p0) by {
            if i < pp {
                let d = i / Z as int;
                let k = i % Z as int;
                vstd::arithmetic::div_mod::lemma_fundamental_div_mod(i, Z as int);
                assert(0 <= d < levels) by {
                    vstd::arithmetic::div_mod::lemma_div_is_ordered(i, pp, Z as int);
                    assert(pp / Z as int == levels) by {
                        vstd::arithmetic::div_mod::lemma_div_by_multiple(levels, Z as int);
                        assert(levels * Z == Z * levels) by (nonlinear_arith);
                    }
                    if i / Z as int == levels {
                        assert(Z * (i / Z as int) <= i);
                    }
                    vstd::arithmetic::div_mod::lemma_div_pos_is_pos(i, Z as int);
                }
                let j = ancestor_at_depth(position as int, d as nat, h);
                assert(j < cap);
                assert(agrees(mem0[j].blocks@[k], c0, p0));
            }
        }
        // Some slot of the stash after the path read holds any address that
        // was on this path or beyond the stash's path slots.
        assert forall|x: int|
            0 <= x < cap && #[trigger] before.holds_live(x) && (!(exists|j: int, k: int|
                0 <= j < cap && 0 <= k < Z && !on_path(j, position as int, h)
                    && #[trigger] mem0[j].blocks@[k].address == x)) implies exists|i: int|
            0 <= i < s1.len() && #[trigger] s1[i].address == x by {
            if exists|j: int, k: int|
                0 <= j < cap && 0 <= k < Z && #[trigger] mem0[j].blocks@[k].address == x {
                let (j, k) = choose|j: int, k: int|
                    0 <= j < cap && 0 <= k < Z && #[trigger] mem0[j].blocks@[k].address == x;
                assert(on_path(j, position as int, h));
                let d = choose|d: nat| d <= h && j == #[trigger] ancestor_at_depth(position as int, d, h);
                assert(s1[Z * d + k] == mem0[j].blocks@[k]);
            } else {
                let i = choose|i: int| pp <= i < s0.len() && #[trigger] s0[i].address == x;
                assert(s1[i] == s0[i]);
            }
        }
        // The address accessed is held in the stash after the path read.
        assert(exists|i: int| 0 <= i < s1.len() && #[trigger] s1[i].address == a) by {
            assert(before.holds_live(a));
            if exists|j: int, k: int|
                0 <= j < cap && 0 <= k < Z && !on_path(j, position as int, h)
                    && #[trigger] mem0[j].blocks@[k].address == a {
                let (j, k) = choose|j: int, k: int|
                    0 <= j < cap && 0 <= k < Z && !on_path(j, position as int, h)
                        && #[trigger] mem0[j].blocks@[k].address == a;
                assert(agrees(mem0[j].blocks@[k], c0, p0));
                assert(on_path(j, mem0[j].blocks@[k].position as int, h));
            }
        }
        let i0 = choose|i: int| 0 <= i < s1.len() && #[trigger] s1[i].address == a;
        assert forall|j: int| 0 <= j < s1.len() && #[trigger] s1[j].address == a implies s1[j].value == c0[a] by {
            assert(agrees(s1[j], c0, p0));
        }
        crate::stash::lemma_scan_reads_common_value(s1, a as u64, c0[a], s1.len() as int);
        assert(holds_address(s1, a as u64));
        // Every slot that held the address now holds the callback's result.
        assert forall|i: int| 0 <= i < s1.len() && #[trigger] s1[i].address == a implies s2[i].value == v_new
            && callback.ensures((&c0[a],), v_new) by {
            crate::stash::lemma_scan_reads_common_value(s1, a as u64, c0[a], i + 1);
            assert(callback.ensures((&c0[a],), s2[i].value));
        }
        assert(callback.ensures((&c0[a],), v_new)) by {
            assert(s1[i0].address == a);
        }
        // Every block of the stash after the access agrees with the new contents.
        assert forall|i: int| 0 <= i < s2.len() implies agrees(#[trigger] s2[i], c1, p1) by {
            assert(agrees(s1[i], c0, p0));
            if s1[i].address == a {
            } else if i < s1.len() - 1 {
                assert(s2[i] == s1[i]);
            } else {
                assert(s2[i] == s1[i]);
            }
        }
        // The addresses of the stash are kept by the access.
        assert forall|i: int| 0 <= i < s2.len() implies #[trigger] s2[i].address == s1[i].address by {
            if s1[i].address != a && i == s1.len() - 1 {
                assert(s2.last() == s1.last());
            }
        }
        // A real block of the evicted stash comes from the stash after the access.
        assert forall|i: int| 0 <= i < s3.len() && !(#[trigger] s3[i]).is_dummy() implies agrees(s3[i], c1, p1) by {
            let n = (s3.len() - s2.len()) as nat;
            assert(s3.contains(s3[i]));
            assert(s3.to_multiset().count(s3[i]) > 0);
            assert(!dummies::<V>(n).contains(s3[i]));
            assert(dummies::<V>(n).to_multiset().count(s3[i]) == 0);
            assert(s2.to_multiset().count(s3[i]) > 0);
            assert(s2.contains(s3[i]));
            let j = choose|j: int| 0 <= j < s2.len() && s2[j] == s3[i];
            assert(agrees(s2[j], c1, p1));
        }
        // Buckets: the path's from the evicted stash, the others unchanged.
        assert forall|j: int, k: int| 0 <= j < cap && 0 <= k < Z implies agrees(
            #[trigger] mem3[j].blocks@[k],
            c1,
            p1,
        ) && (!mem3[j].blocks@[k].is_dummy() ==> on_path(j, mem3[j].blocks@[k].position as int, h)) by {
            if on_path(j, position as int, h) {
                let d = choose|d: nat| d <= h && j == #[trigger] ancestor_at_depth(position as int, d, h);
                assert(mem3[j].blocks@ == s3.subrange(Z * d, Z * d + Z));
                assert(Z * d + Z <= pp) by (nonlinear_arith)
                    requires
                        d <= h,
                        pp == Z * (h + 1),
                ;
                assert(pp < s0.len());
                assert(mem3[j].blocks@[k] == s3[Z * d + k]);
                assert(crate::stash::placed(d as u64, mem3[j].blocks@[k], position, h));
                if !mem3[j].blocks@[k].is_dummy() {
                    assert(j == ancestor_at_depth(mem3[j].blocks@[k].position as int, d, h));
                }
            } else {
                assert(mem3[j] == mem0[j]);
                let b = mem0[j].blocks@[k];
                assert(agrees(b, c0, p0));
                if !b.is_dummy() && b.address == a {
                    assert(b.position == position);
                }
            }
        }
        assert forall|i: int| pp <= i < s3.len() implies agrees(#[trigger] s3[i], c1, p1) by {
            if !s3[i].is_dummy() {
            }
        }
        // Every address is still held.
        assert forall|x: int| 0 <= x < cap implies #[trigger] self.holds_live(x) by {
            assert(before.holds_live(x));
            if exists|j: int, k: int|
                0 <= j < cap && 0 <= k < Z && !on_path(j, position as int, h)
                    && #[trigger] mem0[j].blocks@[k].address == x {
                let (j, k) = choose|j: int, k: int|
                    0 <= j < cap && 0 <= k < Z && !on_path(j, position as int, h)
                        && #[trigger] mem0[j].blocks@[k].address == x;
                assert(mem3[j] == mem0[j]);
                assert(mem3[j].blocks@[k].address == x);
            } else {
                let i = choose|i: int| 0 <= i < s1.len() && #[trigger] s1[i].address == x;
                assert(s2[i].address == x);
                assert(s2.contains(s2[i]));
                assert(s2.to_multiset().count(s2[i]) > 0);
                assert(s3.to_multiset().count(s2[i]) > 0);
                assert(s3.contains(s2[i]));
                let i3 = choose|i3: int| 0 <= i3 < s3.len() && s3[i3] == s2[i];
                if i3 < pp {
                    let d = i3 / Z as int;
                    let k = i3 % Z as int;
                    vstd::arithmetic::div_mod::lemma_fundamental_div_mod(i3, Z as int);
                    vstd::arithmetic::div_mod::lemma_div_pos_is_pos(i3, Z as int);
                    assert(d < levels) by {
                        if d >= levels {
                            assert(Z * d >= Z * levels) by (nonlinear_arith)
                                requires
                                    d >= levels,
                            ;
                        }
                    }
                    let j = ancestor_at_depth(position as int, d as nat, h);
                    assert(mem3[j].blocks@ == s3.subrange(Z * d, Z * d + Z));
                    assert(Z * d + Z <= pp) by (nonlinear_arith)
                        requires
                            d < levels,
                            pp == Z * levels,
                    ;
                    assert(pp < s0.len());
                    assert(Z * d + k == i3);
                    assert(mem3[j].blocks@[k] == s3[i3]);
                    assert(mem3[j].blocks@[k].address == x);
                } else {
                    assert(self.stash@[i3].address == x);
                }
            }
        }
        assert forall|x: int| 0 <= x < cap implies is_leaf(#[trigger] p1[x] as int, h) by {
            if x != a {
                assert(p1[x] == p0[x]);
            }
        }
        self.lemma_access_keeps_unique(before, position, mem0, s0, s1, s2);
    }

    /// The uniqueness part of `lemma_access_keeps_inv`.
    proof fn lemma_access_keeps_unique(
        &self,
        before: Self,
        position: TreeIndex,
        mem0: Seq<Bucket<V, Z>>,
        s0: Seq<PathOramBlock<V>>,
        s1: Seq<PathOramBlock<V>>,
        s2: Seq<PathOramBlock<V>>,
    )
        requires
            before.inv(),
            self.capacity() == before.capacity(),
            is_leaf(position as int, before.height as nat),
            before.capacity() < u64::MAX,
            mem0 == before.physical_memory.entries(),
            s0 == before.stash@,
            self.stash.spec_path_size() == before.stash.spec_path_size(),
            s1.len() == s0.len(),
            forall|k: int|
                #![trigger s1[k]]
                0 <= k < before.stash.spec_path_size() ==> s1[k] == mem0[ancestor_at_depth(
                    position as int,
                    (k / Z as int) as nat,
                    before.height as nat,
                )].blocks@[k % Z as int],
            forall|k: int|
                #![trigger s1[k]]
                before.stash.spec_path_size() <= k < s0.len() ==> s1[k] == s0[k],
            s2.len() == s1.len(),
            s2.len() <= self.stash@.len(),
            forall|i: int| 0 <= i < s2.len() ==> #[trigger] s2[i].address == s1[i].address,
            self.stash@.to_multiset() == s2.to_multiset().add(
                dummies::<V>((self.stash@.len() - s2.len()) as nat).to_multiset(),
            ),
            forall|d: nat|
                d <= before.height ==> (#[trigger] self.physical_memory.entries()[ancestor_at_depth(
                    position as int,
                    d,
                    before.height as nat,
                )]).blocks@ == self.stash@.subrange(Z * d, Z * d + Z),
            forall|j: int|
                0 <= j < before.capacity() && !on_path(j, position as int, before.height as nat)
                    ==> #[trigger] self.physical_memory.entries()[j] == mem0[j],
        ensures
            self.unique_live(),
    {
        broadcast use vstd::seq_lib::group_to_multiset_ensures;

        let h = before.height as nat;
        let cap = before.capacity();
        let pp = before.stash.spec_path_size() as int;
        let levels = (h + 1) as int;
        let s3 = self.stash@;
        let mem3 = self.physical_memory.entries();
        assert(pp == Z * levels);
        assert(pp < s0.len());
        vstd::arithmetic::power2::lemma_pow2_adds(h, 1);
        vstd::arithmetic::power2::lemma2_to64();
        // The slot of the path that stash index `i < pp` was read from.
        assert forall|i: int| 0 <= i < pp implies (0 <= #[trigger] (i / (Z as int)) < levels) && (0 <= (i % (
        Z as int)) < Z) && (i == Z * (i / (Z as int)) + (i % (Z as int))) && (1 <= ancestor_at_depth(
            position as int,
            (i / (Z as int)) as nat,
            h,
        ) < cap) by {
            vstd::arithmetic::div_mod::lemma_fundamental_div_mod(i, Z as int);
            vstd::arithmetic::div_mod::lemma_div_pos_is_pos(i, Z as int);
            if i / Z as int >= levels {
                assert(Z * (i / Z as int) >= Z * levels) by (nonlinear_arith)
                    requires
                        i / Z as int >= levels,
                ;
            }
            let d = (i / Z as int) as nat;
            crate::tree::lemma_ancestor_bounds(position as int, d, h);
            vstd::arithmetic::power2::lemma_pow2_pos(d);
            if d < h {
                vstd::arithmetic::power2::lemma_pow2_strictly_increases(d + 1, h + 1);
            }
        }
        // Ancestors at different depths are different nodes.
        assert forall|d1: nat, d2: nat| d1 <= h && d2 <= h && d1 != d2 implies #[trigger] ancestor_at_depth(
            position as int,
            d1,
            h,
        ) != #[trigger] ancestor_at_depth(position as int, d2, h) by {
            crate::tree::lemma_ancestor_bounds(position as int, d1, h);
            crate::tree::lemma_ancestor_bounds(position as int, d2, h);
            if d1 < d2 {
                if d1 + 1 < d2 {
                    vstd::arithmetic::power2::lemma_pow2_strictly_increases(d1 + 1, d2);
                }
            } else {
                if d2 + 1 < d1 {
                    vstd::arithmetic::power2::lemma_pow2_strictly_increases(d2 + 1, d1);
                }
            }
        }
        // A real block read into the stash and a real block left off the path
        // in the tree carry different addresses.
        assert forall|i: int, j: int, k: int|
            0 <= i < s1.len() && 0 <= j < cap && 0 <= k < Z && !on_path(j, position as int, h) && !(
            #[trigger] mem0[j].blocks@[k]).is_dummy() implies (#[trigger] s1[i]).address
            != mem0[j].blocks@[k].address by {
            if i < pp {
                let d = (i / Z as int) as nat;
                let jj = ancestor_at_depth(position as int, d, h);
                assert(on_path(jj, position as int, h));
                assert(s1[i] == mem0[jj].blocks@[i % Z as int]);
                assert(jj != j);
            } else {
                assert(s1[i] == s0[i]);
            }
        }
        // Real entries of the stash after the read carry distinct addresses.
        assert forall|i1: int, i2: int|
            0 <= i1 < s1.len() && 0 <= i2 < s1.len() && i1 != i2 && !(#[trigger] s1[i1]).is_dummy()
                implies (#[trigger] s1[i2]).address != s1[i1].address by {
            if i1 < pp && i2 < pp {
                let d1 = (i1 / Z as int) as nat;
                let d2 = (i2 / Z as int) as nat;
                let j1 = ancestor_at_depth(position as int, d1, h);
                let j2 = ancestor_at_depth(position as int, d2, h);
                assert(s1[i1] == mem0[j1].blocks@[i1 % Z as int]);
                assert(s1[i2] == mem0[j2].blocks@[i2 % Z as int]);
                if d1 == d2 {
                    assert(i1 % Z as int != i2 % Z as int);
                }
            } else if i1 < pp {
                let d1 = (i1 / Z as int) as nat;
                let j1 = ancestor_at_depth(position as int, d1, h);
                assert(s1[i1] == mem0[j1].blocks@[i1 % Z as int]);
                assert(s1[i2] == s0[i2]);
            } else if i2 < pp {
                let d2 = (i2 / Z as int) as nat;
                let j2 = ancestor_at_depth(position as int, d2, h);
                assert(s1[i2] == mem0[j2].blocks@[i2 % Z as int]);
                assert(s1[i1] == s0[i1]);
                if !s1[i2].is_dummy() {
                    assert(s0[i1].address != mem0[j2].blocks@[i2 % Z as int].address);
                }
            } else {
                assert(s1[i1] == s0[i1]);
                assert(s1[i2] == s0[i2]);
            }
        }
        // Real entries of the evicted stash carry distinct addresses.
        assert forall|i1: int, i2: int|
            0 <= i1 < s3.len() && 0 <= i2 < s3.len() && i1 != i2 && !(#[trigger] s3[i1]).is_dummy()
                implies (#[trigger] s3[i2]).address != s3[i1].address by {
            let n = (s3.len() - s2.len()) as nat;
            let b = s3[i1];
            assert(s3.contains(b));
            assert(s3.to_multiset().count(b) > 0);
            assert(!dummies::<V>(n).contains(b));
            assert(dummies::<V>(n).to_multiset().count(b) == 0);
            assert(s2.to_multiset().count(b) > 0);
            assert(s2.contains(b));
            let j1 = choose|j: int| 0 <= j < s2.len() && s2[j] == b;
            if s3[i2].address == b.address {
                if s3[i2] == b {
                    if i1 < i2 {
                        lemma_count_at_least_two(s3, i1, i2);
                    } else {
                        lemma_count_at_least_two(s3, i2, i1);
                    }
                    assert(s2.to_multiset().count(b) >= 2);
                    assert forall|x: int, y: int|
                        0 <= x < s2.len() && 0 <= y < s2.len() && x != y && #[trigger] s2[x] == b implies #[trigger] s2[y]
                        != b by {
                        assert(s1[x].address == b.address);
                        assert(!s1[x].is_dummy());
                        assert(s1[y].address != s1[x].address);
                    }
                    lemma_count_at_most_one(s2, b);
                } else {
                    let b2 = s3[i2];
                    assert(s3.contains(b2));
                    assert(s3.to_multiset().count(b2) > 0);
                    assert(!b2.is_dummy());
                    assert(!dummies::<V>(n).contains(b2));
                    assert(dummies::<V>(n).to_multiset().count(b2) == 0);
                    assert(s2.to_multiset().count(b2) > 0);
                    assert(s2.contains(b2));
                    let j2 = choose|j: int| 0 <= j < s2.len() && s2[j] == b2;
                    assert(j1 != j2);
                    assert(!s1[j1].is_dummy());
                    assert(s1[j2].address != s1[j1].address);
                }
            }
        }
        // A real entry of the evicted stash and a real block left off the path differ in address.
        assert forall|i: int, j: int, k: int|
            0 <= i < s3.len() && 0 <= j < cap && 0 <= k < Z && !on_path(j, position as int, h) && !(
            #[trigger] mem0[j].blocks@[k]).is_dummy() implies (#[trigger] s3[i]).address
            != mem0[j].blocks@[k].address by {
            let n = (s3.len() - s2.len()) as nat;
            let b = s3[i];
            if !b.is_dummy() {
                assert(s3.contains(b));
                assert(s3.to_multiset().count(b) > 0);
                assert(!dummies::<V>(n).contains(b));
                assert(dummies::<V>(n).to_multiset().count(b) == 0);
                assert(s2.to_multiset().count(b) > 0);
                assert(s2.contains(b));
                let j1 = choose|x: int| 0 <= x < s2.len() && s2[x] == b;
                assert(s1[j1].address != mem0[j].blocks@[k].address);
            }
        }
        // Where a bucket slot stands in the evicted stash, if on the path.
        assert forall|j: int, k: int| 0 <= j < cap && 0 <= k < Z && on_path(j, position as int, h) implies exists|i: int|
            0 <= i < pp && i % Z as int == k && #[trigger] mem3[j].blocks@[k] == s3[i] && j == ancestor_at_depth(
                position as int,
                (i / Z as int) as nat,
                h,
            ) by {
            let d = choose|d: nat| d <= h && j == #[trigger] ancestor_at_depth(position as int, d, h);
            assert(Z * d + Z <= pp) by (nonlinear_arith)
                requires
                    d <= h,
                    pp == Z * (h + 1),
            ;
            assert(mem3[j].blocks@ == s3.subrange(Z * d, Z * d + Z));
            let i = Z * d + k;
            assert(mem3[j].blocks@[k] == s3[i]);
            assert(d * Z == Z * d) by (nonlinear_arith);
            vstd::arithmetic::div_mod::lemma_fundamental_div_mod_converse(i, Z as int, d as int, k);
        }
        assert forall|j1: int, k1: int, j2: int, k2: int|
            0 <= j1 < cap && 0 <= k1 < Z && 0 <= j2 < cap && 0 <= k2 < Z && (j1 != j2 || k1 != k2) && !(
            #[trigger] mem3[j1].blocks@[k1]).is_dummy() implies (#[trigger] mem3[j2].blocks@[k2]).address
            != mem3[j1].blocks@[k1].address by {
            let on1 = on_path(j1, position as int, h);
            let on2 = on_path(j2, position as int, h);
            if on1 && on2 {
                let i1 = choose|i: int|
                    0 <= i < pp && i % Z as int == k1 && #[trigger] mem3[j1].blocks@[k1] == s3[i] && j1
                        == ancestor_at_depth(position as int, (i / Z as int) as nat, h);
                let i2 = choose|i: int|
                    0 <= i < pp && i % Z as int == k2 && #[trigger] mem3[j2].blocks@[k2] == s3[i] && j2
                        == ancestor_at_depth(position as int, (i / Z as int) as nat, h);
                assert(i1 != i2);
            } else if on1 {
                let i1 = choose|i: int|
                    0 <= i < pp && i % Z as int == k1 && #[trigger] mem3[j1].blocks@[k1] == s3[i] && j1
                        == ancestor_at_depth(position as int, (i / Z as int) as nat, h);
                assert(mem3[j2] == mem0[j2]);
                if !mem0[j2].blocks@[k2].is_dummy() {
                    assert(s3[i1].address != mem0[j2].blocks@[k2].address);
                }
            } else if on2 {
                let i2 = choose|i: int|
                    0 <= i < pp && i % Z as int == k2 && #[trigger] mem3[j2].blocks@[k2] == s3[i] && j2
                        == ancestor_at_depth(position as int, (i / Z as int) as nat, h);
                assert(mem3[j1] == mem0[j1]);
                assert(s3[i2].address != mem0[j1].blocks@[k1].address);
            } else {
                assert(mem3[j1] == mem0[j1]);
                assert(mem3[j2] == mem0[j2]);
            }
        }
        assert forall|j: int, k: int, i: int|
            0 <= j < cap && 0 <= k < Z && pp <= i < s3.len() && !(#[trigger] mem3[j].blocks@[k]).is_dummy()
                implies (#[trigger] s3[i]).address != mem3[j].blocks@[k].address by {
            if on_path(j, position as int, h) {
                let i1 = choose|x: int|
                    0 <= x < pp && x % Z as int == k && #[trigger] mem3[j].blocks@[k] == s3[x] && j
                        == ancestor_at_depth(position as int, (x / Z as int) as nat, h);
                assert(i1 != i);
            } else {
                assert(mem3[j] == mem0[j]);
            }
        }
    }

    /// Obliviously reads the value stored at `address`.
    pub fn read(&mut self, address: Address, rng: &mut StdRng) -> (r: Result<V, OramError>)
        requires
            old(self).inv(),
        ensures
            final(self).wf(),
            final(self).inv(),
            address < old(self).capacity() && old(self).can_evict() ==> r == Ok::<
                V,
                OramError,
            >(old(self).contents@[address as int]) && final(self).contents@ == old(self).contents@,
            final(self).capacity() == old(self).capacity(),
            address >= old(self).capacity() ==> r == Err::<V, OramError>(OramError::AddressOutOfBoundsError)
                && *final(self) == *old(self) && *final(rng) == *old(rng),
            address < old(self).capacity() && !old(self).can_evict() ==> r == Err::<V, OramError>(
                OramError::IntegerConversionError,
            ) && *final(self) == *old(self),
            address < old(self).capacity() && old(self).can_evict() ==> r is Ok && final(self).counted_access_of(
                *old(self),
            ) && final(self).evicted_along_one_path(*old(self)),
    {
        let callback = |x: &V| -> (r: V)
            ensures
                r == *x,
            { *x };
        let r = self.access(address, callback, rng);
        proof {
            if address < old(self).capacity() && old(self).can_evict() {
                assert(self.contents@ =~= old(self).contents@);
            }
        }
        r
    }

    /// Obliviously writes `new_value` at `address` and returns the value it replaces.
    pub fn write(&mut self, address: Address, new_value: V, rng: &mut StdRng) -> (r: Result<V, OramError>)
        requires
            old(self).inv(),
        ensures
            final(self).wf(),
            final(self).inv(),
            address < old(self).capacity() && old(self).can_evict() ==> r == Ok::<
                V,
                OramError,
            >(old(self).contents@[address as int]) && final(self).contents@ == old(self).contents@.update(
                address as int,
                new_value,
            ),
            final(self).capacity() == old(self).capacity(),
            address >= old(self).capacity() ==> r == Err::<V, OramError>(OramError::AddressOutOfBoundsError)
                && *final(self) == *old(self) && *final(rng) == *old(rng),
            address < old(self).capacity() && !old(self).can_evict() ==> r == Err::<V, OramError>(
                OramError::IntegerConversionError,
            ) && *final(self) == *old(self),
            address < old(self).capacity() && old(self).can_evict() ==> r is Ok && final(self).counted_access_of(
                *old(self),
            ) && final(self).evicted_along_one_path(*old(self)),
    {
        let callback = move |_x: &V| -> (r: V)
            ensures
                r == new_value,
            { new_value };
        self.access(address, callback, rng)
    }

    /// Returns the number of addresses.
    pub fn block_capacity(&self) -> (r: Result<Address, OramError>)
        requires
            self.wf(),
        ensures
            r == Ok::<Address, OramError>(self.capacity() as Address),
    {
        Ok(self.physical_memory.capacity() as u64)
    }

    /// `self` follows `before` by one access: the tree read and wrote the `h + 1`
    /// buckets of one path, and so did every ORAM below, down the position maps.
    pub open spec fn counted_access_of(&self, before: Self) -> bool
        decreases self,
    {
        &&& self.height == before.height
        &&& self.physical_memory.spec_read_count() == saturating(
            before.physical_memory.spec_read_count() + before.height + 1,
        )
        &&& self.physical_memory.spec_write_count() == saturating(
            before.physical_memory.spec_write_count() + before.height + 1,
        )
        &&& self.position_map.counted_after(before.position_map)
    }

    /// The layout that construction from `values` leaves: the stash holds
    /// `Z (h + 1) + 40` dummies; every bucket above the leaves is empty; every
    /// leaf holds two real blocks assigned to it, with their values, and
    /// dummies; no address has two blocks; and the position map is linear
    /// exactly when there are at most `RT` addresses.
    pub open spec fn initial_layout(&self, values: Seq<V>) -> bool {
        let f = pow2(self.height as nat) as int;
        let mem = self.physical_memory.entries();
        &&& self.stash@ == dummies::<V>((Z * (self.height + 1) + OVERFLOW_SIZE) as nat)
        &&& self.stash.spec_path_size() == Z * (self.height + 1)
        &&& self.capacity() == values.len()
        &&& forall|j: int| 0 <= j < f ==> (#[trigger] mem[j]).is_empty()
        &&& forall|l: int, k: int|
            f <= l < 2 * f && 0 <= k < Z ==> if k < 2 {
                &&& !(#[trigger] mem[l].blocks@[k]).is_dummy()
                &&& mem[l].blocks@[k].address < values.len()
                &&& mem[l].blocks@[k].position == l
                &&& mem[l].blocks@[k].value == values[mem[l].blocks@[k].address as int]
            } else {
                mem[l].blocks@[k] == PathOramBlock::<V>::spec_dummy()
            }
        &&& forall|l1: int, k1: int, l2: int, k2: int|
            f <= l1 < 2 * f && f <= l2 < 2 * f && 0 <= k1 < 2 && 0 <= k2 < 2 && (l1 != l2 || k1 != k2)
                ==> (#[trigger] mem[l1].blocks@[k1]).address != (#[trigger] mem[l2].blocks@[k2]).address
        &&& self.position_map.is_linear() <==> values.len() <= RT
    }

    /// Address `a` has its block, holding `value`, in the bucket of a leaf, and
    /// a linear position map names that leaf for `a`.
    pub open spec fn initially_holds(&self, a: int, value: V) -> bool {
        exists|l: int, k: int|
            #![trigger self.physical_memory.entries()[l].blocks@[k]]
            is_leaf(l, self.height as nat) && 0 <= k < Z && self.physical_memory.entries()[l].blocks@[k]
                == (PathOramBlock { value, address: a as u64, position: l as u64 }) && (
            self.position_map.is_linear() ==> self.position_map.positions()[a] == l)
    }

    /// Between `before` and `self`, only the buckets on the path to one leaf
    /// changed, and each of them holds only dummies and blocks that lie on the
    /// paths of their own leaves.
    pub open spec fn evicted_along_one_path(&self, before: Self) -> bool {
        exists|leaf: TreeIndex| #[trigger] self.evicted_along(before, leaf)
    }

    /// Between `before` and `self`, only the buckets on the path to `leaf`
    /// changed, and each of them holds only dummies and blocks that lie on the
    /// paths of their own leaves.
    pub open spec fn evicted_along(&self, before: Self, leaf: TreeIndex) -> bool {
        &&& is_leaf(leaf as int, before.height as nat)
        &&& path_respected(self.physical_memory.entries(), leaf, self.height as nat)
        &&& forall|j: int|
            0 <= j < before.capacity() && !on_path(j, leaf as int, before.height as nat)
                ==> #[trigger] self.physical_memory.entries()[j] == before.physical_memory.entries()[j]
    }

    /// With a linear position map, the access to `address` evicted along the
    /// path that the map held for it, and the map now holds a fresh leaf there.
    pub open spec fn linear_map_followed(&self, before: Self, address: int) -> bool {
        before.position_map.is_linear() ==> {
            &&& self.evicted_along(before, before.position_map.positions()[address])
            &&& exists|l: TreeIndex|
                is_leaf(l as int, before.height as nat) && #[trigger] before.position_map.positions().update(
                    address,
                    l,
                ) == self.position_map.positions()
        }
    }

    /// The ORAM invariant: the shape holds; every real block in a bucket or in a
    /// stash slot beyond the path slots agrees with the contents and the
    /// position map, and a block in a bucket lies on the path of its leaf;
    /// every address has such a block; every position is a leaf; and the same
    /// holds of the ORAM of the position map, if any.
    pub open spec fn inv(&self) -> bool
        decreases self,
    {
        let mem = self.physical_memory.entries();
        let c = self.contents@;
        let pos = self.position_map.positions();
        let h = self.height as nat;
        &&& self.wf()
        &&& c.len() == self.capacity()
        &&& pos.len() >= self.capacity()
        &&& forall|a: int| 0 <= a < self.capacity() ==> is_leaf(#[trigger] pos[a] as int, h)
        &&& forall|j: int, k: int|
            0 <= j < self.capacity() && 0 <= k < Z ==> agrees(#[trigger] mem[j].blocks@[k], c, pos) && (
            !mem[j].blocks@[k].is_dummy() ==> on_path(j, mem[j].blocks@[k].position as int, h))
        &&& forall|i: int|
            self.stash.spec_path_size() <= i < self.stash@.len() ==> agrees(#[trigger] self.stash@[i], c, pos)
        &&& forall|a: int| 0 <= a < self.capacity() ==> #[trigger] self.holds_live(a)
        &&& self.unique_live()
        &&& self.position_map.inv()
    }

    /// No two slots among the buckets and the stash slots beyond the path slots
    /// hold real blocks with the same address.
    pub open spec fn unique_live(&self) -> bool {
        let mem = self.physical_memory.entries();
        let st = self.stash@;
        let pp = self.stash.spec_path_size() as int;
        let cap = self.capacity();
        &&& forall|j1: int, k1: int, j2: int, k2: int|
            0 <= j1 < cap && 0 <= k1 < Z && 0 <= j2 < cap && 0 <= k2 < Z && (j1 != j2 || k1 != k2)
                && !(#[trigger] mem[j1].blocks@[k1]).is_dummy() ==> (#[trigger] mem[j2].blocks@[k2]).address
                != mem[j1].blocks@[k1].address
        &&& forall|j: int, k: int, i: int|
            0 <= j < cap && 0 <= k < Z && pp <= i < st.len() && !(#[trigger] mem[j].blocks@[k]).is_dummy()
                ==> (#[trigger] st[i]).address != mem[j].blocks@[k].address
        &&& forall|i1: int, i2: int|
            pp <= i1 < st.len() && pp <= i2 < st.len() && i1 != i2 && !(#[trigger] st[i1]).is_dummy()
                ==> (#[trigger] st[i2]).address != st[i1].address
    }

    /// Some bucket, or some stash slot beyond the path slots, holds a block
    /// with address `a`.
    pub open spec fn holds_live(&self, a: int) -> bool {
        ||| exists|j: int, k: int|
            0 <= j < self.capacity() && 0 <= k < Z && #[trigger] self.physical_memory.entries()[j].blocks@[k].address
                == a
        ||| exists|i: int|
            self.stash.spec_path_size() <= i < self.stash@.len() && #[trigger] self.stash@[i].address == a
    }

    /// The stash of this ORAM can grow by the most that one eviction adds.
    pub open spec fn stash_fits(&self) -> bool {
        self.stash@.len() + self.stash.spec_path_size() * (STASH_GROWTH_INCREMENT + 1) + STASH_GROWTH_INCREMENT
            <= usize::MAX
    }

    /// Every stash of this ORAM and of its position map can absorb one more eviction.
    pub open spec fn can_evict(&self) -> bool
        decreases self,
    {
        &&& self.stash_fits()
        &&& self.position_map.can_evict()
    }
}

impl<V: OramBlock, const Z: usize, const AB: usize, const RT: u64> Oram<V> for PathOram<V, Z, AB, RT> {
    open spec fn inv(&self) -> bool {
        PathOram::<V, Z, AB, RT>::inv(self)
    }

    open spec fn spec_block_capacity(&self) -> int {
        self.capacity()
    }

    open spec fn spec_can_evict(&self) -> bool {
        self.can_evict()
    }

    open spec fn spec_contents(&self) -> Seq<V> {
        self.contents@
    }

    fn new(block_capacity: Address, rng: &mut StdRng) -> (r: Result<Self, OramError>) {
        PathOram::<V, Z, AB, RT>::new(block_capacity, rng)
    }

    fn block_capacity(&self) -> (r: Result<Address, OramError>) {
        PathOram::<V, Z, AB, RT>::block_capacity(self)
    }

    fn access<F: Fn(&V) -> V>(&mut self, index: Address, callback: F, rng: &mut StdRng) -> (r: Result<
        V,
        OramError,
    >) {
        PathOram::<V, Z, AB, RT>::access(self, index, callback, rng)
    }

    fn read(&mut self, index: Address, rng: &mut StdRng) -> (r: Result<V, OramError>) {
        PathOram::<V, Z, AB, RT>::read(self, index, rng)
    }

    fn write(&mut self, index: Address, new_value: V, rng: &mut StdRng) -> (r: Result<V, OramError>) {
        PathOram::<V, Z, AB, RT>::write(self, index, new_value, rng)
    }
}

} // verus!
