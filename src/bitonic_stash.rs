//! A stash of fixed, power-of-two size, evicted by assigning each real block to
//! the level of its deepest common ancestor with the path, or to the overflow.
use crate::bitonic::bitonic_sort_by_keys;
use crate::bucket::{Bucket, PathOramBlock};
use crate::ct::{ct_and, ct_eq_u64, select_u64};
use crate::database::{saturating, CountAccessesDatabase};
use crate::stash::{
    assign_dummies, count_real, count_real_from, dummies, holds_address, on_path, path_fits, path_levels,
    read_path_into, scan_and_update, scanned_value, write_path_from, Stash,
};
use crate::tree::{ancestor_at_depth, ct_common_ancestor_depth, first_leaf, TreeIndex, MAXIMUM_TREE_HEIGHT};
use crate::tree::is_power_of_two;
use crate::{Address, OramBlock, OramError, StashSize};
use vstd::prelude::*;

verus! {

/// A fixed-size, obliviously accessed stash whose size is a power of two.
#[derive(Debug)]
pub struct BitonicStash<V> {
    blocks: Vec<PathOramBlock<V>>,
    path_size: StashSize,
}

impl<V: OramBlock> View for BitonicStash<V> {
    type V = Seq<PathOramBlock<V>>;

    closed spec fn view(&self) -> Seq<PathOramBlock<V>> {
        self.blocks@
    }
}

/// Assigns each real block to the level of its deepest common ancestor with the
/// path to `position` if that level has room, and to the overflow otherwise.
fn assign_to_common_ancestors<V: OramBlock>(
    blocks: &Vec<PathOramBlock<V>>,
    keys: &mut Vec<u64>,
    counts: &mut Vec<u64>,
    position: TreeIndex,
    height: u64,
    z: u64,
)
    requires
        old(keys)@.len() == blocks@.len(),
        old(counts)@.len() == height + 1,
        height <= MAXIMUM_TREE_HEIGHT,
    ensures
        final(keys)@.len() == old(keys)@.len(),
        final(counts)@.len() == old(counts)@.len(),
{
    let n = blocks.len();
    let levels = counts.len();
    let arbitrary_leaf = first_leaf(height);
    let mut i: usize = 0;
    while i < n
        invariant
            i <= n,
            n == blocks@.len(),
            keys@.len() == n,
            counts@.len() == levels,
            levels == height + 1,
            height <= MAXIMUM_TREE_HEIGHT,
        decreases n - i,
    {
        let block = blocks[i];
        let is_dummy = block.ct_is_dummy();
        let block_position = select_u64(block.position, arbitrary_leaf, is_dummy);
        let block_level = ct_common_ancestor_depth(block_position, position, height);
        let mut level: usize = 0;
        while level < levels
            invariant
                level <= levels,
                i < n,
                keys@.len() == n,
                counts@.len() == levels,
                levels == height + 1,
            decreases levels - level,
        {
            let count = counts[level];
            let full = ct_eq_u64(count, z);
            let correct_level = ct_eq_u64(level as u64, block_level);
            let key = keys[i];
            let should_overflow = ct_and(ct_and(correct_level, full), !is_dummy);
            let key = select_u64(key, u64::MAX - 1, should_overflow);
            let should_assign = ct_and(ct_and(correct_level, !full), !is_dummy);
            counts.set(level, select_u64(count, count.wrapping_add(1), should_assign));
            keys.set(i, select_u64(key, block_level, should_assign));
            level += 1;
        }
        i += 1;
    }
}

impl<V: OramBlock> BitonicStash<V> {
    /// The number of slots that a path fills.
    pub closed spec fn spec_path_size(&self) -> nat {
        self.path_size as nat
    }

    /// The path slots fit in the stash.
    pub open spec fn wf(&self) -> bool {
        self.spec_path_size() <= self@.len()
    }

    /// Returns a stash of `path_size + overflow_size` dummy slots; that number
    /// must be a power of two.
    pub fn new(path_size: StashSize, overflow_size: StashSize) -> (r: Result<Self, OramError>)
        ensures
            path_size + overflow_size > usize::MAX ==> r == Err::<Self, OramError>(
                OramError::IntegerConversionError,
            ),
            path_size + overflow_size <= usize::MAX && !is_power_of_two(path_size + overflow_size) ==> r
                == Err::<Self, OramError>(OramError::InvalidConfigurationError),
            path_size + overflow_size <= usize::MAX && is_power_of_two(path_size + overflow_size) ==> r is Ok
                && r->Ok_0@ == dummies::<V>((path_size + overflow_size) as nat) && r->Ok_0.spec_path_size()
                == path_size,
    {
        let total = match path_size.checked_add(overflow_size) {
            Some(t) => t,
            None => {
                return Err(OramError::IntegerConversionError);
            },
        };
        if total > usize::MAX as u64 {
            return Err(OramError::IntegerConversionError);
        }
        if crate::tree::checked_log2(total).is_none() {
            return Err(OramError::InvalidConfigurationError);
        }
        let n = total as usize;
        let mut blocks: Vec<PathOramBlock<V>> = Vec::new();
        let mut i: usize = 0;
        while i < n
            invariant
                i <= n,
                blocks@ == dummies::<V>(i as nat),
            decreases n - i,
        {
            blocks.push(PathOramBlock::<V>::dummy());
            i += 1;
            assert(blocks@ =~= dummies::<V>(i as nat));
        }
        Ok(BitonicStash { blocks, path_size })
    }

    /// Returns the number of slots.
    pub fn len(&self) -> (r: usize)
        ensures
            r == self@.len(),
    {
        self.blocks.len()
    }

    /// Reads the buckets on the path from the root to `position` into the path
    /// slots, the bucket at depth `d` into slots `[z * d, z * d + z)`.
    pub fn read_from_path<const Z: usize>(
        &mut self,
        physical_memory: &mut CountAccessesDatabase<Bucket<V, Z>>,
        position: TreeIndex,
    ) -> (r: Result<(), OramError>)
        requires
            old(self).wf(),
            path_fits(
                old(self).spec_path_size() as int,
                Z as int,
                position,
                old(physical_memory).entries().len() as int,
            ),
        ensures
            r is Ok,
            final(self).spec_path_size() == old(self).spec_path_size(),
            final(self)@.len() == old(self)@.len(),
            forall|k: int|
                #![trigger final(self)@[k]]
                0 <= k < old(self).spec_path_size() ==> final(self)@[k] == old(physical_memory).entries()[
                    ancestor_at_depth(
                        position as int,
                        (k / Z as int) as nat,
                        (path_levels(old(self).spec_path_size() as int, Z as int) - 1) as nat,
                    )].blocks@[k % Z as int],
            forall|k: int|
                #![trigger final(self)@[k]]
                old(self).spec_path_size() <= k < old(self)@.len() ==> final(self)@[k] == old(self)@[k],
            final(physical_memory).entries() == old(physical_memory).entries(),
            final(physical_memory).spec_read_count() == saturating(
                old(physical_memory).spec_read_count() + path_levels(
                    old(self).spec_path_size() as int,
                    Z as int,
                ),
            ),
            final(physical_memory).spec_write_count() == old(physical_memory).spec_write_count(),
    {
        read_path_into(&mut self.blocks, self.path_size, physical_memory, position);
        Ok(())
    }

    /// Evicts the stash into the path from the root to `position`: each real
    /// block goes to the level of its deepest common ancestor with the path if
    /// that bucket has room, to the overflow otherwise, and dummies fill the
    /// room that is left. The stash is then sorted by assignment and slots
    /// `[z * d, z * d + z)` are written to the bucket at depth `d`.
    pub fn write_to_path<const Z: usize>(
        &mut self,
        physical_memory: &mut CountAccessesDatabase<Bucket<V, Z>>,
        position: TreeIndex,
    ) -> (r: Result<(), OramError>)
        requires
            old(self).wf(),
            path_fits(
                old(self).spec_path_size() as int,
                Z as int,
                position,
                old(physical_memory).entries().len() as int,
            ),
        ensures
            r is Ok,
            final(self).spec_path_size() == old(self).spec_path_size(),
            final(self)@.len() == old(self)@.len(),
            final(self)@.to_multiset() == old(self)@.to_multiset(),
            final(physical_memory).entries().len() == old(physical_memory).entries().len(),
            forall|d: nat|
                d < path_levels(old(self).spec_path_size() as int, Z as int) ==> (
                #[trigger] final(physical_memory).entries()[ancestor_at_depth(
                    position as int,
                    d,
                    (path_levels(old(self).spec_path_size() as int, Z as int) - 1) as nat,
                )]).blocks@ == final(self)@.subrange(Z * d, Z * d + Z),
            forall|j: int|
                0 <= j < old(physical_memory).entries().len() && !on_path(
                    j,
                    position as int,
                    (path_levels(old(self).spec_path_size() as int, Z as int) - 1) as nat,
                ) ==> #[trigger] final(physical_memory).entries()[j]
                    == old(physical_memory).entries()[j],
            final(physical_memory).spec_read_count() == old(physical_memory).spec_read_count(),
            final(physical_memory).spec_write_count() == saturating(
                old(physical_memory).spec_write_count() + path_levels(
                    old(self).spec_path_size() as int,
                    Z as int,
                ),
            ),
    {
        let levels: u64 = self.path_size / (Z as u64);
        let height: u64 = levels - 1;
        let z = Z as u64;
        let len = self.blocks.len();
        let mut keys: Vec<u64> = Vec::new();
        let mut i: usize = 0;
        while i < len
            invariant
                i <= len,
                keys@.len() == i,
            decreases len - i,
        {
            keys.push(u64::MAX);
            i += 1;
        }
        let mut counts: Vec<u64> = Vec::new();
        let mut l: u64 = 0;
        while l < levels
            invariant
                l <= levels,
                counts@.len() == l,
            decreases levels - l,
        {
            counts.push(0);
            l += 1;
        }
        assign_to_common_ancestors(&self.blocks, &mut keys, &mut counts, position, height, z);
        assign_dummies(&self.blocks, &mut keys, &mut counts, 0, len, z);
        bitonic_sort_by_keys(&mut self.blocks, &mut keys);
        write_path_from(&self.blocks, self.path_size, physical_memory, position);
        Ok(())
    }

    /// Scans every slot for `address`: reads the value of the block that holds
    /// it, moves that block to `new_position` and stores `value_callback` of the
    /// value read. Returns the value read, or the default value.
    pub fn access<F: Fn(&V) -> V>(
        &mut self,
        address: Address,
        new_position: TreeIndex,
        value_callback: F,
    ) -> (r: Result<V, OramError>)
        requires
            forall|v: V| value_callback.requires((&v,)),
        ensures
            r == Ok::<V, OramError>(scanned_value(old(self)@, address, old(self)@.len() as int)),
            !holds_address(old(self)@, address) ==> r == Ok::<V, OramError>(V::spec_default()),
            final(self).spec_path_size() == old(self).spec_path_size(),
            final(self)@.len() == old(self)@.len(),
            forall|i: int|
                #![trigger final(self)@[i]]
                0 <= i < old(self)@.len() && old(self)@[i].address != address ==> final(self)@[i]
                    == old(self)@[i],
            forall|i: int|
                #![trigger final(self)@[i]]
                0 <= i < old(self)@.len() && old(self)@[i].address == address ==> {
                    &&& final(self)@[i].address == address
                    &&& final(self)@[i].position == new_position
                    &&& value_callback.ensures(
                        (&scanned_value(old(self)@, address, i + 1),),
                        final(self)@[i].value,
                    )
                },
    {
        let (result, _found) = scan_and_update(&mut self.blocks, address, new_position, &value_callback);
        Ok(result)
    }

    /// Returns the number of real blocks beyond the path slots.
    pub fn occupancy(&self) -> (r: StashSize)
        requires
            self.wf(),
        ensures
            r == count_real(self@, self.spec_path_size() as int, self@.len() as int),
    {
        count_real_from(&self.blocks, self.path_size)
    }
}

impl<V: OramBlock> Stash<V> for BitonicStash<V> {
    open spec fn slots(&self) -> Seq<PathOramBlock<V>> {
        self@
    }

    open spec fn path_slots(&self) -> nat {
        self.spec_path_size()
    }

    open spec fn can_access(&self) -> bool {
        self.wf()
    }

    open spec fn can_evict(&self) -> bool {
        self.wf()
    }

    fn new(path_size: StashSize, overflow_size: StashSize) -> (r: Result<Self, OramError>) {
        BitonicStash::<V>::new(path_size, overflow_size)
    }

    fn read_from_path<const Z: usize>(
        &mut self,
        physical_memory: &mut CountAccessesDatabase<Bucket<V, Z>>,
        position: TreeIndex,
    ) -> (r: Result<(), OramError>) {
        BitonicStash::<V>::read_from_path(self, physical_memory, position)
    }

    fn write_to_path<const Z: usize>(
        &mut self,
        physical_memory: &mut CountAccessesDatabase<Bucket<V, Z>>,
        position: TreeIndex,
    ) -> (r: Result<(), OramError>) {
        let r = BitonicStash::<V>::write_to_path(self, physical_memory, position);
        proof {
            broadcast use vstd::seq_lib::group_to_multiset_ensures, vstd::multiset::group_multiset_properties;

            assert(dummies::<V>(0) =~= Seq::<PathOramBlock<V>>::empty());
            assert(self@.to_multiset().add(dummies::<V>(0).to_multiset()) =~= self@.to_multiset());
        }
        r
    }

    fn access<F: Fn(&V) -> V>(
        &mut self,
        address: Address,
        new_position: TreeIndex,
        value_callback: F,
    ) -> (r: Result<V, OramError>) {
        BitonicStash::<V>::access(self, address, new_position, value_callback)
    }

    fn occupancy(&self) -> (r: StashSize) {
        count_real_from(&self.blocks, self.path_size)
    }
}

} // verus!
