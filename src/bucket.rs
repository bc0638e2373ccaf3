//! Block records, buckets, and the two kinds of payload that ORAMs here store.
use crate::ct::{ct_eq_u64, select_u64, select_u8};
use crate::tree::TreeIndex;
use crate::{Address, OramBlock};
use vstd::prelude::*;

verus! {

/// The address that marks a dummy block.
pub const DUMMY_ADDRESS: Address = u64::MAX;

/// The position that a dummy block carries.
pub const DUMMY_POSITION: TreeIndex = u64::MAX;

/// One block of a Path ORAM: a value, its logical address and its assigned leaf.
#[derive(Clone, Copy, Debug)]
pub struct PathOramBlock<V> {
    /// The stored value.
    pub value: V,
    /// The logical address, or `DUMMY_ADDRESS`.
    pub address: Address,
    /// The leaf this block is assigned to, or `DUMMY_POSITION`.
    pub position: TreeIndex,
}

impl<V: OramBlock> PathOramBlock<V> {
    /// A dummy block carries the dummy address.
    pub open spec fn is_dummy(self) -> bool {
        self.address == DUMMY_ADDRESS
    }

    /// The dummy block of this value type.
    pub open spec fn spec_dummy() -> Self {
        PathOramBlock { value: V::spec_default(), address: DUMMY_ADDRESS, position: DUMMY_POSITION }
    }

    /// Returns a dummy block.
    pub fn dummy() -> (r: Self)
        ensures
            r == Self::spec_dummy(),
    {
        PathOramBlock { value: V::default_value(), address: DUMMY_ADDRESS, position: DUMMY_POSITION }
    }

    /// Tells in constant time whether this block is a dummy.
    pub fn ct_is_dummy(&self) -> (r: bool)
        ensures
            r == self.is_dummy(),
    {
        ct_eq_u64(self.address, DUMMY_ADDRESS)
    }

    /// Selects field by field: `b` if `choice` is set, `a` otherwise.
    pub fn select(a: &Self, b: &Self, choice: bool) -> (r: Self)
        ensures
            r == (if choice { *b } else { *a }),
    {
        PathOramBlock {
            value: V::conditional_select(&a.value, &b.value, choice),
            address: select_u64(a.address, b.address, choice),
            position: select_u64(a.position, b.position, choice),
        }
    }
}

impl<V: OramBlock> OramBlock for PathOramBlock<V> {
    open spec fn spec_default() -> Self {
        Self::spec_dummy()
    }

    fn default_value() -> (r: Self) {
        Self::dummy()
    }

    fn conditional_select(a: &Self, b: &Self, choice: bool) -> (r: Self) {
        PathOramBlock::<V>::select(a, b, choice)
    }
}

/// A bucket of the tree: exactly `Z` block slots, dummies in the unused ones.
#[derive(Clone, Copy, Debug)]
pub struct Bucket<V, const Z: usize> {
    /// The slots of this bucket.
    pub blocks: [PathOramBlock<V>; Z],
}

impl<V: OramBlock, const Z: usize> Bucket<V, Z> {
    /// Every slot of a bucket built by `empty` is a dummy.
    pub open spec fn is_empty(self) -> bool {
        forall|i: int| 0 <= i < Z ==> #[trigger] self.blocks@[i] == PathOramBlock::<V>::spec_dummy()
    }

    /// Returns a bucket of dummy blocks.
    pub fn empty() -> (r: Self)
        ensures
            r.is_empty(),
    {
        Bucket { blocks: [PathOramBlock::<V>::dummy(); Z] }
    }
}

/// A payload of `B` bytes.
#[derive(Clone, Copy, Debug, PartialEq, Eq)]
pub struct BlockValue<const B: usize> {
    /// The bytes of this payload.
    pub data: [u8; B],
}

impl<const B: usize> BlockValue<B> {
    /// The bytes of this payload.
    pub open spec fn bytes(self) -> Seq<u8> {
        self.data@
    }

    /// Wraps `data` as a payload.
    pub fn new(data: [u8; B]) -> (r: Self)
        ensures
            r.bytes() == data@,
    {
        BlockValue { data }
    }

    /// Returns the bytes of this payload.
    pub fn data(&self) -> (r: [u8; B])
        ensures
            r@ == self.bytes(),
    {
        self.data
    }
}

impl<const B: usize> OramBlock for BlockValue<B> {
    open spec fn spec_default() -> Self {
        BlockValue { data: vstd::array::spec_array_fill_for_copy_type::<u8, B>(0u8) }
    }

    fn default_value() -> (r: Self) {
        BlockValue { data: [0u8; B] }
    }

    fn conditional_select(a: &Self, b: &Self, choice: bool) -> (r: Self) {
        let mut data = a.data;
        let mut i: usize = 0;
        while i < B
            invariant
                0 <= i <= B,
                data@.len() == B,
                forall|j: int| 0 <= j < i ==> data@[j] == (if choice { b.data@[j] } else { a.data@[j] }),
                forall|j: int| i <= j < B ==> data@[j] == a.data@[j],
            decreases B - i,
        {
            data[i] = select_u8(a.data[i], b.data[i], choice);
            i += 1;
        }
        let r = BlockValue { data };
        proof {
            if choice {
                assert(r.data =~= b.data);
            } else {
                assert(r.data =~= a.data);
            }
        }
        r
    }
}

/// A block of the position map: the leaves of `AB` consecutive addresses.
#[derive(Clone, Copy, Debug, PartialEq, Eq)]
pub struct PositionBlock<const AB: usize> {
    /// The leaf of each address, by offset in the block.
    pub data: [TreeIndex; AB],
}

impl<const AB: usize> PositionBlock<AB> {
    /// Returns the entry at `offset`, reading every entry.
    pub fn entry(&self, offset: usize) -> (r: TreeIndex)
        requires
            offset < AB,
        ensures
            r == self.data@[offset as int],
    {
        let mut result: TreeIndex = 0;
        let mut i: usize = 0;
        while i < AB
            invariant
                i <= AB,
                offset < AB,
                i > offset ==> result == self.data@[offset as int],
            decreases AB - i,
        {
            result = select_u64(result, self.data[i], ct_eq_u64(i as u64, offset as u64));
            i += 1;
        }
        result
    }

    /// Returns this block with the entry at `offset` replaced by `leaf`, writing every entry.
    pub fn with_entry(&self, offset: usize, leaf: TreeIndex) -> (r: Self)
        requires
            offset < AB,
        ensures
            r.data@ == self.data@.update(offset as int, leaf),
    {
        let mut data = self.data;
        let mut i: usize = 0;
        while i < AB
            invariant
                i <= AB,
                offset < AB,
                forall|j: int| 0 <= j < i ==> data@[j] == self.data@.update(offset as int, leaf)[j],
                forall|j: int| i <= j < AB ==> data@[j] == self.data@[j],
            decreases AB - i,
        {
            data[i] = select_u64(data[i], leaf, ct_eq_u64(i as u64, offset as u64));
            i += 1;
        }
        let r = PositionBlock { data };
        assert(r.data@ =~= self.data@.update(offset as int, leaf));
        r
    }
}

impl<const AB: usize> OramBlock for PositionBlock<AB> {
    open spec fn spec_default() -> Self {
        PositionBlock { data: vstd::array::spec_array_fill_for_copy_type::<TreeIndex, AB>(0u64) }
    }

    fn default_value() -> (r: Self) {
        PositionBlock { data: [0u64; AB] }
    }

    fn conditional_select(a: &Self, b: &Self, choice: bool) -> (r: Self) {
        let mut data = a.data;
        let mut i: usize = 0;
        while i < AB
            invariant
                0 <= i <= AB,
                forall|j: int| 0 <= j < i ==> data@[j] == (if choice { b.data@[j] } else { a.data@[j] }),
                forall|j: int| i <= j < AB ==> data@[j] == a.data@[j],
            decreases AB - i,
        {
            data[i] = select_u64(a.data[i], b.data[i], choice);
            i += 1;
        }
        let r = PositionBlock { data };
        proof {
            if choice {
                assert(r.data =~= b.data);
            } else {
                assert(r.data =~= a.data);
            }
        }
        r
    }
}

} // verus!
