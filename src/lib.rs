//! Doubly oblivious Path ORAM for enclaves that encrypt their memory.
//!
//! The tree of buckets, the stash that buffers blocks between accesses and
//! the recursive position map are all touched with data-independent control
//! flow: every secret-dependent choice goes through a constant-time select.
use crate::tree::is_power_of_two;
use rand::rngs::StdRng;
use vstd::prelude::*;

pub mod bitonic;
pub mod bitonic_stash;
pub mod bucket;
pub mod ct;
pub mod database;
pub mod path_oram;
pub mod position_map;
pub mod shuffle;
pub mod stash;
pub mod tree;

pub use crate::bucket::BlockValue;
pub use crate::path_oram::{DefaultOram, PathOram};
pub use crate::stash::ObliviousStash;

verus! {

/// The numeric type used to specify the size of an ORAM block in bytes.
pub type BlockSize = usize;

/// The numeric type used to specify the size of an ORAM in blocks, and to index into it.
pub type Address = u64;

/// The numeric type used to specify the size of a bucket in blocks.
pub type BucketSize = usize;

/// Numeric type used for the size of a stash, in blocks.
pub type StashSize = u64;

/// The errors that ORAM construction and accesses report.
#[derive(Debug, Clone, Copy, PartialEq, Eq, Structural)]
pub enum OramError {
    /// A conversion or a product of integers did not fit the target type.
    IntegerConversionError,
    /// An access named an address at or above the block capacity.
    AddressOutOfBoundsError,
    /// The requested capacity or a derived parameter is not admissible.
    InvalidConfigurationError,
}

/// An oblivious RAM from addresses `0 <= a < block_capacity` to values `V`.
pub trait Oram<V: OramBlock>: Sized {
    /// The shape of the structure is consistent.
    spec fn inv(&self) -> bool;

    /// The number of addresses.
    spec fn spec_block_capacity(&self) -> int;

    /// Every internal buffer can absorb one more access.
    spec fn spec_can_evict(&self) -> bool;

    /// The value held at each address.
    spec fn spec_contents(&self) -> Seq<V>;

    /// Returns an ORAM of `block_capacity` addresses, each holding the default value.
    /// A capacity that is not a power of two of at least 2 is refused.
    fn new(block_capacity: Address, rng: &mut StdRng) -> (r: Result<Self, OramError>)
        ensures
            !(is_power_of_two(block_capacity as int) && block_capacity >= 2) ==> r == Err::<
                Self,
                OramError,
            >(OramError::InvalidConfigurationError),
            r is Ok ==> r->Ok_0.inv() && r->Ok_0.spec_block_capacity() == block_capacity
                && r->Ok_0.spec_can_evict() && r->Ok_0.spec_contents() == Seq::new(
                block_capacity as nat,
                |i: int| V::spec_default(),
            ),
    ;

    /// Returns the number of addresses.
    fn block_capacity(&self) -> (r: Result<Address, OramError>)
        requires
            self.inv(),
        ensures
            r == Ok::<Address, OramError>(self.spec_block_capacity() as Address),
    ;

    /// Returns the value `v` stored at `index` and stores `callback(v)` in its place.
    fn access<F: Fn(&V) -> V>(&mut self, index: Address, callback: F, rng: &mut StdRng) -> (r: Result<
        V,
        OramError,
    >)
        requires
            old(self).inv(),
            forall|v: V| callback.requires((&v,)),
            crate::path_oram::deterministic(callback),
        ensures
            final(self).inv(),
            final(self).spec_block_capacity() == old(self).spec_block_capacity(),
            index >= old(self).spec_block_capacity() ==> r == Err::<V, OramError>(
                OramError::AddressOutOfBoundsError,
            ) && *final(self) == *old(self),
            index < old(self).spec_block_capacity() && !old(self).spec_can_evict() ==> r == Err::<
                V,
                OramError,
            >(OramError::IntegerConversionError) && *final(self) == *old(self),
            index < old(self).spec_block_capacity() && old(self).spec_can_evict() ==> {
                &&& r == Ok::<V, OramError>(old(self).spec_contents()[index as int])
                &&& callback.ensures(
                    (&old(self).spec_contents()[index as int],),
                    final(self).spec_contents()[index as int],
                )
                &&& final(self).spec_contents() == old(self).spec_contents().update(
                    index as int,
                    final(self).spec_contents()[index as int],
                )
            },
    ;

    /// Returns the value stored at `index`.
    fn read(&mut self, index: Address, rng: &mut StdRng) -> (r: Result<V, OramError>)
        requires
            old(self).inv(),
        ensures
            final(self).inv(),
            final(self).spec_block_capacity() == old(self).spec_block_capacity(),
            index >= old(self).spec_block_capacity() ==> r == Err::<V, OramError>(
                OramError::AddressOutOfBoundsError,
            ) && *final(self) == *old(self),
            index < old(self).spec_block_capacity() && !old(self).spec_can_evict() ==> r == Err::<
                V,
                OramError,
            >(OramError::IntegerConversionError) && *final(self) == *old(self),
            index < old(self).spec_block_capacity() && old(self).spec_can_evict() ==> r == Ok::<V, OramError>(
                old(self).spec_contents()[index as int],
            ) && final(self).spec_contents() == old(self).spec_contents(),
    ;

    /// Stores `new_value` at `index` and returns the value it replaces.
    fn write(&mut self, index: Address, new_value: V, rng: &mut StdRng) -> (r: Result<V, OramError>)
        requires
            old(self).inv(),
        ensures
            final(self).inv(),
            final(self).spec_block_capacity() == old(self).spec_block_capacity(),
            index >= old(self).spec_block_capacity() ==> r == Err::<V, OramError>(
                OramError::AddressOutOfBoundsError,
            ) && *final(self) == *old(self),
            index < old(self).spec_block_capacity() && !old(self).spec_can_evict() ==> r == Err::<
                V,
                OramError,
            >(OramError::IntegerConversionError) && *final(self) == *old(self),
            index < old(self).spec_block_capacity() && old(self).spec_can_evict() ==> r == Ok::<V, OramError>(
                old(self).spec_contents()[index as int],
            ) && final(self).spec_contents() == old(self).spec_contents().update(index as int, new_value),
    ;
}

/// Values that an ORAM stores: plain data with a default and a constant-time select.
pub trait OramBlock: Copy + Sized {
    /// The value that every address holds before its first write.
    spec fn spec_default() -> Self;

    /// Returns the default value.
    fn default_value() -> (r: Self)
        ensures
            r == Self::spec_default(),
    ;

    /// Returns `b` if `choice` is set and `a` otherwise, without branching on `choice`.
    fn conditional_select(a: &Self, b: &Self, choice: bool) -> (r: Self)
        ensures
            r == (if choice { *b } else { *a }),
    ;
}

impl OramBlock for u8 {
    open spec fn spec_default() -> Self {
        0
    }

    fn default_value() -> (r: Self) {
        0
    }

    fn conditional_select(a: &Self, b: &Self, choice: bool) -> (r: Self) {
        ct::select_u8(*a, *b, choice)
    }
}

impl OramBlock for u16 {
    open spec fn spec_default() -> Self {
        0
    }

    fn default_value() -> (r: Self) {
        0
    }

    fn conditional_select(a: &Self, b: &Self, choice: bool) -> (r: Self) {
        ct::select_u16(*a, *b, choice)
    }
}

impl OramBlock for u32 {
    open spec fn spec_default() -> Self {
        0
    }

    fn default_value() -> (r: Self) {
        0
    }

    fn conditional_select(a: &Self, b: &Self, choice: bool) -> (r: Self) {
        ct::select_u32(*a, *b, choice)
    }
}

impl OramBlock for u64 {
    open spec fn spec_default() -> Self {
        0
    }

    fn default_value() -> (r: Self) {
        0
    }

    fn conditional_select(a: &Self, b: &Self, choice: bool) -> (r: Self) {
        ct::select_u64(*a, *b, choice)
    }
}

impl OramBlock for i8 {
    open spec fn spec_default() -> Self {
        0
    }

    fn default_value() -> (r: Self) {
        0
    }

    fn conditional_select(a: &Self, b: &Self, choice: bool) -> (r: Self) {
        ct::select_i8(*a, *b, choice)
    }
}

impl OramBlock for i16 {
    open spec fn spec_default() -> Self {
        0
    }

    fn default_value() -> (r: Self) {
        0
    }

    fn conditional_select(a: &Self, b: &Self, choice: bool) -> (r: Self) {
        ct::select_i16(*a, *b, choice)
    }
}

impl OramBlock for i32 {
    open spec fn spec_default() -> Self {
        0
    }

    fn default_value() -> (r: Self) {
        0
    }

    fn conditional_select(a: &Self, b: &Self, choice: bool) -> (r: Self) {
        ct::select_i32(*a, *b, choice)
    }
}

impl OramBlock for i64 {
    open spec fn spec_default() -> Self {
        0
    }

    fn default_value() -> (r: Self) {
        0
    }

    fn conditional_select(a: &Self, b: &Self, choice: bool) -> (r: Self) {
        ct::select_i64(*a, *b, choice)
    }
}

} // verus!
