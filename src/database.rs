//! The untrusted memory: a flat array of buckets that counts its accesses.
use vstd::prelude::*;

verus! {

/// `x` clipped to the largest `u64`.
pub open spec fn saturating(x: int) -> u64 {
    if x >= u64::MAX {
        u64::MAX
    } else {
        x as u64
    }
}

/// An array of `T` indexed by node number, with counters of reads and writes.
#[derive(Debug)]
pub struct CountAccessesDatabase<T> {
    data: Vec<T>,
    reads: u64,
    writes: u64,
}

impl<T: Copy> CountAccessesDatabase<T> {
    /// The stored entries.
    pub closed spec fn entries(&self) -> Seq<T> {
        self.data@
    }

    /// How many reads have been made, clipped to the largest `u64`.
    pub closed spec fn spec_read_count(&self) -> u64 {
        self.reads
    }

    /// How many writes have been made, clipped to the largest `u64`.
    pub closed spec fn spec_write_count(&self) -> u64 {
        self.writes
    }

    /// Returns a database of `n` copies of `fill`, with both counters at zero.
    pub fn new(n: usize, fill: T) -> (r: Self)
        ensures
            r.entries() == Seq::new(n as nat, |i: int| fill),
            r.spec_read_count() == 0,
            r.spec_write_count() == 0,
    {
        let mut data: Vec<T> = Vec::new();
        let mut i: usize = 0;
        while i < n
            invariant
                i <= n,
                data@ == Seq::new(i as nat, |j: int| fill),
            decreases n - i,
        {
            data.push(fill);
            i += 1;
            assert(data@ =~= Seq::new(i as nat, |j: int| fill));
        }
        CountAccessesDatabase { data, reads: 0, writes: 0 }
    }

    /// Returns the number of entries.
    pub fn capacity(&self) -> (r: usize)
        ensures
            r == self.entries().len(),
    {
        self.data.len()
    }

    /// Returns entry `i` and counts one read.
    pub fn read_db(&mut self, i: usize) -> (r: T)
        requires
            i < old(self).entries().len(),
        ensures
            r == old(self).entries()[i as int],
            final(self).entries() == old(self).entries(),
            final(self).spec_read_count() == saturating(old(self).spec_read_count() + 1),
            final(self).spec_write_count() == old(self).spec_write_count(),
    {
        self.reads = self.reads.saturating_add(1);
        self.data[i]
    }

    /// Overwrites entry `i` and counts one write.
    pub fn write_db(&mut self, i: usize, value: T)
        requires
            i < old(self).entries().len(),
        ensures
            final(self).entries() == old(self).entries().update(i as int, value),
            final(self).spec_read_count() == old(self).spec_read_count(),
            final(self).spec_write_count() == saturating(old(self).spec_write_count() + 1),
    {
        self.writes = self.writes.saturating_add(1);
        self.data.set(i, value);
    }

    /// Returns entry `i` without counting an access.
    pub fn peek(&self, i: usize) -> (r: T)
        requires
            i < self.entries().len(),
        ensures
            r == self.entries()[i as int],
    {
        self.data[i]
    }

    /// Returns the number of reads so far.
    pub fn read_count(&self) -> (r: u64)
        ensures
            r == self.spec_read_count(),
    {
        self.reads
    }

    /// Returns the number of writes so far.
    pub fn write_count(&self) -> (r: u64)
        ensures
            r == self.spec_write_count(),
    {
        self.writes
    }
}

} // verus!
