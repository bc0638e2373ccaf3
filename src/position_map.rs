//! The position map: the leaf of every address, held either in a plain array
//! scanned in full on every access, or in a smaller Path ORAM of position blocks.
use crate::bucket::PositionBlock;
use crate::ct::{ct_eq_u64, select_u64};
use crate::database::saturating;
use crate::path_oram::{admissible, inner_capacity, sizes_fit, PathOram};
use crate::tree::TreeIndex;
use crate::{Address, OramError};
use rand::rngs::StdRng;
use vstd::prelude::*;

verus! {

/// Swapping in `new_leaf` at `address` of the map `m`: the map after, and the leaf before.
pub open spec fn swap_leaf(m: Seq<TreeIndex>, address: int, new_leaf: TreeIndex) -> (Seq<TreeIndex>, TreeIndex) {
    (m.update(address, new_leaf), m[address])
}

/// A second swap at the same address returns what the first one installed,
/// and a third returns what the second installed.
pub proof fn lemma_swap_leaf_round_trip(
    m: Seq<TreeIndex>,
    address: int,
    l1: TreeIndex,
    l2: TreeIndex,
    l3: TreeIndex,
)
    requires
        0 <= address < m.len(),
    ensures
        swap_leaf(swap_leaf(m, address, l1).0, address, l2).1 == l1,
        swap_leaf(swap_leaf(swap_leaf(m, address, l1).0, address, l2).0, address, l3).1 == l2,
{
}

/// A position map small enough to be scanned in full on every access.
#[derive(Debug)]
pub struct LinearPositionMap {
    positions: Vec<TreeIndex>,
}

impl View for LinearPositionMap {
    type V = Seq<TreeIndex>;

    closed spec fn view(&self) -> Seq<TreeIndex> {
        self.positions@
    }
}

impl LinearPositionMap {
    /// Returns a map of `n` addresses, each at leaf 0 until written.
    pub fn new(n: usize) -> (r: Self)
        ensures
            r@ == Seq::new(n as nat, |i: int| 0u64),
    {
        let mut positions: Vec<TreeIndex> = Vec::new();
        let mut i: usize = 0;
        while i < n
            invariant
                i <= n,
                positions@ == Seq::new(i as nat, |j: int| 0u64),
            decreases n - i,
        {
            positions.push(0);
            i += 1;
            assert(positions@ =~= Seq::new(i as nat, |j: int| 0u64));
        }
        LinearPositionMap { positions }
    }

    /// Returns a map that holds `leaves`.
    pub fn from_leaves(leaves: &Vec<TreeIndex>) -> (r: Self)
        ensures
            r@ == leaves@,
    {
        let mut positions: Vec<TreeIndex> = Vec::new();
        let mut i: usize = 0;
        while i < leaves.len()
            invariant
                i <= leaves@.len(),
                positions@ == leaves@.subrange(0, i as int),
            decreases leaves@.len() - i,
        {
            positions.push(leaves[i]);
            i += 1;
            assert(positions@ =~= leaves@.subrange(0, i as int));
        }
        assert(positions@ =~= leaves@);
        LinearPositionMap { positions }
    }

    /// Returns the number of addresses.
    pub fn len(&self) -> (r: usize)
        ensures
            r == self@.len(),
    {
        self.positions.len()
    }

    /// Installs `new_leaf` at `address` and returns the leaf it replaces,
    /// reading and writing every entry.
    pub fn write(&mut self, address: Address, new_leaf: TreeIndex) -> (r: TreeIndex)
        requires
            address < old(self)@.len(),
        ensures
            (final(self)@, r) == swap_leaf(old(self)@, address as int, new_leaf),
    {
        let n = self.positions.len();
        let mut result: TreeIndex = 0;
        let mut i: usize = 0;
        while i < n
            invariant
                i <= n,
                n == self.positions@.len(),
                n == old(self)@.len(),
                address < n,
                i > address ==> result == old(self)@[address as int],
                forall|j: int|
                    0 <= j < i ==> self.positions@[j] == old(self)@.update(address as int, new_leaf)[j],
                forall|j: int| i <= j < n ==> self.positions@[j] == old(self)@[j],
            decreases n - i,
        {
            let current = self.positions[i];
            let is_target = ct_eq_u64(i as u64, address);
            result = select_u64(result, current, is_target);
            self.positions.set(i, select_u64(current, new_leaf, is_target));
            i += 1;
        }
        assert(self.positions@ =~= old(self)@.update(address as int, new_leaf));
        result
    }
}

/// The leaf of every address: a linear map, or a Path ORAM of position blocks.
pub enum PositionMap<const AB: usize, const Z: usize, const RT: u64> {
    /// Every entry is scanned on each access.
    Linear(LinearPositionMap),
    /// Address `a` is entry `a % AB` of block `a / AB` of the inner ORAM.
    Recursive(Box<PathOram<PositionBlock<AB>, Z, AB, RT>>),
}

impl<const AB: usize, const Z: usize, const RT: u64> PositionMap<AB, Z, RT> {
    /// The number of addresses the map can hold.
    pub open spec fn covers(&self) -> int {
        match self {
            PositionMap::Linear(m) => m@.len() as int,
            PositionMap::Recursive(inner) => inner.capacity() * AB,
        }
    }

    /// The leaf of each address: the entries of a linear map, or the position
    /// blocks of the inner ORAM laid end to end.
    pub open spec fn positions(&self) -> Seq<TreeIndex> {
        match self {
            PositionMap::Linear(m) => m@,
            PositionMap::Recursive(inner) => Seq::new(
                (inner.contents@.len() * AB) as nat,
                |i: int| inner.contents@[i / AB as int].data@[i % AB as int],
            ),
        }
    }

    /// `self` follows `before` by one access of each ORAM below it: a linear
    /// map stays linear and touches no bucket, an inner ORAM counts one access.
    pub open spec fn counted_after(&self, before: Self) -> bool
        decreases self,
    {
        match (self, before) {
            (PositionMap::Linear(_), PositionMap::Linear(_)) => true,
            (PositionMap::Recursive(inner), PositionMap::Recursive(inner_before)) => inner.counted_access_of(
                *inner_before,
            ),
            _ => false,
        }
    }

    /// The map is held in a plain array.
    pub open spec fn is_linear(&self) -> bool {
        self is Linear
    }

    /// The number of ORAMs below this map.
    pub open spec fn layers(&self) -> nat
        decreases self,
    {
        match self {
            PositionMap::Linear(_) => 0,
            PositionMap::Recursive(inner) => 1 + inner.position_map.layers(),
        }
    }

    /// The inner ORAM, if any, is well formed.
    pub open spec fn wf(&self) -> bool
        decreases self,
    {
        match self {
            PositionMap::Linear(_) => true,
            PositionMap::Recursive(inner) => AB >= 1 && inner.wf(),
        }
    }

    /// Returns a map that gives address `a` the leaf `leaves[a]`: a linear map
    /// at or below `RT` addresses, else an ORAM of `max(2, ceil(n / AB))`
    /// position blocks built with those leaves in place.
    pub fn new_with_leaves(leaves: &Vec<TreeIndex>, rng: &mut StdRng) -> (r: Result<Self, OramError>)
        ensures
            r is Ok ==> r->Ok_0.wf() && r->Ok_0.covers() >= leaves@.len() && r->Ok_0.can_evict(),
            r is Ok && leaves@.len() <= RT ==> r->Ok_0.is_linear() && r->Ok_0.positions() == leaves@,
            r is Ok && leaves@.len() > RT ==> !r->Ok_0.is_linear(),
            r is Ok ==> r->Ok_0.inv() && r->Ok_0.positions().len() >= leaves@.len() && forall|a: int|
                0 <= a < leaves@.len() ==> #[trigger] r->Ok_0.positions()[a] == leaves@[a],
            r is Err ==> r->Err_0 != OramError::AddressOutOfBoundsError,
            leaves@.len() <= RT ==> r is Ok,
            leaves@.len() > RT && AB >= 1 && inner_capacity(leaves@.len() as int, AB as int) < leaves@.len()
                && admissible(inner_capacity(leaves@.len() as int, AB as int), Z as int, AB as int, RT as int)
                && sizes_fit(Z as int) ==> r is Ok,
            leaves@.len() > RT && AB >= 1 && inner_capacity(leaves@.len() as int, AB as int) < leaves@.len()
                && admissible(inner_capacity(leaves@.len() as int, AB as int), Z as int, AB as int, RT as int)
                ==> r != Err::<Self, OramError>(OramError::InvalidConfigurationError),
        decreases leaves@.len() as u64, 0nat,
    {
        let n = leaves.len();
        if n as u64 <= RT {
            return Ok(PositionMap::Linear(LinearPositionMap::from_leaves(leaves)));
        }
        if AB == 0 {
            return Err(OramError::InvalidConfigurationError);
        }
        let blocks = (n - 1) / AB + 1;
        let inner_capacity = if blocks < 2 {
            2
        } else {
            blocks
        };
        if inner_capacity >= n {
            return Err(OramError::InvalidConfigurationError);
        }
        proof {
            vstd::arithmetic::div_mod::lemma_fundamental_div_mod((n - 1) as int, AB as int);
        }
        let mut contents: Vec<PositionBlock<AB>> = Vec::new();
        let mut b: usize = 0;
        while b < inner_capacity
            invariant
                b <= inner_capacity,
                contents@.len() == b,
                n == leaves@.len(),
                AB >= 1,
                blocks == (n - 1) as int / AB as int + 1,
                n - 1 == AB * ((n - 1) as int / AB as int) + ((n - 1) as int) % (AB as int),
                ((n - 1) as int) % (AB as int) >= 0,
                forall|b2: int, i2: int|
                    0 <= b2 < b && 0 <= i2 < AB && b2 * AB + i2 < n ==> #[trigger] contents@[b2].data@[i2]
                        == leaves@[b2 * AB + i2],
            decreases inner_capacity - b,
        {
            let mut data = [0u64; AB];
            proof {
                if b >= blocks {
                    assert(b * AB >= n) by (nonlinear_arith)
                        requires
                            b >= blocks,
                            blocks == (n - 1) as int / AB as int + 1,
                            n - 1 == AB * ((n - 1) as int / AB as int) + ((n - 1) as int) % (AB as int),
                            ((n - 1) as int) % (AB as int) < AB,
                            AB >= 1,
                    ;
                }
            }
            if b < blocks {
                proof {
                    assert(b * AB <= n - 1) by (nonlinear_arith)
                        requires
                            b < blocks,
                            blocks == (n - 1) as int / AB as int + 1,
                            n - 1 == AB * ((n - 1) as int / AB as int) + ((n - 1) as int) % (AB as int),
                            ((n - 1) as int) % (AB as int) >= 0,
                            AB >= 1,
                    ;
                }
                let base = b * AB;
                let mut i: usize = 0;
                while i < AB
                    invariant
                        i <= AB,
                        base < n,
                        base == b * AB,
                        n == leaves@.len(),
                        forall|i2: int| 0 <= i2 < i && base + i2 < n ==> #[trigger] data@[i2] == leaves@[base + i2],
                    decreases AB - i,
                {
                    if i < n - base {
                        data[i] = leaves[base + i];
                    }
                    i += 1;
                }
            }
            let ghost before_push = contents@;
            contents.push(PositionBlock { data });
            proof {
                assert forall|b2: int, i2: int|
                    0 <= b2 < b + 1 && 0 <= i2 < AB && b2 * AB + i2 < n implies #[trigger] contents@[b2].data@[i2]
                        == leaves@[b2 * AB + i2] by {
                    if b2 < b {
                        assert(contents@[b2] == before_push[b2]);
                    }
                }
            }
            b += 1;
        }
        proof {
            assert(inner_capacity * AB >= n) by (nonlinear_arith)
                requires
                    n - 1 == AB * ((n - 1) as int / AB as int) + ((n - 1) as int) % (AB as int),
                    ((n - 1) as int) % (AB as int) < AB,
                    blocks == (n - 1) as int / AB as int + 1,
                    inner_capacity >= blocks,
            ;
        }
        let inner = match PathOram::<PositionBlock<AB>, Z, AB, RT>::new_with_values(inner_capacity as u64, &contents, rng) {
            Ok(o) => o,
            Err(e) => {
                return Err(e);
            },
        };
        let r = PositionMap::<AB, Z, RT>::Recursive(Box::new(inner));
        proof {
            let ab = AB as int;
            assert forall|a: int| 0 <= a < n implies #[trigger] r.positions()[a] == leaves@[a] by {
                vstd::arithmetic::div_mod::lemma_fundamental_div_mod(a, ab);
                vstd::arithmetic::div_mod::lemma_div_pos_is_pos(a, ab);
                vstd::arithmetic::mul::lemma_mul_is_commutative(ab, inner_capacity as int);
                vstd::arithmetic::div_mod::lemma_multiply_divide_lt(a, ab, inner_capacity as int);
                assert((a / ab) * ab == ab * (a / ab)) by (nonlinear_arith);
                assert(contents@[a / ab].data@[a % ab] == leaves@[(a / ab) * ab + a % ab]);
            }
        }
        Ok(r)
    }

    /// Installs `new_leaf` as the leaf of `address` and returns the leaf it replaces.
    pub fn write(&mut self, address: Address, new_leaf: TreeIndex, rng: &mut StdRng) -> (r: Result<
        TreeIndex,
        OramError,
    >)
        requires
            old(self).wf(),
            old(self).inv(),
            address < old(self).covers(),
        ensures
            final(self).wf(),
            final(self).covers() == old(self).covers(),
            final(self).layers() == old(self).layers(),
            final(self).is_linear() == old(self).is_linear(),
            old(self).can_evict() ==> r is Ok,
            !old(self).can_evict() ==> r == Err::<TreeIndex, OramError>(OramError::IntegerConversionError)
                && *final(self) == *old(self),
            old(self).is_linear() ==> (final(self).positions(), r->Ok_0) == swap_leaf(
                old(self).positions(),
                address as int,
                new_leaf,
            ),
            old(self).can_evict() ==> final(self).counted_after(*old(self)),
            final(self).inv(),
            old(self).can_evict() ==> (final(self).positions(), r->Ok_0) == swap_leaf(
                old(self).positions(),
                address as int,
                new_leaf,
            ),
        decreases old(self).layers(), 0nat,
    {
        match self {
            PositionMap::Linear(m) => Ok(m.write(address, new_leaf)),
            PositionMap::Recursive(inner) => {
                let ab = AB as u64;
                let block_index = address / ab;
                let offset = (address % ab) as usize;
                let callback = move |b: &PositionBlock<AB>| -> (r: PositionBlock<AB>)
                    requires
                        offset < AB,
                    ensures
                        r.data@ == b.data@.update(offset as int, new_leaf),
                    { b.with_entry(offset, new_leaf) };
                proof {
                    vstd::arithmetic::div_mod::lemma_fundamental_div_mod(address as int, AB as int);
                    vstd::arithmetic::mul::lemma_mul_is_commutative(AB as int, inner.capacity());
                    assert(block_index < inner.capacity()) by (nonlinear_arith)
                        requires
                            address == AB * block_index + (address as int) % (AB as int),
                            (address as int) % (AB as int) >= 0,
                            address < inner.capacity() * AB,
                            AB >= 1,
                    ;
                }
                proof {
                    assert forall|v: PositionBlock<AB>, r1: PositionBlock<AB>, r2: PositionBlock<AB>|
                        callback.ensures((&v,), r1) && callback.ensures((&v,), r2) implies r1 == r2 by {
                        assert(r1.data =~= r2.data);
                    }
                }
                let ghost ci = inner.contents@;
                match inner.access(block_index, callback, rng) {
                    Ok(block) => {
                        let e = block.entry(offset);
                        proof {
                            {
                                let a = address as int;
                                let bi = block_index as int;
                                let o = offset as int;
                                let cn = inner.contents@;
                                let ab = AB as int;
                                assert(a == ab * bi + o);
                                assert(inner.inv() || true);
                                assert(block == ci[bi]);
                                assert(cn == ci.update(bi, cn[bi]));
                                assert(cn[bi].data@ == ci[bi].data@.update(o, new_leaf));
                                assert forall|i: int| 0 <= i < cn.len() * ab implies (#[trigger] cn[i / ab]).data@[i % ab]
                                    == ci.update(bi, cn[bi])[i / ab].data@[i % ab] by {}
                                let before = Seq::new((ci.len() * ab) as nat, |i: int| ci[i / ab].data@[i % ab]);
                                let after = Seq::new((cn.len() * ab) as nat, |i: int| cn[i / ab].data@[i % ab]);
                                assert forall|i: int| 0 <= i < after.len() implies #[trigger] after[i] == before.update(
                                    a,
                                    new_leaf,
                                )[i] by {
                                    vstd::arithmetic::div_mod::lemma_fundamental_div_mod(i, ab);
                                    vstd::arithmetic::div_mod::lemma_div_pos_is_pos(i, ab);
                                    vstd::arithmetic::mul::lemma_mul_is_commutative(ab, cn.len() as int);
                                    vstd::arithmetic::div_mod::lemma_multiply_divide_lt(i, ab, cn.len() as int);
                                    assert(after[i] == cn[i / ab].data@[i % ab]);
                                    assert(before[i] == ci[i / ab].data@[i % ab]);
                                    if i / ab == bi {
                                        if i % ab == o {
                                            assert(i == a);
                                        } else {
                                            assert(i != a);
                                        }
                                    } else {
                                        if i == a {
                                            assert(bi * ab == ab * bi) by (nonlinear_arith);
                                            vstd::arithmetic::div_mod::lemma_fundamental_div_mod_converse(
                                                a,
                                                ab,
                                                bi,
                                                o,
                                            );
                                            assert(bi * ab == ab * bi) by (nonlinear_arith);
                                        }
                                    }
                                }
                                assert(after =~= before.update(a, new_leaf));
                                assert(bi * ab == ab * bi) by (nonlinear_arith);
                                vstd::arithmetic::div_mod::lemma_fundamental_div_mod_converse(a, ab, bi, o);
                                assert(e == before[a]);
                            }
                        }
                        Ok(e)
                    },
                    Err(e) => Err(e),
                }
            },
        }
    }

    /// The ORAM of the map, if any, keeps its invariant.
    pub open spec fn inv(&self) -> bool
        decreases self,
    {
        match self {
            PositionMap::Linear(_) => true,
            PositionMap::Recursive(inner) => inner.inv(),
        }
    }

    /// Every stash below this map can absorb one more eviction.
    pub open spec fn can_evict(&self) -> bool
        decreases self,
    {
        match self {
            PositionMap::Linear(_) => true,
            PositionMap::Recursive(inner) => inner.can_evict(),
        }
    }
}

} // verus!
