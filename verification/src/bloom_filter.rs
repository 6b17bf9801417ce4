//! A Bloom filter: approximate membership over a bit array, with `k` seeded
//! hash indices per item.

use vstd::prelude::*;
use bitvec::order::Lsb0;
use bitvec::vec::BitVec;
use crate::hashing::{mmh3, murmur3_32};

verus! {

/// A bit vector of the crate `bitvec`.
#[verifier::external_body]
pub struct BitArray {
    bits: BitVec<usize, Lsb0>,
}

/// The bits that a bit vector holds, in index order.
pub uninterp spec fn bits_of(v: BitArray) -> Seq<bool>;

/// An empty bit vector, by `BitVec::new`.
#[verifier::external_body]
fn bitvec_new() -> (v: BitArray)
    ensures
        bits_of(v) == Seq::<bool>::empty(),
{
    BitArray { bits: BitVec::new() }
}

/// Grows or cuts the bit vector to `new_len` bits, by `BitVec::resize`: bits
/// that stay keep their value, new bits get `value`. The crate panics beyond
/// `usize::MAX >> 3` bits, which `requires` leaves out.
#[verifier::external_body]
fn bitvec_resize(v: &mut BitArray, new_len: usize, value: bool)
    requires
        new_len <= usize::MAX / 8,
    ensures
        bits_of(*final(v)).len() == new_len,
        forall|i: int|
            0 <= i < new_len ==> bits_of(*final(v))[i] == (if i < bits_of(*old(v)).len() {
                bits_of(*old(v))[i]
            } else {
                value
            }),
{
    v.bits.resize(new_len, value);
}

/// Writes bit `index`, by `BitSlice::set`, which panics on an index out of
/// bounds; the other bits keep their value.
#[verifier::external_body]
fn bitvec_set(v: &mut BitArray, index: usize, value: bool)
    requires
        index < bits_of(*old(v)).len(),
    ensures
        bits_of(*final(v)) == bits_of(*old(v)).update(index as int, value),
{
    v.bits.set(index, value);
}

/// Reads bit `index`, by indexing the bit vector, which panics on an index out of bounds.
#[verifier::external_body]
fn bitvec_get(v: &BitArray, index: usize) -> (bit: bool)
    requires
        index < bits_of(*v).len(),
    ensures
        bit == bits_of(*v)[index as int],
{
    v.bits[index]
}

/// The bit that hash `hash` stands for among `m` bits.
pub open spec fn bit_index(hash: u32, m: u32) -> int {
    hash as int % m as int
}

/// The `i`-th bit index of `item` among `m` bits.
pub open spec fn item_index(item: Seq<u8>, i: u32, m: u32) -> int {
    bit_index(murmur3_32(item, i), m)
}

/// All `k` bits of `item` are set.
pub open spec fn member(bits: Seq<bool>, item: Seq<u8>, k: u32, m: u32) -> bool {
    forall|i: u32| 0 <= i < k ==> bits[#[trigger] item_index(item, i, m)]
}

/// The bits after the first `upto` of the `k` bits of `item` have been set.
pub open spec fn marked(bits: Seq<bool>, item: Seq<u8>, upto: u32, m: u32) -> Seq<bool> {
    Seq::new(
        bits.len(),
        |j: int| bits[j] || exists|i: u32| 0 <= i < upto && #[trigger] item_index(item, i, m) == j,
    )
}

/// A Bloom filter of `m` bits with `k` hash indices per item.
pub struct BloomFilter {
    /// The number of items the filter is laid out for.
    pub n: u32,
    /// The number of bits.
    pub m: u32,
    /// The number of hash indices per item.
    pub k: u32,
    /// The bits.
    pub bit_array: BitArray,
}

impl View for BloomFilter {
    type V = Seq<bool>;

    /// The bits, in index order.
    open spec fn view(&self) -> Seq<bool> {
        bits_of(self.bit_array)
    }
}

impl BloomFilter {
    /// The bit array has `m` bits, and at least one where items have hash indices.
    pub open spec fn wf(&self) -> bool {
        &&& self@.len() == self.m
        &&& self.k > 0 ==> self.m > 0
    }

    /// A filter of `m` clear bits with `k` hash indices per item, laid out for `n` items.
    pub fn new(n: u32, m: u32, k: u32) -> (filter: BloomFilter)
        requires
            m <= usize::MAX / 8,
            k > 0 ==> m > 0,
        ensures
            filter.wf(),
            filter.n == n,
            filter.m == m,
            filter.k == k,
            forall|j: int| 0 <= j < m ==> !filter@[j],
    {
        let mut vec = bitvec_new();
        bitvec_resize(&mut vec, m as usize, false);
        BloomFilter { n, m, k, bit_array: vec }
    }

    /// Sets the bit that `hash` stands for.
    pub fn set_hashed(&mut self, hash: u32)
        requires
            old(self).wf(),
            old(self).m > 0,
        ensures
            final(self).wf(),
            final(self).n == old(self).n,
            final(self).m == old(self).m,
            final(self).k == old(self).k,
            final(self)@ == old(self)@.update(bit_index(hash, old(self).m), true),
    {
        let index = hash % self.m;
        bitvec_set(&mut self.bit_array, index as usize, true);
    }

    /// Whether the bit that `hash` stands for is set.
    pub fn test_hashed(&self, hash: u32) -> (set: bool)
        requires
            self.wf(),
            self.m > 0,
        ensures
            set == self@[bit_index(hash, self.m)],
    {
        let index = hash % self.m;
        bitvec_get(&self.bit_array, index as usize)
    }

    /// Sets the `k` bits of `item`.
    pub fn insert(&mut self, item: &[u8])
        requires
            old(self).wf(),
        ensures
            final(self).wf(),
            final(self).n == old(self).n,
            final(self).m == old(self).m,
            final(self).k == old(self).k,
            final(self)@ == marked(old(self)@, item@, old(self).k, old(self).m),
    {
        let ghost bits = self@;
        let ghost m = self.m;
        proof {
            assert(self@ =~= marked(bits, item@, 0, m));
        }
        let k = self.k;
        for i in 0..k
            invariant
                k == self.k,
                self.wf(),
                self.n == old(self).n,
                self.m == old(self).m,
                self.k == old(self).k,
                m == self.m,
                bits.len() == m,
                self@ == marked(bits, item@, i, m),
        {
            let index = mmh3(item, i);
            self.set_hashed(index);
            proof {
                let before = marked(bits, item@, i, m);
                let after = marked(bits, item@, (i + 1) as u32, m);
                let at = item_index(item@, i, m);
                assert forall|j: int| 0 <= j < m implies before.update(at, true)[j] == after[j] by {
                    if before[j] && !bits[j] {
                        let w = choose|w: u32| 0 <= w < i && #[trigger] item_index(item@, w, m) == j;
                        assert(item_index(item@, w, m) == j);
                    }
                    if after[j] && !bits[j] {
                        let w = choose|w: u32|
                            0 <= w < i + 1 && #[trigger] item_index(item@, w, m) == j;
                        if w < i {
                            assert(item_index(item@, w, m) == j);
                        }
                    }
                    if j == at {
                        assert(item_index(item@, i, m) == j);
                    }
                }
                assert(before.update(at, true) =~= after);
            }
        }
    }

    /// Whether all `k` bits of `item` are set: true of every inserted item,
    /// and of others by chance.
    pub fn lookup(&mut self, item: &[u8]) -> (found: bool)
        requires
            old(self).wf(),
        ensures
            final(self).wf(),
            final(self).n == old(self).n,
            final(self).m == old(self).m,
            final(self).k == old(self).k,
            final(self)@ == old(self)@,
            found == member(old(self)@, item@, old(self).k, old(self).m),
    {
        let k = self.k;
        for i in 0..k
            invariant
                k == self.k,
                self.wf(),
                self.n == old(self).n,
                self.m == old(self).m,
                self.k == old(self).k,
                self@ == old(self)@,
                forall|w: u32| 0 <= w < i ==> self@[#[trigger] item_index(item@, w, self.m)],
        {
            let index = mmh3(item, i);
            if self.test_hashed(index) == false {
                proof {
                    assert(!self@[item_index(item@, i, self.m)]);
                }
                return false;
            }
        }
        return true;
    }
}

/// An item is found once it is inserted.
pub proof fn law_inserted_item_is_found(bits: Seq<bool>, item: Seq<u8>, k: u32, m: u32)
    requires
        bits.len() == m,
        k > 0 ==> m > 0,
    ensures
        member(marked(bits, item, k, m), item, k, m),
{
    let after = marked(bits, item, k, m);
    assert forall|i: u32| 0 <= i < k implies after[#[trigger] item_index(item, i, m)] by {
        let j = item_index(item, i, m);
        assert(0 <= j < m);
    }
}

/// An item that is found stays found when another item is inserted.
pub proof fn law_insertion_keeps_items(
    bits: Seq<bool>,
    item: Seq<u8>,
    earlier: Seq<u8>,
    k: u32,
    m: u32,
)
    requires
        bits.len() == m,
        k > 0 ==> m > 0,
        member(bits, earlier, k, m),
    ensures
        member(marked(bits, item, k, m), earlier, k, m),
{
    let after = marked(bits, item, k, m);
    assert forall|i: u32| 0 <= i < k implies after[#[trigger] item_index(earlier, i, m)] by {
        let j = item_index(earlier, i, m);
        assert(0 <= j < m);
        assert(bits[j]);
    }
}

/// A filter with no bit set and at least one hash index per item finds nothing.
pub proof fn law_empty_filter_finds_nothing(bits: Seq<bool>, item: Seq<u8>, k: u32, m: u32)
    requires
        bits.len() == m,
        k > 0,
        m > 0,
        forall|j: int| 0 <= j < m ==> !bits[j],
    ensures
        !member(bits, item, k, m),
{
    let j = item_index(item, 0, m);
    assert(0 <= j < m);
    assert(!bits[j]);
}

} // verus!
