//! A Bloom filter of fixed size, split into one slice of bits for each hash function.

use crate::bit_vec::{
    count_ones, lemma_count_ones_update, lemma_count_ones_zero, rounded_up_to_words, BitVec,
};
use crate::hash::{hashes_from, hashes_of, NthHash};
use std::hash::Hash;
use std::marker::PhantomData;
use vstd::prelude::*;

verus! {

/// The index of the bit that `hash` selects in slice `slice`, where a slice has
/// `slice_bitwidth` bits: the hash, taken as a `usize`, modulo the width of a slice, counted
/// from the first bit of the slice.
pub open spec fn slot(slice_bitwidth: nat, slice: int, hash: u64) -> int {
    slice * slice_bitwidth + (hash as usize) as int % slice_bitwidth as int
}

/// What a Bloom filter is made of: the width of a slice, the number of slices, and the bits.
pub struct FilterState {
    pub slice_bitwidth: nat,
    pub number_of_slices: nat,
    pub bits: Seq<bool>,
}

impl FilterState {
    /// The filter of the given dimensions in which no bit is set.
    pub open spec fn empty(slice_bitwidth: nat, number_of_slices: nat) -> FilterState {
        FilterState {
            slice_bitwidth,
            number_of_slices,
            bits: Seq::new(
                rounded_up_to_words(slice_bitwidth * number_of_slices),
                |index: int| false,
            ),
        }
    }

    /// The bits hold every slice, rounded up to whole storage words, and where there is a
    /// slice, a slice has a bit.
    pub open spec fn valid(self) -> bool {
        &&& self.bits.len() == rounded_up_to_words(self.slice_bitwidth * self.number_of_slices)
        &&& self.number_of_slices > 0 ==> self.slice_bitwidth > 0
    }

    /// Whether `index` is the slot of one of `hashes`, the hash at index `i` taken for slice `i`.
    pub open spec fn marks(self, hashes: Seq<u64>, index: int) -> bool {
        exists|slice: int|
            0 <= slice < self.number_of_slices && index == #[trigger] slot(
                self.slice_bitwidth,
                slice,
                hashes[slice],
            )
    }

    /// Whether the slot of each of `hashes` is set, the hash at index `i` taken for slice `i`.
    pub open spec fn contains(self, hashes: Seq<u64>) -> bool {
        forall|slice: int|
            0 <= slice < self.number_of_slices ==> self.bits[#[trigger] slot(
                self.slice_bitwidth,
                slice,
                hashes[slice],
            )]
    }

    /// The filter with the slot of each of `hashes` set, and every other bit as it was.
    pub open spec fn insert(self, hashes: Seq<u64>) -> FilterState {
        FilterState {
            bits: Seq::new(
                self.bits.len(),
                |index: int| self.bits[index] || self.marks(hashes, index),
            ),
            ..self
        }
    }

    /// Whether more than half of the bits are set.
    pub open spec fn saturated(self) -> bool {
        2 * count_ones(self.bits) > self.bits.len()
    }

    /// Every slot lies within its own slice, and within the bits.
    pub proof fn lemma_slot_in_slice(self, slice: int, hash: u64)
        requires
            self.valid(),
            0 <= slice < self.number_of_slices,
        ensures
            slice * self.slice_bitwidth <= slot(self.slice_bitwidth, slice, hash) < (slice + 1)
                * self.slice_bitwidth,
            slot(self.slice_bitwidth, slice, hash) < self.bits.len(),
    {
        let width = self.slice_bitwidth as int;
        let count = self.number_of_slices as int;
        assert((slice + 1) * width == slice * width + width) by (nonlinear_arith);
        assert((slice + 1) * width <= count * width) by (nonlinear_arith)
            requires
                slice + 1 <= count,
                width > 0,
        ;
        assert(width * count == count * width) by (nonlinear_arith);
        vstd::arithmetic::div_mod::lemma_fundamental_div_mod(
            width * count + usize::BITS - 1,
            usize::BITS as int,
        );
    }

    /// What was inserted is contained.
    pub proof fn lemma_insert_contains(self, hashes: Seq<u64>)
        requires
            self.valid(),
        ensures
            self.insert(hashes).contains(hashes),
    {
        assert forall|slice: int| 0 <= slice < self.number_of_slices implies self.insert(
            hashes,
        ).bits[#[trigger] slot(self.slice_bitwidth, slice, hashes[slice])] by {
            self.lemma_slot_in_slice(slice, hashes[slice]);
            assert(self.marks(hashes, slot(self.slice_bitwidth, slice, hashes[slice])));
        }
    }

    /// An insertion clears no bit: what is contained stays contained.
    pub proof fn lemma_insert_keeps_contained(self, hashes: Seq<u64>, other: Seq<u64>)
        requires
            self.valid(),
            self.contains(hashes),
        ensures
            self.insert(other).contains(hashes),
    {
        assert forall|slice: int| 0 <= slice < self.number_of_slices implies self.insert(
            other,
        ).bits[#[trigger] slot(self.slice_bitwidth, slice, hashes[slice])] by {
            self.lemma_slot_in_slice(slice, hashes[slice]);
        }
    }

    /// A second insertion of the same hashes changes nothing.
    pub proof fn lemma_insert_idempotent(self, hashes: Seq<u64>)
        ensures
            self.insert(hashes).insert(hashes) == self.insert(hashes),
    {
        let once = self.insert(hashes);
        assert forall|index: int| 0 <= index < once.bits.len() implies once.insert(
            hashes,
        ).bits[index] == once.bits[index] by {
            if once.marks(hashes, index) {
                let slice = choose|slice: int|
                    0 <= slice < once.number_of_slices && index == #[trigger] slot(
                        once.slice_bitwidth,
                        slice,
                        hashes[slice],
                    );
                assert(index == slot(self.slice_bitwidth, slice, hashes[slice]));
            }
        }
        assert(once.insert(hashes).bits =~= once.bits);
    }

    /// The bits with the slots of the first `n` of `hashes` set.
    spec fn bits_with(self, hashes: Seq<u64>, n: int) -> Seq<bool> {
        Seq::new(
            self.bits.len(),
            |index: int|
                self.bits[index] || exists|slice: int|
                    0 <= slice < n && index == #[trigger] slot(
                        self.slice_bitwidth,
                        slice,
                        hashes[slice],
                    ),
        )
    }

    /// Setting the slots of the first `n` hashes clears no bit and sets at most `n`.
    proof fn lemma_bits_with_counts(self, hashes: Seq<u64>, n: int)
        requires
            self.valid(),
            0 <= n <= self.number_of_slices,
        ensures
            count_ones(self.bits) <= count_ones(self.bits_with(hashes, n)) <= count_ones(
                self.bits,
            ) + n,
        decreases n,
    {
        if n == 0 {
            assert(self.bits_with(hashes, 0) =~= self.bits);
        } else {
            let set = slot(self.slice_bitwidth, n - 1, hashes[n - 1]);
            self.lemma_bits_with_counts(hashes, n - 1);
            self.lemma_slot_in_slice(n - 1, hashes[n - 1]);
            lemma_count_ones_update(self.bits_with(hashes, n - 1), set);
            assert(self.bits_with(hashes, n) =~= self.bits_with(hashes, n - 1).update(set, true));
        }
    }

    /// An insertion clears no bit and sets at most one bit for each slice.
    pub proof fn lemma_insert_counts(self, hashes: Seq<u64>)
        requires
            self.valid(),
        ensures
            count_ones(self.bits) <= count_ones(self.insert(hashes).bits) <= count_ones(
                self.bits,
            ) + self.number_of_slices,
    {
        self.lemma_bits_with_counts(hashes, self.number_of_slices as int);
        assert(self.insert(hashes).bits =~= self.bits_with(hashes, self.number_of_slices as int));
    }

    /// After an insertion into a filter that has a slice, a bit is set.
    pub proof fn lemma_insert_sets_a_bit(self, hashes: Seq<u64>)
        requires
            self.valid(),
            self.number_of_slices > 0,
        ensures
            count_ones(self.insert(hashes).bits) > 0,
    {
        let set = slot(self.slice_bitwidth, 0, hashes[0]);
        self.lemma_slot_in_slice(0, hashes[0]);
        assert(self.marks(hashes, set));
        assert(self.insert(hashes).bits[set]);
        lemma_count_ones_zero(self.insert(hashes).bits);
    }
}

/// A Bloom filter of fixed size over values of type `T`.
#[derive(Debug)]
pub struct BloomFilter<T: ?Sized> {
    bits: BitVec,
    slice_bitwidth: usize,
    number_of_slices: usize,
    _value: PhantomData<T>,
}

impl<T: ?Sized> View for BloomFilter<T> {
    type V = FilterState;

    closed spec fn view(&self) -> FilterState {
        FilterState {
            slice_bitwidth: self.slice_bitwidth as nat,
            number_of_slices: self.number_of_slices as nat,
            bits: self.bits@,
        }
    }
}

impl<T: Hash + ?Sized> BloomFilter<T> {
    /// The bit vector is well formed and has the bits of every slice.
    pub closed spec fn wf(&self) -> bool {
        &&& self.bits.wf()
        &&& self@.bits.len() == rounded_up_to_words(
            self@.slice_bitwidth * self@.number_of_slices,
        )
    }

    /// A well-formed filter has the bits of every slice, rounded up to whole storage words,
    /// and their number fits a `usize`.
    pub proof fn lemma_wf_bits(&self)
        requires
            self.wf(),
        ensures
            self@.bits.len() == rounded_up_to_words(
                self@.slice_bitwidth * self@.number_of_slices,
            ),
            self@.bits.len() <= usize::MAX,
    {
        self.bits.lemma_wf_bits();
    }

    /// Makes an empty filter of `number_of_slices` slices, each `slice_bitwidth` bits wide.
    pub fn new(slice_bitwidth: usize, number_of_slices: usize) -> (filter: Self)
        requires
            slice_bitwidth * number_of_slices + usize::BITS <= usize::MAX,
        ensures
            filter.wf(),
            filter@ == FilterState::empty(slice_bitwidth as nat, number_of_slices as nat),
    {
        BloomFilter {
            bits: BitVec::new(slice_bitwidth * number_of_slices),
            slice_bitwidth,
            number_of_slices,
            _value: PhantomData,
        }
    }

    /// Inserts the value whose hashes are `hashes`: sets, in each slice, the bit that the hash
    /// at the index of the slice selects.
    pub fn insert_hashes(&mut self, hashes: &[u64])
        requires
            old(self).wf(),
            hashes@.len() >= old(self)@.number_of_slices,
            old(self)@.number_of_slices > 0 ==> old(self)@.slice_bitwidth > 0,
        ensures
            final(self).wf(),
            final(self)@ == old(self)@.insert(hashes@),
            final(self)@.contains(hashes@),
            forall|other: Seq<u64>| #[trigger]
                old(self)@.contains(other) ==> final(self)@.contains(other),
    {
        proof {
            old(self)@.lemma_insert_contains(hashes@);
            assert forall|other: Seq<u64>| #[trigger] old(self)@.contains(other) implies old(
                self,
            )@.insert(hashes@).contains(other) by {
                old(self)@.lemma_insert_keeps_contained(other, hashes@);
            }
        }
        assert(self@.bits =~= self@.bits_with(hashes@, 0));
        let mut i: usize = 0;
        while i < self.number_of_slices
            invariant
                i <= self.number_of_slices,
                self.wf(),
                self@.valid(),
                hashes@.len() >= self@.number_of_slices,
                self@.slice_bitwidth == old(self)@.slice_bitwidth,
                self@.number_of_slices == old(self)@.number_of_slices,
                self@.bits == old(self)@.bits_with(hashes@, i as int),
            decreases self.number_of_slices - i,
        {
            proof {
                self@.lemma_slot_in_slice(i as int, hashes@[i as int]);
                self.bits.lemma_wf_bits();
            }
            let base = i * self.slice_bitwidth;
            let offset = (#[verifier::truncate] (hashes[i] as usize)) % self.slice_bitwidth;
            self.bits.insert(base + offset);
            assert(self@.bits =~= old(self)@.bits_with(hashes@, i + 1)) by {
                assert(base + offset == slot(self@.slice_bitwidth, i as int, hashes@[i as int]));
            }
            i += 1;
        }
        assert(self@.bits =~= old(self)@.insert(hashes@).bits);
    }

    /// Whether the value whose hashes are `hashes` may have been inserted: whether, in each
    /// slice, the bit that the hash at the index of the slice selects is set.
    pub fn contains_hashes(&self, hashes: &[u64]) -> (present: bool)
        requires
            self.wf(),
            hashes@.len() >= self@.number_of_slices,
            self@.number_of_slices > 0 ==> self@.slice_bitwidth > 0,
        ensures
            present == self@.contains(hashes@),
    {
        let mut i: usize = 0;
        while i < self.number_of_slices
            invariant
                i <= self.number_of_slices,
                self.wf(),
                self@.valid(),
                hashes@.len() >= self@.number_of_slices,
                forall|slice: int|
                    0 <= slice < i ==> self@.bits[#[trigger] slot(
                        self@.slice_bitwidth,
                        slice,
                        hashes@[slice],
                    )],
            decreases self.number_of_slices - i,
        {
            proof {
                self@.lemma_slot_in_slice(i as int, hashes@[i as int]);
                self.bits.lemma_wf_bits();
            }
            let base = i * self.slice_bitwidth;
            let offset = (#[verifier::truncate] (hashes[i] as usize)) % self.slice_bitwidth;
            if !self.bits.contains(base + offset) {
                return false;
            }
            i += 1;
        }
        true
    }

    /// Inserts `value`: asks `hasher` for one hash for each slice, and inserts those.
    pub fn insert<H: NthHash>(&mut self, value: &T, hasher: &H)
        requires
            old(self).wf(),
            old(self)@.number_of_slices > 0 ==> old(self)@.slice_bitwidth > 0,
        ensures
            final(self).wf(),
            exists|hashes: Seq<u64>|
                {
                    &&& hashes.len() == old(self)@.number_of_slices
                    &&& #[trigger] hashes_from(hasher, value, hashes)
                    &&& final(self)@ == old(self)@.insert(hashes)
                    &&& final(self)@.contains(hashes)
                },
            forall|other: Seq<u64>| #[trigger]
                old(self)@.contains(other) ==> final(self)@.contains(other),
    {
        let hashes = hashes_of(hasher, value, self.number_of_slices);
        self.insert_hashes(hashes.as_slice());
    }

    /// Whether `value` may have been inserted: asks `hasher` for one hash for each slice, and
    /// looks for those.
    pub fn contains<H: NthHash>(&self, value: &T, hasher: &H) -> (present: bool)
        requires
            self.wf(),
            self@.number_of_slices > 0 ==> self@.slice_bitwidth > 0,
        ensures
            exists|hashes: Seq<u64>|
                {
                    &&& hashes.len() == self@.number_of_slices
                    &&& #[trigger] hashes_from(hasher, value, hashes)
                    &&& present == self@.contains(hashes)
                },
    {
        let hashes = hashes_of(hasher, value, self.number_of_slices);
        self.contains_hashes(hashes.as_slice())
    }

    /// The bits of the filter.
    pub fn bits(&self) -> (bits: &BitVec)
        requires
            self.wf(),
        ensures
            bits.wf(),
            bits@ == self@.bits,
    {
        &self.bits
    }

    /// The number of bits in one slice.
    pub fn slice_bitwidth(&self) -> (width: usize)
        ensures
            width == self@.slice_bitwidth,
    {
        self.slice_bitwidth
    }

    /// The number of slices, which is the number of hash functions.
    pub fn number_of_slices(&self) -> (count: usize)
        ensures
            count == self@.number_of_slices,
    {
        self.number_of_slices
    }
}

} // verus!
