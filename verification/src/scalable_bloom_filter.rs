//! A Bloom filter that grows: a chain of filters of doubling slice width.

use crate::bit_vec::{
    count_ones, lemma_count_ones_bounded, lemma_count_ones_zero, lemma_rounded_up_bounds,
};
use crate::bloom_filter::{BloomFilter, FilterState};
use crate::hash::{hashes_from, hashes_of, DefaultHasher, NthHash};
use std::hash::Hash;
use vstd::prelude::*;

verus! {

/// The factor by which the slices of each new filter are wider than those of the filter before.
pub const GROWTH_FACTOR: usize = 2;

/// The sum of the numbers of bits of `filters`.
pub open spec fn total_bits(filters: Seq<FilterState>) -> nat
    decreases filters.len(),
{
    if filters.len() == 0 {
        0
    } else {
        total_bits(filters.drop_last()) + filters.last().bits.len()
    }
}

/// The sum of the numbers of set bits of `filters`.
pub open spec fn total_ones(filters: Seq<FilterState>) -> nat
    decreases filters.len(),
{
    if filters.len() == 0 {
        0
    } else {
        total_ones(filters.drop_last()) + count_ones(filters.last().bits)
    }
}

/// What a scalable Bloom filter is made of: its filters, oldest first.
pub struct ScalableState {
    pub filters: Seq<FilterState>,
}

impl ScalableState {
    /// There is a filter, every filter is valid and has at least one slice, and each filter
    /// but the first has slices twice as wide as the filter before it, and one slice more.
    pub open spec fn valid(self) -> bool {
        &&& self.filters.len() > 0
        &&& forall|i: int|
            0 <= i < self.filters.len() ==> (#[trigger] self.filters[i]).valid()
                && self.filters[i].number_of_slices > 0
        &&& forall|i: int|
            0 < i < self.filters.len() ==> (#[trigger] self.filters[i]).slice_bitwidth
                == GROWTH_FACTOR * self.filters[i - 1].slice_bitwidth
                && self.filters[i].number_of_slices == self.filters[i - 1].number_of_slices + 1
    }

    /// The filter that takes the insertions.
    pub open spec fn newest(self) -> FilterState {
        self.filters.last()
    }

    /// The empty filter that follows the newest when the chain grows.
    pub open spec fn successor(self) -> FilterState {
        FilterState::empty(
            (GROWTH_FACTOR * self.newest().slice_bitwidth) as nat,
            self.newest().number_of_slices + 1,
        )
    }

    /// Whether the chain can take its next filter: whether the bits of all filters, of all
    /// slices of the successor and of one storage word more fit a `usize` together.
    pub open spec fn room_to_grow(self) -> bool {
        self.allocated_bits() + GROWTH_FACTOR * self.newest().slice_bitwidth * (
        self.newest().number_of_slices + 1) + usize::BITS <= usize::MAX
    }

    /// Whether some filter contains `hashes`.
    pub open spec fn contains(self, hashes: Seq<u64>) -> bool {
        exists|i: int| 0 <= i < self.filters.len() && (#[trigger] self.filters[i]).contains(hashes)
    }

    /// Whether some filter other than the newest contains `hashes`.
    pub open spec fn held_by_older(self, hashes: Seq<u64>) -> bool {
        exists|i: int|
            0 <= i < self.filters.len() - 1 && (#[trigger] self.filters[i]).contains(hashes)
    }

    /// The chain with `hashes` inserted into the newest filter.
    pub open spec fn fill_newest(self, hashes: Seq<u64>) -> ScalableState {
        ScalableState {
            filters: self.filters.update(
                self.filters.len() - 1,
                self.newest().insert(hashes),
            ),
        }
    }

    /// The chain with the successor of the newest filter appended.
    pub open spec fn grow(self) -> ScalableState {
        ScalableState { filters: self.filters.push(self.successor()) }
    }

    /// The chain after an insertion of `hashes`: unchanged where an older filter contains
    /// them; else they are inserted into the newest filter, and where more than half of its
    /// bits are set afterwards, its successor is appended.
    pub open spec fn insert(self, hashes: Seq<u64>) -> ScalableState {
        if self.held_by_older(hashes) {
            self
        } else if self.fill_newest(hashes).newest().saturated() {
            self.fill_newest(hashes).grow()
        } else {
            self.fill_newest(hashes)
        }
    }

    /// The chain after the insertion of each of `elements` in turn.
    pub open spec fn insert_all(self, elements: Seq<Seq<u64>>) -> ScalableState
        decreases elements.len(),
    {
        if elements.len() == 0 {
            self
        } else {
            self.insert_all(elements.drop_last()).insert(elements.last())
        }
    }

    /// The number of bits of all filters together.
    pub open spec fn allocated_bits(self) -> nat {
        total_bits(self.filters)
    }

    /// The number of set bits of all filters together.
    pub open spec fn used_bits(self) -> nat {
        total_ones(self.filters)
    }

    /// Along a valid chain the number of slices does not fall.
    pub proof fn lemma_slices_increase(self, i: int, j: int)
        requires
            self.valid(),
            0 <= i <= j < self.filters.len(),
        ensures
            self.filters[i].number_of_slices <= self.filters[j].number_of_slices,
        decreases j - i,
    {
        if i < j {
            self.lemma_slices_increase(i, j - 1);
            assert(self.filters[j].number_of_slices == self.filters[j - 1].number_of_slices + 1);
        }
    }

    /// No more bits are set than are allocated.
    pub proof fn lemma_used_within_allocated(self)
        ensures
            self.used_bits() <= self.allocated_bits(),
        decreases self.filters.len(),
    {
        if self.filters.len() > 0 {
            ScalableState { filters: self.filters.drop_last() }.lemma_used_within_allocated();
            lemma_count_ones_bounded(self.filters.last().bits);
        }
    }

    /// An insertion into the newest filter keeps a valid chain valid, and keeps its number
    /// of bits.
    pub proof fn lemma_fill_newest(self, hashes: Seq<u64>)
        requires
            self.valid(),
        ensures
            self.fill_newest(hashes).valid(),
            self.fill_newest(hashes).allocated_bits() == self.allocated_bits(),
            self.used_bits() <= self.fill_newest(hashes).used_bits() <= self.used_bits()
                + self.newest().number_of_slices,
    {
        let filled = self.fill_newest(hashes);
        assert(self.filters[self.filters.len() - 1].valid());
        self.newest().lemma_insert_counts(hashes);
        assert forall|i: int| 0 <= i < filled.filters.len() implies (
        #[trigger] filled.filters[i]).valid() && filled.filters[i].number_of_slices > 0 by {
            assert(self.filters[i].valid());
        }
        assert forall|i: int| 0 < i < filled.filters.len() implies (
        #[trigger] filled.filters[i]).slice_bitwidth == GROWTH_FACTOR * filled.filters[i
            - 1].slice_bitwidth && filled.filters[i].number_of_slices == filled.filters[i
            - 1].number_of_slices + 1 by {
            assert(self.filters[i].number_of_slices == self.filters[i - 1].number_of_slices + 1);
        }
        assert(filled.filters.drop_last() =~= self.filters.drop_last());
    }

    /// Growth keeps a valid chain valid, and adds the bits of the successor.
    pub proof fn lemma_grow(self)
        requires
            self.valid(),
        ensures
            self.grow().valid(),
            self.grow().allocated_bits() == self.allocated_bits() + self.successor().bits.len(),
            self.grow().used_bits() == self.used_bits(),
    {
        let grown = self.grow();
        lemma_count_ones_zero(self.successor().bits);
        let last = self.filters.len() - 1;
        assert(self.filters[last].valid());
        assert forall|i: int| 0 <= i < grown.filters.len() implies (
        #[trigger] grown.filters[i]).valid() && grown.filters[i].number_of_slices > 0 by {
            if i <= last {
                assert(self.filters[i].valid());
            }
        }
        assert forall|i: int| 0 < i < grown.filters.len() implies (
        #[trigger] grown.filters[i]).slice_bitwidth == GROWTH_FACTOR * grown.filters[i
            - 1].slice_bitwidth && grown.filters[i].number_of_slices == grown.filters[i
            - 1].number_of_slices + 1 by {
            if i <= last {
                assert(self.filters[i].number_of_slices == self.filters[i - 1].number_of_slices
                    + 1);
            }
        }
        assert(grown.filters.drop_last() =~= self.filters);
    }

    /// An insertion keeps a valid chain valid.
    pub proof fn lemma_insert_valid(self, hashes: Seq<u64>)
        requires
            self.valid(),
        ensures
            self.insert(hashes).valid(),
    {
        self.lemma_fill_newest(hashes);
        self.fill_newest(hashes).lemma_grow();
    }

    /// An insertion removes no filter and changes none but the newest.
    pub proof fn lemma_insert_keeps_older(self, hashes: Seq<u64>, i: int)
        requires
            0 <= i < self.filters.len() - 1,
        ensures
            self.insert(hashes).filters.len() >= self.filters.len(),
            self.insert(hashes).filters[i] == self.filters[i],
    {
    }

    /// Any sequence of insertions keeps a valid chain valid.
    pub proof fn lemma_insert_all_valid(self, elements: Seq<Seq<u64>>)
        requires
            self.valid(),
        ensures
            self.insert_all(elements).valid(),
        decreases elements.len(),
    {
        if elements.len() > 0 {
            self.lemma_insert_all_valid(elements.drop_last());
            self.insert_all(elements.drop_last()).lemma_insert_valid(elements.last());
        }
    }

    /// What was just inserted is contained.
    pub proof fn lemma_inserted_is_contained(self, hashes: Seq<u64>)
        requires
            self.valid(),
        ensures
            self.insert(hashes).contains(hashes),
    {
        let last = self.filters.len() - 1;
        if self.held_by_older(hashes) {
            let i = choose|i: int|
                0 <= i < self.filters.len() - 1 && (#[trigger] self.filters[i]).contains(hashes);
            assert(self.filters[i].contains(hashes));
        } else {
            assert(self.filters[last].valid());
            self.newest().lemma_insert_contains(hashes);
            assert(self.fill_newest(hashes).filters[last].contains(hashes));
            assert(self.fill_newest(hashes).grow().filters[last].contains(hashes));
        }
    }

    /// What is contained stays contained through the insertion of anything.
    pub proof fn lemma_insert_keeps_contained(self, hashes: Seq<u64>, other: Seq<u64>)
        requires
            self.valid(),
            self.contains(hashes),
        ensures
            self.insert(other).contains(hashes),
    {
        let last = self.filters.len() - 1;
        let i = choose|i: int|
            0 <= i < self.filters.len() && (#[trigger] self.filters[i]).contains(hashes);
        if !self.held_by_older(other) {
            let filled = self.fill_newest(other);
            if i == last {
                assert(self.filters[last].valid());
                self.newest().lemma_insert_keeps_contained(hashes, other);
            }
            assert(filled.filters[i].contains(hashes));
            assert(filled.grow().filters[i].contains(hashes));
        }
    }

    /// There are no false negatives: after any sequence of insertions into a valid chain,
    /// each of the inserted elements is contained, however often the chain grew in between.
    pub proof fn lemma_no_false_negatives(self, elements: Seq<Seq<u64>>, index: int)
        requires
            self.valid(),
            0 <= index < elements.len(),
        ensures
            self.insert_all(elements).contains(elements[index]),
        decreases elements.len(),
    {
        let before = self.insert_all(elements.drop_last());
        self.lemma_insert_all_valid(elements.drop_last());
        if index == elements.len() - 1 {
            before.lemma_inserted_is_contained(elements.last());
        } else {
            self.lemma_no_false_negatives(elements.drop_last(), index);
            before.lemma_insert_keeps_contained(elements[index], elements.last());
        }
    }

    /// Insertion is idempotent: the second of two insertions of one element in a row changes
    /// neither the filters nor their bits.
    pub proof fn lemma_insert_idempotent(self, hashes: Seq<u64>)
        requires
            self.valid(),
        ensures
            self.insert(hashes).insert(hashes) == self.insert(hashes),
    {
        let last = self.filters.len() - 1;
        if !self.held_by_older(hashes) {
            let filled = self.fill_newest(hashes);
            assert(self.filters[last].valid());
            self.newest().lemma_insert_contains(hashes);
            assert(filled.filters[last].contains(hashes));
            if filled.newest().saturated() {
                assert(filled.grow().filters[last].contains(hashes));
            } else {
                if filled.held_by_older(hashes) {
                    let i = choose|i: int|
                        0 <= i < filled.filters.len() - 1 && (
                        #[trigger] filled.filters[i]).contains(hashes);
                    assert(self.filters[i].contains(hashes));
                }
                self.newest().lemma_insert_idempotent(hashes);
                assert(filled.fill_newest(hashes).filters =~= filled.filters);
            }
        }
    }

    /// The allocated bits never fall: an insertion leaves them as they are, or adds the bits
    /// of the filter that it appends.
    pub proof fn lemma_insert_allocates(self, hashes: Seq<u64>)
        requires
            self.valid(),
        ensures
            self.insert(hashes).allocated_bits() == if self.insert(hashes).filters.len()
                > self.filters.len() {
                self.allocated_bits() + self.successor().bits.len()
            } else {
                self.allocated_bits()
            },
    {
        self.lemma_fill_newest(hashes);
        self.fill_newest(hashes).lemma_grow();
    }

    /// The used bits never fall: an insertion clears no bit, and sets at most one bit for
    /// each slice of the newest filter.
    pub proof fn lemma_insert_uses(self, hashes: Seq<u64>)
        requires
            self.valid(),
        ensures
            self.used_bits() <= self.insert(hashes).used_bits() <= self.used_bits()
                + self.newest().number_of_slices,
    {
        self.lemma_fill_newest(hashes);
        self.fill_newest(hashes).lemma_grow();
    }

    /// Over any sequence of insertions the allocated bits do not fall.
    pub proof fn lemma_insert_all_allocates(self, elements: Seq<Seq<u64>>)
        requires
            self.valid(),
        ensures
            self.insert_all(elements).allocated_bits() >= self.allocated_bits(),
        decreases elements.len(),
    {
        if elements.len() > 0 {
            self.lemma_insert_all_allocates(elements.drop_last());
            self.lemma_insert_all_valid(elements.drop_last());
            self.insert_all(elements.drop_last()).lemma_insert_allocates(elements.last());
        }
    }
}

/// The whole quotient of `capacity` by `ones` is below two exactly where `ones` is more than
/// half of `capacity`.
proof fn lemma_ratio_below_two(capacity: int, ones: int)
    by (nonlinear_arith)
    requires
        capacity >= 0,
        ones > 0,
    ensures
        capacity / ones < 2 <==> 2 * ones > capacity,
{
}

/// The bits of the slices of a successor are no fewer than the doubled width, and no fewer
/// than the number of its slices.
proof fn lemma_product_bounds(width: int, count: int)
    by (nonlinear_arith)
    requires
        width > 0,
        count > 0,
    ensures
        2 * width <= 2 * width * (count + 1),
        count + 1 <= 2 * width * (count + 1),
        width * 2 == 2 * width,
{
}

/// The bits of the first `n` filters are no more than the bits of all of them, and the
/// filter after them adds its own.
proof fn lemma_total_bits_take(filters: Seq<FilterState>, n: int)
    requires
        0 <= n <= filters.len(),
    ensures
        total_bits(filters.take(n)) <= total_bits(filters),
        n < filters.len() ==> total_bits(filters.take(n + 1)) == total_bits(filters.take(n))
            + filters[n].bits.len(),
    decreases filters.len(),
{
    if n < filters.len() {
        assert(filters.take(n + 1).drop_last() =~= filters.take(n));
        lemma_total_bits_take(filters.drop_last(), n);
        assert(filters.drop_last().take(n) =~= filters.take(n));
    } else {
        assert(filters.take(n) =~= filters);
    }
}

/// The set bits of the first `n` filters are no more than the set bits of all of them, and
/// the filter after them adds its own.
proof fn lemma_total_ones_take(filters: Seq<FilterState>, n: int)
    requires
        0 <= n <= filters.len(),
    ensures
        total_ones(filters.take(n)) <= total_ones(filters),
        n < filters.len() ==> total_ones(filters.take(n + 1)) == total_ones(filters.take(n))
            + count_ones(filters[n].bits),
    decreases filters.len(),
{
    if n < filters.len() {
        assert(filters.take(n + 1).drop_last() =~= filters.take(n));
        lemma_total_ones_take(filters.drop_last(), n);
        assert(filters.drop_last().take(n) =~= filters.take(n));
    } else {
        assert(filters.take(n) =~= filters);
    }
}

/// A scalable Bloom filter over values of type `T`, hashed by a strategy of type `H`.
///
/// The growth factor is 2 and the tightening ratio one half: each new filter has slices
/// twice as wide as the filter before it, and one slice more.
#[derive(Debug)]
pub struct ScalableBloomFilter<T: ?Sized, H = DefaultHasher> {
    hasher: H,
    filters: Vec<BloomFilter<T>>,
}

impl<T: ?Sized, H> View for ScalableBloomFilter<T, H> {
    type V = ScalableState;

    closed spec fn view(&self) -> ScalableState {
        ScalableState { filters: Seq::new(self.filters@.len(), |i: int| self.filters@[i]@) }
    }
}

impl<T: Hash + ?Sized> ScalableBloomFilter<T, DefaultHasher> {
    /// Makes a filter with the default hash strategy. Its first filter has `slice_count`
    /// slices, which share `initial_bits` bits evenly.
    pub fn new(initial_bits: usize, slice_count: usize) -> (filter: Self)
        requires
            slice_count > 0,
            initial_bits / slice_count > 0,
            initial_bits / slice_count * slice_count + usize::BITS <= usize::MAX,
        ensures
            filter.wf(),
            filter@.filters == seq![
                FilterState::empty((initial_bits / slice_count) as nat, slice_count as nat),
            ],
            filter@.used_bits() == 0,
    {
        Self::with_hasher(initial_bits, slice_count, DefaultHasher)
    }
}

impl<T: Hash + ?Sized, H: NthHash> ScalableBloomFilter<T, H> {
    /// Every filter is well formed, the chain is valid, and the bits of all filters together
    /// fit a `usize`.
    pub closed spec fn wf(&self) -> bool {
        &&& self.filters_wf()
        &&& self@.valid()
        &&& self@.allocated_bits() <= usize::MAX
    }

    /// Every filter is well formed.
    spec fn filters_wf(&self) -> bool {
        forall|i: int| 0 <= i < self.filters@.len() ==> (#[trigger] self.filters@[i]).wf()
    }

    /// The hash strategy of the filter.
    pub closed spec fn strategy(&self) -> &H {
        &self.hasher
    }

    /// The chain of a well-formed filter is valid, and its bits fit a `usize`.
    pub proof fn lemma_wf_valid(&self)
        requires
            self.wf(),
        ensures
            self@.valid(),
            self@.used_bits() <= self@.allocated_bits() <= usize::MAX,
    {
        self@.lemma_used_within_allocated();
    }

    /// Makes a filter with the given hash strategy. Its first filter has `slice_count`
    /// slices, which share `initial_bits` bits evenly.
    pub fn with_hasher(initial_bits: usize, slice_count: usize, hasher: H) -> (filter: Self)
        requires
            slice_count > 0,
            initial_bits / slice_count > 0,
            initial_bits / slice_count * slice_count + usize::BITS <= usize::MAX,
        ensures
            filter.wf(),
            filter.strategy() == hasher,
            filter@.filters == seq![
                FilterState::empty((initial_bits / slice_count) as nat, slice_count as nat),
            ],
            filter@.used_bits() == 0,
    {
        let first = BloomFilter::new(initial_bits / slice_count, slice_count);
        proof {
            first.lemma_wf_bits();
        }
        let filter = ScalableBloomFilter { filters: vec![first], hasher };
        proof {
            assert(filter@.filters =~= seq![
                FilterState::empty((initial_bits / slice_count) as nat, slice_count as nat),
            ]);
            assert(filter@.filters.drop_last() =~= Seq::<FilterState>::empty());
            assert(total_bits(filter@.filters.drop_last()) == 0);
            assert(total_ones(filter@.filters.drop_last()) == 0);
            lemma_count_ones_zero(filter@.filters[0].bits);
        }
        filter
    }

    /// Inserts the element whose hashes are `hashes`, the hash at index `i` taken for slice `i`.
    ///
    /// Where a filter other than the newest contains the element, nothing changes. Else the
    /// element goes into the newest filter, and where more than half of the bits of that
    /// filter are set afterwards, a new filter is appended.
    pub fn insert_hashes(&mut self, hashes: &[u64])
        requires
            old(self).wf(),
            old(self)@.room_to_grow(),
            hashes@.len() >= old(self)@.newest().number_of_slices,
        ensures
            final(self).wf(),
            final(self).strategy() == old(self).strategy(),
            final(self)@ == old(self)@.insert(hashes@),
            final(self)@.contains(hashes@),
            forall|other: Seq<u64>| #[trigger]
                old(self)@.contains(other) ==> final(self)@.contains(other),
            final(self)@.allocated_bits() >= old(self)@.allocated_bits(),
    {
        proof {
            self@.lemma_inserted_is_contained(hashes@);
            assert forall|other: Seq<u64>| #[trigger] self@.contains(other) implies self@.insert(
                hashes@,
            ).contains(other) by {
                self@.lemma_insert_keeps_contained(other, hashes@);
            }
        }
        if self.held_by_older(hashes) {
            return ;
        }
        let last = self.filters.len() - 1;
        proof {
            self@.lemma_fill_newest(hashes@);
            self@.fill_newest(hashes@).lemma_grow();
            assert(self@.filters[last as int].valid());
            self@.newest().lemma_insert_sets_a_bit(hashes@);
        }
        self.filters[last].insert_hashes(hashes);
        assert(self@.filters =~= old(self)@.fill_newest(hashes@).filters);
        if self.is_growth_needed() {
            self.grow();
        }
    }

    /// Whether the element whose hashes are `hashes` may have been inserted: whether some
    /// filter contains it.
    pub fn contains_hashes(&self, hashes: &[u64]) -> (present: bool)
        requires
            self.wf(),
            hashes@.len() >= self@.newest().number_of_slices,
        ensures
            present == self@.contains(hashes@),
    {
        let mut i: usize = 0;
        while i < self.filters.len()
            invariant
                i <= self.filters@.len(),
                self.filters_wf(),
                self@.valid(),
                hashes@.len() >= self@.newest().number_of_slices,
                forall|j: int| 0 <= j < i ==> !(#[trigger] self@.filters[j]).contains(hashes@),
            decreases self.filters@.len() - i,
        {
            proof {
                self@.lemma_slices_increase(i as int, self.filters@.len() - 1);
                assert(self@.filters[i as int].valid());
            }
            if self.filters[i].contains_hashes(hashes) {
                assert(self@.filters[i as int].contains(hashes@));
                return true;
            }
            i += 1;
        }
        false
    }

    /// Inserts `element`: asks the hash strategy for one hash for each slice of the newest
    /// filter, and inserts those.
    pub fn insert(&mut self, element: &T)
        requires
            old(self).wf(),
            old(self)@.room_to_grow(),
        ensures
            final(self).wf(),
            final(self).strategy() == old(self).strategy(),
            exists|hashes: Seq<u64>|
                {
                    &&& hashes.len() == old(self)@.newest().number_of_slices
                    &&& #[trigger] hashes_from(old(self).strategy(), element, hashes)
                    &&& final(self)@ == old(self)@.insert(hashes)
                    &&& final(self)@.contains(hashes)
                },
            forall|other: Seq<u64>| #[trigger]
                old(self)@.contains(other) ==> final(self)@.contains(other),
            final(self)@.allocated_bits() >= old(self)@.allocated_bits(),
    {
        let count = self.number_of_slices();
        let hashes = hashes_of(&self.hasher, element, count);
        self.insert_hashes(hashes.as_slice());
    }

    /// Whether `element` may have been inserted: asks the hash strategy for one hash for each
    /// slice of the newest filter, and looks for those in every filter.
    pub fn contains(&self, element: &T) -> (present: bool)
        requires
            self.wf(),
        ensures
            exists|hashes: Seq<u64>|
                {
                    &&& hashes.len() == self@.newest().number_of_slices
                    &&& #[trigger] hashes_from(self.strategy(), element, hashes)
                    &&& present == self@.contains(hashes)
                },
    {
        let count = self.number_of_slices();
        let hashes = hashes_of(&self.hasher, element, count);
        let present = self.contains_hashes(hashes.as_slice());
        assert(hashes_from(self.strategy(), element, hashes@));
        present
    }

    /// Whether the filter has room to grow, which an insertion asks for.
    pub fn can_grow(&self) -> (room: bool)
        requires
            self.wf(),
        ensures
            room == self@.room_to_grow(),
    {
        let newest = &self.filters[self.filters.len() - 1];
        let width = newest.slice_bitwidth();
        let count = newest.number_of_slices();
        let allocated = self.allocated_bits();
        proof {
            assert(self@.filters[self.filters@.len() - 1].valid());
            lemma_product_bounds(width as int, count as int);
        }
        match width.checked_mul(GROWTH_FACTOR) {
            None => false,
            Some(doubled) => match count.checked_add(1) {
                None => false,
                Some(slices) => match doubled.checked_mul(slices) {
                    None => false,
                    Some(bits) => match bits.checked_add(usize::BITS as usize) {
                        None => false,
                        Some(padded) => allocated.checked_add(padded).is_some(),
                    },
                },
            },
        }
    }

    /// The number of slices of the newest filter: the number of hashes that an element needs.
    pub fn number_of_slices(&self) -> (count: usize)
        requires
            self.wf(),
        ensures
            count == self@.newest().number_of_slices,
    {
        self.filters[self.filters.len() - 1].number_of_slices()
    }

    /// The number of bits allocated by the filter.
    ///
    /// As the filter grows, this value will also increase.
    pub fn allocated_bits(&self) -> (bits: usize)
        requires
            self.wf(),
        ensures
            bits == self@.allocated_bits(),
    {
        let mut bits: usize = 0;
        let mut i: usize = 0;
        while i < self.filters.len()
            invariant
                i <= self.filters@.len(),
                self.filters_wf(),
                total_bits(self@.filters) <= usize::MAX,
                bits == total_bits(self@.filters.take(i as int)),
            decreases self.filters@.len() - i,
        {
            proof {
                lemma_total_bits_take(self@.filters, i as int);
                lemma_total_bits_take(self@.filters, i + 1);
            }
            bits += self.filters[i].bits().number_of_bits();
            i += 1;
        }
        assert(self@.filters.take(i as int) =~= self@.filters);
        bits
    }

    /// The number of bits used by the filter for storing elements.
    ///
    /// This is the number of one bits in the allocated bits.
    pub fn used_bits(&self) -> (bits: usize)
        requires
            self.wf(),
        ensures
            bits == self@.used_bits(),
    {
        proof {
            self@.lemma_used_within_allocated();
        }
        let mut bits: usize = 0;
        let mut i: usize = 0;
        while i < self.filters.len()
            invariant
                i <= self.filters@.len(),
                self.filters_wf(),
                total_ones(self@.filters) <= usize::MAX,
                bits == total_ones(self@.filters.take(i as int)),
            decreases self.filters@.len() - i,
        {
            proof {
                lemma_total_ones_take(self@.filters, i as int);
                lemma_total_ones_take(self@.filters, i + 1);
            }
            bits += self.filters[i].bits().number_of_one_bits();
            i += 1;
        }
        assert(self@.filters.take(i as int) =~= self@.filters);
        bits
    }

    /// Whether a filter other than the newest contains the element whose hashes are `hashes`.
    fn held_by_older(&self, hashes: &[u64]) -> (held: bool)
        requires
            self.wf(),
            hashes@.len() >= self@.newest().number_of_slices,
        ensures
            held == self@.held_by_older(hashes@),
    {
        let last = self.filters.len() - 1;
        let mut i: usize = 0;
        while i < last
            invariant
                i <= last,
                last == self.filters@.len() - 1,
                self.filters_wf(),
                self@.valid(),
                hashes@.len() >= self@.newest().number_of_slices,
                forall|j: int| 0 <= j < i ==> !(#[trigger] self@.filters[j]).contains(hashes@),
            decreases last - i,
        {
            proof {
                self@.lemma_slices_increase(i as int, last as int);
                assert(self@.filters[i as int].valid());
            }
            if self.filters[i].contains_hashes(hashes) {
                assert(self@.filters[i as int].contains(hashes@));
                return true;
            }
            i += 1;
        }
        false
    }

    /// Appends the successor of the newest filter.
    fn grow(&mut self)
        requires
            old(self).wf(),
            old(self)@.room_to_grow(),
        ensures
            final(self).wf(),
            final(self).strategy() == old(self).strategy(),
            final(self)@ == old(self)@.grow(),
    {
        let last = self.filters.len() - 1;
        proof {
            let width = self@.newest().slice_bitwidth as int;
            let count = self@.newest().number_of_slices as int;
            assert(self@.filters[last as int].valid());
            lemma_product_bounds(width, count);
            lemma_rounded_up_bounds((2 * width * (count + 1)) as nat);
            self@.lemma_grow();
        }
        let next_slice_bitwidth = self.filters[last].slice_bitwidth() * GROWTH_FACTOR;
        let next_number_of_slices = self.filters[last].number_of_slices() + 1;
        let filter = BloomFilter::new(next_slice_bitwidth, next_number_of_slices);
        self.filters.push(filter);
        assert(self@.filters =~= old(self)@.grow().filters);
    }

    /// Whether the newest filter has fewer than two bits for each bit that is set.
    fn is_growth_needed(&self) -> (needed: bool)
        requires
            self.wf(),
            count_ones(self@.newest().bits) > 0,
        ensures
            needed == self@.newest().saturated(),
    {
        let bits = self.filters[self.filters.len() - 1].bits();
        proof {
            lemma_ratio_below_two(bits@.len() as int, count_ones(bits@) as int);
        }
        bits.number_of_bits() / bits.number_of_one_bits() < 2
    }
}

} // verus!
