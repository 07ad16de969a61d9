//! A fixed-length, densely packed array of bits.

use vstd::prelude::*;

verus! {

/// The number of `true` entries of `bits`.
pub open spec fn count_ones(bits: Seq<bool>) -> nat
    decreases bits.len(),
{
    if bits.len() == 0 {
        0
    } else {
        count_ones(bits.drop_last()) + if bits.last() {
            1nat
        } else {
            0nat
        }
    }
}

/// `n` rounded up to a whole number of storage words, in bits.
pub open spec fn rounded_up_to_words(n: nat) -> nat {
    ((n + usize::BITS - 1) / (usize::BITS as int) * usize::BITS) as nat
}

/// Whether bit `offset` of `word` is one.
spec fn word_bit(word: usize, offset: usize) -> bool {
    word & (1usize << offset) != 0
}

/// The number of bits in a storage word.
fn usize_bitwidth() -> (width: usize)
    ensures
        width == usize::BITS,
{
    core::mem::size_of::<usize>() * 8
}

/// The zero word has no bit set.
proof fn lemma_word_bit_zero(offset: usize)
    requires
        offset < usize::BITS,
    ensures
        !word_bit(0, offset),
{
    assert(0usize & (1usize << offset) == 0) by (bit_vector);
}

/// Setting bit `offset` of a word sets that bit and leaves every other bit as it was.
proof fn lemma_word_bit_set(word: usize, offset: usize, other: usize)
    requires
        offset < usize::BITS,
        other < usize::BITS,
    ensures
        word_bit(word | (1usize << offset), other) == (word_bit(word, other) || other == offset),
{
    assert(((word | (1usize << offset)) & (1usize << other) != 0) == ((word & (1usize << other)
        != 0) || other == offset)) by (bit_vector)
        requires
            offset < usize::BITS,
            other < usize::BITS,
    ;
}

/// Rounding up to whole storage words adds less than one word.
pub proof fn lemma_rounded_up_bounds(n: nat)
    ensures
        n <= rounded_up_to_words(n) < n + usize::BITS,
{
    vstd::arithmetic::div_mod::lemma_fundamental_div_mod(
        n + usize::BITS - 1,
        usize::BITS as int,
    );
}

/// No more entries are `true` than there are entries.
pub proof fn lemma_count_ones_bounded(bits: Seq<bool>)
    ensures
        count_ones(bits) <= bits.len(),
    decreases bits.len(),
{
    if bits.len() > 0 {
        lemma_count_ones_bounded(bits.drop_last());
    }
}

/// A sequence without a `true` entry counts zero, and only such a sequence does.
pub proof fn lemma_count_ones_zero(bits: Seq<bool>)
    ensures
        count_ones(bits) == 0 <==> (forall|i: int| 0 <= i < bits.len() ==> !bits[i]),
    decreases bits.len(),
{
    if bits.len() > 0 {
        let front = bits.drop_last();
        lemma_count_ones_zero(front);
        if count_ones(bits) == 0 {
            assert forall|i: int| 0 <= i < bits.len() implies !bits[i] by {
                if i < front.len() {
                    assert(front[i] == bits[i]);
                }
            }
        } else if forall|i: int| 0 <= i < bits.len() ==> !bits[i] {
            assert(!bits.last());
            assert forall|i: int| 0 <= i < front.len() implies !front[i] by {
                assert(front[i] == bits[i]);
            }
        }
    }
}

/// Setting one entry raises the count by one if the entry was `false`, and leaves it otherwise.
pub proof fn lemma_count_ones_update(bits: Seq<bool>, index: int)
    requires
        0 <= index < bits.len(),
    ensures
        count_ones(bits.update(index, true)) == count_ones(bits) + if bits[index] {
            0nat
        } else {
            1nat
        },
    decreases bits.len(),
{
    let updated = bits.update(index, true);
    if index == bits.len() - 1 {
        assert(updated.drop_last() =~= bits.drop_last());
    } else {
        lemma_count_ones_update(bits.drop_last(), index);
        assert(updated.drop_last() =~= bits.drop_last().update(index, true));
    }
}

/// A fixed number of bits, each of which can be set and never cleared.
#[derive(Debug)]
pub struct BitVec {
    bits: Vec<usize>,
    one_bits: usize,
}

impl View for BitVec {
    type V = Seq<bool>;

    /// The bits in order of their index.
    closed spec fn view(&self) -> Seq<bool> {
        Seq::new(
            (self.bits@.len() * usize::BITS) as nat,
            |i: int|
                word_bit(self.bits@[i / usize::BITS as int], (i % usize::BITS as int) as usize),
        )
    }
}

impl BitVec {
    /// The stored count of set bits is right, and the bit capacity fits a `usize`.
    pub closed spec fn wf(&self) -> bool {
        &&& self.bits@.len() * usize::BITS <= usize::MAX
        &&& self.one_bits == count_ones(self@)
    }

    /// A well-formed vector has a whole number of storage words, a number of bits that
    /// fits a `usize`, and no more set bits than bits.
    pub proof fn lemma_wf_bits(&self)
        requires
            self.wf(),
        ensures
            self@.len() % (usize::BITS as nat) == 0,
            count_ones(self@) <= self@.len() <= usize::MAX,
    {
        lemma_count_ones_bounded(self@);
        vstd::arithmetic::div_mod::lemma_mod_multiples_basic(
            self.bits@.len() as int,
            usize::BITS as int,
        );
    }

    /// Makes a vector of at least `number_of_bits_hint` bits, all of them zero.
    pub fn new(number_of_bits_hint: usize) -> (bits: Self)
        requires
            number_of_bits_hint + usize::BITS <= usize::MAX,
        ensures
            bits.wf(),
            bits@ == Seq::new(rounded_up_to_words(number_of_bits_hint as nat), |i: int| false),
    {
        let size = (number_of_bits_hint + usize_bitwidth() - 1) / usize_bitwidth();
        let bits = BitVec { bits: vec![0; size], one_bits: 0 };
        proof {
            assert forall|i: int| 0 <= i < bits@.len() implies !bits@[i] by {
                lemma_word_bit_zero((i % usize::BITS as int) as usize);
            }
            lemma_count_ones_zero(bits@);
            assert(bits@ =~= Seq::new(
                rounded_up_to_words(number_of_bits_hint as nat),
                |i: int| false,
            ));
        }
        bits
    }

    /// Sets the bit at `index`.
    pub fn insert(&mut self, index: usize)
        requires
            old(self).wf(),
            index < old(self)@.len(),
        ensures
            final(self).wf(),
            final(self)@ == old(self)@.update(index as int, true),
    {
        let base = index / usize_bitwidth();
        let offset = index % usize_bitwidth();
        let block = self.bits[base];
        proof {
            lemma_count_ones_update(self@, index as int);
            lemma_count_ones_bounded(self@.update(index as int, true));
        }
        if (block & (1 << offset)) == 0 {
            self.bits.set(base, block | (1 << offset));
            self.one_bits += 1;
        }
        proof {
            assert forall|i: int| 0 <= i < old(self)@.len() implies self@[i] == old(self)@.update(
                index as int,
                true,
            )[i] by {
                let other = (i % usize::BITS as int) as usize;
                if i / usize::BITS as int == base {
                    lemma_word_bit_set(block, offset, other);
                }
            }
            assert(self@ =~= old(self)@.update(index as int, true));
        }
    }

    /// Whether the bit at `index` is set.
    pub fn contains(&self, index: usize) -> (set: bool)
        requires
            index < self@.len(),
        ensures
            set == self@[index as int],
    {
        let base = index / usize_bitwidth();
        let offset = index % usize_bitwidth();
        (self.bits[base] & (1 << offset)) != 0
    }

    /// The number of bits that the vector holds.
    pub fn number_of_bits(&self) -> (n: usize)
        requires
            self.wf(),
        ensures
            n == self@.len(),
    {
        self.bits.len() * usize_bitwidth()
    }

    /// The number of bits that are set.
    pub fn number_of_one_bits(&self) -> (n: usize)
        requires
            self.wf(),
        ensures
            n == count_ones(self@),
            n <= self@.len(),
    {
        proof {
            lemma_count_ones_bounded(self@);
        }
        self.one_bits
    }
}

} // verus!
