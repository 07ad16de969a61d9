//! The hash strategy of the filters, and its default.

use siphasher::sip::SipHasher13;
use std::hash::{Hash, Hasher};
use vstd::prelude::*;

verus! {

/// A family of hash functions, one for each slice index.
///
/// A strategy is meant to give the same hash for the same value and index whenever it is
/// asked, and hashes that look unrelated from index to index. Neither is part of the contract:
/// the filters are proved for whatever hashes come back.
pub trait NthHash {
    /// Calculates the `nth` hash value of `data`.
    fn nth_hash<T: Hash + ?Sized>(&self, data: &T, nth: usize) -> u64;
}

/// Whether each of `hashes` is a result that `hasher.nth_hash` can give for `data` and the
/// index at which the hash stands.
pub open spec fn hashes_from<T: Hash + ?Sized, H: NthHash>(
    hasher: &H,
    data: &T,
    hashes: Seq<u64>,
) -> bool {
    forall|nth: int|
        0 <= nth < hashes.len() ==> call_ensures(
            H::nth_hash::<T>,
            (hasher, data, nth as usize),
            #[trigger] hashes[nth],
        )
}

/// The default hash strategy: SipHash 1-3 with a zero key, over the pair of index and value.
#[derive(Debug)]
pub struct DefaultHasher;

/// Makes a hasher with `siphasher::sip::SipHasher13::new`, feeds it the pair of `nth` and
/// `data` through `Hash::hash`, and returns what the hasher's `finish` gives. Nothing is
/// claimed of the value: what is fed to the hasher is up to the implementation of `Hash` for
/// `T`, and the bytes of `nth` are those of the machine. The hasher does not panic; the call
/// panics only where `Hash::hash` for `T` does.
#[verifier::external_body]
fn sip13_of_pair<T: Hash + ?Sized>(data: &T, nth: usize) -> u64 {
    let mut hasher = SipHasher13::new();
    (nth, data).hash(&mut hasher);
    hasher.finish()
}

impl NthHash for DefaultHasher {
    fn nth_hash<T: Hash + ?Sized>(&self, data: &T, nth: usize) -> u64 {
        sip13_of_pair(data, nth)
    }
}

/// Asks `hasher` for the hashes of `data` for the indices below `count`, in order.
pub fn hashes_of<T: Hash + ?Sized, H: NthHash>(hasher: &H, data: &T, count: usize) -> (hashes:
    Vec<u64>)
    ensures
        hashes@.len() == count,
        hashes_from(hasher, data, hashes@),
{
    let mut hashes: Vec<u64> = Vec::new();
    let mut nth: usize = 0;
    while nth < count
        invariant
            nth <= count,
            hashes@.len() == nth,
            hashes_from(hasher, data, hashes@),
        decreases count - nth,
    {
        hashes.push(hasher.nth_hash(data, nth));
        nth += 1;
    }
    hashes
}

} // verus!
