//! Scalable Bloom filters.
//!
//! A Bloom filter answers whether a value may have been inserted: it never denies a value
//! that was, and it affirms a value that was not only with a small probability. A scalable
//! Bloom filter keeps that probability bounded without knowing the number of values in
//! advance: it is a chain of Bloom filters, and when the newest is more than half full, a
//! larger one is appended.
//!
//! The crate has three layers: [`bit_vec::BitVec`], a packed array of bits;
//! [`bloom_filter::BloomFilter`], one filter of fixed size, split into one slice of bits for
//! each hash function; and [`ScalableBloomFilter`], the chain. The hash functions come from a
//! strategy, [`hash::NthHash`], whose default is [`hash::DefaultHasher`].
//!
//! Each layer has a mathematical model, and each function says in its contract what it does
//! to the model. What the filters do once the hashes of a value are known is proved; the
//! hashes themselves are whatever the strategy returns.
//!
//! # Examples
//!
//! A filter for about a thousand values and one false positive in a thousand has 14378 bits
//! in ten slices to begin with.
//!
//! ```
//! use scalable_bloom_filter::ScalableBloomFilter;
//!
//! let mut filter = ScalableBloomFilter::new(14378, 10);
//! filter.insert("foo");
//! assert!(filter.contains("foo"));
//! ```

pub mod bit_vec;
pub mod bloom_filter;
pub mod hash;
pub mod scalable_bloom_filter;

pub use scalable_bloom_filter::ScalableBloomFilter;
