//! Bloom filters, from the `fastbloom` crate.

use vstd::prelude::*;

verus! {

/// A filter of the `fastbloom` crate.
#[verifier::external_body]
pub struct Filter {
    inner: fastbloom::BloomFilter,
}

/// The bit words of a filter.
pub uninterp spec fn filter_words(filter: Filter) -> Seq<u64>;

/// How many hashes a filter takes of a key.
pub uninterp spec fn filter_hashes(filter: Filter) -> u32;

/// The seed that a filter hashes with.
pub uninterp spec fn filter_seed(filter: Filter) -> u128;

/// Whether a filter of given words, hash count and seed reports that it holds a key.
pub uninterp spec fn bloom_holds(
    words: Seq<u64>,
    hashes: u32,
    seed: u128,
    key: Seq<char>,
) -> bool;

/// The words of a filter after a key has been put in.
pub uninterp spec fn bloom_with(
    words: Seq<u64>,
    hashes: u32,
    seed: u128,
    key: Seq<char>,
) -> Seq<u64>;

/// The words of an empty filter of a number of bits.
pub open spec fn no_bits(bits: nat) -> Seq<u64> {
    Seq::new(bits / 64, |i: int| 0u64)
}

/// `BloomFilter::with_num_bits`, `seed` and `hashes` of `fastbloom`: a filter whose bits are all
/// clear, and which therefore holds no key.  Zero hashes count as one.
#[verifier::external_body]
pub(crate) fn filter_empty(bits: usize, hashes: u32, seed: u128) -> (filter: Filter)
    requires
        0 < bits,
        bits % 64 == 0,
    ensures
        filter_words(filter) == no_bits(bits as nat),
        filter_hashes(filter) == (if hashes == 0 {
            1
        } else {
            hashes
        }),
        filter_seed(filter) == seed,
        forall|key: Seq<char>|
            !#[trigger] bloom_holds(
                filter_words(filter),
                filter_hashes(filter),
                filter_seed(filter),
                key,
            ),
{
    Filter { inner: fastbloom::BloomFilter::with_num_bits(bits).seed(&seed).hashes(hashes) }
}

/// `BloomFilter::from_vec`, `seed` and `hashes` of `fastbloom`: a filter with the given words.
#[verifier::external_body]
pub(crate) fn filter_from(words: Vec<u64>, hashes: u32, seed: u128) -> (filter: Filter)
    requires
        words@.len() > 0,
    ensures
        filter_words(filter) == words@,
        filter_hashes(filter) == (if hashes == 0 {
            1
        } else {
            hashes
        }),
        filter_seed(filter) == seed,
{
    Filter { inner: fastbloom::BloomFilter::from_vec(words).seed(&seed).hashes(hashes) }
}

/// `BloomFilter::contains` of `fastbloom` on a string: whether every bit of the key is set, which
/// depends on the words, the hash count, the seed and the key alone.
#[verifier::external_body]
pub(crate) fn filter_contains(filter: &Filter, key: &str) -> (held: bool)
    requires
        filter_words(*filter).len() > 0,
    ensures
        held == bloom_holds(
            filter_words(*filter),
            filter_hashes(*filter),
            filter_seed(*filter),
            key@,
        ),
{
    filter.inner.contains(key)
}

/// `BloomFilter::insert` of `fastbloom` on a string: sets every bit of the key and reports whether
/// all of them were set before.  The filter then holds the key and every key that it held, and
/// nothing changes where it held the key already.
#[verifier::external_body]
pub(crate) fn filter_insert(filter: &mut Filter, key: &str) -> (held: bool)
    requires
        filter_words(*old(filter)).len() > 0,
    ensures
        held == bloom_holds(
            filter_words(*old(filter)),
            filter_hashes(*old(filter)),
            filter_seed(*old(filter)),
            key@,
        ),
        filter_words(*final(filter)) == bloom_with(
            filter_words(*old(filter)),
            filter_hashes(*old(filter)),
            filter_seed(*old(filter)),
            key@,
        ),
        filter_words(*final(filter)).len() == filter_words(*old(filter)).len(),
        filter_hashes(*final(filter)) == filter_hashes(*old(filter)),
        filter_seed(*final(filter)) == filter_seed(*old(filter)),
        held ==> filter_words(*final(filter)) == filter_words(*old(filter)),
        bloom_holds(
            filter_words(*final(filter)),
            filter_hashes(*final(filter)),
            filter_seed(*final(filter)),
            key@,
        ),
        forall|k: Seq<char>|
            bloom_holds(
                filter_words(*old(filter)),
                filter_hashes(*old(filter)),
                filter_seed(*old(filter)),
                k,
            ) ==> #[trigger] bloom_holds(
                filter_words(*final(filter)),
                filter_hashes(*final(filter)),
                filter_seed(*final(filter)),
                k,
            ),
{
    filter.inner.insert(key)
}

/// `BloomFilter::as_slice` of `fastbloom`: the words.
#[verifier::external_body]
pub(crate) fn filter_slice(filter: &Filter) -> (words: &[u64])
    ensures
        words@ == filter_words(*filter),
{
    filter.inner.as_slice()
}

} // verus!
