//! Checksums of whole bodies, as S3 defines them, from the `s3s` crate.

use crate::format::trailer::{algorithm_code, digest_size, ChecksumAlgorithm};
use s3s::checksum::ChecksumHasher;
use vstd::prelude::*;

verus! {

/// A running hasher of the `s3s` crate.
#[verifier::external_type_specification]
#[verifier::external_body]
pub struct ExChecksumHasher(ChecksumHasher);

/// What the checksum algorithm of a code makes of some bytes.
pub uninterp spec fn checksum_of(code: u8, data: Seq<u8>) -> Seq<u8>;

/// The bytes that a running hasher has been fed.
pub uninterp spec fn sum_fed(hasher: ChecksumHasher) -> Seq<u8>;

/// The code of the algorithm that a hasher runs.
pub uninterp spec fn sum_code(hasher: ChecksumHasher) -> u8;

/// `ChecksumHasher` of the `s3s` crate, made to run one algorithm: it has been fed nothing.
#[verifier::external_body]
pub(crate) fn sum_start(algorithm: ChecksumAlgorithm) -> (hasher: ChecksumHasher)
    ensures
        sum_code(hasher) == algorithm_code(algorithm),
        sum_fed(hasher) == Seq::<u8>::empty(),
{
    let mut hasher = ChecksumHasher::default();
    match algorithm {
        ChecksumAlgorithm::Crc32 => hasher.crc32 = Some(Default::default()),
        ChecksumAlgorithm::Crc32c => hasher.crc32c = Some(Default::default()),
        ChecksumAlgorithm::Crc64Nvme => hasher.crc64nvme = Some(Default::default()),
        ChecksumAlgorithm::Sha1 => hasher.sha1 = Some(Default::default()),
        ChecksumAlgorithm::Sha256 => hasher.sha256 = Some(Default::default()),
    }
    hasher
}

/// `ChecksumHasher::update` of the `s3s` crate: feeds bytes behind those that were fed before.
#[verifier::external_body]
pub(crate) fn sum_update(hasher: &mut ChecksumHasher, data: &[u8])
    ensures
        sum_code(*final(hasher)) == sum_code(*old(hasher)),
        sum_fed(*final(hasher)) == sum_fed(*old(hasher)) + data@,
{
    hasher.update(data);
}

/// `ChecksumHasher::finalize` of the `s3s` crate: the checksum of all that was fed, which depends on
/// the algorithm and the bytes alone and has the algorithm's length.  It comes as base64, and its
/// bytes are handed back.
#[verifier::external_body]
pub(crate) fn sum_finish(hasher: ChecksumHasher, algorithm: ChecksumAlgorithm) -> (value: Vec<u8>)
    requires
        sum_code(hasher) == algorithm_code(algorithm),
    ensures
        value@ == checksum_of(sum_code(hasher), sum_fed(hasher)),
        value@.len() == digest_size(algorithm),
{
    let sums = hasher.finalize();
    let text = match algorithm {
        ChecksumAlgorithm::Crc32 => sums.checksum_crc32,
        ChecksumAlgorithm::Crc32c => sums.checksum_crc32c,
        ChecksumAlgorithm::Crc64Nvme => sums.checksum_crc64nvme,
        ChecksumAlgorithm::Sha1 => sums.checksum_sha1,
        ChecksumAlgorithm::Sha256 => sums.checksum_sha256,
    };
    base64_simd::STANDARD.decode_to_vec(text.unwrap()).unwrap()
}

} // verus!
