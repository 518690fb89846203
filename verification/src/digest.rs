//! Message digests and authentication codes, from the `md-5`, `sha2`, `hmac` and `subtle` crates.

use hmac::Mac;
use md5::Digest;
use vstd::prelude::*;

verus! {

/// What MD5 makes of some bytes.
pub uninterp spec fn md5_of(data: Seq<u8>) -> Seq<u8>;

/// What SHA-256 makes of some bytes.
pub uninterp spec fn sha256_of(data: Seq<u8>) -> Seq<u8>;

/// The HMAC-SHA256 code of some bytes under a key.
pub uninterp spec fn hmac_sha256_of(key: Seq<u8>, data: Seq<u8>) -> Seq<u8>;

/// `Md5::digest` of the `md-5` crate: a 16-byte digest that depends on the bytes alone.
#[verifier::external_body]
pub(crate) fn md5_digest(data: &[u8]) -> (digest: [u8; 16])
    ensures
        digest@ == md5_of(data@),
{
    md5::Md5::digest(data).into()
}

/// `Sha256::digest` of the `sha2` crate: a 32-byte digest that depends on the bytes alone.
#[verifier::external_body]
pub(crate) fn sha256_digest(data: &[u8]) -> (digest: [u8; 32])
    ensures
        digest@ == sha256_of(data@),
{
    sha2::Sha256::digest(data).into()
}

/// `Hmac<Sha256>` of the `hmac` and `sha2` crates, over one message: a 32-byte code that depends
/// on the key and the message alone.  A key of any length is accepted.
#[verifier::external_body]
pub(crate) fn hmac_sha256(key: &[u8], data: &[u8]) -> (code: [u8; 32])
    ensures
        code@ == hmac_sha256_of(key@, data@),
{
    let mut mac = hmac::Hmac::<sha2::Sha256>::new_from_slice(key).expect("any key length");
    mac.update(data);
    mac.finalize().into_bytes().into()
}

/// A running MD5 hasher of the `md-5` crate.
#[verifier::external_body]
pub struct Md5Stream {
    inner: md5::Md5,
}

/// The bytes that a running hasher has been fed.
pub uninterp spec fn md5_fed(hasher: Md5Stream) -> Seq<u8>;

/// `Md5::new` of the `md-5` crate: a hasher that has been fed nothing.
#[verifier::external_body]
pub(crate) fn md5_start() -> (hasher: Md5Stream)
    ensures
        md5_fed(hasher) == Seq::<u8>::empty(),
{
    Md5Stream { inner: md5::Md5::new() }
}

/// `Digest::update` of the `md-5` crate: feeds bytes behind those that were fed before.
#[verifier::external_body]
pub(crate) fn md5_update(hasher: &mut Md5Stream, data: &[u8])
    ensures
        md5_fed(*final(hasher)) == md5_fed(*old(hasher)) + data@,
{
    hasher.inner.update(data);
}

/// `Digest::finalize_reset` of the `md-5` crate: the digest of all that was fed, after which the
/// hasher starts anew.
#[verifier::external_body]
pub(crate) fn md5_finish(hasher: &mut Md5Stream) -> (digest: [u8; 16])
    ensures
        digest@ == md5_of(md5_fed(*old(hasher))),
        md5_fed(*final(hasher)) == Seq::<u8>::empty(),
{
    hasher.inner.finalize_reset().into()
}

/// `ct_eq` of the `subtle` crate on byte slices: whether they are equal, length included.
#[verifier::external_body]
pub(crate) fn constant_time_eq(a: &[u8], b: &[u8]) -> (equal: bool)
    ensures
        equal == (a@ == b@),
{
    subtle::ConstantTimeEq::ct_eq(a, b).unwrap_u8() == 1
}

} // verus!
