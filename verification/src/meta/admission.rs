//! Which client keys and bucket names are admitted.

use crate::text::{decimal, push_decimal};
use vstd::prelude::*;
use vstd::string::StringExecFns;
use vstd::utf8::encode_utf8;

verus! {

/// The control byte that internal key ranges are built from; client keys may not contain it.
pub const CTRL: u8 = 0x01;

/// S3's longest key.
pub const MAX_KEY_LEN: usize = 1024;

/// S3's longest bucket name.
pub const S3_MAX_BUCKET_NAME: usize = 63;

/// No byte of a key is `0x00` or `0x01`.
pub open spec fn unreserved(key: Seq<char>) -> bool {
    forall|i: int| 0 <= i < encode_utf8(key).len() ==> #[trigger] encode_utf8(key)[i] > CTRL
}

/// A client key that is admitted.
pub open spec fn admissible(key: Seq<char>) -> bool {
    encode_utf8(key).len() <= MAX_KEY_LEN && unreserved(key)
}

/// Admits a client key, or says why not.
pub fn validate_client_key(key: &str) -> (admitted: Result<(), &'static str>)
    ensures
        match admitted {
            Ok(()) => admissible(key@),
            Err(why) => if encode_utf8(key@).len() > MAX_KEY_LEN {
                why@ == "key too long (max 1024 bytes)"@
            } else {
                !unreserved(key@) && why@
                    == "key contains a 0x00 or 0x01 byte, reserved by hypha"@
            },
        },
{
    let bytes: &[u8] = key.as_bytes();
    if bytes.len() > MAX_KEY_LEN {
        return Err("key too long (max 1024 bytes)");
    }
    let mut i: usize = 0;
    while i < bytes.len()
        invariant
            i <= bytes@.len(),
            bytes@ == encode_utf8(key@),
            bytes@.len() <= MAX_KEY_LEN,
            forall|j: int| 0 <= j < i ==> #[trigger] bytes@[j] > CTRL,
        decreases bytes@.len() - i,
    {
        if bytes[i] == 0x00 || bytes[i] == CTRL {
            return Err("key contains a 0x00 or 0x01 byte, reserved by hypha");
        }
        i += 1;
    }
    Ok(())
}

/// What is said of a bucket name that is too long.
pub open spec fn bucket_name_complaint(len: nat, max_prefix_len: nat) -> Seq<char> {
    "bucket name too long: "@ + decimal(len) + " + "@ + decimal(max_prefix_len)
        + "-byte prefix exceeds the "@ + decimal(S3_MAX_BUCKET_NAME as nat) + "-byte S3 limit"@
}

/// Admits a client bucket name: with the longest configured prefix before it, it must fit S3's
/// limit.
pub fn validate_bucket_name(name: &str, max_prefix_len: usize) -> (admitted: Result<(), String>)
    requires
        encode_utf8(name@).len() + max_prefix_len <= usize::MAX,
    ensures
        match admitted {
            Ok(()) => encode_utf8(name@).len() + max_prefix_len <= S3_MAX_BUCKET_NAME,
            Err(why) => {
                &&& encode_utf8(name@).len() + max_prefix_len > S3_MAX_BUCKET_NAME
                &&& why@ == bucket_name_complaint(
                    encode_utf8(name@).len(),
                    max_prefix_len as nat,
                )
            },
        },
{
    let len: usize = name.as_bytes().len();
    if len + max_prefix_len > S3_MAX_BUCKET_NAME {
        let mut why: String = "bucket name too long: ".to_string();
        push_decimal(&mut why, len as u64);
        why.append(" + ");
        push_decimal(&mut why, max_prefix_len as u64);
        why.append("-byte prefix exceeds the ");
        push_decimal(&mut why, S3_MAX_BUCKET_NAME as u64);
        why.append("-byte S3 limit");
        return Err(why);
    }
    Ok(())
}

/// A client's key is admitted exactly where it is no longer than a key may be and none of its bytes is
/// reserved, wherever in the key the byte stands.
pub proof fn a_key_is_admitted_byte_by_byte(key: Seq<char>, i: int)
    ensures
        admissible(key) ==> encode_utf8(key).len() <= 1024,
        admissible(key) && 0 <= i < encode_utf8(key).len() ==> encode_utf8(key)[i] != 0
            && encode_utf8(key)[i] != 1,
        encode_utf8(key).len() <= 1024 && (forall|j: int|
            0 <= j < encode_utf8(key).len() ==> #[trigger] encode_utf8(key)[j] >= 2) ==> admissible(
            key,
        ),
{
}

/// The complaint about a bucket's name gives the name's length, the prefix's and the limit.
pub proof fn a_complaint_gives_the_lengths(len: nat, max_prefix_len: nat)
    ensures
        ("bucket name too long: "@ + decimal(len) + " + "@ + decimal(max_prefix_len)).is_prefix_of(
            bucket_name_complaint(len, max_prefix_len),
        ),
        (decimal(63) + "-byte S3 limit"@).is_suffix_of(bucket_name_complaint(len, max_prefix_len)),
{
    let whole = bucket_name_complaint(len, max_prefix_len);
    let tail = decimal(63) + "-byte S3 limit"@;
    assert(whole.subrange(whole.len() - tail.len(), whole.len() as int) =~= tail);
}

} // verus!
