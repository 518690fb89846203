//! Age encryption with a deployment passphrase.
//!
//! File keys are wrapped by age's scrypt recipient with the work factor pinned to the minimum: the
//! default is tuned toward about one second and 256 MiB for each file, which small objects cannot
//! afford.

use crate::format::offset::{framed, HLEN};
use vstd::prelude::*;
use vstd::string::StringExecFns;

verus! {

/// The error of age's encryption.
#[verifier::external_type_specification]
#[verifier::external_body]
pub struct ExEncryptError(age::EncryptError);

/// The error of age's decryption.
#[verifier::external_type_specification]
#[verifier::external_body]
pub struct ExDecryptError(age::DecryptError);

#[derive(Debug)]
pub enum Error {
    Identity(String),
    Encrypt(age::EncryptError),
    Decrypt(age::DecryptError),
}

/// What `age::EncryptError` prints as.  Its words depend on the language that age was set to, so
/// nothing is promised of them.
#[verifier::external_body]
fn encrypt_error_text(e: &age::EncryptError) -> (text: String) {
    e.to_string()
}

/// What `age::DecryptError` prints as.  Its words depend on the language that age was set to, so
/// nothing is promised of them.
#[verifier::external_body]
fn decrypt_error_text(e: &age::DecryptError) -> (text: String) {
    e.to_string()
}

impl Error {
    /// The error in words; those of age's own errors are age's.
    pub fn message(&self) -> (text: String)
        ensures
            self matches Error::Identity(why) ==> text@ == "invalid age identity: "@ + why@,
    {
        match self {
            Error::Identity(why) => {
                let mut text: String = "invalid age identity: ".to_string();
                text.append(why.as_str());
                text
            },
            Error::Encrypt(e) => encrypt_error_text(e),
            Error::Decrypt(e) => decrypt_error_text(e),
        }
    }
}

/// Scrypt with `N = 2`: the smallest work factor that age accepts.
pub const PINNED_WORK_FACTOR: u8 = 1;

/// What an age file holds under a passphrase, for a reader that refuses a scrypt work factor above
/// a bound; `None` where it does not decrypt.
pub uninterp spec fn age_opened(
    passphrase: Seq<char>,
    max_work_factor: u8,
    file: Seq<u8>,
) -> Option<Seq<u8>>;

/// `age::encrypt` to `age::scrypt::Recipient` with the given work factor.  It succeeds: a single
/// passphrase recipient is always accepted, and the vector that the file is written to takes every
/// write.  The file differs from call to call, since the file key, the salt and the nonce are drawn
/// at random; every one of them has the closed-form length for its plaintext, and opens under the
/// passphrase to the plaintext for every reader whose bound admits the work factor.
#[verifier::external_body]
fn scrypt_encrypt(passphrase: &str, work_factor: u8, plaintext: &[u8]) -> (file: Result<
    Vec<u8>,
    age::EncryptError,
>)
    requires
        0 < work_factor < 10,
    ensures
        file is Ok,
        file matches Ok(f) ==> f@.len() == framed(plaintext@.len(), HLEN as nat),
        file matches Ok(f) ==> forall|bound: u8|
            work_factor <= bound ==> #[trigger] age_opened(passphrase@, bound, f@) == Some(
                plaintext@,
            ),
        file matches Ok(f) ==> forall|bound: u8|
            bound < work_factor ==> #[trigger] age_opened(passphrase@, bound, f@) is None,
{
    let secret = age::secrecy::SecretString::from(passphrase.to_owned());
    let mut recipient = age::scrypt::Recipient::new(secret);
    recipient.set_work_factor(work_factor);
    age::encrypt(&recipient, plaintext)
}

/// `age::decrypt` with `age::scrypt::Identity` under a bound on the work factor: whether it
/// succeeds, and the plaintext, depend on the passphrase, the bound and the file alone.
#[verifier::external_body]
fn scrypt_decrypt(passphrase: &str, max_work_factor: u8, file: &[u8]) -> (plaintext: Result<
    Vec<u8>,
    age::DecryptError,
>)
    requires
        max_work_factor < 10,
    ensures
        match plaintext {
            Ok(p) => age_opened(passphrase@, max_work_factor, file@) == Some(p@),
            Err(_) => age_opened(passphrase@, max_work_factor, file@) is None,
        },
{
    let secret = age::secrecy::SecretString::from(passphrase.to_owned());
    let mut identity = age::scrypt::Identity::new(secret);
    identity.set_max_work_factor(max_work_factor);
    age::decrypt(&identity, file)
}

pub struct Envelope {
    passphrase: String,
    /// Files that ask for more work than this are refused: a corrupted or foreign work factor
    /// cannot stall a read.
    max_work_factor: u8,
}

impl View for Envelope {
    type V = Seq<char>;

    closed spec fn view(&self) -> Seq<char> {
        self.passphrase@
    }
}

impl Envelope {
    /// The bound on the work factor is the pinned one.
    #[verifier::type_invariant]
    closed spec fn bound_is_pinned(self) -> bool {
        self.max_work_factor == PINNED_WORK_FACTOR
    }

    /// An envelope under a passphrase, which must not be empty.
    pub fn new(passphrase: &str) -> (envelope: Result<Self, Error>)
        ensures
            match envelope {
                Ok(e) => passphrase@.len() > 0 && e@ == passphrase@,
                Err(e) => passphrase@.len() == 0 && (e matches Error::Identity(why) && why@
                    == "empty passphrase"@),
            },
    {
        if passphrase.is_empty() {
            return Err(Error::Identity("empty passphrase".to_string()));
        }
        Ok(
            Envelope { passphrase: passphrase.to_owned(), max_work_factor: PINNED_WORK_FACTOR },
        )
    }

    /// Encrypts a plaintext under a file key of its own.
    pub fn encrypt(&self, plaintext: &[u8]) -> (file: Result<Vec<u8>, Error>)
        ensures
            file matches Ok(f) && {
                &&& f@.len() == framed(plaintext@.len(), HLEN as nat)
                &&& age_opened(self@, PINNED_WORK_FACTOR, f@) == Some(plaintext@)
                &&& age_opened(self@, 0, f@) is None
            },
    {
        match scrypt_encrypt(self.passphrase.as_str(), PINNED_WORK_FACTOR, plaintext) {
            Ok(file) => Ok(file),
            Err(e) => Err(Error::Encrypt(e)),
        }
    }

    /// Decrypts a whole file; one that asks for more work than is ever emitted is refused.
    pub fn decrypt(&self, file: &[u8]) -> (plaintext: Result<Vec<u8>, Error>)
        ensures
            match plaintext {
                Ok(p) => age_opened(self@, PINNED_WORK_FACTOR, file@) == Some(p@),
                Err(e) => e is Decrypt && age_opened(self@, PINNED_WORK_FACTOR, file@) is None,
            },
    {
        proof {
            use_type_invariant(self);
        }
        match scrypt_decrypt(self.passphrase.as_str(), self.max_work_factor, file) {
            Ok(plaintext) => Ok(plaintext),
            Err(e) => Err(Error::Decrypt(e)),
        }
    }
}

} // verus!
