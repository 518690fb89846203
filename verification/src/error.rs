//! What can go wrong between a client and the backends, and what the client is told.

use crate::text::same_text;
use vstd::prelude::*;
use vstd::string::StringExecFns;

verus! {

#[derive(Clone, Debug, PartialEq, Eq)]
pub enum Error {
    NotFound,
    NoSuchBucket,
    /// The backend refused the caller.  That says nothing about what exists.
    AccessDenied,
    BucketNotEmpty,
    /// A bucket delete against a write: the one that lost is to be tried again.
    OperationAborted,
    SlowDown,
    PreconditionFailed,
    BadDigest,
    Invalid(String),
    Crypto(String),
    Backend(String),
    Io(String),
}

/// An [`Error`], with text as a sequence.
pub enum ErrorView {
    NotFound,
    NoSuchBucket,
    AccessDenied,
    BucketNotEmpty,
    OperationAborted,
    SlowDown,
    PreconditionFailed,
    BadDigest,
    Invalid(Seq<char>),
    Crypto(Seq<char>),
    Backend(Seq<char>),
    Io(Seq<char>),
}

impl View for Error {
    type V = ErrorView;

    open spec fn view(&self) -> ErrorView {
        match *self {
            Error::NotFound => ErrorView::NotFound,
            Error::NoSuchBucket => ErrorView::NoSuchBucket,
            Error::AccessDenied => ErrorView::AccessDenied,
            Error::BucketNotEmpty => ErrorView::BucketNotEmpty,
            Error::OperationAborted => ErrorView::OperationAborted,
            Error::SlowDown => ErrorView::SlowDown,
            Error::PreconditionFailed => ErrorView::PreconditionFailed,
            Error::BadDigest => ErrorView::BadDigest,
            Error::Invalid(why) => ErrorView::Invalid(why@),
            Error::Crypto(why) => ErrorView::Crypto(why@),
            Error::Backend(why) => ErrorView::Backend(why@),
            Error::Io(why) => ErrorView::Io(why@),
        }
    }
}

/// What a backend's refusal means: a status of 403 is a refusal of the caller whatever else it says,
/// a code that is known says what it says, and anything else is a fault of the backend.
pub open spec fn backend_error(
    status: Option<u16>,
    code: Option<Seq<char>>,
    detail: Seq<char>,
) -> ErrorView {
    if status == Some(403u16) {
        ErrorView::AccessDenied
    } else {
        match code {
            None => ErrorView::Backend(detail),
            Some(c) => if c == "NoSuchKey"@ || c == "404"@ || c == "NotFound"@ || c
                == "NoSuchUpload"@ {
                ErrorView::NotFound
            } else if c == "NoSuchBucket"@ {
                ErrorView::NoSuchBucket
            } else if c == "BucketNotEmpty"@ {
                ErrorView::BucketNotEmpty
            } else if c == "PreconditionFailed"@ || c == "412"@ {
                ErrorView::PreconditionFailed
            } else if c == "BadDigest"@ || c == "InvalidDigest"@ || c
                == "XAmzContentChecksumMismatch"@ {
                ErrorView::BadDigest
            } else {
                ErrorView::Backend(detail)
            },
        }
    }
}

/// The S3 code that a client is told.
pub open spec fn code_of(e: ErrorView) -> Seq<char> {
    match e {
        ErrorView::NotFound => "NoSuchKey"@,
        ErrorView::NoSuchBucket => "NoSuchBucket"@,
        ErrorView::BucketNotEmpty => "BucketNotEmpty"@,
        ErrorView::OperationAborted => "OperationAborted"@,
        ErrorView::SlowDown => "SlowDown"@,
        ErrorView::PreconditionFailed => "PreconditionFailed"@,
        ErrorView::BadDigest => "BadDigest"@,
        ErrorView::Invalid(_) => "InvalidRequest"@,
        ErrorView::Crypto(_) => "InternalError"@,
        ErrorView::Backend(_) => "InternalError"@,
        ErrorView::AccessDenied => "InternalError"@,
        ErrorView::Io(_) => "InternalError"@,
    }
}

/// The message that goes with an error.
pub open spec fn message_of(e: ErrorView) -> Seq<char> {
    match e {
        ErrorView::NotFound => "no such key"@,
        ErrorView::NoSuchBucket => "no such bucket"@,
        ErrorView::AccessDenied => "access denied"@,
        ErrorView::BucketNotEmpty => "bucket not empty"@,
        ErrorView::OperationAborted => "a conflicting write is in progress"@,
        ErrorView::SlowDown => "reduce your request rate"@,
        ErrorView::PreconditionFailed => "precondition failed"@,
        ErrorView::BadDigest => "content-md5 mismatch"@,
        ErrorView::Invalid(why) => "invalid request: "@ + why,
        ErrorView::Crypto(why) => "crypto: "@ + why,
        ErrorView::Backend(why) => "backend: "@ + why,
        ErrorView::Io(why) => why,
    }
}

fn prefixed(prefix: &str, rest: &str) -> (text: String)
    ensures
        text@ == prefix@ + rest@,
{
    let mut text: String = prefix.to_string();
    text.append(rest);
    text
}

impl Error {
    /// What a backend's refusal means, from the status of its response, the code of its error
    /// document where it has one, and a rendering of the whole.
    pub fn from_sdk(status: Option<u16>, code: Option<&str>, detail: String) -> (error: Self)
        ensures
            error@ == backend_error(
                status,
                match code {
                    Some(c) => Some(c@),
                    None => None,
                },
                detail@,
            ),
    {
        if let Some(s) = status {
            if s == 403 {
                return Error::AccessDenied;
            }
        }
        match code {
            None => Error::Backend(detail),
            Some(c) => {
                if same_text(c, "NoSuchKey") || same_text(c, "404") || same_text(c, "NotFound") || same_text(c, "NoSuchUpload") {
                    Error::NotFound
                } else if same_text(c, "NoSuchBucket") {
                    Error::NoSuchBucket
                } else if same_text(c, "BucketNotEmpty") {
                    Error::BucketNotEmpty
                } else if same_text(c, "PreconditionFailed") || same_text(c, "412") {
                    Error::PreconditionFailed
                } else if same_text(c, "BadDigest") || same_text(c, "InvalidDigest") || same_text(c, "XAmzContentChecksumMismatch") {
                    Error::BadDigest
                } else {
                    Error::Backend(detail)
                }
            },
        }
    }

    /// The error of a bucket lookup: what is missing there is the bucket.
    pub fn of_bucket(self) -> (error: Self)
        ensures
            error@ == if self@ == ErrorView::NotFound {
                ErrorView::NoSuchBucket
            } else {
                self@
            },
    {
        match self {
            Error::NotFound => Error::NoSuchBucket,
            other => other,
        }
    }

    /// The S3 code that a client is told.
    pub fn s3_code(&self) -> (code: &'static str)
        ensures
            code@ == code_of(self@),
    {
        match self {
            Error::NotFound => "NoSuchKey",
            Error::NoSuchBucket => "NoSuchBucket",
            Error::BucketNotEmpty => "BucketNotEmpty",
            Error::OperationAborted => "OperationAborted",
            Error::SlowDown => "SlowDown",
            Error::PreconditionFailed => "PreconditionFailed",
            Error::BadDigest => "BadDigest",
            Error::Invalid(_) => "InvalidRequest",
            Error::Crypto(_) => "InternalError",
            Error::Backend(_) => "InternalError",
            Error::AccessDenied => "InternalError",
            Error::Io(_) => "InternalError",
        }
    }

    /// The message that goes with the error.
    pub fn message(&self) -> (text: String)
        ensures
            text@ == message_of(self@),
    {
        match self {
            Error::NotFound => "no such key".to_string(),
            Error::NoSuchBucket => "no such bucket".to_string(),
            Error::AccessDenied => "access denied".to_string(),
            Error::BucketNotEmpty => "bucket not empty".to_string(),
            Error::OperationAborted => "a conflicting write is in progress".to_string(),
            Error::SlowDown => "reduce your request rate".to_string(),
            Error::PreconditionFailed => "precondition failed".to_string(),
            Error::BadDigest => "content-md5 mismatch".to_string(),
            Error::Invalid(why) => prefixed("invalid request: ", why.as_str()),
            Error::Crypto(why) => prefixed("crypto: ", why.as_str()),
            Error::Backend(why) => prefixed("backend: ", why.as_str()),
            Error::Io(why) => why.clone(),
        }
    }

    /// The same error once more.
    pub fn duplicate(&self) -> (copy: Self)
        ensures
            copy@ == self@,
    {
        match self {
            Error::NotFound => Error::NotFound,
            Error::NoSuchBucket => Error::NoSuchBucket,
            Error::AccessDenied => Error::AccessDenied,
            Error::BucketNotEmpty => Error::BucketNotEmpty,
            Error::OperationAborted => Error::OperationAborted,
            Error::SlowDown => Error::SlowDown,
            Error::PreconditionFailed => Error::PreconditionFailed,
            Error::BadDigest => Error::BadDigest,
            Error::Invalid(why) => Error::Invalid(why.clone()),
            Error::Crypto(why) => Error::Crypto(why.clone()),
            Error::Backend(why) => Error::Backend(why.clone()),
            Error::Io(why) => Error::Io(why.clone()),
        }
    }

    /// Whether the error says that the object or its bucket is not there.
    pub fn is_absence(&self) -> (absent: bool)
        ensures
            absent == (self@ == ErrorView::NotFound || self@ == ErrorView::NoSuchBucket),
    {
        match self {
            Error::NotFound => true,
            Error::NoSuchBucket => true,
            _ => false,
        }
    }
}

// ---- laws -------------------------------------------------------------------------------------

/// A refusal never reads as an absence, whatever code the response carries.
pub proof fn a_refusal_is_not_an_absence(code: Option<Seq<char>>, detail: Seq<char>)
    ensures
        backend_error(Some(403u16), code, detail) == ErrorView::AccessDenied,
{
}

/// Each code of a backend is read as the error it stands for; a refusal is one whatever its code is, and
/// a code that is not known, or none, is the backend's own error in its own words.
pub proof fn a_code_is_read_as_its_error(status: Option<u16>, code: Seq<char>, detail: Seq<char>)
    requires
        status != Some(403u16),
    ensures
        backend_error(status, Some(code), detail) == ErrorView::NotFound <==> code == "NoSuchKey"@
            || code == "404"@ || code == "NotFound"@ || code == "NoSuchUpload"@,
        backend_error(status, Some(code), detail) == ErrorView::NoSuchBucket <==> code
            == "NoSuchBucket"@,
        backend_error(status, Some(code), detail) == ErrorView::BucketNotEmpty <==> code
            == "BucketNotEmpty"@,
        backend_error(status, Some(code), detail) == ErrorView::PreconditionFailed <==> code
            == "PreconditionFailed"@ || code == "412"@,
        backend_error(status, Some(code), detail) == ErrorView::BadDigest <==> code == "BadDigest"@
            || code == "InvalidDigest"@ || code == "XAmzContentChecksumMismatch"@,
        backend_error(status, Some(code), detail) is Backend ==> backend_error(
            status,
            Some(code),
            detail,
        ) == ErrorView::Backend(detail),
        backend_error(status, None, detail) == ErrorView::Backend(detail),
        !(backend_error(status, Some(code), detail) is AccessDenied),
        !(backend_error(status, Some(code), detail) is OperationAborted),
        !(backend_error(status, Some(code), detail) is SlowDown),
        !(backend_error(status, Some(code), detail) is Invalid),
        !(backend_error(status, Some(code), detail) is Crypto),
        !(backend_error(status, Some(code), detail) is Io),
{
    reveal_strlit("NoSuchKey");
    reveal_strlit("404");
    reveal_strlit("NotFound");
    reveal_strlit("NoSuchUpload");
    reveal_strlit("NoSuchBucket");
    reveal_strlit("BucketNotEmpty");
    reveal_strlit("PreconditionFailed");
    reveal_strlit("412");
    reveal_strlit("BadDigest");
    reveal_strlit("InvalidDigest");
    reveal_strlit("XAmzContentChecksumMismatch");
    assert("NoSuchKey"@.len() == 9);
    assert("404"@.len() == 3);
    assert("NotFound"@.len() == 8);
    assert("NoSuchUpload"@.len() == 12);
    assert("NoSuchBucket"@.len() == 12);
    assert("BucketNotEmpty"@.len() == 14);
    assert("PreconditionFailed"@.len() == 18);
    assert("412"@.len() == 3);
    assert("BadDigest"@.len() == 9);
    assert("InvalidDigest"@.len() == 13);
    assert("XAmzContentChecksumMismatch"@.len() == 27);
    assert("404"@[1] != "412"@[1]);
    assert("NoSuchKey"@[0] != "BadDigest"@[0]);
    assert("NoSuchUpload"@[6] != "NoSuchBucket"@[6]);
}

/// An error that a client can act on keeps its kind on the way out: the code it is given reads as the
/// error again, and the others are all the server's own.
pub proof fn a_client_sees_the_kind_of_its_error(e: ErrorView, detail: Seq<char>)
    ensures
        e is NotFound || e is NoSuchBucket || e is BucketNotEmpty || e is PreconditionFailed
            || e is BadDigest ==> backend_error(None, Some(code_of(e)), detail) == e,
        e is OperationAborted ==> code_of(e) == "OperationAborted"@,
        e is SlowDown ==> code_of(e) == "SlowDown"@,
        e is Invalid ==> code_of(e) == "InvalidRequest"@,
        e is Crypto || e is Backend || e is AccessDenied || e is Io ==> code_of(e)
            == "InternalError"@,
{
    reveal_strlit("NoSuchKey");
    reveal_strlit("404");
    reveal_strlit("NotFound");
    reveal_strlit("NoSuchUpload");
    reveal_strlit("NoSuchBucket");
    reveal_strlit("BucketNotEmpty");
    reveal_strlit("PreconditionFailed");
    reveal_strlit("412");
    reveal_strlit("BadDigest");
    reveal_strlit("InvalidDigest");
    reveal_strlit("XAmzContentChecksumMismatch");
    assert("NoSuchKey"@.len() == 9);
    assert("404"@.len() == 3);
    assert("NotFound"@.len() == 8);
    assert("NoSuchUpload"@.len() == 12);
    assert("NoSuchBucket"@.len() == 12);
    assert("BucketNotEmpty"@.len() == 14);
    assert("PreconditionFailed"@.len() == 18);
    assert("412"@.len() == 3);
    assert("BadDigest"@.len() == 9);
    assert("InvalidDigest"@.len() == 13);
    assert("XAmzContentChecksumMismatch"@.len() == 27);
    assert("NoSuchKey"@[0] != "BadDigest"@[0]);
    assert("NoSuchUpload"@[6] != "NoSuchBucket"@[6]);
}

/// What an error says ends in its own reason, and says first whose it is.
pub proof fn a_reason_is_told_whole(why: Seq<char>)
    ensures
        message_of(ErrorView::Invalid(why)) == "invalid request: "@ + why,
        message_of(ErrorView::Crypto(why)) == "crypto: "@ + why,
        message_of(ErrorView::Backend(why)) == "backend: "@ + why,
        message_of(ErrorView::Io(why)) == why,
{
}

/// What is said of an error is said of its own kind and its own words.
pub proof fn an_error_is_seen_as_it_is(x: Error)
    ensures
        x is NotFound <==> x@ is NotFound,
        x is NoSuchBucket <==> x@ is NoSuchBucket,
        x is AccessDenied <==> x@ is AccessDenied,
        x is BucketNotEmpty <==> x@ is BucketNotEmpty,
        x is OperationAborted <==> x@ is OperationAborted,
        x is SlowDown <==> x@ is SlowDown,
        x is PreconditionFailed <==> x@ is PreconditionFailed,
        x is BadDigest <==> x@ is BadDigest,
        x is Invalid <==> x@ is Invalid,
        x is Invalid ==> x@->Invalid_0 == x->Invalid_0@,
        x is Crypto <==> x@ is Crypto,
        x is Crypto ==> x@->Crypto_0 == x->Crypto_0@,
        x is Backend <==> x@ is Backend,
        x is Backend ==> x@->Backend_0 == x->Backend_0@,
        x is Io <==> x@ is Io,
        x is Io ==> x@->Io_0 == x->Io_0@,
{
}

/// Each kind of error that has no reason of its own is told in words of its own.
pub proof fn each_kind_has_its_own_words(e: ErrorView)
    ensures
        e is NotFound ==> message_of(e) == "no such key"@,
        e is NoSuchBucket ==> message_of(e) == "no such bucket"@,
        e is AccessDenied ==> message_of(e) == "access denied"@,
        e is BucketNotEmpty ==> message_of(e) == "bucket not empty"@,
        e is OperationAborted ==> message_of(e) == "a conflicting write is in progress"@,
        e is SlowDown ==> message_of(e) == "reduce your request rate"@,
        e is PreconditionFailed ==> message_of(e) == "precondition failed"@,
        e is BadDigest ==> message_of(e) == "content-md5 mismatch"@,
{
}

} // verus!
