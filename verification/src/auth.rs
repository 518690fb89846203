//! The credentials that clients of the gateway present.

use crate::text::same_text;
use vstd::prelude::*;

verus! {

/// Why a client's credentials are refused: an S3 code and a message.
#[derive(Clone, Copy, Debug, PartialEq, Eq)]
pub struct AuthError {
    pub code: &'static str,
    pub message: &'static str,
}

/// One access key and its secret.
pub struct SingleKeyAuth {
    access_key: String,
    secret_key: String,
}

impl SingleKeyAuth {
    pub closed spec fn access_key(&self) -> Seq<char> {
        self.access_key@
    }

    pub closed spec fn secret_key(&self) -> Seq<char> {
        self.secret_key@
    }

    pub fn new(access_key: String, secret_key: String) -> (auth: Self)
        ensures
            auth.access_key() == access_key@,
            auth.secret_key() == secret_key@,
    {
        SingleKeyAuth { access_key, secret_key }
    }

    /// The secret of the one known access key.
    pub fn get_secret_key(&self, access_key: &str) -> (secret: Result<String, AuthError>)
        ensures
            match secret {
                Ok(s) => access_key@ == self.access_key() && s@ == self.secret_key(),
                Err(e) => {
                    &&& access_key@ != self.access_key()
                    &&& e.code@ == "InvalidAccessKeyId"@
                    &&& e.message@ == "unknown access key"@
                },
            },
    {
        if same_text(access_key, self.access_key.as_str()) {
            Ok(self.secret_key.clone())
        } else {
            Err(AuthError { code: "InvalidAccessKeyId", message: "unknown access key" })
        }
    }
}

} // verus!
