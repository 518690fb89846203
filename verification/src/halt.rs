//! The halt of a deployment whose storage invariants are violated.
//!
//! A violation makes later answers and recoveries unsafe.  Serving stops, the first violation is
//! recorded in the remote, and no later run serves until an operator has removed the record.

use crate::error::{Error, ErrorView};
use vstd::prelude::*;
use vstd::string::StringExecFns;
use vstd::utf8::encode_utf8;

verus! {

/// The exit status of a halted deployment, which a supervisor can tell from an ordinary crash.
pub const EXIT_INVARIANT_VIOLATION: i32 = 86;

/// What the recoveries rest on.
#[derive(Clone, Copy, Debug, PartialEq, Eq, Structural)]
pub enum Invariant {
    /// A remote object whose trailer does not authenticate.
    ForeignObject,
    /// A plaintext body in the cache while the bucket's namespace is being restored.
    PlaintextDuringRestore,
    /// An evicted object that the remote does not hold.
    RemoteLostObject,
    /// A live bucket whose cache projection is gone.
    CacheVolumeLost,
    /// A remote bucket that this deployment did not make.
    ForeignBucket,
    /// A pending-set rebuild in a deployment that has no pending set.
    PendingRebuildInDurableMode,
}

/// The name of an invariant in the record of its violation.
pub open spec fn invariant_name(invariant: Invariant) -> Seq<char> {
    match invariant {
        Invariant::ForeignObject => "foreign-object"@,
        Invariant::PlaintextDuringRestore => "plaintext-during-restore"@,
        Invariant::RemoteLostObject => "remote-lost-object"@,
        Invariant::CacheVolumeLost => "cache-volume-lost"@,
        Invariant::ForeignBucket => "foreign-bucket"@,
        Invariant::PendingRebuildInDurableMode => "pending-rebuild-in-durable-mode"@,
    }
}

impl Invariant {
    pub fn as_str(self) -> (name: &'static str)
        ensures
            name@ == invariant_name(self),
    {
        match self {
            Invariant::ForeignObject => "foreign-object",
            Invariant::PlaintextDuringRestore => "plaintext-during-restore",
            Invariant::RemoteLostObject => "remote-lost-object",
            Invariant::CacheVolumeLost => "cache-volume-lost",
            Invariant::ForeignBucket => "foreign-bucket",
            Invariant::PendingRebuildInDurableMode => "pending-rebuild-in-durable-mode",
        }
    }
}

#[derive(Clone, Debug)]
pub struct Violation {
    pub invariant: Invariant,
    pub bucket: String,
    pub key: Option<String>,
    /// What was observed, for the operator.
    pub detail: String,
}

/// The record of a violation.
pub open spec fn record_of(v: Violation) -> Seq<char> {
    "invariant: "@ + invariant_name(v.invariant) + "\nbucket: "@ + v.bucket@ + "\nkey: "@ + (
    match v.key {
        Some(k) => k@,
        None => "-"@,
    }) + "\ndetail: "@ + v.detail@ + "\n"@
}

impl Violation {
    /// The record of the violation, as plain text.
    pub fn render(&self) -> (body: Vec<u8>)
        ensures
            body@ == encode_utf8(record_of(*self)),
    {
        let mut text: String = "invariant: ".to_string();
        text.append(self.invariant.as_str());
        text.append("\nbucket: ");
        text.append(self.bucket.as_str());
        text.append("\nkey: ");
        match &self.key {
            Some(k) => {
                text.append(k.as_str());
            },
            None => {
                text.append("-");
            },
        }
        text.append("\ndetail: ");
        text.append(self.detail.as_str());
        text.append("\n");
        let bytes: &[u8] = text.as_str().as_bytes();
        let mut body: Vec<u8> = Vec::new();
        body.extend_from_slice(bytes);
        assert(body@ =~= bytes@);
        body
    }
}

/// The violation that a trailer which does not authenticate is, wherever it is read.
pub fn foreign_object(bucket: &str, key: &str) -> (violation: Violation)
    ensures
        violation.invariant == Invariant::ForeignObject,
        violation.bucket@ == bucket@,
        violation.key matches Some(k) && k@ == key@,
        violation.detail@ == "remote object carries no verifiable hypha trailer"@,
{
    Violation {
        invariant: Invariant::ForeignObject,
        bucket: bucket.to_string(),
        key: Some(key.to_string()),
        detail: "remote object carries no verifiable hypha trailer".to_string(),
    }
}

/// Whether a violation is being recorded.
pub struct Halt {
    recording: bool,
}

impl Halt {
    pub closed spec fn recording(&self) -> bool {
        self.recording
    }

    pub fn new() -> (halt: Self)
        ensures
            !halt.recording(),
    {
        Halt { recording: false }
    }

    /// Whether a violation is the one to be recorded: the first is, since one that is seen while the
    /// deployment winds down is most likely its consequence.
    pub fn raise(&mut self) -> (first: bool)
        ensures
            first == !old(self).recording(),
            final(self).recording(),
    {
        let first: bool = !self.recording;
        self.recording = true;
        first
    }
}

/// How long a record that could not be written waits for the next attempt: not long, since nothing
/// is served until it is written.
pub const RECORD_RETRY_MS: u64 = 2_000;

/// What follows an attempt to write the record of a violation.
#[derive(Clone, Copy, Debug, PartialEq, Eq, Structural)]
pub enum RecordStep {
    /// Write it again, after so many milliseconds.
    Retry(u64),
    /// The process ends with this status.
    Exit(i32),
}

/// Judges an attempt to write the record of a violation: the process does not end before the record
/// is written.
pub fn record(written: bool) -> (step: RecordStep)
    ensures
        step == if written {
            RecordStep::Exit(EXIT_INVARIANT_VIOLATION)
        } else {
            RecordStep::Retry(RECORD_RETRY_MS)
        },
        written <==> step == RecordStep::Exit(86),
        !written <==> step == RecordStep::Retry(2_000),
{
    if written {
        RecordStep::Exit(EXIT_INVARIANT_VIOLATION)
    } else {
        RecordStep::Retry(RECORD_RETRY_MS)
    }
}

/// What the lookup of a bucket's halt record found.
pub enum MarkerLookup {
    Present,
    Failed(Error),
}

/// What startup does after the lookup of one bucket's halt record.
pub enum Startup {
    /// This bucket has none: look at the next one.
    Continue,
    /// Exit before a single request is served.
    Exit,
    Fail(Error),
}

/// Judges the lookup of one bucket's halt record.  Only a plain absence lets startup go on.
pub fn exit_if_marked(lookup: MarkerLookup) -> (startup: Startup)
    ensures
        match lookup {
            MarkerLookup::Present => startup is Exit,
            MarkerLookup::Failed(e) => if e@ == ErrorView::NotFound || e@
                == ErrorView::NoSuchBucket {
                startup is Continue
            } else {
                startup == Startup::Fail(e)
            },
        },
{
    match lookup {
        MarkerLookup::Present => Startup::Exit,
        MarkerLookup::Failed(e) => {
            if e.is_absence() {
                Startup::Continue
            } else {
                Startup::Fail(e)
            }
        },
    }
}

/// Each invariant has a name of its own.
pub proof fn invariants_are_told_apart_by_name(a: Invariant, b: Invariant)
    ensures
        invariant_name(a) == invariant_name(b) ==> a == b,
{
    reveal_strlit("foreign-object");
    reveal_strlit("plaintext-during-restore");
    reveal_strlit("remote-lost-object");
    reveal_strlit("cache-volume-lost");
    reveal_strlit("foreign-bucket");
    reveal_strlit("pending-rebuild-in-durable-mode");
    assert("foreign-object"@.len() == 14);
    assert("plaintext-during-restore"@.len() == 24);
    assert("remote-lost-object"@.len() == 18);
    assert("cache-volume-lost"@.len() == 17);
    assert("foreign-bucket"@.len() == 14);
    assert("pending-rebuild-in-durable-mode"@.len() == 31);
    assert("foreign-object"@[8] != "foreign-bucket"@[8]);
}

/// A record tells the invariant by its name, the bucket, the key or a dash, and the detail, a line each.
pub proof fn a_record_tells_what_was_violated(v: Violation)
    ensures
        v.key is Some ==> record_of(v) == "invariant: "@ + invariant_name(v.invariant)
            + "\nbucket: "@ + v.bucket@ + "\nkey: "@ + v.key->0@ + "\ndetail: "@ + v.detail@ + "\n"@,
        v.key is None ==> record_of(v) == "invariant: "@ + invariant_name(v.invariant)
            + "\nbucket: "@ + v.bucket@ + "\nkey: "@ + "-"@ + "\ndetail: "@ + v.detail@ + "\n"@,
{
}

} // verus!
