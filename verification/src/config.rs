//! Typed configuration, validated at boot.
//!
//! Settings that are fractions are held by their binary64 bits, which order as the numbers do, and
//! by the text that they print as.

use crate::text::{decimal, push_decimal};
use vstd::prelude::*;
use vstd::string::StringExecFns;
use vstd::utf8::encode_utf8;

verus! {

#[derive(Clone, Copy, Debug, PartialEq, Eq, Structural)]
pub enum Mode {
    Durable,
    Cached,
}

#[derive(Clone, Debug)]
pub struct S3Endpoint {
    pub endpoint: String,
    pub region: String,
    pub access_key: String,
    pub secret_key: String,
}

#[derive(Clone, Debug)]
pub struct ClientAuth {
    pub access_key: String,
    pub secret_key: String,
}

#[derive(Clone, Debug)]
pub struct Serving {
    pub listen: String,
    pub offload_threshold: usize,
}

#[derive(Clone, Copy, Debug)]
pub struct Reconcile {
    pub interval_ms: u64,
    pub concurrency: usize,
}

#[derive(Clone, Copy, Debug)]
pub struct Background {
    pub concurrency: usize,
    pub queue_depth: usize,
}

/// A fractional setting: its binary64 bits, and the text that it prints as.
#[derive(Clone, Debug)]
pub struct Fraction {
    pub bits: u64,
    pub text: String,
}

#[derive(Clone, Debug)]
pub enum Usage {
    Seaweedfs { master: String, garbage_threshold: Fraction },
}

#[derive(Clone, Debug)]
pub struct Recency {
    pub fill_target: usize,
    pub depth: usize,
    pub false_positive_rate: Fraction,
}

#[derive(Clone, Debug)]
pub struct Gc {
    pub interval_ms: u64,
    pub min_interval_ms: u64,
    pub concurrency: usize,
    pub max_concurrency: usize,
    pub high_water: Fraction,
    pub low_water: Fraction,
    pub probe_pages: usize,
    pub yield_floor: Fraction,
    pub opportunistic_evictions: usize,
    pub usage: Option<Usage>,
    pub recency: Recency,
}

#[derive(Clone, Debug)]
pub struct Config {
    pub remote: S3Endpoint,
    pub cache: S3Endpoint,
    /// What every backend bucket's name begins with.
    pub bucket_prefix: String,
    pub mode: Mode,
    pub auth: ClientAuth,
    pub master_passphrase: String,
    pub serving: Serving,
    pub reconcile: Reconcile,
    pub background: Background,
    pub gc: Gc,
    pub volume_watch_interval_ms: u64,
}

/// The role of the buckets that hold client bodies and tombstones.
pub const DATA_ROLE: &'static str = "d";

/// The role of the buckets that hold twins, markers and upload records.
pub const META_ROLE: &'static str = "m";

/// The role of the buckets on the remote.
pub const REMOTE_ROLE: &'static str = "r";

/// The role of the one bucket that holds the recency slices.
pub const GC_ROLE: &'static str = "g";

// ---- fractions --------------------------------------------------------------------------------

/// The bits of 1.
pub const ONE_BITS: u64 = 0x3ff0_0000_0000_0000;

/// The bits of the distance between 1 and the next larger number.
pub const EPSILON_BITS: u64 = 0x3cb0_0000_0000_0000;

/// The bits that are no number: all exponent bits set, and a fraction behind them.
pub open spec fn is_nan(bits: u64) -> bool {
    bits % 0x8000_0000_0000_0000 > 0x7ff0_0000_0000_0000
}

/// A number's place in the order of numbers: the magnitude's bits, with the sign.
pub open spec fn rank(bits: u64) -> int {
    if bits >= 0x8000_0000_0000_0000 {
        -(bits % 0x8000_0000_0000_0000)
    } else {
        bits as int
    }
}

/// `a >= b`, as numbers.
pub open spec fn at_least(a: u64, b: u64) -> bool {
    !is_nan(a) && !is_nan(b) && rank(a) >= rank(b)
}

/// A number in `[0, 1]`.
pub open spec fn in_unit(bits: u64) -> bool {
    !is_nan(bits) && 0 <= rank(bits) <= ONE_BITS
}

fn nan(bits: u64) -> (is: bool)
    ensures
        is == is_nan(bits),
{
    bits % 0x8000_0000_0000_0000 > 0x7ff0_0000_0000_0000
}

fn rank_of(bits: u64) -> (r: i128)
    ensures
        r == rank(bits),
{
    if bits >= 0x8000_0000_0000_0000 {
        -((bits % 0x8000_0000_0000_0000) as i128)
    } else {
        bits as i128
    }
}

// ---- defaults ---------------------------------------------------------------------------------

pub fn default_region() -> (region: String)
    ensures
        region@ == "us-east-1"@,
{
    "us-east-1".to_string()
}

pub fn default_volume_watch_interval_ms() -> (ms: u64)
    ensures
        ms == 30_000,
{
    30_000
}

impl Default for Serving {
    fn default() -> (serving: Self)
        ensures
            serving.listen@ == "0.0.0.0:8014"@,
            serving.offload_threshold == 1_048_576,
    {
        Serving { listen: "0.0.0.0:8014".to_string(), offload_threshold: 1_048_576 }
    }
}

impl Default for Reconcile {
    fn default() -> (reconcile: Self)
        ensures
            reconcile == (Reconcile { interval_ms: 5_000, concurrency: 16 }),
    {
        Reconcile { interval_ms: 5_000, concurrency: 16 }
    }
}

impl Default for Background {
    fn default() -> (background: Self)
        ensures
            background == (Background { concurrency: 4, queue_depth: 256 }),
    {
        Background { concurrency: 4, queue_depth: 256 }
    }
}

/// The garbage share from which a volume is worth compacting.
pub fn default_garbage_threshold() -> (fraction: Fraction)
    ensures
        fraction.bits == 0x3fd3_3333_3333_3333,
        fraction.text@ == "0.3"@,
{
    Fraction { bits: 0x3fd3_3333_3333_3333, text: "0.3".to_string() }
}

impl Default for Recency {
    fn default() -> (recency: Self)
        ensures
            recency.fill_target == 100_000,
            recency.depth == 7,
            recency.false_positive_rate.bits == 0x3f84_7ae1_47ae_147b,
            recency.false_positive_rate.text@ == "0.01"@,
    {
        Recency {
            fill_target: 100_000,
            depth: 7,
            false_positive_rate: Fraction {
                bits: 0x3f84_7ae1_47ae_147b,
                text: "0.01".to_string(),
            },
        }
    }
}

impl Default for Gc {
    fn default() -> (gc: Self)
        ensures
            gc.interval_ms == 300_000,
            gc.min_interval_ms == 1_000,
            gc.concurrency == 4,
            gc.max_concurrency == 16,
            gc.high_water.bits == 0x3feb_3333_3333_3333 && gc.high_water.text@ == "0.85"@,
            gc.low_water.bits == 0x3fe6_6666_6666_6666 && gc.low_water.text@ == "0.7"@,
            gc.probe_pages == 5,
            gc.yield_floor.bits == 0x3fc9_9999_9999_999a && gc.yield_floor.text@ == "0.2"@,
            gc.opportunistic_evictions == 64,
            gc.usage is None,
            gc.recency.fill_target == 100_000,
            gc.recency.depth == 7,
            gc.recency.false_positive_rate.bits == 0x3f84_7ae1_47ae_147b,
            gc.recency.false_positive_rate.text@ == "0.01"@,
    {
        Gc {
            interval_ms: 300_000,
            min_interval_ms: 1_000,
            concurrency: 4,
            max_concurrency: 16,
            high_water: Fraction { bits: 0x3feb_3333_3333_3333, text: "0.85".to_string() },
            low_water: Fraction { bits: 0x3fe6_6666_6666_6666, text: "0.7".to_string() },
            probe_pages: 5,
            yield_floor: Fraction { bits: 0x3fc9_9999_9999_999a, text: "0.2".to_string() },
            opportunistic_evictions: 64,
            usage: None,
            recency: Recency::default(),
        }
    }
}

// ---- bucket names -----------------------------------------------------------------------------

/// What a bucket of a role begins with.
pub open spec fn role_prefix_of(bucket_prefix: Seq<char>, role: Seq<char>) -> Seq<char> {
    bucket_prefix + seq!['-'] + role + seq!['-']
}

/// Whether a prefix holds nothing but lower-case letters, digits and hyphens.
pub open spec fn prefix_is_valid(prefix: Seq<char>) -> bool {
    forall|i: int|
        0 <= i < encode_utf8(prefix).len() ==> {
            let b = #[trigger] encode_utf8(prefix)[i];
            97 <= b <= 122 || 48 <= b <= 57 || b == 45
        }
}

/// A text in quotes, with its special characters escaped, as a debugging print shows it.
pub uninterp spec fn debug_text(s: Seq<char>) -> Seq<char>;

/// `format!` with `{:?}` on a string slice: a rendering that depends on the text alone.
#[verifier::external_body]
pub(crate) fn render_debug(s: &str) -> (text: String)
    ensures
        text@ == debug_text(s@),
{
    format!("{:?}", s)
}

// ---- validation -------------------------------------------------------------------------------

/// What is wrong with a configuration, first complaint first.
pub open spec fn complaint(c: Config) -> Option<Seq<char>> {
    let gc = c.gc;
    let fpp = gc.recency.false_positive_rate;
    let (high, low) = (gc.high_water, gc.low_water);
    if c.bucket_prefix@.len() == 0 {
        Some(
            "bucket_prefix must be non-empty: it is what separates this deployment's backend buckets from another's on a shared account"@,
        )
    } else if !prefix_is_valid(c.bucket_prefix@) {
        Some(
            "bucket_prefix ("@ + debug_text(c.bucket_prefix@)
                + ") must be lowercase alphanumeric or '-' — it is part of an S3 bucket name"@,
        )
    } else if gc.min_interval_ms > gc.interval_ms {
        Some(
            "gc.min_interval_ms ("@ + decimal(gc.min_interval_ms as nat)
                + ") exceeds gc.interval_ms ("@ + decimal(gc.interval_ms as nat)
                + ") — pressure would lengthen the interval it is supposed to shorten"@,
        )
    } else if gc.max_concurrency < gc.concurrency {
        Some(
            "gc.max_concurrency ("@ + decimal(gc.max_concurrency as nat)
                + ") is below gc.concurrency ("@ + decimal(gc.concurrency as nat)
                + ") — pressure would narrow the pass it is supposed to widen"@,
        )
    } else if !(at_least(fpp.bits, EPSILON_BITS) && !at_least(fpp.bits, ONE_BITS)) {
        Some(
            "gc.recency.false_positive_rate ("@ + fpp.text@
                + ") must be in (0, 1) — the slice's bit count is derived from it"@,
        )
    } else if !in_unit(low.bits) || !in_unit(high.bits) {
        Some(
            "gc water marks ("@ + low.text@ + ", "@ + high.text@
                + ") must be fractions of cache capacity in [0, 1]"@,
        )
    } else if at_least(low.bits, high.bits) {
        Some(
            "gc.low_water ("@ + low.text@ + ") is not below gc.high_water ("@ + high.text@
                + ") — the gap between them is the byte target a pressured pass owes"@,
        )
    } else if gc.probe_pages == 0 {
        Some(
            "gc.probe_pages must be non-zero — a probe that reads no pages finds no candidates"@,
        )
    } else if !(at_least(gc.yield_floor.bits, 0) && !at_least(gc.yield_floor.bits, ONE_BITS)) {
        Some(
            "gc.yield_floor ("@ + gc.yield_floor.text@
                + ") must be in [0, 1) — at 1 every bucket gets an equal share and the yield feedback is switched off"@,
        )
    } else if gc.recency.fill_target == 0 {
        Some(
            "gc.recency.fill_target must be non-zero — a slice that rotates on every insert remembers nothing"@,
        )
    } else {
        None
    }
}

fn not_below(a: u64, b: u64) -> (is: bool)
    ensures
        is == at_least(a, b),
{
    !nan(a) && !nan(b) && rank_of(a) >= rank_of(b)
}

fn within_unit(bits: u64) -> (is: bool)
    ensures
        is == in_unit(bits),
{
    !nan(bits) && 0 <= rank_of(bits) && rank_of(bits) <= ONE_BITS as i128
}

fn prefix_bytes_are_valid(prefix: &str) -> (valid: bool)
    ensures
        valid == prefix_is_valid(prefix@),
{
    let bytes: &[u8] = prefix.as_bytes();
    let mut i: usize = 0;
    while i < bytes.len()
        invariant
            i <= bytes@.len(),
            bytes@ == encode_utf8(prefix@),
            forall|j: int|
                0 <= j < i ==> {
                    let b = #[trigger] bytes@[j];
                    97 <= b <= 122 || 48 <= b <= 57 || b == 45
                },
        decreases bytes@.len() - i,
    {
        let b: u8 = bytes[i];
        if !((97 <= b && b <= 122) || (48 <= b && b <= 57) || b == 45) {
            assert(encode_utf8(prefix@)[i as int] == b);
            return false;
        }
        i += 1;
    }
    true
}

fn said(lead: &str, what: &str, tail: &str) -> (text: String)
    ensures
        text@ == lead@ + what@ + tail@,
{
    let mut text: String = lead.to_string();
    text.append(what);
    text.append(tail);
    text
}

fn said_of_two(lead: &str, a: &str, between: &str, b: &str, tail: &str) -> (text: String)
    ensures
        text@ == lead@ + a@ + between@ + b@ + tail@,
{
    let mut text: String = said(lead, a, between);
    text.append(b);
    text.append(tail);
    text
}

fn number_text(n: u64) -> (text: String)
    ensures
        text@ == decimal(n as nat),
{
    let mut text: String = String::new();
    push_decimal(&mut text, n);
    assert(text@ =~= decimal(n as nat));
    text
}

impl Config {
    /// What the backend buckets of a role begin with.
    pub fn role_prefix(&self, role: &str) -> (prefix: String)
        ensures
            prefix@ == role_prefix_of(self.bucket_prefix@, role@),
    {
        let mut prefix: String = self.bucket_prefix.clone();
        prefix.push('-');
        prefix.append(role);
        prefix.push('-');
        assert(prefix@ =~= role_prefix_of(self.bucket_prefix@, role@));
        prefix
    }

    /// The bucket that holds the recency slices.
    pub fn gc_bucket(&self) -> (name: String)
        ensures
            name@ == self.bucket_prefix@ + seq!['-'] + GC_ROLE@,
    {
        let mut name: String = self.bucket_prefix.clone();
        name.push('-');
        name.append(GC_ROLE);
        assert(name@ =~= self.bucket_prefix@ + seq!['-'] + GC_ROLE@);
        name
    }

    /// The length of the longest prefix that is put before a client bucket's name.
    pub fn max_bucket_prefix_len(&self) -> (len: usize)
        ensures
            len == encode_utf8(role_prefix_of(self.bucket_prefix@, DATA_ROLE@)).len(),
    {
        let prefix: String = self.role_prefix(DATA_ROLE);
        prefix.as_str().as_bytes().len()
    }

    /// Checks the values, and says what is wrong with the first that is.
    pub fn validate(&self) -> (checked: Result<(), String>)
        ensures
            match checked {
                Ok(()) => complaint(*self) is None,
                Err(why) => complaint(*self) == Some(why@),
            },
    {
        let gc: &Gc = &self.gc;
        if self.bucket_prefix.as_str().is_empty() {
            return Err(
                "bucket_prefix must be non-empty: it is what separates this deployment's backend buckets from another's on a shared account".to_string(),
            );
        }
        if !prefix_bytes_are_valid(self.bucket_prefix.as_str()) {
            return Err(
                said(
                    "bucket_prefix (",
                    render_debug(self.bucket_prefix.as_str()).as_str(),
                    ") must be lowercase alphanumeric or '-' — it is part of an S3 bucket name",
                ),
            );
        }
        if gc.min_interval_ms > gc.interval_ms {
            return Err(
                said_of_two(
                    "gc.min_interval_ms (",
                    number_text(gc.min_interval_ms).as_str(),
                    ") exceeds gc.interval_ms (",
                    number_text(gc.interval_ms).as_str(),
                    ") — pressure would lengthen the interval it is supposed to shorten",
                ),
            );
        }
        if gc.max_concurrency < gc.concurrency {
            return Err(
                said_of_two(
                    "gc.max_concurrency (",
                    number_text(gc.max_concurrency as u64).as_str(),
                    ") is below gc.concurrency (",
                    number_text(gc.concurrency as u64).as_str(),
                    ") — pressure would narrow the pass it is supposed to widen",
                ),
            );
        }
        let fpp: &Fraction = &gc.recency.false_positive_rate;
        if !(not_below(fpp.bits, EPSILON_BITS) && !not_below(fpp.bits, ONE_BITS)) {
            return Err(
                said(
                    "gc.recency.false_positive_rate (",
                    fpp.text.as_str(),
                    ") must be in (0, 1) — the slice's bit count is derived from it",
                ),
            );
        }
        let high: &Fraction = &gc.high_water;
        let low: &Fraction = &gc.low_water;
        if !within_unit(low.bits) || !within_unit(high.bits) {
            return Err(
                said_of_two(
                    "gc water marks (",
                    low.text.as_str(),
                    ", ",
                    high.text.as_str(),
                    ") must be fractions of cache capacity in [0, 1]",
                ),
            );
        }
        if not_below(low.bits, high.bits) {
            return Err(
                said_of_two(
                    "gc.low_water (",
                    low.text.as_str(),
                    ") is not below gc.high_water (",
                    high.text.as_str(),
                    ") — the gap between them is the byte target a pressured pass owes",
                ),
            );
        }
        if gc.probe_pages == 0 {
            return Err(
                "gc.probe_pages must be non-zero — a probe that reads no pages finds no candidates".to_string(),
            );
        }
        if !(not_below(gc.yield_floor.bits, 0) && !not_below(gc.yield_floor.bits, ONE_BITS)) {
            return Err(
                said(
                    "gc.yield_floor (",
                    gc.yield_floor.text.as_str(),
                    ") must be in [0, 1) — at 1 every bucket gets an equal share and the yield feedback is switched off",
                ),
            );
        }
        if gc.recency.fill_target == 0 {
            return Err(
                "gc.recency.fill_target must be non-zero — a slice that rotates on every insert remembers nothing".to_string(),
            );
        }
        Ok(())
    }
}

// ---- laws -------------------------------------------------------------------------------------

/// The buckets of two roles never share a name, whatever the client calls them, and the bucket of
/// the recency slices is none of them.
pub proof fn roles_never_share_a_bucket(prefix: Seq<char>, a: Seq<char>, b: Seq<char>)
    ensures
        role_prefix_of(prefix, DATA_ROLE@) + a != role_prefix_of(prefix, META_ROLE@) + b,
        role_prefix_of(prefix, DATA_ROLE@) + a != prefix + seq!['-'] + GC_ROLE@,
        role_prefix_of(prefix, META_ROLE@) + a != prefix + seq!['-'] + GC_ROLE@,
        role_prefix_of(prefix, REMOTE_ROLE@) + a != role_prefix_of(prefix, DATA_ROLE@) + b,
        role_prefix_of(prefix, REMOTE_ROLE@) + a != role_prefix_of(prefix, META_ROLE@) + b,
{
    reveal_strlit("d");
    reveal_strlit("m");
    reveal_strlit("r");
    reveal_strlit("g");
    let i = prefix.len() as int + 1;
    assert((role_prefix_of(prefix, DATA_ROLE@) + a)[i] == 'd');
    assert((role_prefix_of(prefix, META_ROLE@) + b)[i] == 'm');
    assert((role_prefix_of(prefix, META_ROLE@) + a)[i] == 'm');
    assert((role_prefix_of(prefix, REMOTE_ROLE@) + a)[i] == 'r');
    assert((role_prefix_of(prefix, DATA_ROLE@) + b)[i] == 'd');
    assert((prefix + seq!['-'] + GC_ROLE@)[i] == 'g');
}

/// A configuration that passes the checks has a ladder to climb: the interval can shorten, the
/// passes can widen, and the water marks leave a gap.
pub proof fn a_valid_configuration_can_escalate(c: Config)
    requires
        complaint(c) is None,
    ensures
        c.gc.min_interval_ms <= c.gc.interval_ms,
        c.gc.concurrency <= c.gc.max_concurrency,
        rank(c.gc.low_water.bits) < rank(c.gc.high_water.bits),
        c.gc.recency.fill_target > 0,
        c.gc.probe_pages > 0,
        c.bucket_prefix@.len() > 0,
{
}

/// The bits of two numbers order as the numbers do: of two that are not negative the one with the larger
/// bits is the larger, of two negative ones it is the smaller, a negative one is below every other but
/// the zeros are the same, and what is no number is at least nothing.
pub proof fn bits_order_as_their_numbers(a: u64, b: u64)
    ensures
        a < 0x7ff0_0000_0000_0000 && b < 0x7ff0_0000_0000_0000 ==> (at_least(a, b) <==> a >= b),
        0x8000_0000_0000_0000 <= a < 0xfff0_0000_0000_0000 && 0x8000_0000_0000_0000 <= b
            < 0xfff0_0000_0000_0000 ==> (at_least(a, b) <==> a <= b),
        a < 0x7ff0_0000_0000_0000 && 0x8000_0000_0000_0000 <= b < 0xfff0_0000_0000_0000 ==> at_least(
            a,
            b,
        ) && (at_least(b, a) <==> a == 0 && b == 0x8000_0000_0000_0000),
        is_nan(a) <==> 0x7ff0_0000_0000_0000 < a < 0x8000_0000_0000_0000 || a
            > 0xfff0_0000_0000_0000,
        is_nan(a) ==> !at_least(a, b) && !at_least(b, a) && !in_unit(a),
        in_unit(a) <==> a <= 0x3ff0_0000_0000_0000 || a == 0x8000_0000_0000_0000,
{
}

/// A configuration is accepted exactly where it keeps every rule.
pub proof fn a_configuration_that_keeps_every_rule_is_accepted(c: Config)
    ensures
        complaint(c) is None <==> {
            &&& c.bucket_prefix@.len() > 0
            &&& prefix_is_valid(c.bucket_prefix@)
            &&& c.gc.min_interval_ms <= c.gc.interval_ms
            &&& c.gc.concurrency <= c.gc.max_concurrency
            &&& 0x3cb0_0000_0000_0000 <= c.gc.recency.false_positive_rate.bits
            &&& c.gc.recency.false_positive_rate.bits < 0x3ff0_0000_0000_0000
            &&& in_unit(c.gc.low_water.bits)
            &&& in_unit(c.gc.high_water.bits)
            &&& rank(c.gc.low_water.bits) < rank(c.gc.high_water.bits)
            &&& c.gc.probe_pages > 0
            &&& c.gc.yield_floor.bits < 0x3ff0_0000_0000_0000 || c.gc.yield_floor.bits
                == 0x8000_0000_0000_0000
            &&& c.gc.recency.fill_target > 0
        },
{
}

/// The complaint is about the rule that is broken: it gives the setting's own name and values.
pub proof fn a_complaint_names_its_setting(c: Config)
    ensures
        c.bucket_prefix@.len() == 0 ==> complaint(c) is Some,
        c.bucket_prefix@.len() > 0 && !prefix_is_valid(c.bucket_prefix@) ==> complaint(c) is Some && (
        "bucket_prefix ("@ + debug_text(c.bucket_prefix@)).is_prefix_of(complaint(c)->0),
        c.bucket_prefix@.len() > 0 && prefix_is_valid(c.bucket_prefix@) && c.gc.min_interval_ms
            > c.gc.interval_ms ==> complaint(c) is Some && ("gc.min_interval_ms ("@ + decimal(
            c.gc.min_interval_ms as nat,
        ) + ") exceeds gc.interval_ms ("@ + decimal(c.gc.interval_ms as nat)).is_prefix_of(
            complaint(c)->0,
        ),
        c.bucket_prefix@.len() > 0 && prefix_is_valid(c.bucket_prefix@) && c.gc.min_interval_ms
            <= c.gc.interval_ms && c.gc.max_concurrency < c.gc.concurrency ==> complaint(c) is Some
            && ("gc.max_concurrency ("@ + decimal(c.gc.max_concurrency as nat)
            + ") is below gc.concurrency ("@ + decimal(c.gc.concurrency as nat)).is_prefix_of(
            complaint(c)->0,
        ),
{
}

/// A prefix is valid exactly where every byte of it is a lower-case letter, a digit or a dash; a byte
/// that is none of these spoils it wherever it stands.
pub proof fn one_byte_spoils_a_prefix(prefix: Seq<char>, i: int)
    requires
        0 <= i < encode_utf8(prefix).len(),
        prefix_is_valid(prefix),
    ensures
        ({
            let b = encode_utf8(prefix)[i];
            97 <= b <= 122 || 48 <= b <= 57 || b == 45
        }),
{
}

/// A role's buckets carry the deployment's prefix, a dash, the role and a dash, in this order.
pub proof fn a_role_prefix_carries_both_names(bucket_prefix: Seq<char>, role: Seq<char>)
    ensures
        role_prefix_of(bucket_prefix, role).len() == bucket_prefix.len() + role.len() + 2,
        bucket_prefix.is_prefix_of(role_prefix_of(bucket_prefix, role)),
        role_prefix_of(bucket_prefix, role)[bucket_prefix.len() as int] == '-',
        role_prefix_of(bucket_prefix, role).subrange(
            bucket_prefix.len() as int + 1,
            (bucket_prefix.len() + 1 + role.len()) as int,
        ) == role,
        role_prefix_of(bucket_prefix, role).last() == '-',
{
    assert(role_prefix_of(bucket_prefix, role).subrange(
        bucket_prefix.len() as int + 1,
        (bucket_prefix.len() + 1 + role.len()) as int,
    ) =~= role);
}

/// Each role has a letter of its own, and its buckets carry the letter between two dashes.
pub proof fn each_role_has_its_letter(prefix: Seq<char>)
    ensures
        role_prefix_of(prefix, DATA_ROLE@) == prefix + seq!['-', 'd', '-'],
        role_prefix_of(prefix, META_ROLE@) == prefix + seq!['-', 'm', '-'],
        role_prefix_of(prefix, REMOTE_ROLE@) == prefix + seq!['-', 'r', '-'],
        prefix + seq!['-'] + GC_ROLE@ == prefix + seq!['-', 'g'],
{
    reveal_strlit("d");
    reveal_strlit("m");
    reveal_strlit("r");
    reveal_strlit("g");
    assert(role_prefix_of(prefix, DATA_ROLE@) =~= prefix + seq!['-', 'd', '-']);
    assert(role_prefix_of(prefix, META_ROLE@) =~= prefix + seq!['-', 'm', '-']);
    assert(role_prefix_of(prefix, REMOTE_ROLE@) =~= prefix + seq!['-', 'r', '-']);
    assert(prefix + seq!['-'] + GC_ROLE@ =~= prefix + seq!['-', 'g']);
}

} // verus!
