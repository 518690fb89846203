//! What the gateway says to an S3 backend and reads out of its answers.

use crate::codes::{
    escaped, hex_digit, lossy_text, percent_decode, percent_encode_byte, string_from_utf8_lossy,
    unescaped,
};
use crate::config::{debug_text, render_debug};
use crate::error::{Error, ErrorView};
use crate::meta::keyspace::{trim_quotes, unquoted};
use crate::text::{chars_of, decimal, has_prefix, push_decimal, text_between};
use vstd::prelude::*;
use vstd::string::StringExecFns;
use vstd::utf8::{
    decode_utf8, encode_utf8, encode_utf8_decode_utf8, encode_utf8_valid_utf8, is_ascii_chars,
    is_ascii_chars_encode_utf8, valid_utf8,
};

verus! {

/// One entry of a parts listing.  The number is not a key: some backends keep every upload of a
/// part and list them all.
#[derive(Clone, Debug, PartialEq, Eq)]
pub struct RemotePart {
    pub number: i32,
    pub etag: String,
    pub size: u64,
    pub last_modified_ms: i64,
}

/// A key that a batch delete did not remove.
#[derive(Clone, Debug, PartialEq, Eq)]
pub struct BatchDeleteError {
    pub key: String,
    pub code: String,
    pub message: String,
}

/// An optional text as a sequence.
pub open spec fn text_or(s: Option<String>, default: Seq<char>) -> Seq<char> {
    match s {
        Some(t) => t@,
        None => default,
    }
}

// ---- bucket names -----------------------------------------------------------------------------

/// The backend's name of a client's bucket.
pub fn backend_bucket(prefix: &str, bucket: &str) -> (name: String)
    ensures
        name@ == prefix@ + bucket@,
{
    let mut name: String = prefix.to_string();
    name.append(bucket);
    name
}

/// The client's name of a backend bucket; `None` for a bucket of another deployment.
pub fn client_bucket(prefix: &str, full: &str) -> (name: Option<String>)
    ensures
        match name {
            Some(n) => full@ == prefix@ + n@,
            None => !prefix@.is_prefix_of(full@),
        },
{
    let chars: Vec<char> = chars_of(full);
    let lead: Vec<char> = chars_of(prefix);
    if has_prefix(&chars, prefix) {
        let name: String = text_between(&chars, lead.len(), chars.len());
        assert(full@ =~= prefix@ + name@);
        Some(name)
    } else {
        None
    }
}

/// A bucket as the backend lists it.
#[derive(Clone, Debug, PartialEq, Eq)]
pub struct ListedBucket {
    pub name: Option<String>,
    pub created_ms: Option<i64>,
}

/// The buckets of a listing that are under a prefix, by their client names.
pub open spec fn own_buckets(prefix: Seq<char>, listed: Seq<ListedBucket>) -> Seq<(
    Seq<char>,
    Option<i64>,
)>
    decreases listed.len(),
{
    if listed.len() == 0 {
        Seq::empty()
    } else {
        let before = own_buckets(prefix, listed.drop_last());
        match listed.last().name {
            Some(name) if prefix.is_prefix_of(name@) => before.push(
                (name@.skip(prefix.len() as int), listed.last().created_ms),
            ),
            _ => before,
        }
    }
}

/// Named buckets with their names as sequences.
pub open spec fn bucket_rows(rows: Seq<(String, Option<i64>)>) -> Seq<(Seq<char>, Option<i64>)> {
    Seq::new(rows.len(), |i: int| (rows[i].0@, rows[i].1))
}

/// This deployment's buckets out of all that the backend lists.
pub fn list_buckets(prefix: &str, listed: &Vec<ListedBucket>) -> (own: Vec<(String, Option<i64>)>)
    ensures
        bucket_rows(own@) == own_buckets(prefix@, listed@),
{
    let mut own: Vec<(String, Option<i64>)> = Vec::new();
    let mut i: usize = 0;
    assert(listed@.take(0) =~= Seq::empty());
    assert(bucket_rows(own@) =~= own_buckets(prefix@, listed@.take(0)));
    while i < listed.len()
        invariant
            i <= listed@.len(),
            bucket_rows(own@) == own_buckets(prefix@, listed@.take(i as int)),
        decreases listed@.len() - i,
    {
        let ghost before = own@;
        proof {
            assert(listed@.take(i + 1).drop_last() =~= listed@.take(i as int));
            assert(listed@.take(i + 1).last() == listed@[i as int]);
        }
        if let Some(full) = &listed[i].name {
            match client_bucket(prefix, full.as_str()) {
                Some(name) => {
                    let created: Option<i64> = listed[i].created_ms;
                    assert(full@.skip(prefix@.len() as int) =~= name@);
                    assert(prefix@.is_prefix_of(full@));
                    own.push((name, created));
                    assert(bucket_rows(own@) =~= bucket_rows(before).push((name@, created)));
                },
                None => {},
            }
        }
        i += 1;
    }
    assert(listed@.take(i as int) =~= listed@);
    own
}

// ---- keys on the wire -------------------------------------------------------------------------

/// What a listed key stands for: it arrives percent-escaped.
pub open spec fn listed_key(s: Seq<char>) -> Seq<char> {
    lossy_text(unescaped(encode_utf8(s)))
}

/// Reads a key as a listing carries it.  What is not text after that is replaced, rather than
/// failing the whole page.
pub fn url_decode(s: &str) -> (key: String)
    ensures
        key@ == listed_key(s@),
        valid_utf8(unescaped(encode_utf8(s@))) ==> key@ == decode_utf8(
            unescaped(encode_utf8(s@)),
        ),
{
    let bytes: Vec<u8> = percent_decode(s);
    string_from_utf8_lossy(bytes.as_slice())
}

/// The bytes that stand for themselves in a copy source: RFC 3986 unreserved ones, and the slash,
/// which stays a separator.
pub open spec fn plain_in_copy_source(b: u8) -> bool {
    ||| 48 <= b <= 57
    ||| 65 <= b <= 90
    ||| 97 <= b <= 122
    ||| b == 45
    ||| b == 46
    ||| b == 95
    ||| b == 126
    ||| b == 47
}

/// A key as a copy source carries it.
pub open spec fn copy_source_key(bytes: Seq<u8>) -> Seq<char>
    decreases bytes.len(),
{
    if bytes.len() == 0 {
        Seq::empty()
    } else {
        copy_source_key(bytes.drop_last()) + if plain_in_copy_source(bytes.last()) {
            seq![bytes.last() as char]
        } else {
            escaped(bytes.last())
        }
    }
}

/// Escapes a key for the header that names a copy's source.
pub fn encode_copy_source_key(key: &str) -> (encoded: String)
    ensures
        encoded@ == copy_source_key(encode_utf8(key@)),
{
    let bytes: &[u8] = key.as_bytes();
    let mut out: String = String::new();
    let mut i: usize = 0;
    assert(bytes@.take(0) =~= Seq::empty());
    while i < bytes.len()
        invariant
            i <= bytes@.len(),
            out@ == copy_source_key(bytes@.take(i as int)),
        decreases bytes@.len() - i,
    {
        let b: u8 = bytes[i];
        let ghost before = out@;
        proof {
            assert(bytes@.take(i + 1).drop_last() =~= bytes@.take(i as int));
            assert(bytes@.take(i + 1).last() == b);
        }
        let digit: bool = 48 <= b && b <= 57;
        let letter: bool = (65 <= b && b <= 90) || (97 <= b && b <= 122);
        if digit || letter || b == 45 || b == 46 || b == 95 || b == 126 || b == 47 {
            out.push(b as char);
            assert(out@ =~= before + seq![b as char]);
        } else {
            out.append(percent_encode_byte(b));
        }
        i += 1;
    }
    assert(bytes@.take(i as int) =~= bytes@);
    out
}

/// The header that names a copy's source.
pub fn copy_source(prefix: &str, bucket: &str, key: &str) -> (source: String)
    ensures
        source@ == (prefix@ + bucket@).push('/') + copy_source_key(encode_utf8(key@)),
{
    let mut source: String = backend_bucket(prefix, bucket);
    source.push('/');
    source.append(encode_copy_source_key(key).as_str());
    source
}

// ---- listings ---------------------------------------------------------------------------------

/// A size as a listing carries it; none, and one below zero, count as zero.
pub open spec fn listed_size(size: Option<i64>) -> u64 {
    match size {
        Some(s) if s > 0 => s as u64,
        _ => 0,
    }
}

pub fn size_of_listed(size: Option<i64>) -> (bytes: u64)
    ensures
        bytes == listed_size(size),
{
    match size {
        Some(s) => if s > 0 {
            s as u64
        } else {
            0
        },
        None => 0,
    }
}

/// An ETag as a listing carries it, without its quotes.
pub fn etag_of_listed(etag: &Option<String>) -> (bare: String)
    ensures
        bare@ == unquoted(text_or(*etag, Seq::empty())),
{
    match etag {
        Some(e) => trim_quotes(e.as_str()),
        None => {
            let empty: String = String::new();
            let bare: String = trim_quotes(empty.as_str());
            assert(empty@ =~= Seq::empty());
            bare
        },
    }
}

/// An object as a listing carries it.
#[derive(Clone, Debug, PartialEq, Eq)]
pub struct ListedObject {
    pub key: Option<String>,
    pub size: Option<i64>,
    pub etag: Option<String>,
    pub last_modified_ms: Option<i64>,
}

/// A part as the backend lists it.
#[derive(Clone, Debug, PartialEq, Eq)]
pub struct ListedPart {
    pub number: Option<i32>,
    pub etag: Option<String>,
    pub size: Option<i64>,
    pub last_modified_ms: Option<i64>,
}

/// A [`RemotePart`], with text as a sequence.
pub struct RemotePartView {
    pub number: i32,
    pub etag: Seq<char>,
    pub size: u64,
    pub last_modified_ms: i64,
}

impl View for RemotePart {
    type V = RemotePartView;

    open spec fn view(&self) -> RemotePartView {
        RemotePartView {
            number: self.number,
            etag: self.etag@,
            size: self.size,
            last_modified_ms: self.last_modified_ms,
        }
    }
}

/// What a listed part says: nothing without a number and a size.
pub open spec fn part_of(p: ListedPart) -> Option<RemotePartView> {
    match (p.number, p.size) {
        (Some(number), Some(_)) => Some(
            RemotePartView {
                number,
                etag: unquoted(text_or(p.etag, Seq::empty())),
                size: listed_size(p.size),
                last_modified_ms: match p.last_modified_ms {
                    Some(ms) => ms,
                    None => 0,
                },
            },
        ),
        _ => None,
    }
}

/// The parts of a page, in its order.
pub open spec fn parts_of(page: Seq<ListedPart>) -> Seq<RemotePartView>
    decreases page.len(),
{
    if page.len() == 0 {
        Seq::empty()
    } else {
        let before = parts_of(page.drop_last());
        match part_of(page.last()) {
            Some(p) => before.push(p),
            None => before,
        }
    }
}

/// Parts with their text as sequences.
pub open spec fn part_views(parts: Seq<RemotePart>) -> Seq<RemotePartView> {
    Seq::new(parts.len(), |i: int| parts[i]@)
}

/// Adds a page of a parts listing to the parts that came before it.
pub fn add_parts(parts: &mut Vec<RemotePart>, page: &Vec<ListedPart>)
    ensures
        part_views(final(parts)@) == part_views(old(parts)@) + parts_of(page@),
{
    let ghost first = part_views(parts@);
    let mut i: usize = 0;
    assert(page@.take(0) =~= Seq::empty());
    assert(part_views(parts@) =~= first + parts_of(page@.take(0)));
    while i < page.len()
        invariant
            i <= page@.len(),
            part_views(parts@) == first + parts_of(page@.take(i as int)),
        decreases page@.len() - i,
    {
        let ghost before = parts@;
        proof {
            assert(page@.take(i + 1).drop_last() =~= page@.take(i as int));
            assert(page@.take(i + 1).last() == page@[i as int]);
        }
        let p: &ListedPart = &page[i];
        if let Some(number) = p.number {
            if let Some(_) = p.size {
                let part = RemotePart {
                    number,
                    etag: etag_of_listed(&p.etag),
                    size: size_of_listed(p.size),
                    last_modified_ms: match p.last_modified_ms {
                        Some(ms) => ms,
                        None => 0,
                    },
                };
                parts.push(part);
                assert(part_of(*p) == Some(part@));
                assert(part_views(parts@) =~= part_views(before).push(part@));
                assert(part_views(parts@) =~= first + parts_of(page@.take(i + 1)));
            }
        }
        i += 1;
    }
    assert(page@.take(i as int) =~= page@);
}

/// Where a listing goes on: only after a page that is cut short and says from where.
pub fn next_marker(truncated: Option<bool>, marker: Option<String>) -> (next: Option<String>)
    ensures
        next == if truncated == Some(true) {
            marker
        } else {
            None
        },
{
    match truncated {
        Some(true) => marker,
        _ => None,
    }
}

// ---- batch deletes ----------------------------------------------------------------------------

/// One refusal of a batch delete, as the backend reports it.
#[derive(Clone, Debug, PartialEq, Eq)]
pub struct ReportedFailure {
    pub key: Option<String>,
    pub code: Option<String>,
    pub message: Option<String>,
}

/// The keys that a batch delete did not remove.  A key that is not among them is gone.
pub fn batch_failures(reported: Vec<ReportedFailure>) -> (failed: Vec<BatchDeleteError>)
    ensures
        failed@.len() == reported@.len(),
        forall|i: int|
            0 <= i < failed@.len() ==> {
                let f = #[trigger] failed@[i];
                let r = reported@[i];
                &&& f.key@ == text_or(r.key, Seq::empty())
                &&& f.code@ == text_or(r.code, "InternalError"@)
                &&& f.message@ == text_or(r.message, Seq::empty())
            },
{
    let mut failed: Vec<BatchDeleteError> = Vec::new();
    let mut i: usize = 0;
    while i < reported.len()
        invariant
            i <= reported@.len(),
            failed@.len() == i,
            forall|k: int|
                0 <= k < i ==> {
                    let f = #[trigger] failed@[k];
                    let r = reported@[k];
                    &&& f.key@ == text_or(r.key, Seq::empty())
                    &&& f.code@ == text_or(r.code, "InternalError"@)
                    &&& f.message@ == text_or(r.message, Seq::empty())
                },
        decreases reported@.len() - i,
    {
        let r: &ReportedFailure = &reported[i];
        let key: String = match &r.key {
            Some(k) => k.clone(),
            None => String::new(),
        };
        let code: String = match &r.code {
            Some(c) => c.clone(),
            None => "InternalError".to_string(),
        };
        let message: String = match &r.message {
            Some(m) => m.clone(),
            None => String::new(),
        };
        assert(key@ =~= text_or(r.key, Seq::empty()));
        assert(message@ =~= text_or(r.message, Seq::empty()));
        failed.push(BatchDeleteError { key, code, message });
        i += 1;
    }
    failed
}

/// What is said of a batch delete that left keys behind.
pub open spec fn batch_complaint(failed: Seq<BatchDeleteError>, total: nat) -> Seq<char> {
    "batch delete: "@ + decimal(failed.len()) + " of "@ + decimal(total) + " keys failed, first "@
        + debug_text(failed[0].key@) + ": "@ + failed[0].code@ + " "@ + failed[0].message@
}

/// A batch delete where any failure is a failure of the whole.
pub fn batch_outcome(failed: &Vec<BatchDeleteError>, total: usize) -> (outcome: Result<(), Error>)
    ensures
        match outcome {
            Ok(_) => failed@.len() == 0,
            Err(e) => failed@.len() > 0 && e@ == ErrorView::Backend(
                batch_complaint(failed@, total as nat),
            ),
        },
{
    if failed.len() == 0 {
        return Ok(());
    }
    let first: &BatchDeleteError = &failed[0];
    let mut text: String = "batch delete: ".to_string();
    push_decimal(&mut text, failed.len() as u64);
    text.append(" of ");
    push_decimal(&mut text, total as u64);
    text.append(" keys failed, first ");
    text.append(render_debug(first.key.as_str()).as_str());
    text.append(": ");
    text.append(first.code.as_str());
    text.append(" ");
    text.append(first.message.as_str());
    Err(Error::Backend(text))
}

// ---- buckets that must exist ------------------------------------------------------------------

/// What is to be done so that a bucket exists.
#[derive(Debug, PartialEq, Eq)]
pub enum EnsureStep {
    Ready,
    Create,
    /// The creation failed: look once more, as another may have created it.
    LookAgain,
    Failed(Error),
}

/// After a look for the bucket.
pub fn ensure_bucket(looked: Result<(), Error>) -> (step: EnsureStep)
    ensures
        match looked {
            Ok(_) => step is Ready,
            Err(e) => if e@ == ErrorView::NoSuchBucket {
                step is Create
            } else {
                step matches EnsureStep::Failed(f) && f@ == e@
            },
        },
{
    match looked {
        Ok(_) => EnsureStep::Ready,
        Err(Error::NoSuchBucket) => EnsureStep::Create,
        Err(e) => EnsureStep::Failed(e),
    }
}

/// After an attempt to create the bucket.
pub fn after_creation(created: &Result<(), Error>) -> (step: EnsureStep)
    ensures
        created is Ok ==> step is Ready,
        created is Err ==> step is LookAgain,
{
    match created {
        Ok(_) => EnsureStep::Ready,
        Err(_) => EnsureStep::LookAgain,
    }
}

/// After the second look: a bucket that another created will do, and what else went wrong is what
/// the creation said.
pub fn after_second_look(creation: Error, found: bool) -> (step: EnsureStep)
    ensures
        found ==> step is Ready,
        !found ==> (step matches EnsureStep::Failed(f) && f@ == creation@),
{
    if found {
        EnsureStep::Ready
    } else {
        EnsureStep::Failed(creation)
    }
}

// ---- laws -------------------------------------------------------------------------------------

/// A client's bucket name survives the way to the backend and back.
pub proof fn bucket_names_round_trip(prefix: Seq<char>, bucket: Seq<char>)
    ensures
        prefix.is_prefix_of(prefix + bucket),
        (prefix + bucket).skip(prefix.len() as int) == bucket,
{
    assert((prefix + bucket).skip(prefix.len() as int) =~= bucket);
    assert((prefix + bucket).take(prefix.len() as int) =~= prefix);
}

/// What stands for a byte in a copy source.
pub open spec fn copy_source_byte(b: u8) -> Seq<char> {
    if plain_in_copy_source(b) {
        seq![b as char]
    } else {
        escaped(b)
    }
}

/// The form of a key begins with that of its first byte.
proof fn lemma_first_byte(bytes: Seq<u8>)
    requires
        bytes.len() > 0,
    ensures
        copy_source_key(bytes) == copy_source_byte(bytes[0]) + copy_source_key(bytes.skip(1)),
    decreases bytes.len(),
{
    let (init, last) = (bytes.drop_last(), bytes.last());
    if bytes.len() == 1 {
        assert(init =~= Seq::empty());
        assert(bytes.skip(1) =~= Seq::empty());
        assert(copy_source_key(init) =~= Seq::empty());
        assert(copy_source_key(bytes.skip(1)) =~= Seq::empty());
        assert(copy_source_key(bytes) =~= copy_source_byte(bytes[0]));
    } else {
        lemma_first_byte(init);
        assert(init.skip(1) =~= bytes.skip(1).drop_last());
        assert(bytes.skip(1).last() == last);
        assert(copy_source_key(bytes) =~= copy_source_byte(bytes[0]) + (copy_source_key(
            init.skip(1),
        ) + copy_source_byte(last)));
    }
}

/// The form of a key is ASCII, and its escapes stand for the bytes of the key.
proof fn lemma_copy_source_reads_back(bytes: Seq<u8>)
    ensures
        is_ascii_chars(copy_source_key(bytes)),
        unescaped(
            Seq::new(copy_source_key(bytes).len(), |i: int| copy_source_key(bytes)[i] as u8),
        ) == bytes,
    decreases bytes.len(),
{
    let text = copy_source_key(bytes);
    let ascii = Seq::new(text.len(), |i: int| text[i] as u8);
    if bytes.len() == 0 {
        assert(ascii =~= Seq::empty());
        assert(unescaped(ascii) =~= bytes);
    } else {
        let (b, rest) = (bytes[0], bytes.skip(1));
        let more = copy_source_key(rest);
        lemma_first_byte(bytes);
        lemma_copy_source_reads_back(rest);
        let tail = Seq::new(more.len(), |i: int| more[i] as u8);
        let one = copy_source_byte(b);
        assert(is_ascii_chars(one));
        assert forall|i: int| 0 <= i < text.len() implies 0 <= text[i] as nat && (text[i] as nat)
            < 128 by {
            if i < one.len() {
                assert(text[i] == one[i]);
            } else {
                assert(text[i] == more[i - one.len()]);
            }
        }
        assert(bytes =~= seq![b] + rest);
        if plain_in_copy_source(b) {
            assert(ascii[0] == b && b != 37);
            assert(ascii.skip(1) =~= tail);
        } else {
            assert(ascii[0] == 37);
            assert(hex_digit(ascii[1]) == Some(b as nat / 16));
            assert(hex_digit(ascii[2]) == Some(b as nat % 16));
            assert(ascii.skip(3) =~= tail);
        }
        assert(unescaped(ascii) =~= seq![b] + unescaped(tail));
    }
}

/// A copy source names its key: to read its escapes as those of a listing gives the key back.
pub proof fn copy_sources_name_their_key(key: Seq<char>)
    ensures
        unescaped(encode_utf8(copy_source_key(encode_utf8(key)))) == encode_utf8(key),
        valid_utf8(unescaped(encode_utf8(copy_source_key(encode_utf8(key))))),
        decode_utf8(unescaped(encode_utf8(copy_source_key(encode_utf8(key))))) == key,
{
    let text = copy_source_key(encode_utf8(key));
    lemma_copy_source_reads_back(encode_utf8(key));
    is_ascii_chars_encode_utf8(text);
    assert(encode_utf8(text) =~= Seq::new(text.len(), |i: int| text[i] as u8));
    encode_utf8_valid_utf8(key);
    encode_utf8_decode_utf8(key);
}

/// A listing of buckets is read one by one: a bucket whose name starts with the prefix is the gateway's,
/// under what follows the prefix and with its own date, and no other is.
pub proof fn every_bucket_under_the_prefix_is_the_gateways(
    prefix: Seq<char>,
    a: Seq<ListedBucket>,
    b: Seq<ListedBucket>,
    one: ListedBucket,
)
    ensures
        own_buckets(prefix, a + b) == own_buckets(prefix, a) + own_buckets(prefix, b),
        own_buckets(prefix, Seq::<ListedBucket>::empty()).len() == 0,
        one.name is Some && prefix.is_prefix_of(one.name->0@) ==> own_buckets(prefix, seq![one]).len()
            == 1 && prefix + own_buckets(prefix, seq![one])[0].0 == one.name->0@ && own_buckets(
            prefix,
            seq![one],
        )[0].1 == one.created_ms,
        one.name is None || !prefix.is_prefix_of(one.name->0@) ==> own_buckets(
            prefix,
            seq![one],
        ).len() == 0,
    decreases b.len(),
{
    assert(seq![one].drop_last() =~= Seq::<ListedBucket>::empty());
    assert(seq![one].last() == one);
    reveal_with_fuel(own_buckets, 2);
    if one.name is Some && prefix.is_prefix_of(one.name->0@) {
        assert(prefix + one.name->0@.skip(prefix.len() as int) =~= one.name->0@);
    }
    if b.len() == 0 {
        assert(a + b =~= a);
        assert(own_buckets(prefix, a) + own_buckets(prefix, b) =~= own_buckets(prefix, a));
    } else {
        every_bucket_under_the_prefix_is_the_gateways(prefix, a, b.drop_last(), one);
        assert((a + b).drop_last() =~= a + b.drop_last());
        assert((a + b).last() == b.last());
        assert(own_buckets(prefix, a + b) =~= own_buckets(prefix, a) + own_buckets(prefix, b));
    }
}

/// The key of a copy source is written byte by byte: letters, digits, `-`, `.`, `_`, `~` and `/` stand for
/// themselves, and every other byte is escaped.
pub proof fn a_key_is_written_byte_by_byte(
    a: Seq<u8>,
    b: Seq<u8>,
    one: u8,
)
    ensures
        copy_source_key(a + b) == copy_source_key(a) + copy_source_key(b),
        copy_source_key(Seq::<u8>::empty()).len() == 0,
        48 <= one <= 57 || 65 <= one <= 90 || 97 <= one <= 122 || one == 45 || one == 46 || one == 95
            || one == 126 || one == 47 ==> copy_source_key(seq![one]) == seq![one as char],
        !(48 <= one <= 57 || 65 <= one <= 90 || 97 <= one <= 122 || one == 45 || one == 46 || one
            == 95 || one == 126 || one == 47) ==> copy_source_key(seq![one]) == escaped(one),
    decreases b.len(),
{
    assert(seq![one].drop_last() =~= Seq::<u8>::empty());
    assert(seq![one].last() == one);
    reveal_with_fuel(copy_source_key, 2);
    assert(copy_source_key(seq![one]) =~= copy_source_byte(one));
    if b.len() == 0 {
        assert(a + b =~= a);
        assert(copy_source_key(a) + copy_source_key(b) =~= copy_source_key(a));
    } else {
        a_key_is_written_byte_by_byte(a, b.drop_last(), one);
        assert((a + b).drop_last() =~= a + b.drop_last());
        assert((a + b).last() == b.last());
        assert(copy_source_key(a + b) =~= copy_source_key(a) + copy_source_key(b));
    }
}

/// A listing of parts is read one by one: a part with a number and a length is shown with both, its ETag
/// without the quotes and its time; another is left out.
pub proof fn every_listed_part_is_shown_as_it_is(
    a: Seq<ListedPart>,
    b: Seq<ListedPart>,
    one: ListedPart,
)
    ensures
        parts_of(a + b) == parts_of(a) + parts_of(b),
        parts_of(Seq::<ListedPart>::empty()).len() == 0,
        one.number is Some && one.size is Some ==> parts_of(seq![one]).len() == 1 && ({
            let p = parts_of(seq![one])[0];
            &&& p.number == one.number->0
            &&& one.size->0 >= 0 ==> p.size == one.size->0
            &&& one.size->0 < 0 ==> p.size == 0
            &&& one.etag is Some ==> p.etag == unquoted(one.etag->0@)
            &&& one.etag is None ==> p.etag == unquoted(Seq::empty())
            &&& one.last_modified_ms is Some ==> p.last_modified_ms == one.last_modified_ms->0
            &&& one.last_modified_ms is None ==> p.last_modified_ms == 0
        }),
        one.number is None || one.size is None ==> parts_of(seq![one]).len() == 0,
    decreases b.len(),
{
    assert(seq![one].drop_last() =~= Seq::<ListedPart>::empty());
    assert(seq![one].last() == one);
    reveal_with_fuel(parts_of, 2);
    if b.len() == 0 {
        assert(a + b =~= a);
        assert(parts_of(a) + parts_of(b) =~= parts_of(a));
    } else {
        every_listed_part_is_shown_as_it_is(a, b.drop_last(), one);
        assert((a + b).drop_last() =~= a + b.drop_last());
        assert((a + b).last() == b.last());
        assert(parts_of(a + b) =~= parts_of(a) + parts_of(b));
    }
}

/// A listed length is the length, and one that is missing or below zero counts for nothing.
pub proof fn a_listed_length_is_taken_as_it_is(size: Option<i64>)
    ensures
        size is Some && size->0 >= 0 ==> listed_size(size) == size->0,
        size is None || size->0 < 0 ==> listed_size(size) == 0,
{
}

/// A text that is given is taken, and a default only where none is.
pub proof fn a_default_is_for_what_is_missing(s: Option<String>, default: Seq<char>)
    ensures
        s is Some ==> text_or(s, default) == s->0@,
        s is None ==> text_or(s, default) == default,
{
}

/// What is said of a part is said of its own fields.
pub proof fn a_part_is_seen_as_it_is(x: RemotePart)
    ensures
        x@.number == x.number,
        x@.etag == x.etag@,
        x@.size == x.size,
        x@.last_modified_ms == x.last_modified_ms,
{
}

/// Rows are seen one by one: a bucket with its name and its date, a part with its fields.
pub proof fn rows_are_seen_one_by_one(a: Seq<(String, Option<i64>)>, b: Seq<RemotePart>, i: int)
    ensures
        bucket_rows(a).len() == a.len(),
        0 <= i < a.len() ==> bucket_rows(a)[i].0 == a[i].0@,
        0 <= i < a.len() ==> bucket_rows(a)[i].1 == a[i].1,
        part_views(b).len() == b.len(),
        0 <= i < b.len() ==> part_views(b)[i] == b[i]@,
{
}

/// A failed batch says how many of how many keys failed, and tells of the first.
pub proof fn a_failed_batch_tells_of_its_first_key(failed: Seq<BatchDeleteError>, total: nat)
    requires
        failed.len() > 0,
    ensures
        ("batch delete: "@ + decimal(failed.len()) + " of "@ + decimal(total) + " keys failed, first "@
            + debug_text(failed[0].key@)).is_prefix_of(batch_complaint(failed, total)),
        (": "@ + failed[0].code@ + " "@ + failed[0].message@).is_suffix_of(
            batch_complaint(failed, total),
        ),
{
    let whole = batch_complaint(failed, total);
    let tail = ": "@ + failed[0].code@ + " "@ + failed[0].message@;
    assert(whole.subrange(whole.len() - tail.len(), whole.len() as int) =~= tail);
}

} // verus!
