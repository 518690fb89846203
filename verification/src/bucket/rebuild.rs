//! Re-derives a cached bucket's pending set from its cache namespace.
//!
//! The pass raises markers and nothing else: to materialize a remote key could bring back a deleted
//! object.  Whatever it infers it infers from a fresh look under the key's lock.

use crate::backend::{etag_of_listed, listed_size, size_of_listed, text_or, ListedObject};
use crate::codes::hex_text_has_no_quotes;
use crate::error::{Error, ErrorView};
use crate::halt::{Invariant, Violation};
use crate::meta::keyspace::{
    a_quoted_text_is_read_as_the_text, is_reserved_remote_key, unquoted,
    unquoting_takes_the_quotes_and_nothing_else,
};
use crate::meta::metadata::Metadata;
use crate::meta::sentinel::{
    classified, classify_entry, delete_marker_body, etag_of_body, tomb_kind, tomb_named,
    TombKind, DELETE_MARKER_SENTINEL, EVICT_SENTINEL, TRANSIT_SENTINEL,
};
use crate::order::{
    key_less, order_is_strict, order_is_total, order_is_transitive, order_of, KeyOrder,
};
use crate::text::same_text;
use vstd::prelude::*;
use vstd::utf8::{encode_utf8, encode_utf8_decode_utf8};

verus! {

/// How many sightings are looked into at a time.
pub const BATCH: usize = 256;

/// What is wrong where the remote no longer has what a tombstone stands for.
pub const OBJECT_LOST: &'static str =
    "an eviction tombstone's remote object is missing; the remote lost bytes hypha reported as committed, and this tombstone is the only record they existed";

/// What is wrong where a rebuild runs in the wrong mode.
pub const NO_PENDING_SET: &'static str =
    "a pending-set rebuild was dispatched for a durable-mode deployment, which commits on the remote and has no pending set";

// ---- the walk over two listings ---------------------------------------------------------------

/// One key of one listing.
#[derive(Clone, Debug, PartialEq, Eq)]
pub struct Entry {
    pub key: String,
    pub size: u64,
    pub etag: String,
}

/// An [`Entry`], with text as sequences.
#[verifier::ext_equal]
pub struct EntryView {
    pub key: Seq<char>,
    pub size: u64,
    pub etag: Seq<char>,
}

impl View for Entry {
    type V = EntryView;

    open spec fn view(&self) -> EntryView {
        EntryView { key: self.key@, size: self.size, etag: self.etag@ }
    }
}

/// What a listed object is in the walk: nothing without a key, and nothing under a reserved one.
pub open spec fn entry_of(o: ListedObject) -> Option<EntryView> {
    match o.key {
        Some(key) if !(key@.len() > 0 && key@[0] == crate::meta::keyspace::CONTROL) => Some(
            EntryView {
                key: key@,
                size: listed_size(o.size),
                etag: unquoted(text_or(o.etag, Seq::empty())),
            },
        ),
        _ => None,
    }
}

/// The entries of a page, in its order.
pub open spec fn entries_of(page: Seq<ListedObject>) -> Seq<EntryView>
    decreases page.len(),
{
    if page.len() == 0 {
        Seq::empty()
    } else {
        let before = entries_of(page.drop_last());
        match entry_of(page.last()) {
            Some(e) => before.push(e),
            None => before,
        }
    }
}

/// A place in one listing: what has been read of it and not been passed.
pub struct Cursor {
    buf: Vec<Entry>,
    at: usize,
    token: Option<String>,
    exhausted: bool,
}

impl Cursor {
    /// What has been read and not been passed.
    pub closed spec fn rest(&self) -> Seq<EntryView> {
        Seq::new((self.buf@.len() - self.at) as nat, |i: int| self.buf@[self.at + i]@)
    }

    pub closed spec fn exhausted(&self) -> bool {
        self.exhausted
    }

    pub closed spec fn token(&self) -> Option<String> {
        self.token
    }

    pub closed spec fn wf(&self) -> bool {
        self.at <= self.buf@.len()
    }

    pub fn new() -> (cursor: Self)
        ensures
            cursor.wf(),
            cursor.rest() == Seq::<EntryView>::empty(),
            !cursor.exhausted(),
            cursor.token() is None,
    {
        let cursor = Cursor { buf: Vec::new(), at: 0, token: None, exhausted: false };
        assert(cursor.rest() =~= Seq::<EntryView>::empty());
        cursor
    }

    /// Whether the listing has to be read on.
    pub fn needs_page(&self) -> (needs: bool)
        requires
            self.wf(),
        ensures
            needs == (self.rest().len() == 0 && !self.exhausted()),
    {
        self.at == self.buf.len() && !self.exhausted
    }

    /// The token of the page to read.
    pub fn take_token(&mut self) -> (token: Option<String>)
        requires
            old(self).wf(),
        ensures
            final(self).wf(),
            token == old(self).token(),
            final(self).token() is None,
            final(self).rest() == old(self).rest(),
            final(self).exhausted() == old(self).exhausted(),
    {
        let mut token: Option<String> = None;
        std::mem::swap(&mut self.token, &mut token);
        token
    }

    /// Takes in a page, and the token of the next one where there is one.
    pub fn add_page(&mut self, page: Vec<ListedObject>, next: Option<String>)
        requires
            old(self).wf(),
        ensures
            final(self).wf(),
            final(self).rest() == old(self).rest() + entries_of(page@),
            next is Some ==> final(self).token() == next && final(self).exhausted() == old(
                self,
            ).exhausted(),
            next is None ==> final(self).token() == old(self).token() && final(self).exhausted(),
    {
        let ghost first = self.rest();
        let mut i: usize = 0;
        assert(page@.take(0) =~= Seq::empty());
        assert(self.rest() =~= first + entries_of(page@.take(0)));
        while i < page.len()
            invariant
                i <= page@.len(),
                self.wf(),
                self.token == old(self).token,
                self.exhausted == old(self).exhausted,
                self.rest() == first + entries_of(page@.take(i as int)),
            decreases page@.len() - i,
        {
            let ghost before = self.rest();
            proof {
                assert(page@.take(i + 1).drop_last() =~= page@.take(i as int));
                assert(page@.take(i + 1).last() == page@[i as int]);
            }
            if let Some(key) = &page[i].key {
                if !is_reserved_remote_key(key.as_str()) {
                    let entry = Entry {
                        key: key.clone(),
                        size: size_of_listed(page[i].size),
                        etag: etag_of_listed(&page[i].etag),
                    };
                    self.buf.push(entry);
                    assert(entry_of(page@[i as int]) == Some(entry@));
                    assert(self.rest() =~= before.push(entry@));
                    assert(self.rest() =~= first + entries_of(page@.take(i + 1)));
                }
            }
            i += 1;
        }
        assert(page@.take(i as int) =~= page@);
        let ghost all = self.rest();
        match next {
            Some(t) => {
                self.token = Some(t);
            },
            None => {
                self.exhausted = true;
            },
        }
        assert(self.rest() =~= all);
    }

    /// Passes the entry in front.
    fn pop(&mut self) -> (entry: Entry)
        requires
            old(self).wf(),
            old(self).rest().len() > 0,
        ensures
            final(self).wf(),
            entry@ == old(self).rest()[0],
            final(self).rest() == old(self).rest().skip(1),
            final(self).token() == old(self).token(),
            final(self).exhausted() == old(self).exhausted(),
    {
        let total: usize = self.buf.len();
        assert(self.at < total);
        let e: &Entry = &self.buf[self.at];
        let entry = Entry { key: e.key.clone(), size: e.size, etag: e.etag.clone() };
        self.at = self.at + 1;
        assert(self.rest() =~= old(self).rest().skip(1));
        entry
    }
}

/// What two listings say of one key.
#[derive(Clone, Debug, PartialEq, Eq)]
pub enum Sighting {
    /// The cache holds a body or a tombstone; `remote_framed` is the length of the remote object,
    /// where there is one.
    Cached { key: String, size: u64, etag: String, remote_framed: Option<u64> },
    /// Only the remote holds the key.
    RemoteOnly { key: String },
}

/// A [`Sighting`], with text as sequences.
pub enum SightingView {
    Cached { entry: EntryView, remote_framed: Option<u64> },
    RemoteOnly { key: Seq<char> },
}

impl View for Sighting {
    type V = SightingView;

    open spec fn view(&self) -> SightingView {
        match *self {
            Sighting::Cached { key, size, etag, remote_framed } => SightingView::Cached {
                entry: EntryView { key: key@, size, etag: etag@ },
                remote_framed,
            },
            Sighting::RemoteOnly { key } => SightingView::RemoteOnly { key: key@ },
        }
    }
}

pub open spec fn sighted_key(s: SightingView) -> Seq<char> {
    match s {
        SightingView::Cached { entry, .. } => entry.key,
        SightingView::RemoteOnly { key } => key,
    }
}

/// The next key of the union of two listings, and what is left of them.
pub open spec fn merge_step(c: Seq<EntryView>, r: Seq<EntryView>) -> (
    SightingView,
    Seq<EntryView>,
    Seq<EntryView>,
) {
    if c.len() > 0 && r.len() > 0 && c[0].key == r[0].key {
        (
            SightingView::Cached { entry: c[0], remote_framed: Some(r[0].size) },
            c.skip(1),
            r.skip(1),
        )
    } else if c.len() > 0 && (r.len() == 0 || key_less(c[0].key, r[0].key)) {
        (SightingView::Cached { entry: c[0], remote_framed: None }, c.skip(1), r)
    } else {
        (SightingView::RemoteOnly { key: r[0].key }, c, r.skip(1))
    }
}

/// All that two whole listings show.
pub open spec fn merged(c: Seq<EntryView>, r: Seq<EntryView>) -> Seq<SightingView>
    decreases c.len() + r.len(),
{
    if c.len() == 0 && r.len() == 0 {
        Seq::empty()
    } else {
        let (s, c2, r2) = merge_step(c, r);
        if c2.len() + r2.len() < c.len() + r.len() {
            seq![s] + merged(c2, r2)
        } else {
            Seq::empty()
        }
    }
}

/// What the walk does next.
pub enum WalkStep {
    FillCache,
    FillRemote,
    End,
    Found(Sighting),
}

/// Advances whichever listing is behind.  Both list their keys in order, so the walk holds one page
/// of each, however many keys there are.
pub fn step(cache: &mut Cursor, remote: &mut Cursor) -> (next: WalkStep)
    requires
        old(cache).wf(),
        old(remote).wf(),
    ensures
        final(cache).wf(),
        final(remote).wf(),
        final(cache).exhausted() == old(cache).exhausted(),
        final(remote).exhausted() == old(remote).exhausted(),
        final(cache).token() == old(cache).token(),
        final(remote).token() == old(remote).token(),
        ({
            let (c, r) = (old(cache).rest(), old(remote).rest());
            if c.len() == 0 && !old(cache).exhausted() {
                next is FillCache && final(cache).rest() == c && final(remote).rest() == r
            } else if r.len() == 0 && !old(remote).exhausted() {
                next is FillRemote && final(cache).rest() == c && final(remote).rest() == r
            } else if c.len() == 0 && r.len() == 0 {
                next is End && final(cache).rest() == c && final(remote).rest() == r
            } else {
                next matches WalkStep::Found(s) && merge_step(c, r) == (
                    s@,
                    final(cache).rest(),
                    final(remote).rest(),
                )
            }
        }),
{
    if cache.needs_page() {
        return WalkStep::FillCache;
    }
    if remote.needs_page() {
        return WalkStep::FillRemote;
    }
    let ghost (c, r) = (cache.rest(), remote.rest());
    let (has_c, has_r): (bool, bool) = (
        cache.at < cache.buf.len(),
        remote.at < remote.buf.len(),
    );
    if !has_c && !has_r {
        return WalkStep::End;
    }
    let order = if !has_r {
        KeyOrder::Before
    } else if !has_c {
        KeyOrder::After
    } else {
        let (x, y): (&Entry, &Entry) = (&cache.buf[cache.at], &remote.buf[remote.at]);
        assert(x@ == c[0] && y@ == r[0]);
        let order = order_of(x.key.as_str(), y.key.as_str());
        proof {
            if order == KeyOrder::Before {
                order_is_strict(encode_utf8(x.key@), encode_utf8(y.key@));
            } else if order == KeyOrder::After {
                order_is_strict(encode_utf8(y.key@), encode_utf8(x.key@));
            }
        }
        order
    };
    match order {
        KeyOrder::After => {
            let entry: Entry = remote.pop();
            WalkStep::Found(Sighting::RemoteOnly { key: entry.key })
        },
        KeyOrder::Same => {
            let entry: Entry = cache.pop();
            let other: Entry = remote.pop();
            WalkStep::Found(
                Sighting::Cached {
                    key: entry.key,
                    size: entry.size,
                    etag: entry.etag,
                    remote_framed: Some(other.size),
                },
            )
        },
        KeyOrder::Before => {
            let entry: Entry = cache.pop();
            WalkStep::Found(
                Sighting::Cached {
                    key: entry.key,
                    size: entry.size,
                    etag: entry.etag,
                    remote_framed: None,
                },
            )
        },
    }
}

// ---- what a sighting owes ---------------------------------------------------------------------

/// What a sighting calls for.
#[derive(Clone, Copy, Debug, PartialEq, Eq, Structural)]
pub enum Owes {
    Nothing,
    /// Look again, under the key's lock, whether the remote lost an evicted object.
    ConfirmRemoteLost,
    /// Look again, under the key's lock, whether a delete was cut short.
    RecoverRemoteOnly,
    /// Read the remote object's trailer: only that tells two generations of one length apart.
    CompareGeneration,
    /// The remote does not hold this generation.
    Upload,
}

/// What a sighting calls for.  `expected_framed` is the remote length of a single-part object of the
/// sighted size, where it has a closed form.
pub open spec fn owed(s: SightingView, expected_framed: Option<u64>) -> Owes {
    match s {
        SightingView::RemoteOnly { .. } => Owes::RecoverRemoteOnly,
        SightingView::Cached { entry, remote_framed } => match classified(
            entry.size as int,
            entry.etag,
        ) {
            Some(TombKind::Evict) => if remote_framed is None {
                Owes::ConfirmRemoteLost
            } else {
                Owes::Nothing
            },
            Some(TombKind::Transit) => Owes::Nothing,
            None => match remote_framed {
                None => Owes::Upload,
                Some(framed) => if expected_framed is Some && expected_framed->0 != framed {
                    Owes::Upload
                } else {
                    Owes::CompareGeneration
                },
            },
        },
    }
}

/// Judges a sighting.
pub fn owes_marker(sighting: &Sighting, expected_framed: Option<u64>) -> (owes: Owes)
    ensures
        owes == owed(sighting@, expected_framed),
{
    match sighting {
        Sighting::RemoteOnly { .. } => Owes::RecoverRemoteOnly,
        Sighting::Cached { key: _, size, etag, remote_framed } => {
            let kind: Option<TombKind> = if *size <= 0x7fff_ffff_ffff_ffff {
                classify_entry(*size as i64, etag.as_str())
            } else {
                None
            };
            match kind {
                Some(TombKind::Evict) => match remote_framed {
                    Some(_) => Owes::Nothing,
                    None => Owes::ConfirmRemoteLost,
                },
                Some(TombKind::Transit) => Owes::Nothing,
                None => match remote_framed {
                    None => Owes::Upload,
                    Some(framed) => match expected_framed {
                        Some(expect) => if expect != *framed {
                            Owes::Upload
                        } else {
                            Owes::CompareGeneration
                        },
                        None => Owes::CompareGeneration,
                    },
                },
            }
        },
    }
}

/// What the trailer of the remote object settles.
pub fn after_comparison(same_generation: bool) -> (owes: Owes)
    ensures
        owes == if same_generation {
            Owes::Nothing
        } else {
            Owes::Upload
        },
{
    if same_generation {
        Owes::Nothing
    } else {
        Owes::Upload
    }
}

/// What the lookup of an object found.
pub enum Lookup {
    Found { etag: Option<String>, metadata: Metadata },
    Failed(Error),
}

/// Whether a lookup found the object; `Err` where it cannot tell.
pub open spec fn found(l: Lookup) -> Result<bool, ErrorView> {
    match l {
        Lookup::Found { .. } => Ok(true),
        Lookup::Failed(e) => if e@ == ErrorView::NotFound || e@ == ErrorView::NoSuchBucket {
            Ok(false)
        } else {
            Err(e@)
        },
    }
}

/// Whether a lookup found the object.
pub fn is_present(lookup: &Lookup) -> (present: Result<bool, Error>)
    ensures
        match present {
            Ok(p) => found(*lookup) == Ok::<bool, ErrorView>(p),
            Err(e) => found(*lookup) == Err::<bool, ErrorView>(e@),
        },
{
    match lookup {
        Lookup::Found { .. } => Ok(true),
        Lookup::Failed(e) => {
            if e.is_absence() {
                Ok(false)
            } else {
                Err(e.duplicate())
            }
        },
    }
}

/// Whether a body still owes its upload marker, from a fresh look under the key's lock.  A
/// generation that has moved on owes its own marker.
pub fn raise_upload_marker(cache: &Lookup, etag: &str) -> (raise: Result<bool, Error>)
    ensures
        match raise {
            Ok(raise) => match *cache {
                Lookup::Found { etag: now, .. } => raise == (unquoted(text_or(now, Seq::empty()))
                    == etag@),
                Lookup::Failed(_) => !raise && found(*cache) == Ok::<bool, ErrorView>(false),
            },
            Err(e) => found(*cache) == Err::<bool, ErrorView>(e@),
        },
{
    match cache {
        Lookup::Found { etag: now, .. } => {
            let current: String = etag_of_listed(now);
            Ok(same_text(current.as_str(), etag))
        },
        Lookup::Failed(e) => {
            if e.is_absence() {
                Ok(false)
            } else {
                Err(e.duplicate())
            }
        },
    }
}

/// The marker that a remote-only key owes, from a fresh look under its lock: one of a delete, where
/// the cache has no entry and the remote still has the object.
pub fn recover_remote_only(cache_has_entry: bool, remote_has_object: bool) -> (marker: Option<
    String,
>)
    ensures
        match marker {
            Some(body) => !cache_has_entry && remote_has_object && body@ == etag_of_body(
                DELETE_MARKER_SENTINEL@,
            ),
            None => cache_has_entry || !remote_has_object,
        },
{
    if cache_has_entry || !remote_has_object {
        None
    } else {
        Some(delete_marker_body())
    }
}

/// Whether the remote lost an evicted object, from a fresh look under the key's lock: the listing
/// may be older than the upload, and the tombstone may have been replaced since.
pub fn confirm_remote_lost_object(
    bucket: &str,
    key: &str,
    remote_has_object: bool,
    cache: &Lookup,
) -> (lost: Result<Option<Violation>, Error>)
    requires
        cache matches Lookup::Found { metadata, .. } ==> metadata.wf(),
    ensures
        match lost {
            Ok(Some(v)) => {
                &&& !remote_has_object
                &&& *cache matches Lookup::Found { metadata, .. } && tomb_named(metadata@) == Some(
                    TombKind::Evict,
                )
                &&& v.invariant == Invariant::RemoteLostObject
                &&& v.bucket@ == bucket@
                &&& v.key matches Some(k) && k@ == key@
                &&& v.detail@ == OBJECT_LOST@
            },
            Ok(None) => remote_has_object || match *cache {
                Lookup::Found { metadata, .. } => tomb_named(metadata@) != Some(TombKind::Evict),
                Lookup::Failed(_) => found(*cache) == Ok::<bool, ErrorView>(false),
            },
            Err(e) => !remote_has_object && found(*cache) == Err::<bool, ErrorView>(e@),
        },
{
    if remote_has_object {
        return Ok(None);
    }
    match cache {
        Lookup::Failed(e) => {
            if e.is_absence() {
                Ok(None)
            } else {
                Err(e.duplicate())
            }
        },
        Lookup::Found { metadata, .. } => {
            match tomb_kind(metadata) {
                Some(TombKind::Evict) => Ok(
                    Some(
                        Violation {
                            invariant: Invariant::RemoteLostObject,
                            bucket: bucket.to_string(),
                            key: Some(key.to_string()),
                            detail: OBJECT_LOST.to_string(),
                        },
                    ),
                ),
                _ => Ok(None),
            }
        },
    }
}

/// Whether a pending-set rebuild may run at all: a deployment that commits on the remote has no
/// pending set.
pub fn pending_set(cached: bool, bucket: &str) -> (refused: Option<Violation>)
    ensures
        match refused {
            Some(v) => {
                &&& !cached
                &&& v.invariant == Invariant::PendingRebuildInDurableMode
                &&& v.bucket@ == bucket@
                &&& v.key is None
                &&& v.detail@ == NO_PENDING_SET@
            },
            None => cached,
        },
{
    if cached {
        None
    } else {
        Some(
            Violation {
                invariant: Invariant::PendingRebuildInDurableMode,
                bucket: bucket.to_string(),
                key: None,
                detail: NO_PENDING_SET.to_string(),
            },
        )
    }
}

// ---- laws -------------------------------------------------------------------------------------

/// A listing: its keys come in order, each once.
pub open spec fn in_order(s: Seq<EntryView>) -> bool {
    forall|i: int, j: int|
        0 <= i < j < s.len() ==> key_less((#[trigger] s[i]).key, (#[trigger] s[j]).key)
}

pub open spec fn lists(s: Seq<EntryView>, key: Seq<char>) -> bool {
    exists|i: int| 0 <= i < s.len() && (#[trigger] s[i]).key == key
}

/// A step does not depend on what is still to be read, as long as no listing that goes on is at its
/// end.
pub proof fn a_step_needs_only_the_fronts(
    c: Seq<EntryView>,
    r: Seq<EntryView>,
    more_c: Seq<EntryView>,
    more_r: Seq<EntryView>,
)
    requires
        c.len() > 0 || more_c.len() == 0,
        r.len() > 0 || more_r.len() == 0,
        c.len() + r.len() > 0,
    ensures
        ({
            let (s, c2, r2) = merge_step(c, r);
            merge_step(c + more_c, r + more_r) == (s, c2 + more_c, r2 + more_r)
        }),
{
    if c.len() == 0 {
        assert(c + more_c =~= c);
    } else {
        assert((c + more_c).skip(1) =~= c.skip(1) + more_c);
        assert((c + more_c)[0] == c[0]);
    }
    if r.len() == 0 {
        assert(r + more_r =~= r);
    } else {
        assert((r + more_r).skip(1) =~= r.skip(1) + more_r);
        assert((r + more_r)[0] == r[0]);
    }
}

proof fn lemma_step_shrinks(c: Seq<EntryView>, r: Seq<EntryView>)
    requires
        c.len() + r.len() > 0,
    ensures
        ({
            let (s, c2, r2) = merge_step(c, r);
            c2.len() + r2.len() < c.len() + r.len()
        }),
{
}

/// The walk shows every key of the two listings, no other, and each once, in order; a cached key
/// comes with the length of the remote object exactly where the remote lists it.
pub proof fn the_walk_shows_the_union(c: Seq<EntryView>, r: Seq<EntryView>)
    requires
        in_order(c),
        in_order(r),
    ensures
        forall|i: int, j: int|
            0 <= i < j < merged(c, r).len() ==> key_less(
                sighted_key(#[trigger] merged(c, r)[i]),
                sighted_key(#[trigger] merged(c, r)[j]),
            ),
        forall|i: int|
            0 <= i < merged(c, r).len() ==> match #[trigger] merged(c, r)[i] {
                SightingView::Cached { entry, remote_framed } => {
                    &&& c.contains(entry)
                    &&& match remote_framed {
                        Some(size) => exists|k: int|
                            0 <= k < r.len() && (#[trigger] r[k]).key == entry.key && r[k].size
                                == size,
                        None => !lists(r, entry.key),
                    }
                },
                SightingView::RemoteOnly { key } => lists(r, key) && !lists(c, key),
            },
        forall|k: int|
            0 <= k < c.len() ==> exists|i: int|
                0 <= i < merged(c, r).len() && sighted_key(#[trigger] merged(c, r)[i]) == (
                #[trigger] c[k]).key,
        forall|k: int|
            0 <= k < r.len() ==> exists|i: int|
                0 <= i < merged(c, r).len() && sighted_key(#[trigger] merged(c, r)[i]) == (
                #[trigger] r[k]).key,
    decreases c.len() + r.len(), 1int,
{
    if c.len() + r.len() > 0 {
        lemma_step_shrinks(c, r);
        let (s, c2, r2) = merge_step(c, r);
        lemma_rest_in_order(c, r);
        the_walk_shows_the_union(c2, r2);
        let (all, rest) = (merged(c, r), merged(c2, r2));
        assert(all =~= seq![s] + rest);
        lemma_front_is_first(c, r);
        assert forall|i: int, j: int| 0 <= i < j < all.len() implies key_less(
            sighted_key(#[trigger] all[i]),
            sighted_key(#[trigger] all[j]),
        ) by {
            assert(all[j] == rest[j - 1]);
            if i > 0 {
                assert(all[i] == rest[i - 1]);
            } else {
                lemma_rest_is_listed(c2, r2, j - 1);
            }
        }
        assert forall|i: int| 0 <= i < all.len() implies match #[trigger] all[i] {
            SightingView::Cached { entry, remote_framed } => {
                &&& c.contains(entry)
                &&& match remote_framed {
                    Some(size) => exists|k: int|
                        0 <= k < r.len() && (#[trigger] r[k]).key == entry.key && r[k].size == size,
                    None => !lists(r, entry.key),
                }
            },
            SightingView::RemoteOnly { key } => lists(r, key) && !lists(c, key),
        } by {
            if i == 0 {
                lemma_front_is_judged(c, r);
            } else {
                assert(all[i] == rest[i - 1]);
                lemma_rest_is_judged(c, r, i - 1);
            }
        }
        assert forall|k: int| 0 <= k < c.len() implies exists|i: int|
            0 <= i < all.len() && sighted_key(#[trigger] all[i]) == (#[trigger] c[k]).key by {
            if k == 0 && c2 != c {
                assert(sighted_key(all[0]) == c[0].key);
            } else {
                let d = if c2 == c {
                    k
                } else {
                    k - 1
                };
                assert(c2[d] == c[k]);
                let i = choose|i: int|
                    0 <= i < rest.len() && sighted_key(#[trigger] rest[i]) == c2[d].key;
                assert(all[i + 1] == rest[i]);
            }
        }
        assert forall|k: int| 0 <= k < r.len() implies exists|i: int|
            0 <= i < all.len() && sighted_key(#[trigger] all[i]) == (#[trigger] r[k]).key by {
            if k == 0 && r2 != r {
                assert(sighted_key(all[0]) == r[0].key);
            } else {
                let d = if r2 == r {
                    k
                } else {
                    k - 1
                };
                assert(r2[d] == r[k]);
                let i = choose|i: int|
                    0 <= i < rest.len() && sighted_key(#[trigger] rest[i]) == r2[d].key;
                assert(all[i + 1] == rest[i]);
            }
        }
    }
}

proof fn lemma_rest_in_order(c: Seq<EntryView>, r: Seq<EntryView>)
    requires
        in_order(c),
        in_order(r),
        c.len() + r.len() > 0,
    ensures
        in_order(merge_step(c, r).1),
        in_order(merge_step(c, r).2),
{
    assert forall|s: Seq<EntryView>| in_order(s) && s.len() > 0 implies in_order(
        #[trigger] s.skip(1),
    ) by {
        assert forall|i: int, j: int| 0 <= i < j < s.skip(1).len() implies key_less(
            (#[trigger] s.skip(1)[i]).key,
            (#[trigger] s.skip(1)[j]).key,
        ) by {
            assert(s.skip(1)[i] == s[i + 1]);
            assert(s.skip(1)[j] == s[j + 1]);
        }
    }
}

/// The key that a step shows comes before all that is left.
proof fn lemma_front_is_first(c: Seq<EntryView>, r: Seq<EntryView>)
    requires
        in_order(c),
        in_order(r),
        c.len() + r.len() > 0,
    ensures
        ({
            let (s, c2, r2) = merge_step(c, r);
            &&& forall|k: int|
                0 <= k < c2.len() ==> key_less(sighted_key(s), (#[trigger] c2[k]).key)
            &&& forall|k: int|
                0 <= k < r2.len() ==> key_less(sighted_key(s), (#[trigger] r2[k]).key)
        }),
{
    let (s, c2, r2) = merge_step(c, r);
    if c.len() > 0 && r.len() > 0 {
        encode_utf8_decode_utf8(c[0].key);
        encode_utf8_decode_utf8(r[0].key);
        if c[0].key != r[0].key {
            order_is_total(encode_utf8(c[0].key), encode_utf8(r[0].key));
        }
    }
    assert forall|k: int| 0 <= k < c2.len() implies key_less(sighted_key(s), (#[trigger] c2[k]).key) by {
        let d = if c2 == c {
            k
        } else {
            k + 1
        };
        assert(c2[k] == c[d]);
        if c2 == c && d > 0 {
            order_is_transitive(
                encode_utf8(sighted_key(s)),
                encode_utf8(c[0].key),
                encode_utf8(c[d].key),
            );
        }
    }
    assert forall|k: int| 0 <= k < r2.len() implies key_less(sighted_key(s), (#[trigger] r2[k]).key) by {
        let d = if r2 == r {
            k
        } else {
            k + 1
        };
        assert(r2[k] == r[d]);
        if r2 == r && d > 0 {
            order_is_transitive(
                encode_utf8(sighted_key(s)),
                encode_utf8(r[0].key),
                encode_utf8(r[d].key),
            );
        }
    }
}

proof fn lemma_rest_is_listed(c: Seq<EntryView>, r: Seq<EntryView>, i: int)
    requires
        in_order(c),
        in_order(r),
        0 <= i < merged(c, r).len(),
    ensures
        lists(c, sighted_key(merged(c, r)[i])) || lists(r, sighted_key(merged(c, r)[i])),
    decreases c.len() + r.len(), 2int,
{
    the_walk_shows_the_union(c, r);
    match merged(c, r)[i] {
        SightingView::Cached { entry, .. } => {
            let k = choose|k: int| 0 <= k < c.len() && c[k] == entry;
            assert(c[k].key == entry.key);
        },
        SightingView::RemoteOnly { .. } => {},
    }
}

proof fn lemma_front_is_judged(c: Seq<EntryView>, r: Seq<EntryView>)
    requires
        in_order(c),
        in_order(r),
        c.len() + r.len() > 0,
    ensures
        match merge_step(c, r).0 {
            SightingView::Cached { entry, remote_framed } => {
                &&& c.contains(entry)
                &&& match remote_framed {
                    Some(size) => exists|k: int|
                        0 <= k < r.len() && (#[trigger] r[k]).key == entry.key && r[k].size == size,
                    None => !lists(r, entry.key),
                }
            },
            SightingView::RemoteOnly { key } => lists(r, key) && !lists(c, key),
        },
{
    lemma_front_is_first(c, r);
    let (s, c2, r2) = merge_step(c, r);
    match s {
        SightingView::Cached { entry, remote_framed } => {
            assert(c[0] == entry);
            if remote_framed is None {
                assert forall|k: int| 0 <= k < r.len() implies (#[trigger] r[k]).key != entry.key by {
                    assert(r2[k] == r[k]);
                    order_is_strict(encode_utf8(entry.key), encode_utf8(r[k].key));
                }
            } else {
                assert(r[0].key == entry.key);
            }
        },
        SightingView::RemoteOnly { key } => {
            assert(r[0].key == key);
            assert forall|k: int| 0 <= k < c.len() implies (#[trigger] c[k]).key != key by {
                assert(c2[k] == c[k]);
                order_is_strict(encode_utf8(key), encode_utf8(c[k].key));
            }
        },
    }
}

proof fn lemma_rest_is_judged(c: Seq<EntryView>, r: Seq<EntryView>, i: int)
    requires
        in_order(c),
        in_order(r),
        c.len() + r.len() > 0,
        0 <= i < merged(merge_step(c, r).1, merge_step(c, r).2).len(),
    ensures
        match merged(merge_step(c, r).1, merge_step(c, r).2)[i] {
            SightingView::Cached { entry, remote_framed } => {
                &&& c.contains(entry)
                &&& match remote_framed {
                    Some(size) => exists|k: int|
                        0 <= k < r.len() && (#[trigger] r[k]).key == entry.key && r[k].size == size,
                    None => !lists(r, entry.key),
                }
            },
            SightingView::RemoteOnly { key } => lists(r, key) && !lists(c, key),
        },
    decreases c.len() + r.len(), 0int,
{
    let (s, c2, r2) = merge_step(c, r);
    lemma_rest_in_order(c, r);
    lemma_front_is_first(c, r);
    lemma_step_shrinks(c, r);
    the_walk_shows_the_union(c2, r2);
    let at = merged(c2, r2)[i];
    let key = sighted_key(at);
    lemma_rest_is_listed(c2, r2, i);
    // What is left comes after the key that the step shows.
    if lists(c2, key) {
        let k = choose|k: int| 0 <= k < c2.len() && (#[trigger] c2[k]).key == key;
        assert(key_less(sighted_key(s), key));
    } else {
        let k = choose|k: int| 0 <= k < r2.len() && (#[trigger] r2[k]).key == key;
        assert(key_less(sighted_key(s), key));
    }
    order_is_strict(encode_utf8(sighted_key(s)), encode_utf8(key));
    lemma_lists_one_more(c, c2, key, sighted_key(s));
    lemma_lists_one_more(r, r2, key, sighted_key(s));
    match at {
        SightingView::Cached { entry, remote_framed } => {
            let k = choose|k: int| 0 <= k < c2.len() && c2[k] == entry;
            if c2 == c {
                assert(c[k] == entry);
            } else {
                assert(c[k + 1] == entry);
            }
            if let Some(size) = remote_framed {
                let m = choose|m: int|
                    0 <= m < r2.len() && (#[trigger] r2[m]).key == entry.key && r2[m].size == size;
                if r2 == r {
                    assert(r[m].key == entry.key && r[m].size == size);
                } else {
                    assert(r[m + 1] == r2[m]);
                }
            }
        },
        SightingView::RemoteOnly { .. } => {},
    }
}

proof fn lemma_lists_one_more(s: Seq<EntryView>, rest: Seq<EntryView>, key: Seq<char>, front: Seq<char>)
    requires
        rest == s || (s.len() > 0 && rest == s.skip(1) && s[0].key == front),
        key != front,
    ensures
        lists(s, key) == lists(rest, key),
{
    if rest != s {
        if lists(s, key) {
            let k = choose|k: int| 0 <= k < s.len() && (#[trigger] s[k]).key == key;
            assert(rest[k - 1].key == key);
        }
        if lists(rest, key) {
            let k = choose|k: int| 0 <= k < rest.len() && (#[trigger] rest[k]).key == key;
            assert(s[k + 1].key == key);
        }
    }
}

/// A body owes an upload exactly where the remote does not hold its generation: where the remote has
/// no object, where its length is not the one of this generation, and else where its trailer says
/// so.
pub proof fn a_body_owes_what_the_remote_lacks(
    entry: EntryView,
    remote_framed: Option<u64>,
    expected_framed: Option<u64>,
    same_generation: bool,
)
    requires
        classified(entry.size as int, entry.etag) is None,
        same_generation ==> remote_framed is Some,
        same_generation && expected_framed is Some ==> remote_framed == expected_framed,
    ensures
        ({
            let first = owed(SightingView::Cached { entry, remote_framed }, expected_framed);
            let settled = if first == Owes::CompareGeneration {
                if same_generation {
                    Owes::Nothing
                } else {
                    Owes::Upload
                }
            } else {
                first
            };
            settled == if same_generation {
                Owes::Nothing
            } else {
                Owes::Upload
            }
        }),
{
}

/// Whether a listed object is one of the walk: it has a key that is not the gateway's own.
pub open spec fn is_walked(o: ListedObject) -> bool {
    o.key matches Some(key) && (key@.len() == 0 || key@[0] != crate::meta::keyspace::CONTROL)
}

/// How many objects of a page are in the walk.
pub open spec fn walked_count(page: Seq<ListedObject>) -> nat
    decreases page.len(),
{
    if page.len() == 0 {
        0
    } else {
        walked_count(page.drop_last()) + if is_walked(page.last()) {
            1nat
        } else {
            0
        }
    }
}

/// A page shows every object that has a key of a client's, once, in the page's order and under its own
/// key and length, and nothing else.  No entry's ETag begins or ends with a quote, and an ETag that
/// was listed in quotes stands without them.
pub proof fn a_page_shows_its_objects_as_they_are(page: Seq<ListedObject>, i: int)
    requires
        0 <= i < page.len(),
    ensures
        entries_of(page).len() == walked_count(page),
        is_walked(page[i]) ==> ({
            let at = walked_count(page.take(i)) as int;
            let e = entries_of(page)[at];
            &&& 0 <= at < entries_of(page).len()
            &&& e.key == page[i].key->0@
            &&& page[i].size is Some && page[i].size->0 >= 0 ==> e.size == page[i].size->0
            &&& (page[i].size is None || page[i].size->0 < 0) ==> e.size == 0
            &&& e.etag.len() > 0 ==> e.etag[0] != '"' && e.etag.last() != '"'
            &&& page[i].etag is None ==> e.etag.len() == 0
            &&& forall|bare: Seq<char>|
                (bare.len() > 0 ==> bare[0] != '"' && bare.last() != '"') && page[i].etag is Some
                    && page[i].etag->0@ == #[trigger] (seq!['"'] + bare + seq!['"']) ==> e.etag
                    == bare
            &&& page[i].etag is Some && (page[i].etag->0@.len() > 0 ==> page[i].etag->0@[0] != '"'
                && page[i].etag->0@.last() != '"') ==> e.etag == page[i].etag->0@
        }),
    decreases page.len(),
{
    let rest = page.drop_last();
    let last = page.len() - 1;
    lemma_entries_counted(page);
    if i < last {
        assert(rest[i] == page[i]);
        a_page_shows_its_objects_as_they_are(rest, i);
        assert(rest.take(i) =~= page.take(i));
    } else {
        assert(page.take(i) =~= rest);
        lemma_entries_counted(rest);
        let listed = text_or(page[i].etag, Seq::empty());
        unquoting_takes_the_quotes_and_nothing_else(listed);
        if listed.len() == 0 || (listed[0] != '"' && listed.last() != '"') {
            a_quoted_text_is_read_as_the_text(listed);
        }
        assert forall|bare: Seq<char>|
            (bare.len() > 0 ==> bare[0] != '"' && bare.last() != '"') && page[i].etag is Some
                && page[i].etag->0@ == #[trigger] (seq!['"'] + bare + seq!['"']) implies unquoted(
            listed,
        ) == bare by {
            a_quoted_text_is_read_as_the_text(bare);
        }
    }
}

proof fn lemma_entries_counted(page: Seq<ListedObject>)
    ensures
        entries_of(page).len() == walked_count(page),
    decreases page.len(),
{
    if page.len() > 0 {
        lemma_entries_counted(page.drop_last());
    }
}

/// Pages make no difference: what two of them show is what one of both shows.
pub proof fn page_breaks_make_no_difference(a: Seq<ListedObject>, b: Seq<ListedObject>)
    ensures
        entries_of(a + b) == entries_of(a) + entries_of(b),
    decreases b.len(),
{
    if b.len() == 0 {
        assert(a + b =~= a);
        assert(entries_of(a) + entries_of(b) =~= entries_of(a));
    } else {
        page_breaks_make_no_difference(a, b.drop_last());
        assert((a + b).drop_last() =~= a + b.drop_last());
        assert((a + b).last() == b.last());
        assert(entries_of(a + b) =~= entries_of(a) + entries_of(b));
    }
}

/// An eviction tombstone, as a backend lists it: 16 bytes under the ETag of the sentinel, in quotes or
/// not, is judged as one.  It owes nothing where the remote has the object, and has to be looked at
/// again where it has not, whatever length was expected.
pub proof fn a_listed_tombstone_is_judged_as_one(
    o: ListedObject,
    remote_framed: Option<u64>,
    expected_framed: Option<u64>,
)
    requires
        is_walked(o),
        o.size == Some(16i64),
        o.etag is Some,
        o.etag->0@ == etag_of_body(EVICT_SENTINEL@) || o.etag->0@ == seq!['"'] + etag_of_body(
            EVICT_SENTINEL@,
        ) + seq!['"'],
    ensures
        entry_of(o) is Some,
        owed(SightingView::Cached { entry: entry_of(o)->0, remote_framed }, expected_framed)
            == if remote_framed is Some {
            Owes::Nothing
        } else {
            Owes::ConfirmRemoteLost
        },
{
    hex_text_has_no_quotes(crate::digest::md5_of(EVICT_SENTINEL@));
    a_quoted_text_is_read_as_the_text(etag_of_body(EVICT_SENTINEL@));
}

/// A mark of a change that was under way, as a backend lists it, owes nothing, whatever the remote
/// has: its repair is the next access's.
pub proof fn a_listed_mark_owes_nothing(
    o: ListedObject,
    remote_framed: Option<u64>,
    expected_framed: Option<u64>,
)
    requires
        is_walked(o),
        o.size == Some(16i64),
        o.etag is Some,
        o.etag->0@ == etag_of_body(TRANSIT_SENTINEL@) || o.etag->0@ == seq!['"'] + etag_of_body(
            TRANSIT_SENTINEL@,
        ) + seq!['"'],
        etag_of_body(TRANSIT_SENTINEL@) != etag_of_body(EVICT_SENTINEL@),
    ensures
        entry_of(o) is Some,
        owed(SightingView::Cached { entry: entry_of(o)->0, remote_framed }, expected_framed)
            == Owes::Nothing,
{
    hex_text_has_no_quotes(crate::digest::md5_of(TRANSIT_SENTINEL@));
    a_quoted_text_is_read_as_the_text(etag_of_body(TRANSIT_SENTINEL@));
}

/// A live body owes an upload where the remote lacks it or has another length than this one would
/// have; where the lengths agree, or none is known, the generations have to be compared.  A key that
/// the remote alone has is recovered.
pub proof fn a_live_body_is_judged_by_what_the_remote_has(
    entry: EntryView,
    remote_framed: Option<u64>,
    expected_framed: Option<u64>,
    key: Seq<char>,
)
    requires
        entry.size != 16 || (entry.etag != etag_of_body(EVICT_SENTINEL@) && entry.etag
            != etag_of_body(TRANSIT_SENTINEL@)),
    ensures
        ({
            let owes = owed(SightingView::Cached { entry, remote_framed }, expected_framed);
            &&& remote_framed is None ==> owes == Owes::Upload
            &&& remote_framed is Some && expected_framed is Some && remote_framed->0
                != expected_framed->0 ==> owes == Owes::Upload
            &&& remote_framed is Some && (expected_framed is None || remote_framed
                == expected_framed) ==> owes == Owes::CompareGeneration
        }),
        owed(SightingView::RemoteOnly { key }, expected_framed) == Owes::RecoverRemoteOnly,
{
}

/// What is said of an entry is said of its own fields.
pub proof fn an_entry_is_seen_as_it_is(x: Entry)
    ensures
        x@.key == x.key@,
        x@.size == x.size,
        x@.etag == x.etag@,
{
}

/// What is said of a sighting is said of its own key, and of what each of the two sides has of it.
pub proof fn a_sighting_is_seen_as_it_is(x: Sighting)
    ensures
        x is Cached <==> x@ is Cached,
        x is RemoteOnly <==> x@ is RemoteOnly,
        x is Cached ==> x@->entry.key == x->Cached_key@ && x@->entry.size == x->size
            && x@->entry.etag == x->etag@ && x@->remote_framed == x->remote_framed,
        x is RemoteOnly ==> x@->key == x->RemoteOnly_key@,
        x is Cached ==> sighted_key(x@) == x->Cached_key@,
        x is RemoteOnly ==> sighted_key(x@) == x->RemoteOnly_key@,
{
}

/// A look finds what is there, and an absence is no failure; every other failure is one.
pub proof fn a_look_tells_absence_from_failure(l: Lookup)
    ensures
        l is Found ==> found(l) == Ok::<bool, ErrorView>(true),
        l is Failed && (l->Failed_0@ == ErrorView::NotFound || l->Failed_0@
            == ErrorView::NoSuchBucket) ==> found(l) == Ok::<bool, ErrorView>(false),
        l is Failed && l->Failed_0@ != ErrorView::NotFound && l->Failed_0@ != ErrorView::NoSuchBucket
            ==> found(l) == Err::<bool, ErrorView>(l->Failed_0@),
{
}

} // verus!
