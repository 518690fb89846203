//! Debris: the records of uploads that are over, and twins that project no key.

use crate::backend::{listed_size, size_of_listed, ListedObject};
use crate::error::{Error, ErrorView};
use crate::meta::keyspace::{parse_mpu_upload_id, upload_of, CONTROL};
use crate::meta::laws::twin_identifies_key_and_facts;
use crate::meta::metadata::Metadata;
use crate::meta::sentinel::{tomb_kind, tomb_named, TombKind};
use crate::meta::twin::{canonical, packable, parse_twin, twin_name, Facts, FactsView, TWIN_MAX_KEY_LEN};
use crate::meta::user::{CETAG, MTIME, PLEN};
use crate::names::NameMap;
use crate::text::{parse_i64, parse_u64, parsed_signed, parsed_unsigned, same_text};
use vstd::prelude::*;
use vstd::utf8::encode_utf8;

verus! {

// ---- what a sweep returned --------------------------------------------------------------------

/// What one bucket's sweeps removed.
#[derive(Clone, Copy, Debug, PartialEq, Eq, Structural)]
pub struct Swept {
    pub uploads: usize,
    pub twins: usize,
    pub marks: usize,
    /// Remote uploads that were aborted because their cache record was gone.
    pub orphaned: usize,
    pub bytes: u64,
}

impl Default for Swept {
    fn default() -> (swept: Self)
        ensures
            swept == (Swept { uploads: 0, twins: 0, marks: 0, orphaned: 0, bytes: 0 }),
    {
        Swept { uploads: 0, twins: 0, marks: 0, orphaned: 0, bytes: 0 }
    }
}

impl Swept {
    /// Whether anything was removed.
    pub fn any(&self) -> (any: bool)
        ensures
            any == (self.uploads > 0 || self.twins > 0 || self.marks > 0 || self.orphaned > 0),
    {
        self.uploads > 0 || self.twins > 0 || self.marks > 0 || self.orphaned > 0
    }

    /// Whether two sums fit.
    pub open spec fn fits(self, other: Swept) -> bool {
        &&& self.uploads + other.uploads <= usize::MAX
        &&& self.twins + other.twins <= usize::MAX
        &&& self.marks + other.marks <= usize::MAX
        &&& self.orphaned + other.orphaned <= usize::MAX
        &&& self.bytes + other.bytes <= u64::MAX
    }

    pub fn add_assign(&mut self, other: Swept)
        requires
            old(self).fits(other),
        ensures
            *final(self) == (Swept {
                uploads: (old(self).uploads + other.uploads) as usize,
                twins: (old(self).twins + other.twins) as usize,
                marks: (old(self).marks + other.marks) as usize,
                orphaned: (old(self).orphaned + other.orphaned) as usize,
                bytes: (old(self).bytes + other.bytes) as u64,
            }),
    {
        self.uploads = self.uploads + other.uploads;
        self.twins = self.twins + other.twins;
        self.marks = self.marks + other.marks;
        self.orphaned = self.orphaned + other.orphaned;
        self.bytes = self.bytes + other.bytes;
    }
}

// ---- records of uploads -----------------------------------------------------------------------

/// One record of an upload.
#[derive(Clone, Debug, PartialEq, Eq)]
pub struct UploadRecord {
    pub key: String,
    pub bytes: u64,
}

/// Records with text as sequences.
pub open spec fn record_rows(records: Seq<UploadRecord>) -> Seq<(Seq<char>, u64)> {
    Seq::new(records.len(), |i: int| (records[i].key@, records[i].bytes))
}

/// The bytes of some records.
pub open spec fn total_bytes(rows: Seq<(Seq<char>, u64)>) -> nat
    decreases rows.len(),
{
    if rows.len() == 0 {
        0
    } else {
        total_bytes(rows.drop_last()) + rows.last().1 as nat
    }
}

/// Records by the upload that they belong to.
pub open spec fn record_map(ranges: Map<Seq<char>, Vec<UploadRecord>>) -> Map<
    Seq<char>,
    Seq<(Seq<char>, u64)>,
> {
    Map::new(|id: Seq<char>| ranges.contains_key(id), |id: Seq<char>| record_rows(ranges[id]@))
}

/// The records of an upload among some records.
pub open spec fn rows_of(
    ranges: Map<Seq<char>, Seq<(Seq<char>, u64)>>,
    id: Seq<char>,
) -> Seq<(Seq<char>, u64)> {
    if ranges.contains_key(id) {
        ranges[id]
    } else {
        Seq::empty()
    }
}

/// The records after a page of the listing: each goes to its upload, and a key that names none is
/// left alone.
pub open spec fn ranges_after(
    ranges: Map<Seq<char>, Seq<(Seq<char>, u64)>>,
    page: Seq<ListedObject>,
) -> Map<Seq<char>, Seq<(Seq<char>, u64)>>
    decreases page.len(),
{
    if page.len() == 0 {
        ranges
    } else {
        let before = ranges_after(ranges, page.drop_last());
        let o = page.last();
        match o.key {
            Some(key) => match upload_of(key@) {
                Some(id) => before.insert(
                    id,
                    rows_of(before, id).push((key@, listed_size(o.size))),
                ),
                None => before,
            },
            None => before,
        }
    }
}

/// What a sweep does about a live upload.
#[derive(Clone, Copy, Debug, PartialEq, Eq, Structural)]
pub enum LiveUpload {
    /// Its records are kept, and it is no orphan.
    Shielded,
    /// No record was seen: it may be a leak.
    TryCreateLock,
}

/// The sweep of one bucket's uploads.  The cache is listed first and the remote second, so that
/// every record seen here belongs to an upload that the remote began before it was listed.
pub struct UploadSweep {
    ranges: NameMap<Vec<UploadRecord>>,
    orphaned: usize,
}

impl UploadSweep {
    pub closed spec fn ranges(&self) -> Map<Seq<char>, Seq<(Seq<char>, u64)>> {
        record_map(self.ranges@)
    }

    pub closed spec fn orphaned(&self) -> nat {
        self.orphaned as nat
    }

    pub closed spec fn wf(&self) -> bool {
        self.ranges.wf()
    }

    pub fn new() -> (sweep: Self)
        ensures
            sweep.wf(),
            sweep.ranges() == Map::<Seq<char>, Seq<(Seq<char>, u64)>>::empty(),
            sweep.orphaned() == 0,
    {
        let sweep = UploadSweep { ranges: NameMap::new(), orphaned: 0 };
        assert(sweep.ranges() =~= Map::<Seq<char>, Seq<(Seq<char>, u64)>>::empty());
        sweep
    }

    /// Takes in a page of the cache's records.
    pub fn cache_ranges(&mut self, page: &Vec<ListedObject>)
        requires
            old(self).wf(),
        ensures
            final(self).wf(),
            final(self).ranges() == ranges_after(old(self).ranges(), page@),
            final(self).orphaned() == old(self).orphaned(),
    {
        let ghost first = self.ranges();
        let mut i: usize = 0;
        assert(page@.take(0) =~= Seq::empty());
        while i < page.len()
            invariant
                i <= page@.len(),
                self.wf(),
                self.orphaned == old(self).orphaned,
                self.ranges() == ranges_after(first, page@.take(i as int)),
            decreases page@.len() - i,
        {
            proof {
                assert(page@.take(i + 1).drop_last() =~= page@.take(i as int));
                assert(page@.take(i + 1).last() == page@[i as int]);
            }
            if let Some(key) = &page[i].key {
                if let Some(id) = parse_mpu_upload_id(key.as_str()) {
                    let record = UploadRecord {
                        key: key.clone(),
                        bytes: size_of_listed(page[i].size),
                    };
                    self.put(id, record);
                }
            }
            i += 1;
        }
        assert(page@.take(i as int) =~= page@);
    }

    fn put(&mut self, id: &str, record: UploadRecord)
        requires
            old(self).wf(),
        ensures
            final(self).wf(),
            final(self).orphaned == old(self).orphaned,
            final(self).ranges() == old(self).ranges().insert(
                id@,
                rows_of(old(self).ranges(), id@).push((record.key@, record.bytes)),
            ),
    {
        let ghost before = self.ranges@;
        let mut records: Vec<UploadRecord> = match self.ranges.remove(id) {
            Some(r) => r,
            None => Vec::new(),
        };
        let ghost rows = record_rows(records@);
        assert(rows =~= rows_of(record_map(before), id@));
        records.push(record);
        assert(record_rows(records@) =~= rows.push((record.key@, record.bytes)));
        self.ranges.insert(id.to_string(), records);
        assert(self.ranges() =~= record_map(before).insert(
            id@,
            rows.push((record.key@, record.bytes)),
        ));
    }

    /// The remote is still running an upload: a record that was seen shields it from both halves of
    /// the sweep.
    pub fn live_upload(&mut self, upload_id: &str) -> (found: LiveUpload)
        requires
            old(self).wf(),
        ensures
            final(self).wf(),
            final(self).ranges() == old(self).ranges().remove(upload_id@),
            final(self).orphaned() == old(self).orphaned(),
            found == if old(self).ranges().contains_key(upload_id@) {
                LiveUpload::Shielded
            } else {
                LiveUpload::TryCreateLock
            },
    {
        let ghost before = self.ranges@;
        let gone = self.ranges.remove(upload_id);
        assert(self.ranges() =~= record_map(before).remove(upload_id@));
        match gone {
            Some(_) => LiveUpload::Shielded,
            None => LiveUpload::TryCreateLock,
        }
    }

    /// An upload that is under no create lock and has no record was aborted, or not.  One that is
    /// gone already is resolved just the same.
    pub fn aborted(&mut self, failure: Option<&Error>)
        requires
            old(self).wf(),
            old(self).orphaned() < usize::MAX,
        ensures
            final(self).wf(),
            final(self).ranges() == old(self).ranges(),
            final(self).orphaned() == if failure is None || failure->0@ == ErrorView::NotFound {
                old(self).orphaned() + 1
            } else {
                old(self).orphaned()
            },
    {
        match failure {
            None => {
                self.orphaned = self.orphaned + 1;
            },
            Some(e) => match e {
                Error::NotFound => {
                    self.orphaned = self.orphaned + 1;
                },
                _ => {},
            },
        }
    }

    /// What the sweep has done so far: only uploads were ended, and nothing was given back yet.
    pub fn swept(&self) -> (swept: Swept)
        ensures
            swept == (Swept {
                uploads: 0,
                twins: 0,
                marks: 0,
                orphaned: self.orphaned() as usize,
                bytes: 0,
            }),
    {
        Swept { uploads: 0, twins: 0, marks: 0, orphaned: self.orphaned, bytes: 0 }
    }

    /// The records whose uploads the remote never named, upload by upload: those are over.
    pub fn leftovers(self) -> (left: Vec<Vec<UploadRecord>>)
        requires
            self.wf(),
        ensures
            left@.len() == self.ranges().dom().len(),
            forall|i: int|
                0 <= i < left@.len() ==> self.ranges().contains_value(
                    record_rows((#[trigger] left@[i])@),
                ),
            forall|id: Seq<char>| #[trigger]
                self.ranges().contains_key(id) ==> exists|i: int|
                    0 <= i < left@.len() && record_rows((#[trigger] left@[i])@) == self.ranges()[id],
    {
        let ghost map = self.ranges@;
        let ghost names = self.ranges.names();
        proof {
            self.ranges.lemma_places();
            names.unique_seq_to_set();
            assert(record_map(map).dom() =~= map.dom());
        }
        let left: Vec<Vec<UploadRecord>> = self.ranges.into_values();
        proof {
            assert forall|i: int| 0 <= i < left@.len() implies record_map(map).contains_value(
                record_rows((#[trigger] left@[i])@),
            ) by {
                assert(map.contains_key(names[i]));
                assert(record_map(map)[names[i]] == record_rows(left@[i]@));
            }
            assert forall|id: Seq<char>| #[trigger] record_map(map).contains_key(id) implies exists|
                i: int,
            |
                0 <= i < left@.len() && record_rows((#[trigger] left@[i])@) == record_map(map)[id] by {
                let i = choose|i: int| 0 <= i < names.len() && names[i] == id;
                assert(left@[i] == map[id]);
                assert(record_rows(left@[i]@) == record_map(map)[id]);
            }
        }
        left
    }
}

/// Counts an upload whose records were deleted.
pub fn reclaimed(swept: &mut Swept, records: &Vec<UploadRecord>)
    requires
        old(swept).uploads < usize::MAX,
        old(swept).bytes + total_bytes(record_rows(records@)) <= u64::MAX,
    ensures
        *final(swept) == (Swept {
            uploads: (old(swept).uploads + 1) as usize,
            bytes: (old(swept).bytes + total_bytes(record_rows(records@))) as u64,
            ..*old(swept)
        }),
{
    let mut bytes: u64 = swept.bytes;
    let mut i: usize = 0;
    let ghost rows = record_rows(records@);
    assert(rows.take(0) =~= Seq::empty());
    while i < records.len()
        invariant
            i <= records@.len(),
            rows == record_rows(records@),
            *swept == *old(swept),
            bytes == old(swept).bytes + total_bytes(rows.take(i as int)),
            old(swept).bytes + total_bytes(rows) <= u64::MAX,
        decreases records@.len() - i,
    {
        proof {
            assert(rows.take(i + 1).drop_last() =~= rows.take(i as int));
            assert(rows.take(i + 1).last() == rows[i as int]);
            lemma_total_prefix(rows, i + 1);
        }
        bytes = bytes + records[i].bytes;
        i += 1;
    }
    assert(rows.take(i as int) =~= rows);
    swept.uploads = swept.uploads + 1;
    swept.bytes = bytes;
}

proof fn lemma_total_prefix(rows: Seq<(Seq<char>, u64)>, i: int)
    requires
        0 <= i <= rows.len(),
    ensures
        total_bytes(rows.take(i)) <= total_bytes(rows),
    decreases rows.len(),
{
    if i < rows.len() {
        lemma_total_prefix(rows.drop_last(), i);
        assert(rows.drop_last().take(i) =~= rows.take(i));
    } else {
        assert(rows.take(i) =~= rows);
    }
}

/// Whether the listing of live uploads goes on: a page that is cut short and says from nowhere would
/// be read for ever.
pub fn next_upload_page(
    truncated: Option<bool>,
    key_marker: &Option<String>,
    upload_id_marker: &Option<String>,
) -> (more: bool)
    ensures
        more == (truncated == Some(true) && (key_marker is Some || upload_id_marker is Some)),
{
    match truncated {
        Some(true) => key_marker.is_some() || upload_id_marker.is_some(),
        _ => false,
    }
}

/// Whether the cache has a record of an upload, from the failure of its lookup where it failed.
pub fn has_record(failure: Option<&Error>) -> (has: Result<bool, Error>)
    ensures
        match has {
            Ok(h) => h == (failure is None) && (failure is Some ==> failure->0@
                == ErrorView::NotFound || failure->0@ == ErrorView::NoSuchBucket),
            Err(e) => failure is Some && e@ == failure->0@ && e@ != ErrorView::NotFound && e@
                != ErrorView::NoSuchBucket,
        },
{
    match failure {
        None => Ok(true),
        Some(e) => {
            if e.is_absence() {
                Ok(false)
            } else {
                Err(e.duplicate())
            }
        },
    }
}

// ---- twins ------------------------------------------------------------------------------------

/// The facts that a tombstone's metadata carries.
pub open spec fn tomb_facts(md: Map<Seq<char>, Seq<char>>) -> Option<FactsView> {
    if md.contains_key(CETAG@) && md.contains_key(PLEN@) && md.contains_key(MTIME@) {
        match (
            parsed_unsigned(md[PLEN@], 10, u64::MAX as nat),
            parsed_signed(md[MTIME@], i64::MIN as int, i64::MAX as int),
        ) {
            (Some(plen), Some(mtime)) => Some(
                FactsView { client_etag: md[CETAG@], plen: plen as u64, mtime_ms: mtime as i64 },
            ),
            _ => None,
        }
    } else {
        None
    }
}

/// The name of the twin that a tombstone's key would be given now.
pub open spec fn twin_of(md: Map<Seq<char>, Seq<char>>, base: Seq<char>) -> Option<Seq<char>> {
    match tomb_facts(md) {
        Some(f) if packable(f) && encode_utf8(base).len() <= TWIN_MAX_KEY_LEN => Some(
            twin_name(base, f),
        ),
        _ => None,
    }
}

fn current_twin(md: &Metadata, base: &str) -> (twin: Option<String>)
    requires
        md.wf(),
    ensures
        match twin {
            Some(t) => twin_of(md@, base@) == Some(t@),
            None => twin_of(md@, base@) is None,
        },
{
    let etag: &String = match md.get(CETAG) {
        Some(e) => e,
        None => {
            return None;
        },
    };
    let plen: u64 = match md.get(PLEN) {
        Some(p) => match parse_u64(p.as_str()) {
            Some(v) => v,
            None => {
                return None;
            },
        },
        None => {
            return None;
        },
    };
    let mtime_ms: i64 = match md.get(MTIME) {
        Some(m) => match parse_i64(m.as_str()) {
            Some(v) => v,
            None => {
                return None;
            },
        },
        None => {
            return None;
        },
    };
    let facts = Facts { client_etag: etag.clone(), plen, mtime_ms };
    assert(tomb_facts(md@) == Some(facts@));
    facts.twin_key(base)
}

/// Whether a twin projects its key, from the key's metadata.
pub open spec fn projects(
    md: Map<Seq<char>, Seq<char>>,
    base: Seq<char>,
    twin: Seq<char>,
) -> bool {
    match tomb_named(md) {
        Some(TombKind::Evict) => twin_of(md, base) == Some(twin),
        // A transition is under way, and whatever it settles refreshes the twin.
        Some(TombKind::Transit) => true,
        None => false,
    }
}

/// What the lookup of a twin's key found.
pub enum KeyLookup {
    Found(Metadata),
    Failed(Error),
}

/// Whether a twin is the one that its key would be given now.  The name of a twin is its facts, so
/// the tombstone's own facts, made into a name again, are the whole test.
pub fn projects_a_key(lookup: &KeyLookup, base: &str, twin: &str) -> (projects_it: Result<
    bool,
    Error,
>)
    requires
        lookup matches KeyLookup::Found(md) ==> md.wf(),
    ensures
        match *lookup {
            KeyLookup::Found(md) => projects_it matches Ok(p) && p == projects(md@, base@, twin@),
            KeyLookup::Failed(e) => match projects_it {
                Ok(p) => !p && e@ == ErrorView::NotFound,
                Err(f) => f@ == e@ && e@ != ErrorView::NotFound,
            },
        },
{
    match lookup {
        KeyLookup::Failed(e) => match e {
            Error::NotFound => Ok(false),
            other => Err(other.duplicate()),
        },
        KeyLookup::Found(md) => match tomb_kind(md) {
            Some(TombKind::Evict) => match current_twin(md, base) {
                Some(now) => Ok(same_text(now.as_str(), twin)),
                None => Ok(false),
            },
            Some(TombKind::Transit) => Ok(true),
            None => Ok(false),
        },
    }
}

/// Whether a name is that of a twin of a key with some facts.
pub open spec fn is_twin(name: Seq<char>, base: Seq<char>, f: FactsView) -> bool {
    &&& base.len() > 0
    &&& !base.contains(CONTROL)
    &&& canonical(f)
    &&& name == twin_name(base, f)
}

/// Whether a twin that was walked past is to be deleted, under its key's lock.  Where the key cannot
/// be judged, the twin stays.
pub fn is_orphan_twin(twin: &str, lookup: &KeyLookup) -> (orphan: bool)
    requires
        lookup matches KeyLookup::Found(md) ==> md.wf(),
    ensures
        forall|base: Seq<char>, f: FactsView| #[trigger]
            is_twin(twin@, base, f) ==> orphan == match *lookup {
                KeyLookup::Found(md) => !projects(md@, base, twin@),
                KeyLookup::Failed(e) => e@ == ErrorView::NotFound,
            },
        (forall|base: Seq<char>, f: FactsView| !#[trigger] is_twin(twin@, base, f)) ==> !orphan,
{
    match parse_twin(twin) {
        None => {
            assert forall|base: Seq<char>, f: FactsView| !#[trigger] is_twin(twin@, base, f) by {
                if is_twin(twin@, base, f) {
                    assert(twin@ != twin_name(base, f));
                }
            }
            false
        },
        Some((base, facts)) => {
            proof {
                assert(is_twin(twin@, base@, facts@));
                assert forall|b: Seq<char>, f: FactsView| #[trigger] is_twin(twin@, b, f) implies b
                    == base@ by {
                    twin_identifies_key_and_facts(b, f, base@, facts@);
                }
            }
            match projects_a_key(lookup, base, twin) {
                Ok(p) => !p,
                Err(_) => false,
            }
        },
    }
}

// ---- laws -------------------------------------------------------------------------------------

/// What is left of the records after the remote has named some uploads.
pub open spec fn ranges_without(
    ranges: Map<Seq<char>, Seq<(Seq<char>, u64)>>,
    live: Seq<Seq<char>>,
) -> Map<Seq<char>, Seq<(Seq<char>, u64)>>
    decreases live.len(),
{
    if live.len() == 0 {
        ranges
    } else {
        ranges_without(ranges, live.drop_last()).remove(live.last())
    }
}

/// The records of an upload that the remote is running are never reclaimed, and those of every other
/// upload that was seen are.
pub proof fn live_records_survive_a_sweep(
    ranges: Map<Seq<char>, Seq<(Seq<char>, u64)>>,
    live: Seq<Seq<char>>,
    id: Seq<char>,
)
    ensures
        ranges_without(ranges, live).contains_key(id) == (ranges.contains_key(id)
            && !live.contains(id)),
        ranges_without(ranges, live).contains_key(id) ==> ranges_without(ranges, live)[id]
            == ranges[id],
    decreases live.len(),
{
    if live.len() > 0 {
        live_records_survive_a_sweep(ranges, live.drop_last(), id);
        let rest = live.drop_last();
        if rest.contains(id) {
            let i = choose|i: int| 0 <= i < rest.len() && rest[i] == id;
            assert(live[i] == id);
        }
        if live.contains(id) && id != live.last() {
            let i = choose|i: int| 0 <= i < live.len() && live[i] == id;
            assert(rest[i] == id);
        }
        assert(live[live.len() - 1] == live.last());
    }
}

/// A listing of the records is read object by object: a record goes behind the others of the upload that
/// it names, with its own key and length, and nothing else changes.
pub proof fn every_listed_record_is_kept_with_its_upload(
    ranges: Map<Seq<char>, Seq<(Seq<char>, u64)>>,
    a: Seq<ListedObject>,
    b: Seq<ListedObject>,
    one: ListedObject,
)
    ensures
        ranges_after(ranges, a + b) == ranges_after(ranges_after(ranges, a), b),
        ranges_after(ranges, Seq::<ListedObject>::empty()) == ranges,
        one.key is Some && upload_of(one.key->0@) is Some ==> ({
            let id = upload_of(one.key->0@)->0;
            let after = ranges_after(ranges, seq![one]);
            let size = if one.size is Some && one.size->0 > 0 {
                one.size->0 as int
            } else {
                0
            };
            &&& after.dom() == ranges.dom().insert(id)
            &&& after[id].len() > 0 && after[id].last().0 == one.key->0@ && after[id].last().1 == size
            &&& ranges.contains_key(id) ==> after[id].drop_last() == ranges[id]
            &&& !ranges.contains_key(id) ==> after[id].len() == 1
            &&& forall|other: Seq<char>| other != id && ranges.contains_key(other)
                ==> #[trigger] after[other] == ranges[other]
        }),
        one.key is None || upload_of(one.key->0@) is None ==> ranges_after(ranges, seq![one])
            == ranges,
    decreases b.len(),
{
    assert(seq![one].drop_last() =~= Seq::<ListedObject>::empty());
    assert(seq![one].last() == one);
    reveal_with_fuel(ranges_after, 2);
    if one.key is Some && upload_of(one.key->0@) is Some {
        let id = upload_of(one.key->0@)->0;
        assert(ranges_after(ranges, seq![one]).dom() =~= ranges.dom().insert(id));
        assert(rows_of(ranges, id).push((one.key->0@, listed_size(one.size))).drop_last()
            =~= rows_of(ranges, id));
    }
    if b.len() == 0 {
        assert(a + b =~= a);
    } else {
        every_listed_record_is_kept_with_its_upload(ranges, a, b.drop_last(), one);
        assert((a + b).drop_last() =~= a + b.drop_last());
        assert((a + b).last() == b.last());
    }
}

/// The bytes of an upload's records are the sum of theirs.
pub proof fn the_bytes_of_records_add_up(
    a: Seq<(Seq<char>, u64)>,
    b: Seq<(Seq<char>, u64)>,
    one: (Seq<char>, u64),
)
    ensures
        total_bytes(a + b) == total_bytes(a) + total_bytes(b),
        total_bytes(Seq::<(Seq<char>, u64)>::empty()) == 0,
        total_bytes(seq![one]) == one.1,
    decreases b.len(),
{
    assert(seq![one].drop_last() =~= Seq::<(Seq<char>, u64)>::empty());
    assert(seq![one].last() == one);
    reveal_with_fuel(total_bytes, 2);
    if b.len() == 0 {
        assert(a + b =~= a);
        
    } else {
        the_bytes_of_records_add_up(a, b.drop_last(), one);
        assert((a + b).drop_last() =~= a + b.drop_last());
        assert((a + b).last() == b.last());
        
    }
}

/// A tombstone's facts are the ones it names, and it has none where one of the three is missing or is
/// no number of its kind.
pub proof fn a_tombstone_gives_the_facts_it_names(md: Map<Seq<char>, Seq<char>>, f: FactsView)
    ensures
        tomb_facts(md) == Some(f) <==> md.contains_key(CETAG@) && md.contains_key(PLEN@)
            && md.contains_key(MTIME@) && md[CETAG@] == f.client_etag && parsed_unsigned(
            md[PLEN@],
            10,
            u64::MAX as nat,
        ) == Some(f.plen as nat) && parsed_signed(md[MTIME@], i64::MIN as int, i64::MAX as int)
            == Some(f.mtime_ms as int),
{
    crate::text::a_read_number_is_in_range(md[PLEN@], md[MTIME@]);
}

/// A twin is that of a key exactly where the key is in a change, or is evicted with facts that make the
/// twin's name.
pub proof fn a_twin_projects_its_own_key(
    md: Map<Seq<char>, Seq<char>>,
    base: Seq<char>,
    twin: Seq<char>,
    f: FactsView,
)
    ensures
        tomb_named(md) == Some(TombKind::Transit) ==> projects(md, base, twin),
        tomb_named(md) is None ==> !projects(md, base, twin),
        tomb_named(md) == Some(TombKind::Evict) && tomb_facts(md) == Some(f) && packable(f)
            && encode_utf8(base).len() <= TWIN_MAX_KEY_LEN ==> (projects(md, base, twin) <==> twin
            == twin_name(base, f)),
        tomb_named(md) == Some(TombKind::Evict) && (tomb_facts(md) is None || !packable(
            tomb_facts(md)->0,
        ) || encode_utf8(base).len() > TWIN_MAX_KEY_LEN) ==> !projects(md, base, twin),
        is_twin(twin, base, f) <==> base.len() > 0 && !base.contains(CONTROL) && canonical(f) && twin
            == twin_name(base, f),
{
}

/// Records are seen one by one, each with its own key and length.
pub proof fn records_are_seen_one_by_one(list: Seq<UploadRecord>, i: int)
    ensures
        record_rows(list).len() == list.len(),
        0 <= i < list.len() ==> record_rows(list)[i].0 == list[i].key@,
        0 <= i < list.len() ==> record_rows(list)[i].1 == list[i].bytes,
{
}

} // verus!
