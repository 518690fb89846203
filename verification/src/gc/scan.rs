//! Samples a bucket for what could be evicted.
//!
//! A probe lists from a random name on and reads a few pages.  Nothing keeps a place in the listing:
//! a place that moves on would tie the pressure on a key to its name.

use crate::backend::{listed_size, size_of_listed, ListedObject};
use crate::gc::debris::is_twin;
use crate::gc::ring::{qualified, qualified_name, qualified_names_identify};
use crate::meta::admission::{admissible, unreserved};
use crate::meta::keyspace::{shadow_scan_prefix, tagged, trim_quotes, unquoted, CONTROL};
use crate::meta::laws::unreserved_characters;
use crate::meta::sentinel::{
    classified, classify_entry, etag_of_body, TombKind, EVICT_SENTINEL, TRANSIT_SENTINEL,
};
use crate::meta::twin::{parse_twin, FactsView};
use crate::names::NameMap;
use crate::order::{
    common_prefix_keeps_order, encoding_concatenates, key_less, lemma_encoded_bytes, splits_at,
};
use crate::text::{chars_of, has_prefix, text_between};
use rand::Rng;
use vstd::prelude::*;
use vstd::string::StringExecFns;
use vstd::utf8::{encode_scalar, encode_utf8};

verus! {

/// How many keys a page asks for.
pub const PAGE_KEYS: i32 = 1000;

/// How long a random position is.
pub const POSITION_LEN: usize = 3;

/// How much of a position may come from the keys that were seen.
pub const SHAPED_LEN: usize = 2;

// ---- candidates -------------------------------------------------------------------------------

/// What holds a client's plaintext in the cache.
#[derive(Clone, Debug, PartialEq, Eq)]
pub enum Artifact {
    /// A live body, at its key.
    Body(String),
    /// The plaintext of a composite that was read back, under the digest of its key.
    Shadow(String),
}

/// An [`Artifact`], with text as a sequence.
pub enum ArtifactView {
    Body(Seq<char>),
    Shadow(Seq<char>),
}

impl View for Artifact {
    type V = ArtifactView;

    open spec fn view(&self) -> ArtifactView {
        match *self {
            Artifact::Body(key) => ArtifactView::Body(key@),
            Artifact::Shadow(name) => ArtifactView::Shadow(name@),
        }
    }
}

/// The name under which an artifact lies.
pub open spec fn artifact_name(a: ArtifactView) -> Seq<char> {
    match a {
        ArtifactView::Body(key) => key,
        ArtifactView::Shadow(name) => name,
    }
}

/// Something that could be evicted.
#[derive(Clone, Debug, PartialEq, Eq)]
pub struct Candidate {
    pub bucket: String,
    pub artifact: Artifact,
    /// The version that the eviction is bound to.
    pub etag: String,
    /// What its eviction gives back.
    pub bytes: u64,
    pub mtime_ms: i64,
}

/// A [`Candidate`], with text as sequences.
#[verifier::ext_equal]
pub struct CandidateView {
    pub bucket: Seq<char>,
    pub artifact: ArtifactView,
    pub etag: Seq<char>,
    pub bytes: u64,
    pub mtime_ms: i64,
}

impl View for Candidate {
    type V = CandidateView;

    open spec fn view(&self) -> CandidateView {
        CandidateView {
            bucket: self.bucket@,
            artifact: self.artifact@,
            etag: self.etag@,
            bytes: self.bytes,
            mtime_ms: self.mtime_ms,
        }
    }
}

impl Candidate {
    /// The name by which the recency ring knows the candidate.
    pub fn qualified(&self) -> (name: String)
        ensures
            name@ == qualified_name(self@.bucket, artifact_name(self@.artifact)),
    {
        match &self.artifact {
            Artifact::Body(key) => qualified(self.bucket.as_str(), key.as_str()),
            Artifact::Shadow(name) => qualified(self.bucket.as_str(), name.as_str()),
        }
    }
}

/// Candidates with text as sequences.
pub open spec fn candidate_views(list: Seq<Candidate>) -> Seq<CandidateView> {
    Seq::new(list.len(), |i: int| list[i]@)
}

/// Texts as sequences.
pub open spec fn name_views(list: Seq<String>) -> Seq<Seq<char>> {
    Seq::new(list.len(), |i: int| list[i]@)
}

// ---- one sample of a listing ------------------------------------------------------------------

/// One entry of a sampled listing.
#[derive(Clone, Debug, PartialEq, Eq)]
pub struct SampledEntry {
    pub key: String,
    pub etag: String,
    pub bytes: u64,
    pub mtime_ms: i64,
}

/// A [`SampledEntry`], with text as sequences.
#[verifier::ext_equal]
pub struct SampledView {
    pub key: Seq<char>,
    pub etag: Seq<char>,
    pub bytes: u64,
    pub mtime_ms: i64,
}

impl View for SampledEntry {
    type V = SampledView;

    open spec fn view(&self) -> SampledView {
        SampledView {
            key: self.key@,
            etag: self.etag@,
            bytes: self.bytes,
            mtime_ms: self.mtime_ms,
        }
    }
}

/// Entries with text as sequences.
pub open spec fn entry_views(list: Seq<SampledEntry>) -> Seq<SampledView> {
    Seq::new(list.len(), |i: int| list[i]@)
}

/// What a listed object is in a sample: nothing without a key and an ETag.
pub open spec fn sampled_of(o: ListedObject) -> Option<SampledView> {
    match (o.key, o.etag) {
        (Some(key), Some(etag)) => Some(
            SampledView {
                key: key@,
                etag: unquoted(etag@),
                bytes: listed_size(o.size),
                mtime_ms: match o.last_modified_ms {
                    Some(at) => at,
                    None => 0,
                },
            },
        ),
        _ => None,
    }
}

/// The entries of a page, in its order.
pub open spec fn sampled_in(page: Seq<ListedObject>) -> Seq<SampledView>
    decreases page.len(),
{
    if page.len() == 0 {
        Seq::empty()
    } else {
        let before = sampled_in(page.drop_last());
        match sampled_of(page.last()) {
            Some(e) => before.push(e),
            None => before,
        }
    }
}

/// The page to list next.
#[derive(Clone, Debug, PartialEq, Eq)]
pub struct PageRequest {
    pub token: Option<String>,
    pub start_after: Option<String>,
}

/// A sample in progress.
pub struct Sample {
    entries: Vec<SampledEntry>,
    pages: usize,
    budget: usize,
    position: Option<String>,
    token: Option<String>,
    ended: bool,
    wrapped: bool,
}

impl Sample {
    pub closed spec fn entries(&self) -> Seq<SampledView> {
        entry_views(self.entries@)
    }

    /// The pages read since the sample began or began anew.
    pub closed spec fn pages(&self) -> nat {
        self.pages as nat
    }

    pub closed spec fn budget(&self) -> nat {
        self.budget as nat
    }

    /// The name after which the first page starts.
    pub closed spec fn position(&self) -> Option<String> {
        self.position
    }

    pub closed spec fn token(&self) -> Option<String> {
        self.token
    }

    /// Whether the listing has no further page.
    pub closed spec fn ended(&self) -> bool {
        self.ended
    }

    /// Whether the sample began anew at the head of the listing.
    pub closed spec fn wrapped(&self) -> bool {
        self.wrapped
    }

    pub open spec fn reading(&self) -> bool {
        !self.ended() && self.pages() < self.budget()
    }

    /// The listing gave nothing at all, so the position was past its end.
    pub open spec fn overshot(&self) -> bool {
        !self.reading() && self.entries().len() == 0 && !self.wrapped() && self.budget() > 0
    }

    pub fn new(position: String, page_budget: usize) -> (sample: Self)
        ensures
            sample.entries() == Seq::<SampledView>::empty(),
            sample.pages() == 0,
            sample.budget() == page_budget,
            sample.position() == Some(position),
            sample.token() is None,
            !sample.ended(),
            !sample.wrapped(),
    {
        let sample = Sample {
            entries: Vec::new(),
            pages: 0,
            budget: page_budget,
            position: Some(position),
            token: None,
            ended: false,
            wrapped: false,
        };
        assert(sample.entries() =~= Seq::<SampledView>::empty());
        sample
    }

    /// The next page to list, or none.  A position past the end of the listing begins anew at its
    /// head, once; a page without candidates is no reason to.
    pub fn next_page(&mut self) -> (request: Option<PageRequest>)
        ensures
            final(self).entries() == old(self).entries(),
            final(self).budget() == old(self).budget(),
            old(self).reading() ==> {
                &&& request matches Some(r)
                &&& r.token == old(self).token()
                &&& r.start_after == if old(self).pages() == 0 {
                    old(self).position()
                } else {
                    None
                }
                &&& final(self).token() is None
                &&& final(self).pages() == old(self).pages()
                &&& final(self).reading()
                &&& final(self).wrapped() == old(self).wrapped()
                &&& (old(self).pages() > 0 ==> final(self).position() == old(self).position())
            },
            old(self).overshot() ==> {
                &&& request matches Some(r)
                &&& r.token is None
                &&& r.start_after is None
                &&& final(self).token() is None
                &&& final(self).pages() == 0
                &&& final(self).reading()
                &&& final(self).wrapped()
            },
            !old(self).reading() && !old(self).overshot() ==> request is None && *final(self)
                == *old(self),
    {
        if self.ended || self.pages >= self.budget {
            if self.entries.len() == 0 && !self.wrapped && self.budget > 0 {
                self.wrapped = true;
                self.ended = false;
                self.pages = 0;
                self.token = None;
                self.position = None;
                return Some(PageRequest { token: None, start_after: None });
            }
            return None;
        }
        let mut token: Option<String> = None;
        std::mem::swap(&mut self.token, &mut token);
        let mut start_after: Option<String> = None;
        if self.pages == 0 {
            std::mem::swap(&mut self.position, &mut start_after);
        }
        Some(PageRequest { token, start_after })
    }

    /// Takes in a page, and the token of the one after it where there is one.
    pub fn add_page(&mut self, page: &Vec<ListedObject>, next: Option<String>)
        requires
            old(self).reading(),
        ensures
            final(self).entries() == old(self).entries() + sampled_in(page@),
            final(self).pages() == old(self).pages() + 1,
            final(self).budget() == old(self).budget(),
            final(self).token() == next,
            final(self).ended() == (next is None),
            final(self).wrapped() == old(self).wrapped(),
            final(self).position() == old(self).position(),
    {
        let ghost first = self.entries();
        let mut i: usize = 0;
        assert(page@.take(0) =~= Seq::empty());
        assert(first =~= first + sampled_in(page@.take(0)));
        while i < page.len()
            invariant
                i <= page@.len(),
                self.entries() == first + sampled_in(page@.take(i as int)),
                self.pages == old(self).pages,
                self.budget == old(self).budget,
                self.wrapped == old(self).wrapped,
                self.position == old(self).position,
            decreases page@.len() - i,
        {
            let ghost before = self.entries();
            proof {
                assert(page@.take(i + 1).drop_last() =~= page@.take(i as int));
                assert(page@.take(i + 1).last() == page@[i as int]);
            }
            if let (Some(key), Some(etag)) = (&page[i].key, &page[i].etag) {
                let mtime_ms: i64 = match page[i].last_modified_ms {
                    Some(at) => at,
                    None => 0,
                };
                let entry = SampledEntry {
                    key: key.clone(),
                    etag: trim_quotes(etag.as_str()),
                    bytes: size_of_listed(page[i].size),
                    mtime_ms,
                };
                self.entries.push(entry);
                assert(sampled_of(page@[i as int]) == Some(entry@));
                assert(self.entries() =~= before.push(entry@));
                assert(self.entries() =~= first + sampled_in(page@.take(i + 1)));
            }
            i += 1;
        }
        assert(page@.take(i as int) =~= page@);
        self.pages = self.pages + 1;
        match next {
            Some(t) => {
                self.ended = false;
                self.token = Some(t);
            },
            None => {
                self.ended = true;
                self.token = None;
            },
        }
    }

    /// What was read, and the number of pages that it took.
    pub fn finish(self) -> (sampled: (Vec<SampledEntry>, usize))
        ensures
            entry_views(sampled.0@) == self.entries(),
            sampled.1 == self.pages(),
    {
        (self.entries, self.pages)
    }
}

// ---- what a sample holds ----------------------------------------------------------------------

/// The leading characters by which positions are shaped: whole characters, and all of a short key.
pub open spec fn leading_of(key: Seq<char>) -> Seq<char> {
    if key.len() < SHAPED_LEN {
        key
    } else {
        key.take(SHAPED_LEN as int)
    }
}

pub fn leading(key: &str) -> (lead: String)
    ensures
        lead@ == leading_of(key@),
{
    let chars: Vec<char> = chars_of(key);
    let to: usize = if chars.len() < SHAPED_LEN {
        chars.len()
    } else {
        SHAPED_LEN
    };
    let lead: String = text_between(&chars, 0, to);
    assert(lead@ =~= leading_of(key@));
    lead
}

/// How many of some entries lead with given characters.
pub open spec fn lead_count(entries: Seq<SampledView>, lead: Seq<char>) -> nat
    decreases entries.len(),
{
    if entries.len() == 0 {
        0
    } else {
        lead_count(entries.drop_last(), lead) + if leading_of(entries.last().key) == lead {
            1nat
        } else {
            0
        }
    }
}

proof fn lemma_lead_count_bound(entries: Seq<SampledView>, lead: Seq<char>)
    ensures
        lead_count(entries, lead) <= entries.len(),
    decreases entries.len(),
{
    if entries.len() > 0 {
        lemma_lead_count_bound(entries.drop_last(), lead);
    }
}

/// Whether a map counts the leads of some entries.
pub open spec fn counts_leads(counts: Map<Seq<char>, usize>, entries: Seq<SampledView>) -> bool {
    &&& forall|lead: Seq<char>| #[trigger]
        counts.contains_key(lead) <==> lead_count(entries, lead) > 0
    &&& forall|lead: Seq<char>| #[trigger]
        counts.contains_key(lead) ==> counts[lead] == lead_count(entries, lead)
}

/// Counts the leads of the keys that a sample walked past.
pub fn lead_counts(entries: &Vec<SampledEntry>) -> (counts: NameMap<usize>)
    ensures
        counts.wf(),
        counts_leads(counts@, entry_views(entries@)),
{
    let mut counts: NameMap<usize> = NameMap::new();
    let ghost all = entry_views(entries@);
    let mut i: usize = 0;
    assert(all.take(0) =~= Seq::empty());
    while i < entries.len()
        invariant
            i <= entries@.len(),
            all == entry_views(entries@),
            counts.wf(),
            counts_leads(counts@, all.take(i as int)),
        decreases entries@.len() - i,
    {
        let ghost before = counts@;
        let lead: String = leading(entries[i].key.as_str());
        let ghost l = lead@;
        proof {
            assert(all.take(i + 1).drop_last() =~= all.take(i as int));
            assert(all.take(i + 1).last() == entries@[i as int]@);
            lemma_lead_count_bound(all.take(i as int), l);
        }
        let seen: usize = match counts.get(lead.as_str()) {
            Some(n) => *n,
            None => 0,
        };
        assert(seen == lead_count(all.take(i as int), l)) by {
            assert(before.contains_key(l) <==> lead_count(all.take(i as int), l) > 0);
        }
        counts.insert(lead, seen + 1);
        proof {
            assert forall|m: Seq<char>| #[trigger] counts@.contains_key(m) <==> lead_count(
                all.take(i + 1),
                m,
            ) > 0 by {
                assert(before.contains_key(m) <==> lead_count(all.take(i as int), m) > 0);
            }
            assert forall|m: Seq<char>| #[trigger] counts@.contains_key(m) implies counts@[m]
                == lead_count(all.take(i + 1), m) by {
                if m != l {
                    assert(before.contains_key(m));
                }
            }
        }
        i += 1;
    }
    assert(all.take(i as int) =~= all);
    counts
}

/// The candidate that an entry is.
pub open spec fn as_candidate(
    bucket: Seq<char>,
    e: SampledView,
    artifact: ArtifactView,
) -> CandidateView {
    CandidateView { bucket, artifact, etag: e.etag, bytes: e.bytes, mtime_ms: e.mtime_ms }
}

/// The bodies among some entries of a bucket's data.
pub open spec fn bodies_in(bucket: Seq<char>, entries: Seq<SampledView>) -> Seq<CandidateView>
    decreases entries.len(),
{
    if entries.len() == 0 {
        Seq::empty()
    } else {
        let (before, e) = (bodies_in(bucket, entries.drop_last()), entries.last());
        if classified(e.bytes as int, e.etag) is None {
            before.push(as_candidate(bucket, e, ArtifactView::Body(e.key)))
        } else {
            before
        }
    }
}

/// The keys, among some entries of a bucket's data, that carry a transition mark.
pub open spec fn marked_in(entries: Seq<SampledView>) -> Seq<Seq<char>>
    decreases entries.len(),
{
    if entries.len() == 0 {
        Seq::empty()
    } else {
        let (before, e) = (marked_in(entries.drop_last()), entries.last());
        if classified(e.bytes as int, e.etag) == Some(TombKind::Transit) {
            before.push(e.key)
        } else {
            before
        }
    }
}

/// What one probe teaches about where to probe next.
pub struct ProbeYield {
    pub bucket: String,
    pub candidates: usize,
    pub pages: usize,
    /// How many of the keys lead with which characters; empty where positions need no shaping.
    pub prefixes: NameMap<usize>,
}

/// A probe's outcome: what it teaches, what could be evicted, and the names that it walked past that
/// another duty is to look at.
pub struct Probed {
    pub yielded: ProbeYield,
    pub candidates: Vec<Candidate>,
    pub others: Vec<String>,
}

/// The kind of tombstone that an entry is.
fn kind_of(e: &SampledEntry) -> (kind: Option<TombKind>)
    ensures
        kind == classified(e@.bytes as int, e@.etag),
{
    if e.bytes <= 0x7fff_ffff_ffff_ffff {
        classify_entry(e.bytes as i64, e.etag.as_str())
    } else {
        None
    }
}

/// Sorts a sample of a bucket's data into bodies, which are candidates, and the keys that carry a
/// transition mark.  Other tombstones hold nothing and are settled.
pub fn probe_bodies(bucket: &str, sampled: &Vec<SampledEntry>, pages: usize) -> (probed: Probed)
    ensures
        probed.yielded.bucket@ == bucket@,
        probed.yielded.candidates == probed.candidates@.len(),
        probed.yielded.pages == pages,
        probed.yielded.prefixes.wf(),
        counts_leads(probed.yielded.prefixes@, entry_views(sampled@)),
        candidate_views(probed.candidates@) == bodies_in(bucket@, entry_views(sampled@)),
        name_views(probed.others@) == marked_in(entry_views(sampled@)),
{
    let mut candidates: Vec<Candidate> = Vec::new();
    let mut marked: Vec<String> = Vec::new();
    let ghost all = entry_views(sampled@);
    let mut i: usize = 0;
    proof {
        assert(all.take(0) =~= Seq::empty());
        assert(candidate_views(candidates@) =~= bodies_in(bucket@, all.take(0)));
        assert(name_views(marked@) =~= marked_in(all.take(0)));
    }
    while i < sampled.len()
        invariant
            i <= sampled@.len(),
            all == entry_views(sampled@),
            candidate_views(candidates@) == bodies_in(bucket@, all.take(i as int)),
            name_views(marked@) == marked_in(all.take(i as int)),
        decreases sampled@.len() - i,
    {
        let e: &SampledEntry = &sampled[i];
        let ghost (earlier, known) = (candidates@, marked@);
        proof {
            assert(all.take(i + 1).drop_last() =~= all.take(i as int));
            assert(all.take(i + 1).last() == e@);
        }
        match kind_of(e) {
            None => {
                let found = Candidate {
                    bucket: bucket.to_string(),
                    artifact: Artifact::Body(e.key.clone()),
                    etag: e.etag.clone(),
                    bytes: e.bytes,
                    mtime_ms: e.mtime_ms,
                };
                candidates.push(found);
                assert(found@ == as_candidate(bucket@, e@, ArtifactView::Body(e@.key)));
                assert(candidate_views(candidates@) =~= candidate_views(earlier).push(found@));
            },
            Some(TombKind::Transit) => {
                let key: String = e.key.clone();
                marked.push(key);
                assert(name_views(marked@) =~= name_views(known).push(e@.key));
            },
            Some(TombKind::Evict) => {},
        }
        i += 1;
    }
    assert(all.take(i as int) =~= all);
    let yielded = ProbeYield {
        bucket: bucket.to_string(),
        candidates: candidates.len(),
        pages,
        prefixes: lead_counts(sampled),
    };
    Probed { yielded, candidates, others: marked }
}

/// Whether a name is that of some key's facts twin.
pub open spec fn names_a_twin(name: Seq<char>) -> bool {
    exists|base: Seq<char>, f: FactsView| #[trigger] is_twin(name, base, f)
}

/// The shadow bodies among some entries of a bucket's meta range.
pub open spec fn shadows_in(bucket: Seq<char>, entries: Seq<SampledView>) -> Seq<CandidateView>
    decreases entries.len(),
{
    if entries.len() == 0 {
        Seq::empty()
    } else {
        let (before, e) = (shadows_in(bucket, entries.drop_last()), entries.last());
        if !names_a_twin(e.key) && tagged('b').is_prefix_of(e.key) {
            before.push(as_candidate(bucket, e, ArtifactView::Shadow(e.key)))
        } else {
            before
        }
    }
}

/// The twins among some entries of a bucket's meta range.
pub open spec fn twins_in(entries: Seq<SampledView>) -> Seq<Seq<char>>
    decreases entries.len(),
{
    if entries.len() == 0 {
        Seq::empty()
    } else {
        let (before, e) = (twins_in(entries.drop_last()), entries.last());
        if names_a_twin(e.key) {
            before.push(e.key)
        } else {
            before
        }
    }
}

fn is_a_twin(name: &str) -> (twin: bool)
    ensures
        twin == names_a_twin(name@),
{
    match parse_twin(name) {
        Some((base, facts)) => {
            assert(is_twin(name@, base@, facts@));
            true
        },
        None => {
            assert forall|base: Seq<char>, f: FactsView| !#[trigger] is_twin(name@, base, f) by {
                if is_twin(name@, base, f) {
                    assert(name@ != crate::meta::twin::twin_name(base, f));
                }
            }
            false
        },
    }
}

/// Sorts a sample of a bucket's meta range into shadow bodies, which are candidates, and twins.  Its
/// positions are drawn over digests, which need no shaping.
pub fn probe_meta(bucket: &str, sampled: &Vec<SampledEntry>, pages: usize) -> (probed: Probed)
    ensures
        probed.yielded.bucket@ == bucket@,
        probed.yielded.candidates == probed.candidates@.len(),
        probed.yielded.pages == pages,
        probed.yielded.prefixes.wf(),
        probed.yielded.prefixes@ == Map::<Seq<char>, usize>::empty(),
        candidate_views(probed.candidates@) == shadows_in(bucket@, entry_views(sampled@)),
        name_views(probed.others@) == twins_in(entry_views(sampled@)),
{
    let mut candidates: Vec<Candidate> = Vec::new();
    let mut twins: Vec<String> = Vec::new();
    let prefix: String = shadow_scan_prefix();
    let ghost all = entry_views(sampled@);
    let mut i: usize = 0;
    proof {
        assert(all.take(0) =~= Seq::empty());
        assert(candidate_views(candidates@) =~= shadows_in(bucket@, all.take(0)));
        assert(name_views(twins@) =~= twins_in(all.take(0)));
    }
    while i < sampled.len()
        invariant
            i <= sampled@.len(),
            all == entry_views(sampled@),
            prefix@ == tagged('b'),
            candidate_views(candidates@) == shadows_in(bucket@, all.take(i as int)),
            name_views(twins@) == twins_in(all.take(i as int)),
        decreases sampled@.len() - i,
    {
        let e: &SampledEntry = &sampled[i];
        let ghost (earlier, known) = (candidates@, twins@);
        proof {
            assert(all.take(i + 1).drop_last() =~= all.take(i as int));
            assert(all.take(i + 1).last() == e@);
        }
        if is_a_twin(e.key.as_str()) {
            let key: String = e.key.clone();
            twins.push(key);
            assert(name_views(twins@) =~= name_views(known).push(e@.key));
        } else if has_prefix(&chars_of(e.key.as_str()), prefix.as_str()) {
            let found = Candidate {
                bucket: bucket.to_string(),
                artifact: Artifact::Shadow(e.key.clone()),
                etag: e.etag.clone(),
                bytes: e.bytes,
                mtime_ms: e.mtime_ms,
            };
            candidates.push(found);
            assert(found@ == as_candidate(bucket@, e@, ArtifactView::Shadow(e@.key)));
            assert(candidate_views(candidates@) =~= candidate_views(earlier).push(found@));
        }
        i += 1;
    }
    assert(all.take(i as int) =~= all);
    let yielded = ProbeYield {
        bucket: bucket.to_string(),
        candidates: candidates.len(),
        pages,
        prefixes: NameMap::new(),
    };
    Probed { yielded, candidates, others: twins }
}

// ---- positions --------------------------------------------------------------------------------

/// A number within bounds, both of them included, drawn by `rand::Rng::gen_range` from the thread's
/// generator.  Which one it is is left to chance.
#[verifier::external_body]
fn draw_between(low: u8, high: u8) -> (drawn: u8)
    requires
        low <= high,
    ensures
        low <= drawn <= high,
{
    rand::thread_rng().gen_range(low..=high)
}

/// A truth value drawn by `rand::Rng::gen` from the thread's generator.  Either may come.
#[verifier::external_body]
fn draw_bool() -> (drawn: bool) {
    rand::thread_rng().gen::<bool>()
}

/// A printable ASCII character, as client keys are made of.
pub open spec fn printable(c: char) -> bool {
    '!' <= c <= '~'
}

/// A text of printable characters, as long as a position is.
pub open spec fn is_key_position(s: Seq<char>) -> bool {
    &&& s.len() == POSITION_LEN
    &&& forall|i: int| 0 <= i < s.len() ==> printable(#[trigger] s[i])
}

/// The characters that some draws stand for.
pub open spec fn drawn_text(draws: Seq<u8>) -> Seq<char> {
    Seq::new(draws.len(), |i: int| draws[i] as char)
}

/// A position that leads with characters under which there are keys and goes on with some draws.
pub fn shaped_position(head: &str, draws: &Vec<u8>) -> (position: String)
    ensures
        position@ == head@ + drawn_text(draws@),
{
    let mut position: String = head.to_string();
    let mut i: usize = 0;
    assert(position@ =~= head@ + drawn_text(draws@.take(0)));
    while i < draws.len()
        invariant
            i <= draws@.len(),
            position@ == head@ + drawn_text(draws@.take(i as int)),
        decreases draws@.len() - i,
    {
        let ghost before = position@;
        position.push(draws[i] as char);
        i += 1;
        assert(position@ =~= head@ + drawn_text(draws@.take(i as int)));
    }
    assert(draws@.take(i as int) =~= draws@);
    position
}

/// A random position under a head; the head itself where it is long enough.
pub fn fill_position(head: &str) -> (position: String)
    ensures
        head@.is_prefix_of(position@),
        position@.len() == if head@.len() < POSITION_LEN {
            POSITION_LEN as nat
        } else {
            head@.len()
        },
        forall|i: int| head@.len() <= i < position@.len() ==> printable(#[trigger] position@[i]),
{
    let given: usize = chars_of(head).len();
    let mut draws: Vec<u8> = Vec::new();
    let mut i: usize = given;
    while i < POSITION_LEN
        invariant
            given <= i,
            i <= POSITION_LEN || i == given,
            draws@.len() == i - given,
            forall|j: int| 0 <= j < draws@.len() ==> 0x21 <= #[trigger] draws@[j] <= 0x7e,
        decreases POSITION_LEN - i,
    {
        draws.push(draw_between(0x21, 0x7e));
        i += 1;
    }
    let position: String = shaped_position(head, &draws);
    proof {
        assert(position@.subrange(0, head@.len() as int) =~= head@);
        assert forall|k: int| head@.len() <= k < position@.len() implies printable(
            #[trigger] position@[k],
        ) by {
            let b = draws@[k - head@.len()];
            assert(0x21 <= b <= 0x7e);
            assert(position@[k] == b as char);
        }
    }
    position
}

/// A random position among client keys.
pub fn random_key_position() -> (position: String)
    ensures
        is_key_position(position@),
{
    let empty: String = String::new();
    assert(empty@ =~= Seq::empty());
    fill_position(empty.as_str())
}

/// The characters of a digest's text, in the order of their codes.
pub open spec fn digest_char(d: int) -> char {
    if d == 0 {
        '-'
    } else if d <= 10 {
        ('0' as int + d - 1) as char
    } else if d <= 36 {
        ('A' as int + d - 11) as char
    } else if d == 37 {
        '_'
    } else {
        ('a' as int + d - 38) as char
    }
}

/// A character of a digest's text.
pub open spec fn is_digest_char(c: char) -> bool {
    c == '-' || '0' <= c <= '9' || 'A' <= c <= 'Z' || c == '_' || 'a' <= c <= 'z'
}

/// A text of digest characters, as long as a position is.
pub open spec fn is_digest_position(s: Seq<char>) -> bool {
    &&& s.len() == POSITION_LEN
    &&& forall|i: int| 0 <= i < s.len() ==> is_digest_char(#[trigger] s[i])
}

fn digest_code(d: u8) -> (code: u8)
    requires
        d < 64,
    ensures
        code as char == digest_char(d as int),
        is_digest_char(code as char),
{
    if d == 0 {
        0x2d
    } else if d <= 10 {
        0x2f + d
    } else if d <= 36 {
        0x36 + d
    } else if d == 37 {
        0x5f
    } else {
        0x3b + d
    }
}

/// A random position among the shadow bodies: of the characters of a digest, as others could sort
/// outside the range.
pub fn random_digest_position() -> (position: String)
    ensures
        is_digest_position(position@),
{
    let mut draws: Vec<u8> = Vec::new();
    while draws.len() < POSITION_LEN
        invariant
            draws@.len() <= POSITION_LEN,
            forall|j: int| 0 <= j < draws@.len() ==> is_digest_char((#[trigger] draws@[j]) as char),
        decreases POSITION_LEN - draws@.len(),
    {
        draws.push(digest_code(draw_between(0, 63)));
    }
    let empty: String = String::new();
    assert(empty@ =~= Seq::empty());
    let position: String = shaped_position(empty.as_str(), &draws);
    proof {
        assert forall|k: int| 0 <= k < position@.len() implies is_digest_char(
            #[trigger] position@[k],
        ) by {
            assert(position@[k] == draws@[k] as char);
        }
    }
    position
}

/// A position among the shadow bodies.
pub open spec fn among_shadows(position: Seq<char>) -> bool {
    &&& tagged('b').is_prefix_of(position)
    &&& is_digest_position(position.skip(3))
}

/// A position among the twins.
pub open spec fn among_twins(position: Seq<char>) -> bool {
    &&& position.len() > 0
    &&& position[0] == CONTROL
    &&& is_key_position(position.skip(1))
}

/// A position in the range that is aimed at.  The two ranges do not touch, so a position drawn over
/// both would fall where the names between them are.
pub fn meta_position(at_shadows: bool) -> (position: String)
    ensures
        at_shadows ==> among_shadows(position@),
        !at_shadows ==> among_twins(position@),
{
    if at_shadows {
        let mut position: String = shadow_scan_prefix();
        let tail: String = random_digest_position();
        position.append(tail.as_str());
        assert(position@.subrange(0, 3) =~= tagged('b'));
        assert(position@.skip(3) =~= tail@);
        position
    } else {
        let mut position: String = String::new();
        position.push(CONTROL);
        let tail: String = random_key_position();
        position.append(tail.as_str());
        assert(position@.skip(1) =~= tail@);
        position
    }
}

/// A random position in a bucket's meta range, among its shadow bodies or its twins at even odds.
pub fn random_meta_position() -> (position: String)
    ensures
        among_shadows(position@) || among_twins(position@),
{
    meta_position(draw_bool())
}

// ---- laws -------------------------------------------------------------------------------------

/// Bodies and shadow bodies never share a name in the recency ring: a shadow body's name begins with
/// a character that no client key holds.
pub proof fn bodies_and_shadows_are_told_apart(
    a: Seq<char>,
    body: Seq<char>,
    b: Seq<char>,
    shadow: Seq<char>,
)
    requires
        !a.contains('/'),
        !b.contains('/'),
        unreserved(body),
        tagged('b').is_prefix_of(shadow),
    ensures
        qualified_name(a, body) != qualified_name(b, shadow),
{
    if qualified_name(a, body) == qualified_name(b, shadow) {
        qualified_names_identify(a, body, b, shadow);
        unreserved_characters(body);
        assert(shadow.subrange(0, 3)[0] == CONTROL);
        assert(body[0] as u32 > 1);
    }
}

proof fn lemma_ascii_length(s: Seq<char>)
    requires
        forall|i: int| 0 <= i < s.len() ==> (#[trigger] s[i]) as u32 <= 0x7f,
    ensures
        encode_utf8(s).len() == s.len(),
    decreases s.len(),
{
    if s.len() > 0 {
        lemma_encoded_bytes(s[0] as u32);
        assert forall|i: int| 0 <= i < s.drop_first().len() implies (
        #[trigger] s.drop_first()[i]) as u32 <= 0x7f by {
            assert(s.drop_first()[i] == s[i + 1]);
        }
        lemma_ascii_length(s.drop_first());
        assert(encode_utf8(s) == encode_scalar(s[0] as u32) + encode_utf8(s.drop_first()));
    }
}

/// Every random position among client keys is itself an admissible key.
pub proof fn positions_are_admissible(position: Seq<char>)
    requires
        is_key_position(position),
    ensures
        admissible(position),
{
    assert forall|i: int| 0 <= i < position.len() implies (#[trigger] position[i]) as u32 > 1
        && position[i] as u32 <= 0x7f by {
        assert(printable(position[i]));
    }
    unreserved_characters(position);
    lemma_ascii_length(position);
}

/// Every position among the shadow bodies sorts after the head of their range and before anything
/// that is past it.
pub proof fn shadow_positions_stay_in_the_range(position: Seq<char>)
    requires
        among_shadows(position),
    ensures
        key_less(tagged('b'), position),
        key_less(position, tagged('b').push('\u{7f}')),
{
    let p = tagged('b');
    let tail = position.skip(3);
    assert(position =~= p + tail) by {
        assert(position.subrange(0, 3) =~= p);
    }
    let end = seq!['\u{7f}'];
    assert(p.push('\u{7f}') =~= p + end);
    encoding_concatenates(p, tail);
    encoding_concatenates(p, end);
    encoding_concatenates(p, Seq::empty());
    assert(p + Seq::<char>::empty() =~= p);
    assert(is_digest_char(tail[0]));
    lemma_encoded_bytes(tail[0] as u32);
    lemma_encoded_bytes(0x7f);
    let (x, y) = (encode_utf8(tail), encode_utf8(end));
    assert(x == encode_scalar(tail[0] as u32) + encode_utf8(tail.drop_first()));
    assert(y == encode_scalar(0x7f) + encode_utf8(end.drop_first()));
    assert(x[0] == tail[0] as u8);
    assert(y[0] == 0x7f);
    let none = encode_utf8(Seq::<char>::empty());
    assert(none.len() == 0);
    assert(x.take(0) =~= none.take(0));
    assert(splits_at(none, x, 0));
    assert(x.take(0) =~= y.take(0));
    assert(splits_at(x, y, 0));
    common_prefix_keeps_order(encode_utf8(p), none, x);
    common_prefix_keeps_order(encode_utf8(p), x, y);
}

/// A page is sampled object by object: one with a key and an ETag gives its own key, its ETag without
/// the quotes, its length and its time, and one without gives nothing.
pub proof fn a_sample_shows_its_objects_as_they_are(
    a: Seq<ListedObject>,
    b: Seq<ListedObject>,
    one: ListedObject,
)
    ensures
        sampled_in(a + b) == sampled_in(a) + sampled_in(b),
        sampled_in(Seq::<ListedObject>::empty()).len() == 0,
        one.key is Some && one.etag is Some ==> sampled_in(seq![one]).len() == 1 && ({
            let e = sampled_in(seq![one])[0];
            &&& e.key == one.key->0@
            &&& e.etag == unquoted(one.etag->0@)
            &&& one.size is Some && one.size->0 >= 0 ==> e.bytes == one.size->0
            &&& (one.size is None || one.size->0 < 0) ==> e.bytes == 0
            &&& one.last_modified_ms is Some ==> e.mtime_ms == one.last_modified_ms->0
            &&& one.last_modified_ms is None ==> e.mtime_ms == 0
        }),
        one.key is None || one.etag is None ==> sampled_in(seq![one]).len() == 0,
    decreases b.len(),
{
    assert(seq![one].drop_last() =~= Seq::<ListedObject>::empty());
    assert(seq![one].last() == one);
    reveal_with_fuel(sampled_in, 2);
    if b.len() == 0 {
        assert(a + b =~= a);
        assert(sampled_in(a) + sampled_in(b) =~= sampled_in(a));
    } else {
        a_sample_shows_its_objects_as_they_are(a, b.drop_last(), one);
        assert((a + b).drop_last() =~= a + b.drop_last());
        assert((a + b).last() == b.last());
        assert(sampled_in(a + b) =~= sampled_in(a) + sampled_in(b));
    }
}

/// A listing is probed entry by entry: a live body is a candidate, with its own key, ETag, length and
/// time; a tombstone is none.
pub proof fn every_live_body_is_a_candidate(
    bucket: Seq<char>,
    a: Seq<SampledView>,
    b: Seq<SampledView>,
    one: SampledView,
)
    ensures
        bodies_in(bucket, a + b) == bodies_in(bucket, a) + bodies_in(bucket, b),
        bodies_in(bucket, Seq::<SampledView>::empty()).len() == 0,
        one.bytes != 16 || (one.etag != etag_of_body(EVICT_SENTINEL@) && one.etag != etag_of_body(
            TRANSIT_SENTINEL@,
        )) ==> bodies_in(bucket, seq![one]).len() == 1 && ({
            let c = bodies_in(bucket, seq![one])[0];
            &&& c.bucket == bucket
            &&& c.artifact == ArtifactView::Body(one.key)
            &&& c.etag == one.etag
            &&& c.bytes == one.bytes
            &&& c.mtime_ms == one.mtime_ms
        }),
        one.bytes == 16 && (one.etag == etag_of_body(EVICT_SENTINEL@) || one.etag == etag_of_body(
            TRANSIT_SENTINEL@,
        )) ==> bodies_in(bucket, seq![one]).len() == 0,
    decreases b.len(),
{
    assert(seq![one].drop_last() =~= Seq::<SampledView>::empty());
    assert(seq![one].last() == one);
    reveal_with_fuel(bodies_in, 2);
    if b.len() == 0 {
        assert(a + b =~= a);
        assert(bodies_in(bucket, a) + bodies_in(bucket, b) =~= bodies_in(bucket, a));
    } else {
        every_live_body_is_a_candidate(bucket, a, b.drop_last(), one);
        assert((a + b).drop_last() =~= a + b.drop_last());
        assert((a + b).last() == b.last());
        assert(bodies_in(bucket, a + b) =~= bodies_in(bucket, a) + bodies_in(bucket, b));
    }
}

/// Of the entries of a listing those that are marks of a change are reported, and no other.
pub proof fn every_mark_is_reported(
    a: Seq<SampledView>,
    b: Seq<SampledView>,
    one: SampledView,
)
    ensures
        marked_in(a + b) == marked_in(a) + marked_in(b),
        marked_in(Seq::<SampledView>::empty()).len() == 0,
        one.bytes == 16 && one.etag == etag_of_body(TRANSIT_SENTINEL@) && one.etag != etag_of_body(
            EVICT_SENTINEL@,
        ) ==> marked_in(seq![one]) == seq![one.key],
        one.bytes != 16 || one.etag != etag_of_body(TRANSIT_SENTINEL@) ==> marked_in(
            seq![one],
        ).len() == 0,
    decreases b.len(),
{
    assert(seq![one].drop_last() =~= Seq::<SampledView>::empty());
    assert(seq![one].last() == one);
    reveal_with_fuel(marked_in, 2);
    if one.bytes == 16 && one.etag == etag_of_body(TRANSIT_SENTINEL@) && one.etag != etag_of_body(
        EVICT_SENTINEL@,
    ) {
        assert(marked_in(seq![one]) =~= seq![one.key]);
    }
    if b.len() == 0 {
        assert(a + b =~= a);
        assert(marked_in(a) + marked_in(b) =~= marked_in(a));
    } else {
        every_mark_is_reported(a, b.drop_last(), one);
        assert((a + b).drop_last() =~= a + b.drop_last());
        assert((a + b).last() == b.last());
        assert(marked_in(a + b) =~= marked_in(a) + marked_in(b));
    }
}

/// Of the names of a listing of the gateway's own those of shadow bodies are candidates, with their own
/// name, ETag, length and time.
pub proof fn every_shadow_is_a_candidate(
    bucket: Seq<char>,
    a: Seq<SampledView>,
    b: Seq<SampledView>,
    one: SampledView,
)
    ensures
        shadows_in(bucket, a + b) == shadows_in(bucket, a) + shadows_in(bucket, b),
        shadows_in(bucket, Seq::<SampledView>::empty()).len() == 0,
        !names_a_twin(one.key) && tagged('b').is_prefix_of(one.key) ==> shadows_in(
            bucket,
            seq![one],
        ).len() == 1 && ({
            let c = shadows_in(bucket, seq![one])[0];
            &&& c.bucket == bucket
            &&& c.artifact == ArtifactView::Shadow(one.key)
            &&& c.etag == one.etag
            &&& c.bytes == one.bytes
            &&& c.mtime_ms == one.mtime_ms
        }),
        names_a_twin(one.key) || !tagged('b').is_prefix_of(one.key) ==> shadows_in(
            bucket,
            seq![one],
        ).len() == 0,
    decreases b.len(),
{
    assert(seq![one].drop_last() =~= Seq::<SampledView>::empty());
    assert(seq![one].last() == one);
    reveal_with_fuel(shadows_in, 2);
    if b.len() == 0 {
        assert(a + b =~= a);
        assert(shadows_in(bucket, a) + shadows_in(bucket, b) =~= shadows_in(bucket, a));
    } else {
        every_shadow_is_a_candidate(bucket, a, b.drop_last(), one);
        assert((a + b).drop_last() =~= a + b.drop_last());
        assert((a + b).last() == b.last());
        assert(shadows_in(bucket, a + b) =~= shadows_in(bucket, a) + shadows_in(bucket, b));
    }
}

/// Of the names of a listing of the gateway's own those that a key and its facts make are reported.
pub proof fn every_twin_is_reported(
    a: Seq<SampledView>,
    b: Seq<SampledView>,
    one: SampledView,
)
    ensures
        twins_in(a + b) == twins_in(a) + twins_in(b),
        twins_in(Seq::<SampledView>::empty()).len() == 0,
        (exists|base: Seq<char>, f: FactsView| #[trigger] is_twin(one.key, base, f)) ==> twins_in(
            seq![one],
        ) == seq![one.key],
        (forall|base: Seq<char>, f: FactsView| !#[trigger] is_twin(one.key, base, f)) ==> twins_in(
            seq![one],
        ).len() == 0,
    decreases b.len(),
{
    assert(seq![one].drop_last() =~= Seq::<SampledView>::empty());
    assert(seq![one].last() == one);
    reveal_with_fuel(twins_in, 2);
    if names_a_twin(one.key) {
        assert(twins_in(seq![one]) =~= seq![one.key]);
    }
    if b.len() == 0 {
        assert(a + b =~= a);
        assert(twins_in(a) + twins_in(b) =~= twins_in(a));
    } else {
        every_twin_is_reported(a, b.drop_last(), one);
        assert((a + b).drop_last() =~= a + b.drop_last());
        assert((a + b).last() == b.last());
        assert(twins_in(a + b) =~= twins_in(a) + twins_in(b));
    }
}

/// The keys of a listing are counted by their first characters, each key once.
pub proof fn leads_are_counted(
    lead: Seq<char>,
    a: Seq<SampledView>,
    b: Seq<SampledView>,
    one: SampledView,
)
    ensures
        lead_count(a + b, lead) == lead_count(a, lead) + lead_count(b, lead),
        lead_count(Seq::<SampledView>::empty(), lead) == 0,
        one.key.len() < SHAPED_LEN ==> lead_count(seq![one], lead) == if one.key == lead {
            1nat
        } else {
            0
        },
        one.key.len() >= SHAPED_LEN ==> lead_count(seq![one], lead) == if one.key.take(
            SHAPED_LEN as int,
        ) == lead {
            1nat
        } else {
            0
        },
    decreases b.len(),
{
    assert(seq![one].drop_last() =~= Seq::<SampledView>::empty());
    assert(seq![one].last() == one);
    reveal_with_fuel(lead_count, 2);
    if b.len() == 0 {
        assert(a + b =~= a);
        
    } else {
        leads_are_counted(lead, a, b.drop_last(), one);
        assert((a + b).drop_last() =~= a + b.drop_last());
        assert((a + b).last() == b.last());
        
    }
}

/// The draws make every character that a digest has, each for one draw, in the order in which they
/// sort.
pub proof fn draws_make_the_characters_of_a_digest(d: int, e: int)
    requires
        0 <= d < e < 64,
    ensures
        is_digest_char(digest_char(d)),
        is_digest_char(digest_char(e)),
        digest_char(d) < digest_char(e),
        is_digest_char('-') && is_digest_char('_'),
        !is_digest_char('+') && !is_digest_char('/') && !is_digest_char('='),
{
}

/// What is said of an artifact is said of its own kind and name.
pub proof fn an_artifact_is_seen_as_it_is(x: Artifact)
    ensures
        x is Body <==> x@ is Body,
        x is Body ==> x@->Body_0 == x->Body_0@,
        x is Shadow <==> x@ is Shadow,
        x is Shadow ==> x@->Shadow_0 == x->Shadow_0@,
{
}

/// What is said of a candidate is said of its own fields.
pub proof fn a_candidate_is_seen_as_it_is(x: Candidate)
    ensures
        x@.bucket == x.bucket@,
        x@.artifact == x.artifact@,
        x@.etag == x.etag@,
        x@.bytes == x.bytes,
        x@.mtime_ms == x.mtime_ms,
{
}

/// What is said of a sampled entry is said of its own fields.
pub proof fn a_sampled_entry_is_seen_as_it_is(x: SampledEntry)
    ensures
        x@.key == x.key@,
        x@.etag == x.etag@,
        x@.bytes == x.bytes,
        x@.mtime_ms == x.mtime_ms,
{
}

/// Lists are seen one by one, in their order.
pub proof fn lists_are_seen_one_by_one(a: Seq<Candidate>, b: Seq<SampledEntry>, c: Seq<String>, i: int)
    ensures
        candidate_views(a).len() == a.len(),
        0 <= i < a.len() ==> candidate_views(a)[i] == a[i]@,
        entry_views(b).len() == b.len(),
        0 <= i < b.len() ==> entry_views(b)[i] == b[i]@,
        name_views(c).len() == c.len(),
        0 <= i < c.len() ==> name_views(c)[i] == c[i]@,
{
}

/// The leads of a sample are counted for every entry and for nothing else: each has as many as there are
/// entries with it.
pub proof fn every_entry_counts_for_its_lead(
    counts: Map<Seq<char>, usize>,
    entries: Seq<SampledView>,
    i: int,
    lead: Seq<char>,
)
    requires
        counts_leads(counts, entries),
        0 <= i < entries.len(),
    ensures
        counts.contains_key(leading_of(entries[i].key)),
        counts[leading_of(entries[i].key)] >= 1,
        counts.contains_key(lead) ==> counts[lead] == lead_count(entries, lead) && counts[lead] >= 1,
        entries[i].key.len() <= 2 ==> leading_of(entries[i].key) == entries[i].key,
        entries[i].key.len() > 2 ==> leading_of(entries[i].key) == entries[i].key.take(2),
{
    leads_are_counted(
        leading_of(entries[i].key),
        entries.take(i),
        entries.skip(i),
        entries[i],
    );
    leads_are_counted(
        leading_of(entries[i].key),
        seq![entries[i]],
        entries.skip(i + 1),
        entries[i],
    );
    assert(entries =~= entries.take(i) + entries.skip(i));
    assert(entries.skip(i) =~= seq![entries[i]] + entries.skip(i + 1));
    assert(lead_count(entries, leading_of(entries[i].key)) >= 1);
    assert(counts.contains_key(leading_of(entries[i].key)));
    if entries[i].key.len() == 2 {
        assert(entries[i].key.take(2) =~= entries[i].key);
    }
}

/// A sample reads on exactly while it has neither come to the end nor used up its pages; one that found
/// nothing and had not started over does so.
pub proof fn a_sample_reads_while_it_may(sample: Sample)
    ensures
        sample.reading() <==> !sample.ended() && sample.pages() < sample.budget(),
        sample.overshot() ==> !sample.reading() && sample.entries().len() == 0 && !sample.wrapped(),
        !sample.reading() && sample.entries().len() == 0 && !sample.wrapped() && sample.budget() > 0
            ==> sample.overshot(),
        sample.reading() ==> !sample.overshot(),
{
}

/// A position is three characters long, and each may be any that the names it is drawn for are made of;
/// one among the gateway's own names stands behind what they start with.
pub proof fn a_position_is_made_of_what_names_are(s: Seq<char>, i: int)
    ensures
        is_key_position(s) ==> s.len() == 3,
        is_key_position(s) && 0 <= i < 3 ==> '!' <= s[i] <= '~',
        s.len() == 3 && '!' <= s[0] <= '~' && '!' <= s[1] <= '~' && '!' <= s[2] <= '~'
            ==> is_key_position(s),
        is_digest_position(s) ==> s.len() == 3,
        is_digest_position(s) && 0 <= i < 3 ==> s[i] == '-' || s[i] == '_' || '0' <= s[i] <= '9'
            || 'A' <= s[i] <= 'Z' || 'a' <= s[i] <= 'z',
        is_key_position(s) ==> among_twins(seq![CONTROL] + s),
        among_twins(seq![CONTROL] + s) ==> is_key_position(s),
        is_digest_position(s) ==> among_shadows(tagged('b') + s),
        among_shadows(tagged('b') + s) ==> is_digest_position(s),
{
    assert((seq![CONTROL] + s).skip(1) =~= s);
    assert((tagged('b') + s).skip(3) =~= s);
    assert((tagged('b') + s).subrange(0, 3) =~= tagged('b'));
}

/// Draws stand for the characters of their own codes, in their order.
pub proof fn draws_stand_for_their_characters(a: Seq<u8>, b: Seq<u8>, one: u8)
    ensures
        drawn_text(a + b) == drawn_text(a) + drawn_text(b),
        drawn_text(seq![one]) == seq![one as char],
{
    assert(drawn_text(a + b) =~= drawn_text(a) + drawn_text(b));
    assert(drawn_text(seq![one]) =~= seq![one as char]);
}

} // verus!
