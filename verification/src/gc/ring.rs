//! The recency sketch: what the collector knows about what clients want.
//!
//! One Bloom filter for each window of traffic, a fixed number of them kept behind the current one.
//! A probe answers with the newest window that holds a key.  A window ends when it has seen a target
//! number of distinct keys, never after a time, so nothing ages out but by displacement.

use crate::config::Recency;
use crate::gc::age::Age;
use crate::gc::bloom::{
    bloom_holds, bloom_with, filter_contains, filter_empty, filter_from, filter_hashes,
    filter_insert, filter_seed, filter_slice, filter_words, no_bits, Filter,
};
use crate::le::{
    le_bytes, le_value, le_value_inverts_le_bytes, lemma_le_bytes_len, lemma_pow256_values,
    push_le, read_le,
};
use vstd::prelude::*;
use vstd::string::StringExecFns;

verus! {

/// The hash seed.  It is fixed, since a slice that one process stores is read by another.
pub const HASH_SEED: u128 = 0x9e37_79b9_7f4a_7c15_f39c_c060_5ced_c835;

/// The version of the stored form; the seed and the hashing are part of what it names.
pub const SLICE_VERSION: u8 = 1;

/// The bytes of a stored slice before its words.
pub const SLICE_HEADER_LEN: usize = 21;

/// What every slice of one ring agrees on, so that its bits mean the same.
#[derive(Clone, Copy, Debug, PartialEq, Eq, Structural)]
pub struct Geometry {
    pub bits: usize,
    pub hashes: u32,
    pub fill_target: usize,
    pub depth: usize,
}

impl Geometry {
    pub open spec fn wf(self) -> bool {
        &&& 0 < self.bits
        &&& self.bits % 64 == 0
        &&& 0 < self.hashes
        &&& 0 < self.fill_target
        &&& 0 < self.depth
    }
}

/// A name that is unique across buckets: no bucket name holds a slash.
pub open spec fn qualified_name(bucket: Seq<char>, key: Seq<char>) -> Seq<char> {
    bucket.push('/') + key
}

pub fn qualified(bucket: &str, key: &str) -> (name: String)
    ensures
        name@ == qualified_name(bucket@, key@),
{
    let mut name: String = bucket.to_string();
    name.push('/');
    name.append(key);
    name
}

/// Whether a window reports a key.
pub open spec fn holds(g: Geometry, words: Seq<u64>, key: Seq<char>) -> bool {
    bloom_holds(words, g.hashes, HASH_SEED, key)
}

/// A window after a touch of a key.
pub open spec fn touched(g: Geometry, words: Seq<u64>, key: Seq<char>) -> Seq<u64> {
    bloom_with(words, g.hashes, HASH_SEED, key)
}

/// The age of a key: the newest of the windows that hold it, the current one first.
pub open spec fn has_age(g: Geometry, windows: Seq<Seq<u64>>, key: Seq<char>, age: Age) -> bool {
    match age {
        Age::Window(w) => {
            &&& (w as int) < windows.len()
            &&& holds(g, windows[w as int], key)
            &&& forall|i: int| 0 <= i < w ==> !holds(g, #[trigger] windows[i], key)
        },
        Age::Miss => forall|i: int|
            0 <= i < windows.len() ==> !holds(g, #[trigger] windows[i], key),
    }
}

// ---- the stored form --------------------------------------------------------------------------

/// Words as bytes, eight for each, lowest first.
pub open spec fn word_bytes(words: Seq<u64>) -> Seq<u8> {
    Seq::new(8 * words.len(), |i: int| le_bytes(words[i / 8] as nat, 8)[i % 8])
}

/// A slice as it is stored: the geometry is carried, not assumed.
pub open spec fn slice_body(g: Geometry, distinct: u64, words: Seq<u64>) -> Seq<u8> {
    seq![SLICE_VERSION] + le_bytes(g.hashes as nat, 4) + le_bytes(g.bits as nat, 8) + le_bytes(
        distinct as nat,
        8,
    ) + word_bytes(words)
}

/// Whether a stored slice can be read under a geometry.
pub open spec fn readable(g: Geometry, body: Seq<u8>) -> bool {
    &&& body.len() >= SLICE_HEADER_LEN
    &&& body[0] == SLICE_VERSION
    &&& le_value(body.subrange(1, 5)) == g.hashes
    &&& le_value(body.subrange(5, 13)) == g.bits
    &&& (body.len() - SLICE_HEADER_LEN) / 8 * 64 == g.bits
}

/// The words of a stored slice.
pub open spec fn words_in(body: Seq<u8>) -> Seq<u64> {
    Seq::new(
        ((body.len() - SLICE_HEADER_LEN) / 8) as nat,
        |i: int| le_value(body.subrange(SLICE_HEADER_LEN + 8 * i, SLICE_HEADER_LEN + 8 * i + 8)) as u64,
    )
}

/// The distinct count of a stored slice.
pub open spec fn distinct_in(body: Seq<u8>) -> nat {
    le_value(body.subrange(13, 21))
}

/// One window of traffic.
pub struct Slice {
    filter: Filter,
    /// The keys that the filter had not seen: the exact fill.
    distinct: u64,
}

impl Slice {
    pub closed spec fn words(&self) -> Seq<u64> {
        filter_words(self.filter)
    }

    pub closed spec fn distinct(&self) -> nat {
        self.distinct as nat
    }

    pub closed spec fn wf(&self, g: Geometry) -> bool {
        &&& filter_hashes(self.filter) == g.hashes
        &&& filter_seed(self.filter) == HASH_SEED
        &&& filter_words(self.filter).len() == g.bits / 64
    }

    fn empty(g: &Geometry) -> (slice: Self)
        requires
            g.wf(),
        ensures
            slice.wf(*g),
            slice.words() == no_bits(g.bits as nat),
            slice.distinct() == 0,
            forall|key: Seq<char>| !#[trigger] holds(*g, slice.words(), key),
    {
        let slice = Slice { filter: filter_empty(g.bits, g.hashes, HASH_SEED), distinct: 0 };
        assert(no_bits(g.bits as nat).len() == g.bits / 64);
        slice
    }
}

fn encode(slice: &Slice, g: &Geometry) -> (body: Vec<u8>)
    ensures
        body@ == slice_body(*g, slice.distinct, slice.words()),
{
    let words: &[u64] = filter_slice(&slice.filter);
    let count: usize = words.len();
    let mut out: Vec<u8> = Vec::new();
    out.push(SLICE_VERSION);
    push_le(&mut out, g.hashes as u64, 4);
    push_le(&mut out, g.bits as u64, 8);
    push_le(&mut out, slice.distinct, 8);
    let ghost header = out@;
    assert(header =~= seq![SLICE_VERSION] + le_bytes(g.hashes as nat, 4) + le_bytes(
        g.bits as nat,
        8,
    ) + le_bytes(slice.distinct as nat, 8));
    let mut i: usize = 0;
    assert(out@ =~= header + word_bytes(words@.take(0)));
    while i < count
        invariant
            i <= count == words@.len(),
            out@ == header + word_bytes(words@.take(i as int)),
        decreases count - i,
    {
        push_le(&mut out, words[i], 8);
        proof {
            lemma_le_bytes_len(words@[i as int] as nat, 8);
            assert(word_bytes(words@.take(i + 1)) =~= word_bytes(words@.take(i as int)) + le_bytes(
                words@[i as int] as nat,
                8,
            ));
            assert(out@ =~= header + word_bytes(words@.take(i + 1)));
        }
        i += 1;
    }
    assert(words@.take(i as int) =~= words@);
    out
}

fn decode(body: &[u8], g: &Geometry) -> (slice: Option<Slice>)
    requires
        g.wf(),
    ensures
        match slice {
            Some(s) => {
                &&& readable(*g, body@)
                &&& s.wf(*g)
                &&& s.words() == words_in(body@)
                &&& s.distinct() == distinct_in(body@)
            },
            None => !readable(*g, body@),
        },
{
    let len: usize = body.len();
    if len < SLICE_HEADER_LEN || body[0] != SLICE_VERSION {
        return None;
    }
    proof {
        lemma_pow256_values();
    }
    let hashes: u64 = read_le(body, 1, 4);
    let bits: u64 = read_le(body, 5, 8);
    let distinct: u64 = read_le(body, 13, 8);
    if hashes != g.hashes as u64 || bits != g.bits as u64 {
        return None;
    }
    let count: usize = (len - SLICE_HEADER_LEN) / 8;
    if count != g.bits / 64 {
        return None;
    }
    let mut words: Vec<u64> = Vec::new();
    let mut i: usize = 0;
    while i < count
        invariant
            i <= count,
            len == body@.len(),
            SLICE_HEADER_LEN + 8 * count <= len,
            words@.len() == i,
            forall|k: int|
                0 <= k < i ==> #[trigger] words@[k] == le_value(
                    body@.subrange(SLICE_HEADER_LEN + 8 * k, SLICE_HEADER_LEN + 8 * k + 8),
                ),
        decreases count - i,
    {
        let word: u64 = read_le(body, SLICE_HEADER_LEN + 8 * i, 8);
        words.push(word);
        i += 1;
    }
    assert(words@ =~= words_in(body@));
    Some(Slice { filter: filter_from(words, g.hashes, HASH_SEED), distinct })
}

/// A slice that has left the current window, on its way to storage.
#[derive(Clone, Debug)]
pub struct RetiredSlice {
    pub seq: u64,
    pub body: Vec<u8>,
}

// ---- the ring ---------------------------------------------------------------------------------

pub struct RecencyRing {
    geometry: Geometry,
    current: Slice,
    /// Newest first.
    retired: Vec<Slice>,
    next_seq: u64,
}

/// The number that the next retired slice gets once slices with the given numbers are known.
pub open spec fn seq_after(next: nat, slices: Seq<(u64, Vec<u8>)>) -> nat
    decreases slices.len(),
{
    if slices.len() == 0 {
        next
    } else {
        let before = seq_after(next, slices.drop_last());
        let own = slices.last().0 as nat + 1;
        if before < own {
            own
        } else {
            before
        }
    }
}

/// The windows that can be read of some stored slices, in their order.
pub open spec fn readable_windows(g: Geometry, slices: Seq<(u64, Vec<u8>)>) -> Seq<Seq<u64>>
    decreases slices.len(),
{
    if slices.len() == 0 {
        Seq::empty()
    } else {
        let before = readable_windows(g, slices.drop_last());
        if readable(g, slices.last().1@) {
            before.push(words_in(slices.last().1@))
        } else {
            before
        }
    }
}

/// At most the first `n` of a sequence.
pub open spec fn at_most<T>(s: Seq<T>, n: nat) -> Seq<T> {
    if s.len() <= n {
        s
    } else {
        s.take(n as int)
    }
}

impl RecencyRing {
    pub closed spec fn geometry(&self) -> Geometry {
        self.geometry
    }

    /// The windows, the current one first.
    pub closed spec fn windows(&self) -> Seq<Seq<u64>> {
        seq![self.current.words()] + Seq::new(
            self.retired@.len(),
            |i: int| self.retired@[i].words(),
        )
    }

    /// How many distinct keys the current window has seen.
    pub closed spec fn fill(&self) -> nat {
        self.current.distinct()
    }

    pub closed spec fn next_seq(&self) -> nat {
        self.next_seq as nat
    }

    pub closed spec fn wf(&self) -> bool {
        &&& self.geometry.wf()
        &&& self.current.wf(self.geometry)
        &&& self.current.distinct < self.geometry.fill_target
        &&& self.retired@.len() <= self.geometry.depth
        &&& forall|i: int| 0 <= i < self.retired@.len() ==> (#[trigger] self.retired@[i]).wf(
            self.geometry,
        )
    }

    /// An empty ring whose filters have the given bits and hashes.
    pub fn new(cfg: &Recency, filter_bits: usize, filter_hash_count: u32) -> (ring: Self)
        requires
            0 < filter_bits,
            filter_bits % 64 == 0,
        ensures
            ring.wf(),
            ring.geometry() == (Geometry {
                bits: filter_bits,
                hashes: if filter_hash_count == 0 {
                    1
                } else {
                    filter_hash_count
                },
                fill_target: if cfg.fill_target == 0 {
                    1
                } else {
                    cfg.fill_target
                },
                depth: if cfg.depth == 0 {
                    1
                } else {
                    cfg.depth
                },
            }),
            ring.windows() == seq![no_bits(filter_bits as nat)],
            ring.fill() == 0,
            ring.next_seq() == 0,
            forall|key: Seq<char>| !#[trigger] holds(ring.geometry(), ring.windows()[0], key),
    {
        let geometry = Geometry {
            bits: filter_bits,
            hashes: if filter_hash_count == 0 {
                1
            } else {
                filter_hash_count
            },
            fill_target: if cfg.fill_target == 0 {
                1
            } else {
                cfg.fill_target
            },
            depth: if cfg.depth == 0 {
                1
            } else {
                cfg.depth
            },
        };
        let current = Slice::empty(&geometry);
        let ring = RecencyRing { geometry, current, retired: Vec::new(), next_seq: 0 };
        assert(ring.windows() =~= seq![no_bits(filter_bits as nat)]);
        ring
    }

    /// Records a touch of a key; where it fills the window, the window retires and a slice comes
    /// back to be stored.
    pub fn record(&mut self, qualified: String) -> (retired: Option<RetiredSlice>)
        requires
            old(self).wf(),
            old(self).next_seq() < u64::MAX,
        ensures
            final(self).wf(),
            final(self).geometry() == old(self).geometry(),
            ({
                let g = old(self).geometry();
                let before = old(self).windows();
                let now = touched(g, before[0], qualified@);
                let seen = holds(g, before[0], qualified@);
                let fill = if seen {
                    old(self).fill()
                } else {
                    old(self).fill() + 1
                };
                &&& holds(g, now, qualified@)
                &&& seen ==> now == before[0]
                &&& forall|k: Seq<char>| holds(g, before[0], k) ==> #[trigger] holds(g, now, k)
                &&& if fill >= g.fill_target {
                    &&& retired matches Some(r) && r.seq == old(self).next_seq() && r.body@
                        == slice_body(g, fill as u64, now)
                    &&& final(self).windows() == seq![no_bits(g.bits as nat)] + at_most(
                        before.update(0, now),
                        g.depth as nat,
                    )
                    &&& final(self).fill() == 0
                    &&& final(self).next_seq() == old(self).next_seq() + 1
                } else {
                    &&& retired is None
                    &&& final(self).windows() == before.update(0, now)
                    &&& final(self).fill() == fill
                    &&& final(self).next_seq() == old(self).next_seq()
                }
            }),
    {
        let ghost g = self.geometry;
        let ghost before = self.windows();
        let held: bool = filter_insert(&mut self.current.filter, qualified.as_str());
        assert forall|k: Seq<char>| holds(g, before[0], k) implies #[trigger] holds(
            g,
            self.current.words(),
            k,
        ) by {}
        if !held {
            self.current.distinct = self.current.distinct + 1;
        }
        assert(self.windows() =~= before.update(0, touched(g, before[0], qualified@)));
        if self.current.distinct >= self.geometry.fill_target as u64 {
            Some(self.rotate())
        } else {
            None
        }
    }

    /// Whether the windows are few enough for each to have an age of its own.
    pub fn ages_are_distinct(&self) -> (distinct: bool)
        ensures
            distinct == (self.windows().len() <= 0x1_0000),
    {
        self.retired.len() < 0x1_0000
    }

    /// The age of a key.
    pub fn probe(&self, qualified: &str) -> (age: Age)
        requires
            self.wf(),
            self.windows().len() <= 0x1_0000,
        ensures
            has_age(self.geometry(), self.windows(), qualified@, age),
    {
        if filter_contains(&self.current.filter, qualified) {
            return Age::Window(0);
        }
        let count: usize = self.retired.len();
        let mut i: usize = 0;
        while i < count
            invariant
                self.wf(),
                i <= count == self.retired@.len(),
                self.windows().len() == count + 1 <= 0x1_0000,
                forall|k: int|
                    0 <= k <= i ==> !holds(self.geometry, #[trigger] self.windows()[k], qualified@),
            decreases count - i,
        {
            assert(self.windows()[i + 1] == self.retired@[i as int].words());
            if filter_contains(&self.retired[i].filter, qualified) {
                return Age::Window((i + 1) as u16);
            }
            i += 1;
        }
        Age::Miss
    }

    /// Takes in slices read back from storage, newest first.  They land behind what this ring has
    /// collected; one of another geometry is left out.
    pub fn install(&mut self, slices: Vec<(u64, Vec<u8>)>)
        requires
            old(self).wf(),
            forall|i: int| 0 <= i < slices@.len() ==> (#[trigger] slices@[i]).0 < u64::MAX,
        ensures
            final(self).wf(),
            final(self).geometry() == old(self).geometry(),
            final(self).fill() == old(self).fill(),
            final(self).next_seq() == seq_after(old(self).next_seq(), slices@),
            final(self).windows() == at_most(
                old(self).windows() + readable_windows(old(self).geometry(), slices@),
                old(self).geometry().depth as nat + 1,
            ),
    {
        let ghost g = self.geometry;
        let ghost before = self.windows();
        let ghost first = self.next_seq as nat;
        let mut i: usize = 0;
        assert(slices@.take(0) =~= Seq::empty());
        assert(before + readable_windows(g, slices@.take(0)) =~= before);
        while i < slices.len()
            invariant
                i <= slices@.len(),
                g == self.geometry,
                g == old(self).geometry,
                g.wf(),
                self.current == old(self).current,
                forall|k: int|
                    0 <= k < self.retired@.len() ==> (#[trigger] self.retired@[k]).wf(g),
                forall|k: int| 0 <= k < slices@.len() ==> (#[trigger] slices@[k]).0 < u64::MAX,
                self.next_seq == seq_after(first, slices@.take(i as int)),
                self.windows() == before + readable_windows(g, slices@.take(i as int)),
            decreases slices@.len() - i,
        {
            let ghost prior = self.windows();
            proof {
                let upto = slices@.take(i + 1);
                assert(upto.drop_last() =~= slices@.take(i as int));
                assert(upto.last() == slices@[i as int]);
            }
            if self.next_seq < slices[i].0 + 1 {
                self.next_seq = slices[i].0 + 1;
            }
            match decode(slices[i].1.as_slice(), &self.geometry) {
                Some(slice) => {
                    self.retired.push(slice);
                    assert(self.windows() =~= prior.push(slice.words()));
                    assert(prior.push(slice.words()) =~= before + readable_windows(
                        g,
                        slices@.take(i + 1),
                    ));
                },
                None => {
                    assert(self.windows() =~= prior);
                },
            }
            i += 1;
        }
        assert(slices@.take(i as int) =~= slices@);
        let ghost all = self.windows();
        let ghost kept = self.retired@;
        self.retired.truncate(self.geometry.depth);
        assert(self.windows() =~= at_most(all, g.depth as nat + 1));
    }

    pub fn depth(&self) -> (depth: usize)
        ensures
            depth == self.geometry().depth,
    {
        self.geometry.depth
    }

    /// Retires the current window and starts an empty one.
    fn rotate(&mut self) -> (retired: RetiredSlice)
        requires
            old(self).geometry.wf(),
            old(self).current.wf(old(self).geometry),
            old(self).retired@.len() <= old(self).geometry.depth,
            forall|i: int|
                0 <= i < old(self).retired@.len() ==> (#[trigger] old(self).retired@[i]).wf(
                    old(self).geometry,
                ),
            old(self).next_seq < u64::MAX,
        ensures
            final(self).wf(),
            final(self).geometry == old(self).geometry,
            final(self).windows() == seq![no_bits(old(self).geometry.bits as nat)] + at_most(
                old(self).windows(),
                old(self).geometry.depth as nat,
            ),
            final(self).fill() == 0,
            final(self).next_seq == old(self).next_seq + 1,
            retired.seq == old(self).next_seq,
            retired.body@ == slice_body(
                old(self).geometry,
                old(self).current.distinct,
                old(self).windows()[0],
            ),
    {
        let ghost before = self.windows();
        let seq: u64 = self.next_seq;
        self.next_seq = seq + 1;
        let mut slice = Slice::empty(&self.geometry);
        std::mem::swap(&mut self.current, &mut slice);
        let body: Vec<u8> = encode(&slice, &self.geometry);
        self.retired.insert(0, slice);
        self.retired.truncate(self.geometry.depth);
        assert(self.windows() =~= seq![no_bits(self.geometry.bits as nat)] + at_most(
            before,
            self.geometry.depth as nat,
        ));
        RetiredSlice { seq, body }
    }
}

// ---- laws -------------------------------------------------------------------------------------

/// A slice that one ring retires means the same to any other ring of its geometry: it reads back
/// as the words and the count that were stored.
pub proof fn a_retired_slice_reads_back(g: Geometry, distinct: u64, words: Seq<u64>)
    requires
        g.wf(),
        words.len() == g.bits / 64,
    ensures
        readable(g, slice_body(g, distinct, words)),
        words_in(slice_body(g, distinct, words)) == words,
        distinct_in(slice_body(g, distinct, words)) == distinct,
{
    let body = slice_body(g, distinct, words);
    let (h, b, d, w) = (
        le_bytes(g.hashes as nat, 4),
        le_bytes(g.bits as nat, 8),
        le_bytes(distinct as nat, 8),
        word_bytes(words),
    );
    lemma_le_bytes_len(g.hashes as nat, 4);
    lemma_le_bytes_len(g.bits as nat, 8);
    lemma_le_bytes_len(distinct as nat, 8);
    lemma_pow256_values();
    assert(w.len() == 8 * words.len());
    assert(body.len() == 21 + 8 * words.len());
    assert(body.subrange(1, 5) =~= h);
    assert(body.subrange(5, 13) =~= b);
    assert(body.subrange(13, 21) =~= d);
    le_value_inverts_le_bytes(g.hashes as nat, 4);
    le_value_inverts_le_bytes(g.bits as nat, 8);
    le_value_inverts_le_bytes(distinct as nat, 8);
    assert forall|k: int| 0 <= k < words.len() implies words_in(body)[k] == words[k] by {
        lemma_le_bytes_len(words[k] as nat, 8);
        le_value_inverts_le_bytes(words[k] as nat, 8);
        let at = SLICE_HEADER_LEN + 8 * k;
        assert forall|j: int| 0 <= j < 8 implies #[trigger] body.subrange(at, at + 8)[j]
            == le_bytes(words[k] as nat, 8)[j] by {
            let i = 8 * k + j;
            assert(i / 8 == k && i % 8 == j);
            assert(body[21 + i] == w[i]);
        }
        assert(body.subrange(at, at + 8) =~= le_bytes(words[k] as nat, 8));
    }
    assert(words_in(body) =~= words);
}

/// A slice of another geometry is told apart, not misread: no stored slice can be read under two
/// geometries that differ in the bits or the hashes.
pub proof fn another_geometry_is_not_misread(a: Geometry, b: Geometry, body: Seq<u8>)
    requires
        readable(a, body),
        readable(b, body),
    ensures
        a.bits == b.bits,
        a.hashes == b.hashes,
{
}

/// A key has exactly one age.
pub proof fn an_age_is_unique(
    g: Geometry,
    windows: Seq<Seq<u64>>,
    key: Seq<char>,
    a: Age,
    b: Age,
)
    requires
        has_age(g, windows, key, a),
        has_age(g, windows, key, b),
    ensures
        a == b,
{
    match (a, b) {
        (Age::Window(v), Age::Window(w)) => {
            if v < w {
                assert(!holds(g, windows[v as int], key));
            } else if w < v {
                assert(!holds(g, windows[w as int], key));
            }
        },
        (Age::Window(v), Age::Miss) => {
            assert(!holds(g, windows[v as int], key));
        },
        (Age::Miss, Age::Window(w)) => {
            assert(!holds(g, windows[w as int], key));
        },
        (Age::Miss, Age::Miss) => {},
    }
}

/// Where a window retires, every key ages by one slice, and one that was only in the oldest slice
/// of a full ring falls off the end.
pub proof fn a_rotation_ages_every_key_by_one(
    g: Geometry,
    windows: Seq<Seq<u64>>,
    fresh: Seq<u64>,
    key: Seq<char>,
    age: Age,
)
    requires
        has_age(g, windows, key, age),
        !holds(g, fresh, key),
        g.depth <= u16::MAX,
    ensures
        has_age(
            g,
            seq![fresh] + at_most(windows, g.depth as nat),
            key,
            match age {
                Age::Window(w) => if w < g.depth {
                    Age::Window((w + 1) as u16)
                } else {
                    Age::Miss
                },
                Age::Miss => Age::Miss,
            },
        ),
{
    let after = seq![fresh] + at_most(windows, g.depth as nat);
    assert forall|i: int| 0 < i < after.len() implies #[trigger] after[i] == windows[i - 1] by {}
}

/// Two qualified names are equal only where the buckets and the keys are.
pub proof fn qualified_names_identify(
    a: Seq<char>,
    k: Seq<char>,
    b: Seq<char>,
    l: Seq<char>,
)
    requires
        !a.contains('/'),
        !b.contains('/'),
        qualified_name(a, k) == qualified_name(b, l),
    ensures
        a == b,
        k == l,
{
    let name = qualified_name(a, k);
    if a.len() < b.len() {
        assert(name[a.len() as int] == '/');
        assert(name[a.len() as int] == b[a.len() as int]);
    } else if b.len() < a.len() {
        assert(name[b.len() as int] == '/');
        assert(name[b.len() as int] == a[b.len() as int]);
    }
    assert(a =~= name.take(a.len() as int));
    assert(b =~= name.take(b.len() as int));
    assert(k =~= name.skip(a.len() as int + 1));
    assert(l =~= name.skip(b.len() as int + 1));
}

/// Every name has an age, as long as the windows are few enough to be numbered; and a name that the
/// current window holds has the youngest, whatever else holds it.
pub proof fn every_name_has_an_age(g: Geometry, windows: Seq<Seq<u64>>, key: Seq<char>)
    requires
        windows.len() <= 0x1_0000,
    ensures
        exists|age: Age| #[trigger] has_age(g, windows, key, age),
        windows.len() > 0 && holds(g, windows[0], key) ==> has_age(
            g,
            windows,
            key,
            Age::Window(0),
        ),
{
    if exists|i: int| 0 <= i < windows.len() && holds(g, #[trigger] windows[i], key) {
        let i = choose|i: int| 0 <= i < windows.len() && holds(g, #[trigger] windows[i], key);
        let w = lemma_first_holder(g, windows, key, i);
        assert(has_age(g, windows, key, Age::Window(w as u16)));
    } else {
        assert(has_age(g, windows, key, Age::Miss));
    }
}

proof fn lemma_first_holder(g: Geometry, windows: Seq<Seq<u64>>, key: Seq<char>, i: int) -> (w: int)
    requires
        0 <= i < windows.len(),
        holds(g, windows[i], key),
    ensures
        0 <= w <= i,
        holds(g, windows[w], key),
        forall|k: int| 0 <= k < w ==> !holds(g, #[trigger] windows[k], key),
    decreases i,
{
    if exists|k: int| 0 <= k < i && holds(g, #[trigger] windows[k], key) {
        let k = choose|k: int| 0 <= k < i && holds(g, #[trigger] windows[k], key);
        lemma_first_holder(g, windows, key, k)
    } else {
        i
    }
}

/// The age of a key is the number of windows since the newest that holds it, and a miss is held by
/// none.
pub proof fn an_age_names_the_newest_holder(
    g: Geometry,
    windows: Seq<Seq<u64>>,
    key: Seq<char>,
    age: Age,
)
    requires
        has_age(g, windows, key, age),
    ensures
        match age {
            Age::Window(w) => {
                &&& w < windows.len()
                &&& holds(g, windows[w as int], key)
                &&& forall|i: int| 0 <= i < w ==> !holds(g, #[trigger] windows[i], key)
            },
            Age::Miss => forall|i: int|
                0 <= i < windows.len() ==> !holds(g, #[trigger] windows[i], key),
        },
{
}

/// A ring that takes stored slices in never hands out a number that one of them has, nor one that it
/// has handed out before.
pub proof fn restored_numbers_are_not_reused(next: nat, slices: Seq<(u64, Vec<u8>)>, i: int)
    requires
        0 <= i < slices.len(),
    ensures
        seq_after(next, slices) > slices[i].0,
        seq_after(next, slices) >= next,
        seq_after(next, slices) == next || exists|k: int|
            0 <= k < slices.len() && seq_after(next, slices) == (#[trigger] slices[k]).0 + 1,
    decreases slices.len(),
{
    reveal_with_fuel(seq_after, 2);
    let before = slices.drop_last();
    if before.len() > 0 {
        let k = if i < before.len() {
            i
        } else {
            0
        };
        restored_numbers_are_not_reused(next, before, k);
        if seq_after(next, before) != next {
            let m = choose|m: int|
                0 <= m < before.len() && seq_after(next, before) == (#[trigger] before[m]).0 + 1;
            assert(slices[m] == before[m]);
        }
    }
    assert(slices[slices.len() - 1] == slices.last());
}

/// Of stored slices every one that can be read gives its window, in their order, and the others give
/// none.
pub proof fn readable_slices_give_their_windows(
    g: Geometry,
    a: Seq<(u64, Vec<u8>)>,
    b: Seq<(u64, Vec<u8>)>,
    one: (u64, Vec<u8>),
)
    ensures
        readable_windows(g, a + b) == readable_windows(g, a) + readable_windows(g, b),
        readable(g, one.1@) ==> readable_windows(g, seq![one]) == seq![words_in(one.1@)],
        !readable(g, one.1@) ==> readable_windows(g, seq![one]).len() == 0,
    decreases b.len(),
{
    assert(seq![one].drop_last() =~= Seq::<(u64, Vec<u8>)>::empty());
    reveal_with_fuel(readable_windows, 2);
    if readable(g, one.1@) {
        assert(readable_windows(g, seq![one]) =~= seq![words_in(one.1@)]);
    }
    if b.len() == 0 {
        assert(a + b =~= a);
        assert(readable_windows(g, a) + readable_windows(g, b) =~= readable_windows(g, a));
    } else {
        readable_slices_give_their_windows(g, a, b.drop_last(), one);
        assert((a + b).drop_last() =~= a + b.drop_last());
        assert((a + b).last() == b.last());
        assert(readable_windows(g, a + b) =~= readable_windows(g, a) + readable_windows(g, b));
    }
}

/// What is read as a slice has the version, the header and the words of its geometry, and no less.
pub proof fn a_slice_of_another_form_is_refused(g: Geometry, body: Seq<u8>)
    requires
        readable(g, body),
    ensures
        body.len() >= 21,
        body[0] == SLICE_VERSION,
        words_in(body).len() * 64 == g.bits,
        8 * words_in(body).len() <= body.len() - 21 < 8 * words_in(body).len() + 8,
        le_value(body.subrange(1, 5)) == g.hashes,
        le_value(body.subrange(5, 13)) == g.bits,
{
}

/// A ring keeps the newest windows, up to its bound.
pub proof fn the_newest_windows_stay<T>(s: Seq<T>, n: nat, i: int)
    requires
        0 <= i < s.len(),
    ensures
        at_most(s, n).len() == if s.len() < n {
            s.len()
        } else {
            n
        },
        i < n ==> at_most(s, n)[i] == s[i],
{
}

/// A stored slice has each of its fields in its own place: the version, the number of hashes, the number
/// of bits, the number of names and the words, lowest byte first.
pub proof fn a_slice_has_its_fields_in_their_places(g: Geometry, distinct: u64, words: Seq<u64>, i: int)
    requires
        0 <= i < words.len(),
    ensures
        ({
            let body = slice_body(g, distinct, words);
            &&& body.len() == 21 + 8 * words.len()
            &&& body[0] == 1
            &&& body.subrange(1, 5) == le_bytes(g.hashes as nat, 4)
            &&& body.subrange(5, 13) == le_bytes(g.bits as nat, 8)
            &&& body.subrange(13, 21) == le_bytes(distinct as nat, 8)
            &&& body.subrange(21 + 8 * i, 29 + 8 * i) == le_bytes(words[i] as nat, 8)
        }),
{
    let body = slice_body(g, distinct, words);
    lemma_le_bytes_len(g.hashes as nat, 4);
    lemma_le_bytes_len(g.bits as nat, 8);
    lemma_le_bytes_len(distinct as nat, 8);
    lemma_le_bytes_len(words[i] as nat, 8);
    assert(body.subrange(1, 5) =~= le_bytes(g.hashes as nat, 4));
    assert(body.subrange(5, 13) =~= le_bytes(g.bits as nat, 8));
    assert(body.subrange(13, 21) =~= le_bytes(distinct as nat, 8));
    assert forall|j: int| 0 <= j < 8 implies body.subrange(21 + 8 * i, 29 + 8 * i)[j] == le_bytes(
        words[i] as nat,
        8,
    )[j] by {
        assert(body[21 + 8 * i + j] == word_bytes(words)[8 * i + j]);
        assert((8 * i + j) / 8 == i && (8 * i + j) % 8 == j);
    }
    assert(body.subrange(21 + 8 * i, 29 + 8 * i) =~= le_bytes(words[i] as nat, 8));
}

/// A slice is read exactly where its header is that of the geometry and it has the words for it.
pub proof fn a_slice_of_the_same_form_is_read(g: Geometry, body: Seq<u8>)
    requires
        body.len() >= 21,
    ensures
        readable(g, body) <==> body[0] == 1 && le_value(body.subrange(1, 5)) == g.hashes
            && le_value(body.subrange(5, 13)) == g.bits && (body.len() - 21) / 8 * 64 == g.bits,
        distinct_in(body) == le_value(body.subrange(13, 21)),
{
}

/// A window is asked, and a name put into it, by the geometry's own number of hashes and the fixed seed;
/// a name is known by its bucket and its key with a slash between them.
pub proof fn a_window_is_asked_by_its_own_hashes(
    g: Geometry,
    words: Seq<u64>,
    bucket: Seq<char>,
    key: Seq<char>,
)
    ensures
        holds(g, words, key) == bloom_holds(words, g.hashes, 0x9e37_79b9_7f4a_7c15_f39c_c060_5ced_c835u128, key),
        touched(g, words, key) == bloom_with(words, g.hashes, 0x9e37_79b9_7f4a_7c15_f39c_c060_5ced_c835u128, key),
        qualified_name(bucket, key) == bucket + seq!['/'] + key,
{
    assert(qualified_name(bucket, key) =~= bucket + seq!['/'] + key);
}

} // verus!
