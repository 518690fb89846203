//! A map from pairs of a bucket and a key to values.

use crate::text::same_text;
use vstd::prelude::*;

verus! {

/// A map from pairs of a bucket and a key to values, which holds its pairs in the order in which they
/// came.
pub struct PairMap<V> {
    buckets: Vec<String>,
    keys: Vec<String>,
    values: Vec<V>,
}

/// The pairs that two lists make, place by place.
pub open spec fn paired(buckets: Seq<String>, keys: Seq<String>) -> Seq<(Seq<char>, Seq<char>)> {
    Seq::new(buckets.len(), |i: int| (buckets[i]@, keys[i]@))
}

impl<V> View for PairMap<V> {
    type V = Map<(Seq<char>, Seq<char>), V>;

    closed spec fn view(&self) -> Map<(Seq<char>, Seq<char>), V> {
        Map::new(
            |p: (Seq<char>, Seq<char>)| self.pairs().contains(p),
            |p: (Seq<char>, Seq<char>)| self.values@[self.pairs().index_of(p)],
        )
    }
}

impl<V> PairMap<V> {
    /// The pairs, in the order in which they are held.
    pub closed spec fn pairs(&self) -> Seq<(Seq<char>, Seq<char>)> {
        paired(self.buckets@, self.keys@)
    }

    /// Every pair has one value.
    pub closed spec fn wf(&self) -> bool {
        &&& self.buckets@.len() == self.keys@.len()
        &&& self.buckets@.len() == self.values@.len()
        &&& self.pairs().no_duplicates()
    }

    /// Every place holds a pair of the map, and every pair has a place.
    pub proof fn lemma_places(&self)
        requires
            self.wf(),
        ensures
            forall|i: int| 0 <= i < self.pairs().len() ==> self@.contains_key(#[trigger] self.pairs()[i]),
            forall|p: (Seq<char>, Seq<char>)| #[trigger]
                self@.contains_key(p) ==> self.pairs().contains(p),
            self.pairs().no_duplicates(),
            self.pairs().to_set() == self@.dom(),
    {
        assert(self.pairs().to_set() =~= self@.dom());
    }

    proof fn lemma_at(&self, i: int)
        requires
            self.wf(),
            0 <= i < self.pairs().len(),
        ensures
            self@.contains_key(self.pairs()[i]),
            self@[self.pairs()[i]] == self.values@[i],
    {
        let p = self.pairs()[i];
        assert(self.pairs().contains(p));
        assert(self.pairs().index_of(p) == i);
    }

    pub fn new() -> (map: Self)
        ensures
            map.wf(),
            map@ == Map::<(Seq<char>, Seq<char>), V>::empty(),
            map.pairs() == Seq::<(Seq<char>, Seq<char>)>::empty(),
    {
        let map = PairMap { buckets: Vec::new(), keys: Vec::new(), values: Vec::new() };
        assert(map.pairs() =~= Seq::<(Seq<char>, Seq<char>)>::empty());
        assert(map@ =~= Map::<(Seq<char>, Seq<char>), V>::empty());
        map
    }

    pub fn len(&self) -> (len: usize)
        requires
            self.wf(),
        ensures
            len == self.pairs().len(),
            len == 0 <==> self@ == Map::<(Seq<char>, Seq<char>), V>::empty(),
    {
        let n: usize = self.values.len();
        proof {
            if n == 0 {
                assert(self@ =~= Map::<(Seq<char>, Seq<char>), V>::empty());
            } else {
                self.lemma_at(0);
            }
        }
        n
    }

    fn position(&self, bucket: &str, key: &str) -> (at: Option<usize>)
        requires
            self.wf(),
        ensures
            match at {
                Some(i) => i < self.pairs().len() && self.pairs()[i as int] == (bucket@, key@),
                None => !self.pairs().contains((bucket@, key@)),
            },
    {
        let mut i: usize = 0;
        while i < self.keys.len()
            invariant
                self.wf(),
                i <= self.keys@.len(),
                forall|k: int| 0 <= k < i ==> #[trigger] self.pairs()[k] != (bucket@, key@),
            decreases self.keys@.len() - i,
        {
            assert(self.pairs()[i as int] == (self.buckets@[i as int]@, self.keys@[i as int]@));
            if same_text(self.keys[i].as_str(), key) && same_text(self.buckets[i].as_str(), bucket) {
                return Some(i);
            }
            i += 1;
        }
        None
    }

    /// The values, in the order of their pairs.
    pub fn into_values(self) -> (values: Vec<V>)
        requires
            self.wf(),
        ensures
            values@.len() == self.pairs().len(),
            forall|i: int| 0 <= i < values@.len() ==> #[trigger] values@[i] == self@[self.pairs()[i]],
    {
        proof {
            assert forall|i: int| 0 <= i < self.values@.len() implies #[trigger] self.values@[i]
                == self@[self.pairs()[i]] by {
                self.lemma_at(i);
            }
        }
        self.values
    }

    /// Gives a pair a value, in place of the one that it has.
    pub fn insert(&mut self, bucket: String, key: String, value: V)
        requires
            old(self).wf(),
        ensures
            final(self).wf(),
            final(self)@ == old(self)@.insert((bucket@, key@), value),
            final(self).pairs() == if old(self)@.contains_key((bucket@, key@)) {
                old(self).pairs()
            } else {
                old(self).pairs().push((bucket@, key@))
            },
    {
        let ghost before = *self;
        let ghost pair = (bucket@, key@);
        match self.position(bucket.as_str(), key.as_str()) {
            Some(i) => {
                proof {
                    before.lemma_at(i as int);
                }
                self.values.set(i, value);
                proof {
                    assert forall|p: (Seq<char>, Seq<char>)| #[trigger]
                        self@.contains_key(p) implies self@[p] == before@.insert(pair, value)[p] by {
                        let k = self.pairs().index_of(p);
                        if p == pair {
                            assert(k == i);
                        }
                    }
                    assert(self@ =~= before@.insert(pair, value));
                }
            },
            None => {
                self.buckets.push(bucket);
                self.keys.push(key);
                self.values.push(value);
                proof {
                    let last = before.values@.len() as int;
                    assert(self.pairs() =~= before.pairs().push(pair));
                    assert(self.wf());
                    self.lemma_at(last);
                    assert forall|p: (Seq<char>, Seq<char>)|
                        #![trigger self@.contains_key(p)]
                        {
                            &&& self@.contains_key(p) == before@.insert(pair, value).contains_key(p)
                            &&& self@.contains_key(p) ==> self@[p] == before@.insert(pair, value)[p]
                        } by {
                        if before@.contains_key(p) {
                            let k = before.pairs().index_of(p);
                            assert(self.pairs()[k] == p);
                            self.lemma_at(k);
                            before.lemma_at(k);
                        }
                        if self@.contains_key(p) && p != pair {
                            let k = self.pairs().index_of(p);
                            assert(before.pairs()[k] == p);
                        }
                    }
                    assert(self@ =~= before@.insert(pair, value));
                }
            },
        }
    }
}

} // verus!
