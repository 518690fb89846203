//! A map from names to values.

use crate::text::same_text;
use vstd::prelude::*;

verus! {

/// A map from names to values that holds its names in the order in which they came.
pub struct NameMap<V> {
    names: Vec<String>,
    values: Vec<V>,
}

/// Whether a name stands among some names.
pub open spec fn listed(names: Seq<String>, name: Seq<char>) -> bool {
    exists|i: int| 0 <= i < names.len() && #[trigger] names[i]@ == name
}

/// Where a name stands among some names.
pub open spec fn index_of(names: Seq<String>, name: Seq<char>) -> int {
    choose|i: int| 0 <= i < names.len() && #[trigger] names[i]@ == name
}

impl<V> View for NameMap<V> {
    type V = Map<Seq<char>, V>;

    closed spec fn view(&self) -> Map<Seq<char>, V> {
        Map::new(
            |n: Seq<char>| listed(self.names@, n),
            |n: Seq<char>| self.values@[index_of(self.names@, n)],
        )
    }
}

impl<V> NameMap<V> {
    /// The names, in the order in which they are held.
    pub closed spec fn names(&self) -> Seq<Seq<char>> {
        Seq::new(self.names@.len(), |i: int| self.names@[i]@)
    }

    /// Every name has one value.
    pub closed spec fn wf(&self) -> bool {
        &&& self.names@.len() == self.values@.len()
        &&& forall|i: int, j: int|
            0 <= i < j < self.names@.len() ==> #[trigger] self.names@[i]@ != #[trigger] self.names@[j]@
    }

    /// Every place holds a name of the map, with its value, and every name has a place.
    pub proof fn lemma_places(&self)
        requires
            self.wf(),
        ensures
            forall|i: int| 0 <= i < self.names().len() ==> self@.contains_key(#[trigger] self.names()[i]),
            forall|n: Seq<char>| #[trigger] self@.contains_key(n) ==> self.names().contains(n),
            self.names().no_duplicates(),
            self.names().to_set() == self@.dom(),
    {
        assert forall|i: int| 0 <= i < self.names().len() implies self@.contains_key(
            #[trigger] self.names()[i],
        ) by {
            assert(self.names@[i]@ == self.names()[i]);
        }
        assert forall|n: Seq<char>| #[trigger] self@.contains_key(n) implies self.names().contains(
            n,
        ) by {
            let i = index_of(self.names@, n);
            assert(self.names()[i] == n);
        }
        assert(self.names().to_set() =~= self@.dom());
    }

    proof fn lemma_at(&self, i: int)
        requires
            self.wf(),
            0 <= i < self.names@.len(),
        ensures
            self@.contains_key(self.names@[i]@),
            self@[self.names@[i]@] == self.values@[i],
            self.names()[i] == self.names@[i]@,
    {
        let n = self.names@[i]@;
        assert(listed(self.names@, n));
        assert(index_of(self.names@, n) == i);
    }

    pub fn new() -> (map: Self)
        ensures
            map.wf(),
            map@ == Map::<Seq<char>, V>::empty(),
            map.names() == Seq::<Seq<char>>::empty(),
    {
        let map = NameMap { names: Vec::new(), values: Vec::new() };
        assert(map@ =~= Map::<Seq<char>, V>::empty());
        map
    }

    pub fn len(&self) -> (len: usize)
        requires
            self.wf(),
        ensures
            len == self.names().len(),
            len == 0 <==> self@ == Map::<Seq<char>, V>::empty(),
    {
        let n: usize = self.names.len();
        proof {
            if n == 0 {
                assert(self@ =~= Map::<Seq<char>, V>::empty());
            } else {
                self.lemma_at(0);
            }
        }
        n
    }

    fn position(&self, name: &str) -> (at: Option<usize>)
        ensures
            match at {
                Some(i) => i < self.names@.len() && self.names@[i as int]@ == name@,
                None => !listed(self.names@, name@),
            },
    {
        let mut i: usize = 0;
        while i < self.names.len()
            invariant
                i <= self.names@.len(),
                forall|k: int| 0 <= k < i ==> #[trigger] self.names@[k]@ != name@,
            decreases self.names@.len() - i,
        {
            if same_text(self.names[i].as_str(), name) {
                return Some(i);
            }
            i += 1;
        }
        None
    }

    pub fn contains_key(&self, name: &str) -> (has: bool)
        ensures
            has == self@.contains_key(name@),
    {
        self.position(name).is_some()
    }

    pub fn get(&self, name: &str) -> (value: Option<&V>)
        requires
            self.wf(),
        ensures
            match value {
                Some(v) => self@.contains_key(name@) && *v == self@[name@],
                None => !self@.contains_key(name@),
            },
    {
        match self.position(name) {
            Some(i) => {
                proof {
                    self.lemma_at(i as int);
                }
                Some(&self.values[i])
            },
            None => None,
        }
    }

    pub fn name_at(&self, i: usize) -> (name: &String)
        requires
            self.wf(),
            i < self.names().len(),
        ensures
            name@ == self.names()[i as int],
            self@.contains_key(name@),
    {
        proof {
            self.lemma_at(i as int);
        }
        &self.names[i]
    }

    pub fn value_at(&self, i: usize) -> (value: &V)
        requires
            self.wf(),
            i < self.names().len(),
        ensures
            *value == self@[self.names()[i as int]],
    {
        proof {
            self.lemma_at(i as int);
        }
        &self.values[i]
    }

    /// The values, in the order of their names.
    pub fn into_values(self) -> (values: Vec<V>)
        requires
            self.wf(),
        ensures
            values@.len() == self.names().len(),
            forall|i: int| 0 <= i < values@.len() ==> #[trigger] values@[i] == self@[self.names()[i]],
    {
        proof {
            assert forall|i: int| 0 <= i < self.values@.len() implies #[trigger] self.values@[i]
                == self@[self.names()[i]] by {
                self.lemma_at(i);
            }
        }
        self.values
    }

    /// Gives a name a value, in place of the one that it has.
    pub fn insert(&mut self, name: String, value: V)
        requires
            old(self).wf(),
        ensures
            final(self).wf(),
            final(self)@ == old(self)@.insert(name@, value),
            final(self).names() == if old(self)@.contains_key(name@) {
                old(self).names()
            } else {
                old(self).names().push(name@)
            },
    {
        let ghost before = *self;
        let ghost n = name@;
        match self.position(name.as_str()) {
            Some(i) => {
                proof {
                    before.lemma_at(i as int);
                }
                self.values.set(i, value);
                proof {
                    lemma_updated(&before, self, i as int);
                }
            },
            None => {
                self.names.push(name);
                self.values.push(value);
                proof {
                    assert(self.names@.drop_last() =~= before.names@);
                    assert(self.values@.drop_last() =~= before.values@);
                    lemma_pushed(&before, self);
                }
            },
        }
    }

    /// Takes a name and its value out.
    pub fn remove(&mut self, name: &str) -> (value: Option<V>)
        requires
            old(self).wf(),
        ensures
            final(self).wf(),
            final(self)@ == old(self)@.remove(name@),
            match value {
                Some(v) => old(self)@.contains_key(name@) && v == old(self)@[name@],
                None => !old(self)@.contains_key(name@) && *final(self) == *old(self),
            },
    {
        let ghost before = *self;
        match self.position(name) {
            Some(i) => {
                proof {
                    before.lemma_at(i as int);
                }
                self.names.remove(i);
                let value: V = self.values.remove(i);
                proof {
                    lemma_removed(&before, self, i as int);
                }
                Some(value)
            },
            None => {
                assert(self@ =~= self@.remove(name@));
                None
            },
        }
    }
}

proof fn lemma_updated<V>(before: &NameMap<V>, after: &NameMap<V>, i: int)
    requires
        before.wf(),
        0 <= i < before.names@.len(),
        after.names@ == before.names@,
        after.values@ == before.values@.update(i, after.values@[i]),
    ensures
        after.wf(),
        after@ == before@.insert(before.names@[i]@, after.values@[i]),
        after.names() == before.names(),
{
    let n = before.names@[i]@;
    before.lemma_at(i);
    after.lemma_at(i);
    assert forall|m: Seq<char>| #[trigger] after@.contains_key(m) implies after@[m]
        == before@.insert(n, after.values@[i])[m] by {
        let k = index_of(after.names@, m);
        after.lemma_at(k);
        before.lemma_at(k);
    }
    assert(after@ =~= before@.insert(n, after.values@[i]));
}

proof fn lemma_pushed<V>(before: &NameMap<V>, after: &NameMap<V>)
    requires
        before.wf(),
        after.names@.len() > 0,
        after.values@.len() == after.names@.len(),
        after.names@.drop_last() == before.names@,
        after.values@.drop_last() == before.values@,
        !listed(before.names@, after.names@.last()@),
    ensures
        after.wf(),
        after@ == before@.insert(after.names@.last()@, after.values@.last()),
        after.names() == before.names().push(after.names@.last()@),
{
    let n = after.names@.last()@;
    let last = before.names@.len() as int;
    assert forall|k: int| 0 <= k < last implies after.names@[k] == before.names@[k]
        && after.values@[k] == before.values@[k] by {
        assert(after.names@.drop_last()[k] == before.names@[k]);
        assert(after.values@.drop_last()[k] == before.values@[k]);
    }
    assert(after.wf());
    after.lemma_at(last);
    assert forall|m: Seq<char>| #[trigger] after@.contains_key(m) == before@.insert(
        n,
        after.values@.last(),
    ).contains_key(m) by {
        if after@.contains_key(m) && m != n {
            let k = index_of(after.names@, m);
            assert(before.names@[k]@ == m);
        }
        if before@.contains_key(m) {
            let k = index_of(before.names@, m);
            assert(after.names@[k]@ == m);
        }
    }
    assert forall|m: Seq<char>| #[trigger] after@.contains_key(m) implies after@[m]
        == before@.insert(n, after.values@.last())[m] by {
        let k = index_of(after.names@, m);
        after.lemma_at(k);
        if m != n {
            assert(before.names@[k]@ == m);
            before.lemma_at(k);
        }
    }
    assert(after@ =~= before@.insert(n, after.values@.last()));
    assert(after.names() =~= before.names().push(n));
}

proof fn lemma_removed<V>(before: &NameMap<V>, after: &NameMap<V>, i: int)
    requires
        before.wf(),
        0 <= i < before.names@.len(),
        after.names@ == before.names@.remove(i),
        after.values@ == before.values@.remove(i),
    ensures
        after.wf(),
        after@ == before@.remove(before.names@[i]@),
{
    let n = before.names@[i]@;
    assert forall|k: int| 0 <= k < after.names@.len() implies after.names@[k] == (if k < i {
        before.names@[k]
    } else {
        before.names@[k + 1]
    }) && after.values@[k] == (if k < i {
        before.values@[k]
    } else {
        before.values@[k + 1]
    }) by {}
    assert(after.wf());
    assert forall|m: Seq<char>| #[trigger] after@.contains_key(m) == before@.remove(n).contains_key(
        m,
    ) by {
        if after@.contains_key(m) {
            let k = index_of(after.names@, m);
            let j = if k < i {
                k
            } else {
                k + 1
            };
            assert(before.names@[j]@ == m);
        }
        if before@.contains_key(m) && m != n {
            let j = index_of(before.names@, m);
            let k = if j < i {
                j
            } else {
                j - 1
            };
            assert(after.names@[k]@ == m);
        }
    }
    assert forall|m: Seq<char>| #[trigger] after@.contains_key(m) implies after@[m]
        == before@.remove(n)[m] by {
        let k = index_of(after.names@, m);
        let j = if k < i {
            k
        } else {
            k + 1
        };
        assert(before.names@[j]@ == m);
        before.lemma_at(j);
        after.lemma_at(k);
    }
    assert(after@ =~= before@.remove(n));
}

} // verus!
