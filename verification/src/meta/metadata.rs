//! The user metadata of a cache object: text values under text names.

use crate::text::same_text;
use vstd::prelude::*;

verus! {

/// User metadata.  No name occurs twice.
#[derive(Clone, Debug, PartialEq, Eq)]
pub struct Metadata {
    entries: Vec<(String, String)>,
}

/// The map that a list of entries makes, later entries over earlier ones.
pub open spec fn entries_map(s: Seq<(String, String)>) -> Map<Seq<char>, Seq<char>>
    decreases s.len(),
{
    if s.len() == 0 {
        Map::empty()
    } else {
        entries_map(s.drop_last()).insert(s.last().0@, s.last().1@)
    }
}

/// No name occurs twice.
pub open spec fn names_are_distinct(s: Seq<(String, String)>) -> bool {
    forall|i: int, j: int|
        0 <= i < j < s.len() ==> (#[trigger] s[i]).0@ != (#[trigger] s[j]).0@
}

pub open spec fn names_entry(s: Seq<(String, String)>, name: Seq<char>, i: int) -> bool {
    0 <= i < s.len() && s[i].0@ == name
}

proof fn lemma_entries_map(s: Seq<(String, String)>)
    requires
        names_are_distinct(s),
    ensures
        forall|name: Seq<char>|
            entries_map(s).contains_key(name) <==> exists|i: int| names_entry(s, name, i),
        forall|i: int|
            0 <= i < s.len() ==> entries_map(s).contains_key(#[trigger] s[i].0@)
                && entries_map(s)[s[i].0@] == s[i].1@,
        entries_map(s).dom().finite(),
        entries_map(s).len() == s.len(),
    decreases s.len(),
{
    if s.len() > 0 {
        let front = s.drop_last();
        lemma_entries_map(front);
        let last = s.len() - 1;
        assert(!entries_map(front).contains_key(s.last().0@)) by {
            if entries_map(front).contains_key(s.last().0@) {
                let i = choose|i: int| names_entry(front, s.last().0@, i);
                assert(s[i].0@ == s[last].0@);
            }
        }
        assert forall|name: Seq<char>|
            entries_map(s).contains_key(name) <==> exists|i: int| names_entry(s, name, i) by {
            if entries_map(s).contains_key(name) {
                if name == s.last().0@ {
                    assert(names_entry(s, name, last));
                } else {
                    let i = choose|i: int| names_entry(front, name, i);
                    assert(names_entry(s, name, i));
                }
            }
            if exists|i: int| names_entry(s, name, i) {
                let i = choose|i: int| names_entry(s, name, i);
                if i < last {
                    assert(names_entry(front, name, i));
                }
            }
        }
        assert forall|i: int| 0 <= i < s.len() implies entries_map(s).contains_key(
            #[trigger] s[i].0@,
        ) && entries_map(s)[s[i].0@] == s[i].1@ by {
            if i < last {
                assert(front[i] == s[i]);
                assert(s[i].0@ != s[last].0@);
            }
        }
    } else {
        assert forall|name: Seq<char>|
            entries_map(s).contains_key(name) <==> exists|i: int| names_entry(s, name, i) by {}
    }
}

impl View for Metadata {
    type V = Map<Seq<char>, Seq<char>>;

    closed spec fn view(&self) -> Map<Seq<char>, Seq<char>> {
        entries_map(self.entries@)
    }
}

impl Metadata {
    pub closed spec fn wf(&self) -> bool {
        names_are_distinct(self.entries@)
    }

    /// The entries, in the order of insertion.
    pub closed spec fn listed(&self) -> Seq<(String, String)> {
        self.entries@
    }

    /// The entries of well-formed metadata are its map, each name once.
    pub proof fn lemma_listed(&self)
        requires
            self.wf(),
        ensures
            forall|name: Seq<char>|
                self@.contains_key(name) <==> exists|i: int|
                    names_entry(self.listed(), name, i),
            forall|i: int|
                0 <= i < self.listed().len() ==> self@.contains_key(
                    #[trigger] self.listed()[i].0@,
                ) && self@[self.listed()[i].0@] == self.listed()[i].1@,
            self@.dom().finite(),
            self@.len() == self.listed().len(),
            names_are_distinct(self.listed()),
    {
        lemma_entries_map(self.entries@);
        assert forall|name: Seq<char>|
            self@.contains_key(name) <==> exists|i: int|
                names_entry(self.listed(), name, i) by {
            assert(entries_map(self.entries@).contains_key(name) <==> exists|i: int|
                names_entry(self.entries@, name, i));
            if self@.contains_key(name) {
                let i = choose|i: int| names_entry(self.entries@, name, i);
                assert(names_entry(self.listed(), name, i));
            }
            if exists|i: int| names_entry(self.listed(), name, i) {
                let i = choose|i: int| names_entry(self.listed(), name, i);
                assert(names_entry(self.entries@, name, i));
            }
        }
    }

    pub fn new() -> (m: Self)
        ensures
            m.wf(),
            m@ == Map::<Seq<char>, Seq<char>>::empty(),
            m.listed().len() == 0,
    {
        Metadata { entries: Vec::new() }
    }

    pub fn len(&self) -> (len: usize)
        requires
            self.wf(),
        ensures
            len == self@.len(),
            len == self.listed().len(),
    {
        proof {
            self.lemma_listed();
        }
        self.entries.len()
    }

    pub fn is_empty(&self) -> (empty: bool)
        requires
            self.wf(),
        ensures
            empty == (self@.len() == 0),
    {
        self.len() == 0
    }

    /// The name of entry number `i`.
    pub fn name_at(&self, i: usize) -> (name: &String)
        requires
            i < self.listed().len(),
        ensures
            name@ == self.listed()[i as int].0@,
    {
        &self.entries[i].0
    }

    /// The value of entry number `i`.
    pub fn value_at(&self, i: usize) -> (value: &String)
        requires
            i < self.listed().len(),
        ensures
            value@ == self.listed()[i as int].1@,
    {
        &self.entries[i].1
    }

    /// The value under a name.
    pub fn get(&self, name: &str) -> (value: Option<&String>)
        requires
            self.wf(),
        ensures
            match value {
                Some(v) => self@.contains_key(name@) && v@ == self@[name@],
                None => !self@.contains_key(name@),
            },
    {
        let mut i: usize = 0;
        while i < self.entries.len()
            invariant
                self.wf(),
                i <= self.entries@.len(),
                forall|j: int| 0 <= j < i ==> (#[trigger] self.entries@[j]).0@ != name@,
            decreases self.entries@.len() - i,
        {
            if same_text(self.entries[i].0.as_str(), name) {
                proof {
                    self.lemma_listed();
                    assert(self.listed()[i as int].0@ == name@);
                }
                return Some(&self.entries[i].1);
            }
            i += 1;
        }
        proof {
            self.lemma_listed();
            assert(!exists|j: int| names_entry(self.listed(), name@, j));
        }
        None
    }

    pub fn contains_key(&self, name: &str) -> (present: bool)
        requires
            self.wf(),
        ensures
            present == self@.contains_key(name@),
    {
        self.get(name).is_some()
    }

    /// Sets the value under a name.
    pub fn insert(&mut self, name: String, value: String)
        requires
            old(self).wf(),
        ensures
            final(self).wf(),
            final(self)@ == old(self)@.insert(name@, value@),
    {
        let ghost before = self.entries@;
        let mut i: usize = 0;
        proof {
            lemma_entries_map(before);
        }
        while i < self.entries.len()
            invariant
                i <= self.entries@.len(),
                self.entries@ == before,
                before == old(self).entries@,
                names_are_distinct(before),
                forall|j: int| 0 <= j < i ==> (#[trigger] before[j]).0@ != name@,
            decreases self.entries@.len() - i,
        {
            if same_text(self.entries[i].0.as_str(), name.as_str()) {
                let ghost at = i as int;
                self.entries.set(i, (name, value));
                proof {
                    let after = self.entries@;
                    lemma_entries_map(before);
                    assert(names_are_distinct(after)) by {
                        assert forall|p: int, q: int| 0 <= p < q < after.len() implies (
                        #[trigger] after[p]).0@ != (#[trigger] after[q]).0@ by {
                            assert(before[p].0@ != before[q].0@);
                        }
                    }
                    lemma_entries_map(after);
                    assert forall|n: Seq<char>|
                        entries_map(after).contains_key(n) <==> entries_map(before).insert(
                            name@,
                            value@,
                        ).contains_key(n) by {
                        assert(forall|j: int|
                            names_entry(after, n, j) <==> names_entry(before, n, j));
                        assert(before[at].0@ == name@);
                    }
                    assert forall|n: Seq<char>| entries_map(after).contains_key(n) implies #[trigger]
                        entries_map(after)[n] == entries_map(before).insert(name@, value@)[n] by {
                        let j = choose|j: int| names_entry(after, n, j);
                        assert(after[j].0@ == n);
                        assert(before[j].0@ == n);
                        if j != at {
                            assert(after[j] == before[j]);
                            assert(n != name@) by {
                                assert(before[at].0@ == name@);
                            }
                        }
                    }
                    assert(entries_map(after) =~= entries_map(before).insert(name@, value@));
                }
                return;
            }
            i += 1;
        }
        self.entries.push((name, value));
        assert(self.entries@.drop_last() =~= before);
    }
}

} // verus!
