//! The table of locks that are held or waited for, by name.
//!
//! A name has one lock for as long as anyone holds it or waits for it, and none after that, so the
//! table holds only what is in use.

use crate::registry::{
    entries_of, registry_get, registry_insert, registry_len, registry_new, registry_remove,
};
use crate::text::{decimal, padded_decimal_reads_back, push_decimal, zeros};
use dashmap::DashMap;
use vstd::prelude::*;
use vstd::string::StringExecFns;

verus! {

/// The name of an object's lock.  The bucket is part of it, so the same key in two buckets never
/// contends.
pub open spec fn object_lock(bucket: Seq<char>, key: Seq<char>) -> Seq<char> {
    bucket.push('\0') + key
}

/// The name of a part's lock.
pub open spec fn part_lock(bucket: Seq<char>, upload_id: Seq<char>, part: int) -> Seq<char> {
    bucket.push('\0') + upload_id.push('\0') + signed_decimal(part)
}

pub fn lock_fqn(bucket: &str, key: &str) -> (name: String)
    ensures
        name@ == object_lock(bucket@, key@),
{
    let mut name: String = bucket.to_string();
    name.push('\0');
    name.append(key);
    name
}

pub fn part_fqn(bucket: &str, upload_id: &str, part_number: i32) -> (name: String)
    ensures
        name@ == part_lock(bucket@, upload_id@, part_number as int),
{
    let mut name: String = bucket.to_string();
    name.push('\0');
    name.append(upload_id);
    name.push('\0');
    let ghost before = name@;
    if part_number < 0 {
        name.push('-');
        let size: i64 = 0 - (part_number as i64);
        push_decimal(&mut name, size as u64);
        assert(name@ =~= before + (seq!['-'] + decimal((-(part_number as int)) as nat)));
    } else {
        push_decimal(&mut name, part_number as u64);
    }
    assert(name@ =~= part_lock(bucket@, upload_id@, part_number as int));
    name
}

/// A lock in use: which one it is, and how many hold it or wait for it.
#[derive(Clone, Copy, Debug, PartialEq, Eq, Structural)]
pub struct InUse {
    pub epoch: u64,
    pub owners: u64,
}

/// The locks that the pairs of their numbers and their owners stand for.
spec fn in_use(entries: Map<Seq<char>, (u64, u64)>) -> Map<Seq<char>, InUse> {
    Map::new(
        |n: Seq<char>| entries.contains_key(n),
        |n: Seq<char>| InUse { epoch: entries[n].0, owners: entries[n].1 },
    )
}

/// The locks in use.
pub struct LockTable {
    locks: DashMap<String, (u64, u64)>,
    next_epoch: u64,
}

impl View for LockTable {
    type V = Map<Seq<char>, InUse>;

    closed spec fn view(&self) -> Map<Seq<char>, InUse> {
        in_use(entries_of(self.locks))
    }
}

impl LockTable {
    /// The number that the next new lock gets.
    pub closed spec fn next_epoch(&self) -> nat {
        self.next_epoch as nat
    }

    /// Every lock in use has an owner and a number below the next, and no two names share a lock.
    pub open spec fn sound(&self) -> bool {
        &&& forall|n: Seq<char>| #[trigger]
            self@.contains_key(n) ==> self@[n].owners > 0 && self@[n].epoch < self.next_epoch()
        &&& forall|m: Seq<char>, n: Seq<char>|
            #![trigger self@.contains_key(m), self@.contains_key(n)]
            self@.contains_key(m) && self@.contains_key(n) && m != n ==> self@[m].epoch
                != self@[n].epoch
    }

    pub fn new() -> (table: Self)
        ensures
            table.sound(),
            table@ == Map::<Seq<char>, InUse>::empty(),
            table.next_epoch() == 0,
    {
        let table = LockTable { locks: registry_new(), next_epoch: 0 };
        assert(table@ =~= Map::<Seq<char>, InUse>::empty());
        table
    }

    /// How many names are in use.
    pub fn len(&self) -> (len: usize)
        ensures
            len == self@.dom().len(),
    {
        assert(self@.dom() =~= entries_of(self.locks).dom());
        registry_len(&self.locks)
    }

    /// One more holder or waiter of a name: of the lock that is in use, or else of a new one.
    pub fn enter(&mut self, name: String) -> (epoch: u64)
        requires
            old(self).sound(),
            old(self).next_epoch() < u64::MAX,
            old(self)@.contains_key(name@) ==> old(self)@[name@].owners < u64::MAX,
        ensures
            final(self).sound(),
            old(self)@.contains_key(name@) ==> {
                &&& epoch == old(self)@[name@].epoch
                &&& final(self).next_epoch() == old(self).next_epoch()
                &&& final(self)@ == old(self)@.insert(
                    name@,
                    InUse { epoch, owners: (old(self)@[name@].owners + 1) as u64 },
                )
            },
            !old(self)@.contains_key(name@) ==> {
                &&& epoch == old(self).next_epoch()
                &&& final(self).next_epoch() == old(self).next_epoch() + 1
                &&& final(self)@ == old(self)@.insert(name@, InUse { epoch, owners: 1 })
            },
    {
        let ghost before = self@;
        let ghost n = name@;
        match registry_get(&self.locks, name.as_str()) {
            Some((epoch, owners)) => {
                assert(before.contains_key(n) && before[n] == (InUse { epoch, owners }));
                registry_insert(&mut self.locks, name, (epoch, (owners + 1) as u64));
                assert(self@ =~= before.insert(
                    n,
                    InUse { epoch, owners: (before[n].owners + 1) as u64 },
                ));
                epoch
            },
            None => {
                let epoch: u64 = self.next_epoch;
                self.next_epoch = epoch + 1;
                registry_insert(&mut self.locks, name, (epoch, 1));
                assert(self@ =~= before.insert(n, InUse { epoch, owners: 1 }));
                epoch
            },
        }
    }

    /// A holder is done, or a waiter gives up.  The last one takes the name out of the table; one
    /// whose lock has been replaced leaves it alone.
    pub fn leave(&mut self, name: &str, epoch: u64)
        requires
            old(self).sound(),
        ensures
            final(self).sound(),
            final(self).next_epoch() == old(self).next_epoch(),
            final(self)@ == if old(self)@.contains_key(name@) && old(self)@[name@].epoch == epoch {
                if old(self)@[name@].owners == 1 {
                    old(self)@.remove(name@)
                } else {
                    old(self)@.insert(
                        name@,
                        InUse { epoch, owners: (old(self)@[name@].owners - 1) as u64 },
                    )
                }
            } else {
                old(self)@
            },
    {
        let ghost before = self@;
        if let Some((current, owners)) = registry_get(&self.locks, name) {
            assert(before.contains_key(name@) && before[name@] == (InUse { epoch: current, owners }));
            if current == epoch {
                if owners == 1 {
                    registry_remove(&mut self.locks, name);
                    assert(self@ =~= before.remove(name@));
                } else {
                    registry_insert(&mut self.locks, name.to_string(), (epoch, (owners - 1) as u64));
                    assert(self@ =~= before.insert(
                        name@,
                        InUse { epoch, owners: (before[name@].owners - 1) as u64 },
                    ));
                }
            }
        }
    }
}

// ---- laws -------------------------------------------------------------------------------------

/// Two names of object locks are equal only where the buckets and the keys are.
pub proof fn object_locks_identify(a: Seq<char>, k: Seq<char>, b: Seq<char>, l: Seq<char>)
    requires
        !a.contains('\0'),
        !b.contains('\0'),
        object_lock(a, k) == object_lock(b, l),
    ensures
        a == b,
        k == l,
{
    lemma_cut(a, k, b, l);
}

proof fn lemma_cut(a: Seq<char>, k: Seq<char>, b: Seq<char>, l: Seq<char>)
    requires
        !a.contains('\0'),
        !b.contains('\0'),
        a.push('\0') + k == b.push('\0') + l,
    ensures
        a == b,
        k == l,
{
    let name = a.push('\0') + k;
    if a.len() < b.len() {
        assert(name[a.len() as int] == '\0');
        assert(name[a.len() as int] == b[a.len() as int]);
    } else if b.len() < a.len() {
        assert(name[b.len() as int] == '\0');
        assert(name[b.len() as int] == a[b.len() as int]);
    }
    assert(a =~= name.take(a.len() as int));
    assert(b =~= name.take(b.len() as int));
    assert(k =~= name.skip(a.len() as int + 1));
    assert(l =~= name.skip(b.len() as int + 1));
}

/// A part number as a lock's name carries it.
pub open spec fn signed_decimal(n: int) -> Seq<char> {
    if n < 0 {
        seq!['-'] + decimal((-n) as nat)
    } else {
        decimal(n as nat)
    }
}

proof fn lemma_signed_decimal_identifies(m: int, n: int)
    requires
        signed_decimal(m) == signed_decimal(n),
    ensures
        m == n,
{
    let (p, q) = (
        (if m < 0 {
            -m
        } else {
            m
        }) as nat,
        (if n < 0 {
            -n
        } else {
            n
        }) as nat,
    );
    padded_decimal_reads_back(p, 0);
    padded_decimal_reads_back(q, 0);
    assert(zeros(0) + decimal(p) =~= decimal(p));
    assert(zeros(0) + decimal(q) =~= decimal(q));
    if m < 0 && n < 0 {
        assert(signed_decimal(m).skip(1) =~= decimal(p));
        assert(signed_decimal(n).skip(1) =~= decimal(q));
    } else if m < 0 {
        assert(signed_decimal(m)[0] == '-');
        assert('0' <= decimal(q)[0]);
    } else if n < 0 {
        assert(signed_decimal(n)[0] == '-');
        assert('0' <= decimal(p)[0]);
    }
}

/// Two names of part locks are equal only where the buckets, the uploads and the part numbers are.
pub proof fn part_locks_identify(
    a: Seq<char>,
    u: Seq<char>,
    m: int,
    b: Seq<char>,
    v: Seq<char>,
    n: int,
)
    requires
        !a.contains('\0'),
        !b.contains('\0'),
        !u.contains('\0'),
        !v.contains('\0'),
        part_lock(a, u, m) == part_lock(b, v, n),
    ensures
        a == b,
        u == v,
        m == n,
{
    let (p, q) = (signed_decimal(m), signed_decimal(n));
    assert(part_lock(a, u, m) =~= a.push('\0') + (u.push('\0') + p));
    assert(part_lock(b, v, n) =~= b.push('\0') + (v.push('\0') + q));
    lemma_cut(a, u.push('\0') + p, b, v.push('\0') + q);
    lemma_cut(u, p, v, q);
    lemma_signed_decimal_identifies(m, n);
}

/// The name of a lock holds what it locks in the open: the bucket, and behind a zero character the key,
/// or the upload and behind another one the number of the part.
pub proof fn a_lock_is_named_after_what_it_locks(
    bucket: Seq<char>,
    key: Seq<char>,
    upload_id: Seq<char>,
    part: nat,
)
    ensures
        object_lock(bucket, key) == bucket + seq!['\0'] + key,
        part_lock(bucket, upload_id, part as int) == bucket + seq!['\0'] + upload_id + seq!['\0']
            + decimal(part),
        part > 0 ==> part_lock(bucket, upload_id, -part) == bucket + seq!['\0'] + upload_id
            + seq!['\0'] + seq!['-'] + decimal(part),
{
    assert(object_lock(bucket, key) =~= bucket + seq!['\0'] + key);
    assert(part_lock(bucket, upload_id, part as int) =~= bucket + seq!['\0'] + upload_id
        + seq!['\0'] + decimal(part));
    if part > 0 {
        assert(part_lock(bucket, upload_id, -part) =~= bucket + seq!['\0'] + upload_id
            + seq!['\0'] + seq!['-'] + decimal(part));
    }
}

} // verus!
