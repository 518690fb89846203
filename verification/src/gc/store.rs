//! Where retired recency slices are kept from one run to the next.

use crate::backend::ListedObject;
use crate::gc::ring::at_most;
use crate::meta::keyspace::{parse_recency_seq, slice_name, slice_number};
use crate::meta::laws::{slice_name_reads_back, slices_sort_by_number};
use crate::order::{key_less, order_is_strict};
use vstd::prelude::*;
use vstd::relations::sorted_by;
use vstd::seq_lib::{lemma_sorted_unique, to_multiset_insert};
use vstd::utf8::encode_utf8;

verus! {

// ---- the slices -------------------------------------------------------------------------------

/// The keys of a page, in its order.
pub open spec fn keys_in(page: Seq<ListedObject>) -> Seq<Seq<char>>
    decreases page.len(),
{
    if page.len() == 0 {
        Seq::empty()
    } else {
        let before = keys_in(page.drop_last());
        match page.last().key {
            Some(key) => before.push(key@),
            None => before,
        }
    }
}

/// Texts as sequences.
pub open spec fn key_views(keys: Seq<String>) -> Seq<Seq<char>> {
    Seq::new(keys.len(), |i: int| keys[i]@)
}

/// Adds the keys of a page to those that were listed before it.
pub fn slice_keys(keys: &mut Vec<String>, page: &Vec<ListedObject>)
    ensures
        key_views(final(keys)@) == key_views(old(keys)@) + keys_in(page@),
{
    let ghost first = key_views(keys@);
    let mut i: usize = 0;
    assert(page@.take(0) =~= Seq::empty());
    assert(first =~= first + keys_in(page@.take(0)));
    while i < page.len()
        invariant
            i <= page@.len(),
            key_views(keys@) == first + keys_in(page@.take(i as int)),
        decreases page@.len() - i,
    {
        let ghost before = keys@;
        proof {
            assert(page@.take(i + 1).drop_last() =~= page@.take(i as int));
            assert(page@.take(i + 1).last() == page@[i as int]);
        }
        if let Some(key) = &page[i].key {
            keys.push(key.clone());
            assert(key_views(keys@) =~= key_views(before).push(key@));
            assert(key_views(keys@) =~= first + keys_in(page@.take(i + 1)));
        }
        i += 1;
    }
    assert(page@.take(i as int) =~= page@);
}

/// The slice numbers of some keys, in their order; a key that is none's is passed over.
pub open spec fn numbers_in(keys: Seq<Seq<char>>) -> Seq<u64>
    decreases keys.len(),
{
    if keys.len() == 0 {
        Seq::empty()
    } else {
        let before = numbers_in(keys.drop_last());
        match slice_number(keys.last()) {
            Some(n) => before.push(n as u64),
            None => before,
        }
    }
}

/// The order from the largest on.
pub open spec fn newer_or_same() -> spec_fn(u64, u64) -> bool {
    |a: u64, b: u64| a >= b
}

/// Some numbers, from the largest on.
pub open spec fn newest_first(s: Seq<u64>) -> Seq<u64> {
    s.sort_by(newer_or_same())
}

/// Sorts a number in.
fn sort_in(sorted: &mut Vec<u64>, n: u64)
    requires
        sorted_by(old(sorted)@, newer_or_same()),
    ensures
        sorted_by(final(sorted)@, newer_or_same()),
        final(sorted)@.to_multiset() == old(sorted)@.to_multiset().insert(n),
{
    let mut i: usize = 0;
    while i < sorted.len() && sorted[i] >= n
        invariant
            i <= sorted@.len(),
            sorted@ == old(sorted)@,
            forall|j: int| 0 <= j < i ==> #[trigger] sorted@[j] >= n,
        decreases sorted@.len() - i,
    {
        i += 1;
    }
    let ghost before = sorted@;
    sorted.insert(i, n);
    proof {
        to_multiset_insert(before, i as int, n);
        assert forall|a: int, b: int| 0 <= a < b < sorted@.len() implies #[trigger] newer_or_same()(sorted@[a], sorted@[b]) by {
            let (x, y) = (if a < i {
                a
            } else {
                a - 1
            }, if b < i {
                b
            } else {
                b - 1
            });
            if a < i && b > i {
                assert(newer_or_same()(before[x], before[y]));
            }
            if a == i {
                assert(i < before.len() ==> before[i as int] < n);
                if y > i {
                    assert(newer_or_same()(before[i as int], before[y]));
                }
            }
        }
    }
}

/// The numbers of the slices to read back: the newest, from the newest on, and at most `depth`.
pub fn load(keys: &Vec<String>, depth: usize) -> (newest: Vec<u64>)
    ensures
        newest@ == at_most(newest_first(numbers_in(key_views(keys@))), depth as nat),
{
    let mut sorted: Vec<u64> = Vec::new();
    let ghost all = key_views(keys@);
    let mut i: usize = 0;
    assert(all.take(0) =~= Seq::empty());
    assert(sorted@ =~= numbers_in(all.take(0)));
    while i < keys.len()
        invariant
            i <= keys@.len(),
            all == key_views(keys@),
            sorted_by(sorted@, newer_or_same()),
            sorted@.to_multiset() == numbers_in(all.take(i as int)).to_multiset(),
        decreases keys@.len() - i,
    {
        proof {
            assert(all.take(i + 1).drop_last() =~= all.take(i as int));
            assert(all.take(i + 1).last() == keys@[i as int]@);
        }
        if let Some(n) = parse_recency_seq(keys[i].as_str()) {
            sort_in(&mut sorted, n);
            proof {
                numbers_in(all.take(i as int)).to_multiset_ensures();
            }
        }
        i += 1;
    }
    assert(all.take(i as int) =~= all);
    let ghost whole = sorted@;
    if sorted.len() > depth {
        sorted.truncate(depth);
    }
    proof {
        let numbers = numbers_in(all);
        numbers.lemma_sort_by_ensures(newer_or_same());
        lemma_sorted_unique(whole, newest_first(numbers), newer_or_same());
        assert(sorted@ =~= at_most(whole, depth as nat));
    }
    sorted
}

/// How many of the listed slices, from the first on, have expired: all but the last `depth`.
pub fn prune(listed: usize, depth: usize) -> (expired: usize)
    ensures
        expired == if listed > depth {
            listed - depth
        } else {
            0
        },
{
    if listed > depth {
        listed - depth
    } else {
        0
    }
}

// ---- laws -------------------------------------------------------------------------------------

/// Whether some keys are those of slices, in the order of a listing.
pub open spec fn lists_slices(keys: Seq<Seq<char>>, numbers: Seq<u64>) -> bool {
    &&& keys.len() == numbers.len()
    &&& forall|i: int| 0 <= i < keys.len() ==> #[trigger] keys[i] == slice_name(numbers[i])
    &&& forall|i: int, j: int|
        0 <= i < j < keys.len() ==> key_less(#[trigger] keys[i], #[trigger] keys[j])
}

/// A pruned listing keeps the newest slices: everything that expires is older than everything that
/// stays.
pub proof fn pruning_keeps_the_newest(
    keys: Seq<Seq<char>>,
    numbers: Seq<u64>,
    expired: int,
    gone: int,
    kept: int,
)
    requires
        lists_slices(keys, numbers),
        0 <= gone < expired <= kept < keys.len(),
    ensures
        numbers[gone] < numbers[kept],
{
    assert(key_less(keys[gone], keys[kept]));
    if numbers[gone] > numbers[kept] {
        slices_sort_by_number(numbers[kept], numbers[gone]);
        order_is_strict(encode_utf8(keys[gone]), encode_utf8(keys[kept]));
    } else if numbers[gone] == numbers[kept] {
        order_is_strict(encode_utf8(keys[gone]), encode_utf8(keys[kept]));
    }
}

/// Every slice that was kept is read back under the number that it was kept under.
pub proof fn kept_slices_are_found(keys: Seq<Seq<char>>, numbers: Seq<u64>)
    requires
        lists_slices(keys, numbers),
    ensures
        numbers_in(keys) == numbers,
    decreases keys.len(),
{
    if keys.len() > 0 {
        assert(lists_slices(keys.drop_last(), numbers.drop_last()));
        kept_slices_are_found(keys.drop_last(), numbers.drop_last());
        slice_name_reads_back(numbers.last());
        assert(keys.last() == slice_name(numbers.last()));
        assert(numbers_in(keys) =~= numbers);
    } else {
        assert(numbers_in(keys) =~= numbers);
    }
}

/// A listing is read object by object: every key that it has, in its order.
pub proof fn every_listed_key_is_kept(
    a: Seq<ListedObject>,
    b: Seq<ListedObject>,
    one: ListedObject,
)
    ensures
        keys_in(a + b) == keys_in(a) + keys_in(b),
        keys_in(Seq::<ListedObject>::empty()).len() == 0,
        one.key is Some ==> keys_in(seq![one]) == seq![one.key->0@],
        one.key is None ==> keys_in(seq![one]).len() == 0,
    decreases b.len(),
{
    assert(seq![one].drop_last() =~= Seq::<ListedObject>::empty());
    assert(seq![one].last() == one);
    reveal_with_fuel(keys_in, 2);
    if one.key is Some {
        assert(keys_in(seq![one]) =~= seq![one.key->0@]);
    }
    if b.len() == 0 {
        assert(a + b =~= a);
        assert(keys_in(a) + keys_in(b) =~= keys_in(a));
    } else {
        every_listed_key_is_kept(a, b.drop_last(), one);
        assert((a + b).drop_last() =~= a + b.drop_last());
        assert((a + b).last() == b.last());
        assert(keys_in(a + b) =~= keys_in(a) + keys_in(b));
    }
}

/// The names of slices give their numbers, in their order, and other names give none.
pub proof fn every_slice_name_gives_its_number(
    a: Seq<Seq<char>>,
    b: Seq<Seq<char>>,
    one: Seq<char>,
)
    ensures
        numbers_in(a + b) == numbers_in(a) + numbers_in(b),
        numbers_in(Seq::<Seq<char>>::empty()).len() == 0,
        forall|seq: u64| one == #[trigger] slice_name(seq) ==> numbers_in(seq![one]) == seq![seq],
        slice_number(one) is None ==> numbers_in(seq![one]).len() == 0,
    decreases b.len(),
{
    assert(seq![one].drop_last() =~= Seq::<Seq<char>>::empty());
    assert(seq![one].last() == one);
    reveal_with_fuel(numbers_in, 2);
    assert forall|seq: u64| one == #[trigger] slice_name(seq) implies numbers_in(seq![one])
        == seq![seq] by {
        slice_name_reads_back(seq);
        assert(numbers_in(seq![one]) =~= seq![seq]);
    }
    if b.len() == 0 {
        assert(a + b =~= a);
        assert(numbers_in(a) + numbers_in(b) =~= numbers_in(a));
    } else {
        every_slice_name_gives_its_number(a, b.drop_last(), one);
        assert((a + b).drop_last() =~= a + b.drop_last());
        assert((a + b).last() == b.last());
        assert(numbers_in(a + b) =~= numbers_in(a) + numbers_in(b));
    }
}

/// What is loaded is the newest slices, newest first, and as many as the ring is deep: no slice is left
/// out for an older one.
pub proof fn the_newest_slices_are_loaded(keys: Seq<Seq<char>>, depth: nat, i: int, j: int)
    requires
        0 <= i < j < newest_first(numbers_in(keys)).len(),
    ensures
        newest_first(numbers_in(keys))[i] >= newest_first(numbers_in(keys))[j],
        newest_first(numbers_in(keys)).to_multiset() == numbers_in(keys).to_multiset(),
        j < depth ==> at_most(newest_first(numbers_in(keys)), depth)[j] == newest_first(
            numbers_in(keys),
        )[j],
        at_most(newest_first(numbers_in(keys)), depth).len() <= depth,
{
    let s = numbers_in(keys);
    assert(vstd::relations::total_ordering(newer_or_same()));
    s.lemma_sort_by_ensures(newer_or_same());
    assert(newer_or_same()(newest_first(s)[i], newest_first(s)[j]));
}

/// Keys are seen one by one, in their order.
pub proof fn keys_are_seen_one_by_one(list: Seq<String>, i: int)
    ensures
        key_views(list).len() == list.len(),
        0 <= i < list.len() ==> key_views(list)[i] == list[i]@,
{
}

} // verus!
