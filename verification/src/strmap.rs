//! A map that is keyed by the bytes of a `Str`.
//!
//! The entries are spread over hash buckets by a hash of their bytes. Within a
//! bucket they are found by comparing bytes, so that what the map holds does not
//! depend on the hash at all.

use crate::input::Str;
use std::collections::HashMap;
use vstd::prelude::*;

verus! {

/// One step of the hash: the byte is added, and the sum is multiplied by 31.
pub open spec fn hash_step(h: u64, b: u8) -> u64 {
    (((h + b) * 31) % 0x1_0000_0000_0000_0000) as u64
}

/// The hash of a run of bytes.
pub open spec fn hash_of(bytes: Seq<u8>) -> u64
    decreases bytes.len(),
{
    if bytes.len() == 0 {
        0
    } else {
        hash_step(hash_of(bytes.drop_last()), bytes.last())
    }
}

/// Computes the hash of a run of bytes.
pub fn hash_bytes(bytes: &[u8]) -> (h: u64)
    ensures
        h == hash_of(bytes@),
{
    let n: usize = bytes.len();
    let mut h: u64 = 0;
    let mut k: usize = 0;
    while k < n
        invariant
            k <= n,
            n == bytes@.len(),
            h == hash_of(bytes@.take(k as int)),
        decreases n - k,
    {
        assert(bytes@.take(k + 1).drop_last() =~= bytes@.take(k as int));
        let wide: u128 = (h as u128 + bytes[k] as u128) * 31;
        h = (wide % 0x1_0000_0000_0000_0000) as u64;
        k += 1;
    }
    assert(bytes@.take(n as int) =~= bytes@);
    h
}

/// The index of the first entry with the key `key`.
pub open spec fn first_at<'a, V>(entries: Seq<(Str<'a>, V)>, key: Seq<u8>) -> Option<int>
    decreases entries.len(),
{
    if entries.len() == 0 {
        None
    } else {
        match first_at(entries.drop_last(), key) {
            Some(i) => Some(i),
            None => if entries.last().0@ == key {
                Some(entries.len() - 1)
            } else {
                None
            },
        }
    }
}

/// What `first_at` finds is the first entry with the key.
pub proof fn lemma_first_at<'a, V>(entries: Seq<(Str<'a>, V)>, key: Seq<u8>)
    ensures
        match first_at(entries, key) {
            Some(i) => 0 <= i < entries.len() && entries[i].0@ == key && forall|j: int|
                0 <= j < i ==> (#[trigger] entries[j]).0@ != key,
            None => forall|j: int| 0 <= j < entries.len() ==> (#[trigger] entries[j]).0@ != key,
        },
    decreases entries.len(),
{
    if entries.len() > 0 {
        lemma_first_at(entries.drop_last(), key);
        assert(forall|j: int|
            0 <= j < entries.len() - 1 ==> entries.drop_last()[j] == #[trigger] entries[j]);
    }
}

/// An index that is the first with the key is what `first_at` finds.
pub proof fn lemma_first_at_is<'a, V>(entries: Seq<(Str<'a>, V)>, key: Seq<u8>, i: int)
    requires
        0 <= i < entries.len(),
        entries[i].0@ == key,
        forall|j: int| 0 <= j < i ==> (#[trigger] entries[j]).0@ != key,
    ensures
        first_at(entries, key) == Some(i),
{
    lemma_first_at(entries, key);
}

/// Absent keys are not found.
pub proof fn lemma_first_at_none<'a, V>(entries: Seq<(Str<'a>, V)>, key: Seq<u8>)
    requires
        forall|j: int| 0 <= j < entries.len() ==> (#[trigger] entries[j]).0@ != key,
    ensures
        first_at(entries, key).is_none(),
{
    lemma_first_at(entries, key);
}

/// The index of the first entry with the bytes of `key`.
pub fn find_in<'a, V>(entries: &Vec<(Str<'a>, V)>, key: Str<'_>) -> (at: Option<usize>)
    ensures
        match at {
            Some(i) => first_at(entries@, key@) == Some(i as int) && i < entries@.len(),
            None => first_at(entries@, key@).is_none(),
        },
{
    let n: usize = entries.len();
    let mut k: usize = 0;
    while k < n
        invariant
            k <= n,
            n == entries@.len(),
            forall|j: int| 0 <= j < k ==> (#[trigger] entries@[j]).0@ != key@,
        decreases n - k,
    {
        if entries[k].0.same_bytes(key) {
            proof {
                lemma_first_at_is(entries@, key@, k as int);
            }
            return Some(k);
        }
        k += 1;
    }
    proof {
        lemma_first_at_none(entries@, key@);
    }
    None
}

/// A map from runs of bytes to values.
pub struct StrMap<'a, V> {
    buckets: HashMap<u64, Vec<(Str<'a>, V)>>,
}

impl<'a, V> StrMap<'a, V> {
    /// The entries of the bucket that `key` belongs to.
    pub closed spec fn bucket(self, key: Seq<u8>) -> Seq<(Str<'a>, V)> {
        if self.buckets@.contains_key(hash_of(key)) {
            self.buckets@[hash_of(key)]@
        } else {
            Seq::empty()
        }
    }

    /// The value that the map holds for `key`, if it holds one.
    pub closed spec fn find(self, key: Seq<u8>) -> Option<V> {
        match first_at(self.bucket(key), key) {
            Some(i) => Some(self.bucket(key)[i].1),
            None => None,
        }
    }

    /// The empty map.
    pub fn new() -> (map: Self)
        ensures
            forall|key: Seq<u8>| map.find(key).is_none(),
    {
        StrMap { buckets: HashMap::new() }
    }

    /// The value for the bytes of `key`.
    pub fn get(&self, key: Str<'_>) -> (value: Option<&V>)
        ensures
            match value {
                Some(v) => self.find(key@) == Some(*v),
                None => self.find(key@).is_none(),
            },
    {
        broadcast use vstd::std_specs::hash::group_hash_axioms;

        let h: u64 = hash_bytes(key.bytes);
        match self.buckets.get(&h) {
            None => None,
            Some(entries) => match find_in(entries, key) {
                None => None,
                Some(i) => Some(&entries[i].1),
            },
        }
    }
}

impl<'a, V: Copy> StrMap<'a, V> {
    /// The value for the bytes of `key`; where there is none yet, `value` becomes it.
    pub fn get_or_insert(&mut self, key: Str<'a>, value: V) -> (held: V)
        ensures
            held == match old(self).find(key@) {
                Some(v) => v,
                None => value,
            },
            final(self).find(key@) == Some(held),
            forall|other: Seq<u8>| other != key@ ==> final(self).find(other)
                == old(self).find(other),
    {
        broadcast use vstd::std_specs::hash::group_hash_axioms;

        let h: u64 = hash_bytes(key.bytes);
        let ghost before = self.bucket(key@);
        let ghost mut after = before;
        let entries = self.buckets.entry(h).or_insert(Vec::new());
        assert(entries@ == before);
        let held = match find_in(entries, key) {
            Some(i) => {
                let held = entries[i].1;
                held
            },
            None => {
                entries.push((key, value));
                proof {
                    after = entries@;
                    assert(entries@.drop_last() =~= before);
                    lemma_first_at(before, key@);
                    assert forall|other: Seq<u8>| other != key@ implies first_at(entries@, other)
                        == first_at(before, other) by {}
                }
                value
            },
        };
        proof {
            assert(self.bucket(key@) == after);
            assert forall|other: Seq<u8>| other != key@ implies self.find(other) == old(
                self,
            ).find(other) by {
                if hash_of(other) == h {
                    assert(self.bucket(other) == after);
                    assert(old(self).bucket(other) == before);
                    lemma_first_at(before, other);
                }
            }
        }
        held
    }
}

impl<'a, X> StrMap<'a, Vec<X>> {
    /// Puts `item` behind the items that the map holds for the bytes of `key`,
    /// where it holds none yet as the first.
    pub fn push_to(&mut self, key: Str<'a>, item: X)
        ensures
            final(self).find(key@).is_some(),
            final(self).find(key@).unwrap()@ == match old(self).find(key@) {
                Some(items) => items@.push(item),
                None => seq![item],
            },
            forall|other: Seq<u8>| other != key@ ==> final(self).find(other)
                == old(self).find(other),
    {
        broadcast use vstd::std_specs::hash::group_hash_axioms;

        let h: u64 = hash_bytes(key.bytes);
        let ghost before = self.bucket(key@);
        let ghost mut after = before;
        let entries = self.buckets.entry(h).or_insert(Vec::new());
        assert(entries@ == before);
        match find_in(entries, key) {
            Some(i) => {
                entries[i].1.push(item);
                proof {
                    after = entries@;
                    lemma_first_at(before, key@);
                    lemma_same_keys(before, entries@, key@);
                    assert forall|other: Seq<u8>| other != key@ implies first_at(entries@, other)
                        == first_at(before, other) && (first_at(before, other) matches Some(j)
                        ==> entries@[j].1 == before[j].1) by {
                        lemma_same_keys(before, entries@, other);
                        lemma_first_at(before, other);
                    }
                }
            },
            None => {
                let mut items: Vec<X> = Vec::new();
                items.push(item);
                entries.push((key, items));
                proof {
                    after = entries@;
                    assert(entries@.drop_last() =~= before);
                    lemma_first_at(before, key@);
                    assert forall|other: Seq<u8>| other != key@ implies first_at(entries@, other)
                        == first_at(before, other) && (first_at(before, other) matches Some(j)
                        ==> entries@[j].1 == before[j].1) by {
                        lemma_first_at(before, other);
                    }
                }
            },
        }
        proof {
            assert(self.bucket(key@) == after);
            assert forall|other: Seq<u8>| other != key@ implies self.find(other) == old(
                self,
            ).find(other) by {
                if hash_of(other) == h {
                    assert(self.bucket(other) == after);
                    assert(old(self).bucket(other) == before);
                    lemma_first_at(before, other);
                }
            }
        }
    }
}

/// Entries with the same keys are found at the same index.
pub proof fn lemma_same_keys<'a, V>(a: Seq<(Str<'a>, V)>, b: Seq<(Str<'a>, V)>, key: Seq<u8>)
    requires
        a.len() == b.len(),
        forall|j: int| 0 <= j < a.len() ==> (#[trigger] a[j]).0 == b[j].0,
    ensures
        first_at(a, key) == first_at(b, key),
    decreases a.len(),
{
    if a.len() > 0 {
        lemma_same_keys(a.drop_last(), b.drop_last(), key);
    }
}

} // verus!
