//! A hash map that gathers the values of a key.

use core::hash::Hash;
use std::collections;
use vstd::prelude::*;
use vstd::std_specs::hash::*;

verus! {

/// A hash map of std. Its values are gathered key by key by `extend`.
pub struct HashMap<K, V>(pub collections::HashMap<K, V>);

/// The values of the pairs with the key `key`, in the order of the pairs.
pub open spec fn gathered<K, U>(items: Seq<(K, U)>, key: K) -> Seq<U>
    decreases items.len(),
{
    if items.len() == 0 {
        Seq::empty()
    } else if items.last().0 == key {
        gathered(items.drop_last(), key).push(items.last().1)
    } else {
        gathered(items.drop_last(), key)
    }
}

/// The values that `map` holds for `key`; none where it does not hold the key.
pub open spec fn values_of<K, U>(map: Map<K, Vec<U>>, key: K) -> Seq<U> {
    if map.contains_key(key) {
        map[key]@
    } else {
        Seq::empty()
    }
}

impl<K, V> HashMap<K, V> {
    /// The hash map of std.
    pub fn get(self) -> (map: collections::HashMap<K, V>)
        ensures
            map == self.0,
    {
        self.0
    }

    /// The empty map.
    pub fn default() -> (map: Self)
        ensures
            map.0@ == Map::<K, V>::empty(),
    {
        HashMap(collections::HashMap::new())
    }

    /// Wraps a hash map of std.
    pub fn from(map: collections::HashMap<K, V>) -> (wrapped: Self)
        ensures
            wrapped.0 == map,
    {
        HashMap(map)
    }
}

/// `now` holds for `key` what `start` held for it and, behind that, the values of
/// the pairs with the key. It holds the key where `start` held it or a pair has it.
pub open spec fn extended_at<K, U>(
    now: Map<K, Vec<U>>,
    start: Map<K, Vec<U>>,
    items: Seq<(K, U)>,
    key: K,
) -> bool {
    &&& values_of(now, key) == values_of(start, key) + gathered(items, key)
    &&& now.contains_key(key) <==> start.contains_key(key) || gathered(items, key).len() > 0
}

impl<K: Eq + Hash, U> HashMap<K, Vec<U>> {
    /// Puts the value of each pair behind the values that the map holds for the
    /// pair's key. This is what can be said where hashing the keys and comparing
    /// them go together as the map needs it.
    pub fn extend(&mut self, items: Vec<(K, U)>)
        ensures
            obeys_key_model::<K>() ==> forall|key: K| #[trigger]
                extended_at(final(self).0@, old(self).0@, items@, key),
    {
        broadcast use vstd::std_specs::hash::group_hash_axioms;

        let ghost all = items@;
        let ghost start = self.0@;
        proof {
            assert(all.take(0) =~= Seq::<(K, U)>::empty());
            assert forall|key: K| #[trigger] extended_at(self.0@, start, all.take(0), key) by {
                assert(values_of(start, key) + Seq::<U>::empty() =~= values_of(start, key));
            }
        }
        for item in it: items
            invariant
                it.seq() == all,
                obeys_key_model::<K>() ==> forall|key: K| #[trigger]
                    extended_at(self.0@, start, all.take(it.index() as int), key),
        {
            let ghost i = it.index() as int;
            let ghost before = self.0@;
            let (k, u) = item;
            let values = self.0.entry(k).or_insert(Vec::new());
            values.push(u);
            proof {
                assert(all.take(i + 1).drop_last() =~= all.take(i));
                assert(all.take(i + 1).last() == (k, u));
                if obeys_key_model::<K>() {
                    assert forall|key: K| #[trigger]
                        extended_at(self.0@, start, all.take(i + 1), key) by {
                        assert(extended_at(before, start, all.take(i), key));
                        if key == k {
                            assert(values_of(self.0@, key) =~= values_of(before, key).push(u));
                            assert((values_of(start, key) + gathered(all.take(i), key)).push(u)
                                =~= values_of(start, key) + gathered(all.take(i), key).push(u));
                        }
                    }
                }
            }
        }
        proof {
            assert(all.take(all.len() as int) =~= all);
        }
    }

    /// The map that gathers the values of the pairs key by key.
    pub fn from_iter(items: Vec<(K, U)>) -> (map: Self)
        ensures
            obeys_key_model::<K>() ==> forall|key: K| #[trigger]
                extended_at(map.0@, Map::empty(), items@, key),
    {
        let mut map = Self::default();
        map.extend(items);
        map
    }
}

} // verus!
