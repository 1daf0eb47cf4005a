//! A map keyed by strings, kept as a list in insertion order.

use vstd::prelude::*;

verus! {

/// A finite map from strings to values. No key occurs twice; keys are compared by their
/// characters.
#[derive(Debug)]
pub struct StringMap<V> {
    entries: Vec<(String, V)>,
}

impl<V> View for StringMap<V> {
    type V = Map<Seq<char>, V>;

    /// The map as a mathematical map from character sequences to values.
    open spec fn view(&self) -> Map<Seq<char>, V> {
        Map::new(
            |k: Seq<char>| self.spec_keys().contains(k),
            |k: Seq<char>| self.spec_values()[self.spec_keys().index_of(k)],
        )
    }
}

/// The map that storing the first `n` values under their keys, in turn, builds.
pub open spec fn stored<V>(keys: Seq<Seq<char>>, values: Seq<V>, n: nat) -> Map<Seq<char>, V>
    decreases n,
{
    if n == 0 || n > keys.len() || n > values.len() {
        Map::empty()
    } else {
        stored(keys, values, (n - 1) as nat).insert(keys[n - 1], values[n - 1])
    }
}

/// Storing values under keys that hold nothing twice keeps every one of them.
pub proof fn lemma_stored<V>(keys: Seq<Seq<char>>, values: Seq<V>, n: nat)
    requires
        keys.no_duplicates(),
        values.len() == keys.len(),
        n <= keys.len(),
    ensures
        forall|k: Seq<char>| #[trigger]
            stored(keys, values, n).contains_key(k) <==> keys.subrange(0, n as int).contains(k),
        forall|j: int| 0 <= j < n ==> stored(keys, values, n)[#[trigger] keys[j]] == values[j],
    decreases n,
{
    if n > 0 {
        lemma_stored(keys, values, (n - 1) as nat);
        let before = keys.subrange(0, n - 1);
        assert(keys.subrange(0, n as int) =~= before.push(keys[n - 1]));
        assert forall|k: Seq<char>| #[trigger]
            stored(keys, values, n).contains_key(k) <==> keys.subrange(0, n as int).contains(
                k,
            ) by {
            vstd::seq_lib::lemma_seq_contains_after_push(before, keys[n - 1], k);
            assert(stored(keys, values, (n - 1) as nat).contains_key(k) <==> keys.subrange(
                0,
                (n - 1) as nat as int,
            ).contains(k));
        }
        assert forall|j: int| 0 <= j < n implies stored(keys, values, n)[#[trigger] keys[j]]
            == values[j] by {
            if j < n - 1 {
                assert(keys[j] != keys[n - 1]);
                assert(stored(keys, values, (n - 1) as nat)[keys[j]] == values[j]);
            }
        }
    } else {
        assert(keys.subrange(0, 0) =~= Seq::<Seq<char>>::empty());
    }
}

impl<V> StringMap<V> {
    /// A valid map is what storing its values under its keys, in turn, builds.
    pub proof fn lemma_view_is_stored(&self)
        requires
            self.wf(),
        ensures
            self@ == stored(self.spec_keys(), self.spec_values(), self.spec_keys().len()),
    {
        let keys = self.spec_keys();
        let values = self.spec_values();
        lemma_stored(keys, values, keys.len());
        assert(keys.subrange(0, keys.len() as int) =~= keys);
        assert forall|k: Seq<char>| self@.contains_key(k) implies #[trigger] self@[k] == stored(
            keys,
            values,
            keys.len(),
        )[k] by {
            let j = keys.index_of(k);
            assert(0 <= j < keys.len() && keys[j] == k);
        }
        assert(self@ =~= stored(keys, values, keys.len()));
    }

    /// The keys, in insertion order.
    pub closed spec fn spec_keys(&self) -> Seq<Seq<char>> {
        Seq::new(self.entries@.len(), |i: int| self.entries@[i].0@)
    }

    /// The values, each at the position of its key.
    pub closed spec fn spec_values(&self) -> Seq<V> {
        Seq::new(self.entries@.len(), |i: int| self.entries@[i].1)
    }

    /// The map's invariant: every key has its value and no key occurs twice.
    pub open spec fn wf(&self) -> bool {
        &&& self.spec_keys().no_duplicates()
        &&& self.spec_values().len() == self.spec_keys().len()
    }

    /// In a valid map, the value at a position is the value of the key at that position.
    pub proof fn lemma_entry(&self, i: int)
        requires
            self.wf(),
            0 <= i < self.spec_keys().len(),
        ensures
            self@.contains_key(self.spec_keys()[i]),
            self@[self.spec_keys()[i]] == self.spec_values()[i],
            self.spec_keys().index_of(self.spec_keys()[i]) == i,
    {
        let keys = self.spec_keys();
        let j = keys.index_of(keys[i]);
        assert(0 <= j < keys.len() && keys[j] == keys[i]);
    }

    /// The keys of a valid map are exactly the domain of its view.
    pub proof fn lemma_domain(&self)
        requires
            self.wf(),
        ensures
            self@.dom() == self.spec_keys().to_set(),
            self@.dom().finite(),
            self@.dom().len() == self.spec_keys().len(),
    {
        broadcast use vstd::seq_lib::seq_to_set_is_finite;

        assert(self@.dom() =~= self.spec_keys().to_set());
        self.spec_keys().unique_seq_to_set();
    }

    /// The empty map.
    pub fn new() -> (map: Self)
        ensures
            map.wf(),
            map@ == Map::<Seq<char>, V>::empty(),
            map.spec_keys().len() == 0,
    {
        let map = StringMap { entries: Vec::new() };
        assert(map@ =~= Map::<Seq<char>, V>::empty());
        map
    }

    /// The number of keys.
    pub fn len(&self) -> (n: usize)
        requires
            self.wf(),
        ensures
            n == self.spec_keys().len(),
            n == self@.dom().len(),
    {
        proof {
            self.lemma_domain();
        }
        self.entries.len()
    }

    /// The key at position `i`.
    pub fn key_at(&self, i: usize) -> (key: &String)
        requires
            i < self.spec_keys().len(),
        ensures
            key@ == self.spec_keys()[i as int],
    {
        &self.entries[i].0
    }

    /// The value at position `i`.
    pub fn value_at(&self, i: usize) -> (value: &V)
        requires
            self.wf(),
            i < self.spec_keys().len(),
        ensures
            *value == self.spec_values()[i as int],
            self@.contains_key(self.spec_keys()[i as int]),
            *value == self@[self.spec_keys()[i as int]],
    {
        proof {
            self.lemma_entry(i as int);
        }
        &self.entries[i].1
    }

    /// Position of `key`, if the map holds it.
    pub fn position(&self, key: &String) -> (res: Option<usize>)
        requires
            self.wf(),
        ensures
            res.is_some() == self@.contains_key(key@),
            res matches Some(i) ==> i < self.spec_keys().len() && self.spec_keys()[i as int]
                == key@ && self.spec_values()[i as int] == self@[key@],
    {
        let mut i: usize = 0;
        while i < self.entries.len()
            invariant
                self.wf(),
                i <= self.entries.len(),
                forall|k: int| 0 <= k < i ==> (#[trigger] self.spec_keys()[k]) != key@,
            decreases self.entries.len() - i,
        {
            if self.entries[i].0 == *key {
                proof {
                    self.lemma_entry(i as int);
                }
                return Some(i);
            }
            i += 1;
        }
        None
    }

    /// The value stored under `key`, if any.
    pub fn get(&self, key: &String) -> (res: Option<&V>)
        requires
            self.wf(),
        ensures
            res.is_some() == self@.contains_key(key@),
            res matches Some(value) ==> *value == self@[key@],
    {
        match self.position(key) {
            Some(i) => Some(&self.entries[i].1),
            None => None,
        }
    }

    /// Stores `value` under `key`, replacing what was stored there before.
    pub fn insert(&mut self, key: String, value: V)
        requires
            old(self).wf(),
        ensures
            final(self).wf(),
            final(self)@ == old(self)@.insert(key@, value),
    {
        let ghost before = *self;
        match self.position(&key) {
            Some(i) => {
                self.entries.set(i, (key, value));
                proof {
                    assert(self.spec_keys() =~= before.spec_keys());
                    assert(self.spec_values() =~= before.spec_values().update(i as int, value));
                    assert forall|k: Seq<char>| self@.contains_key(k) implies #[trigger] self@[k]
                        == before@.insert(key@, value)[k] by {
                        let j = self.spec_keys().index_of(k);
                        assert(0 <= j < self.spec_keys().len() && self.spec_keys()[j] == k);
                    }
                    assert(self@ =~= before@.insert(key@, value));
                }
            },
            None => {
                self.entries.push((key, value));
                proof {
                    let keys = self.spec_keys();
                    assert(keys =~= before.spec_keys().push(key@));
                    assert(self.spec_values() =~= before.spec_values().push(value));
                    assert(keys.no_duplicates()) by {
                        assert forall|a: int, b: int|
                            0 <= a < keys.len() && 0 <= b < keys.len() && a != b implies keys[a]
                            != keys[b] by {
                            if a < before.spec_keys().len() && b < before.spec_keys().len() {
                                assert(before.spec_keys()[a] != before.spec_keys()[b]);
                            } else if a < before.spec_keys().len() {
                                assert(before.spec_keys().contains(before.spec_keys()[a]));
                            } else {
                                assert(before.spec_keys().contains(before.spec_keys()[b]));
                            }
                        }
                    }
                    assert forall|k: Seq<char>| self@.contains_key(k) == before@.insert(
                        key@,
                        value,
                    ).contains_key(k) by {
                        vstd::seq_lib::lemma_seq_contains_after_push(before.spec_keys(), key@, k);
                    }
                    assert forall|k: Seq<char>| self@.contains_key(k) implies #[trigger] self@[k]
                        == before@.insert(key@, value)[k] by {
                        let j = keys.index_of(k);
                        assert(0 <= j < keys.len() && keys[j] == k);
                        if k != key@ {
                            assert(j < before.spec_keys().len());
                            assert(before.spec_keys()[j] == k);
                            before.lemma_entry(j);
                        }
                    }
                    assert(self@ =~= before@.insert(key@, value));
                }
            },
        }
    }
}

} // verus!
