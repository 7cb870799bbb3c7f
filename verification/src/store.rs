//! The mapping store: which new object stands for which old one.

use crate::assoc::{
    find_value, has_key, keys_differ, lemma_push_new_key, map_of_pairs, value_of,
};
use crate::error::RewriteError;
use crate::oid::Oid;
use std::collections::HashMap;
use vstd::prelude::*;
use vstd::std_specs::hash::*;

verus! {

/// The bucket that an identifier is filed under: its first eight bytes,
/// read as one number. Identifiers are hashes, so these spread evenly.
pub open spec fn bucket_of(id: Oid) -> u64 {
    (id.bytes[0] as u64 + 0x100 * id.bytes[1] as u64 + 0x1_0000 * id.bytes[2] as u64 + 0x100_0000
        * id.bytes[3] as u64 + 0x1_0000_0000 * id.bytes[4] as u64 + 0x100_0000_0000
        * id.bytes[5] as u64 + 0x1_0000_0000_0000 * id.bytes[6] as u64 + 0x100_0000_0000_0000
        * id.bytes[7] as u64) as u64
}

fn bucket(id: &Oid) -> (k: u64)
    ensures
        k == bucket_of(*id),
{
    let b = &id.bytes;
    let low: u64 = b[0] as u64 + 0x100 * (b[1] as u64) + 0x1_0000 * (b[2] as u64) + 0x100_0000 * (
    b[3] as u64);
    let high: u64 = 0x1_0000_0000 * (b[4] as u64) + 0x100_0000_0000 * (b[5] as u64)
        + 0x1_0000_0000_0000 * (b[6] as u64) + 0x100_0000_0000_0000 * (b[7] as u64);
    low + high
}

/// Every key of the bucket `k` belongs there, and none comes twice.
spec fn bucket_fits(k: u64, entries: Seq<(Oid, Oid)>) -> bool {
    &&& forall|i: int| 0 <= i < entries.len() ==> bucket_of((#[trigger] entries[i]).0) == k
    &&& keys_differ(entries)
}

/// Every bucket holds its own keys, each once.
spec fn buckets_fit(buckets: Map<u64, Vec<(Oid, Oid)>>) -> bool {
    forall|k: u64| #[trigger] buckets.contains_key(k) ==> bucket_fits(k, buckets[k]@)
}

/// The map that the buckets hold.
spec fn map_of(buckets: Map<u64, Vec<(Oid, Oid)>>) -> Map<Oid, Oid> {
    Map::new(
        |id: Oid| buckets.contains_key(bucket_of(id)) && has_key(buckets[bucket_of(id)]@, id),
        |id: Oid| value_of(buckets[bucket_of(id)]@, id),
    )
}

fn insert_into(buckets: &mut HashMap<u64, Vec<(Oid, Oid)>>, key: Oid, value: Oid)
    requires
        buckets_fit(old(buckets)@),
        !map_of(old(buckets)@).contains_key(key),
    ensures
        buckets_fit(final(buckets)@),
        map_of(final(buckets)@) == map_of(old(buckets)@).insert(key, value),
{
    broadcast use group_hash_axioms;

    let k = bucket(&key);
    let ghost before = buckets@;
    let mut entries = match buckets.remove(&k) {
        Some(entries) => entries,
        None => Vec::new(),
    };
    let ghost kept = entries@;
    assert(bucket_fits(k, kept));
    assert(!has_key(kept, key)) by {
        if has_key(kept, key) {
            assert(map_of(before).contains_key(key));
        }
    }
    entries.push((key, value));
    let ghost grown = entries@;
    proof {
        lemma_push_new_key(kept, key, value);
        assert forall|i: int| 0 <= i < grown.len() implies bucket_of((#[trigger] grown[i]).0)
            == k by {
            if i < kept.len() {
                assert(grown[i] == kept[i]);
            }
        }
    }
    buckets.insert(k, entries);
    proof {
        let after = buckets@;
        assert(after == before.insert(k, entries));
        assert forall|j: u64| #[trigger] after.contains_key(j) implies bucket_fits(
            j,
            after[j]@,
        ) by {
            if j != k {
                assert(before.contains_key(j));
            }
        }
        let wanted = map_of(before).insert(key, value);
        assert forall|id: Oid| map_of(after).contains_key(id) <==> wanted.contains_key(id) by {
            if bucket_of(id) == k {
                assert(map_of_pairs(grown).contains_key(id) <==> map_of_pairs(kept).insert(
                    key,
                    value,
                ).contains_key(id));
                if has_key(kept, id) {
                    assert(before.contains_key(k));
                }
            }
        }
        assert forall|id: Oid| #[trigger] wanted.contains_key(id) implies map_of(after)[id]
            == wanted[id] by {
            if bucket_of(id) == k {
                assert(map_of_pairs(grown)[id] == map_of_pairs(kept).insert(key, value)[id]);
                if id != key {
                    assert(has_key(kept, id));
                }
            }
        }
        assert(map_of(after).dom() =~= wanted.dom());
        assert(map_of(after) =~= wanted);
    }
}

/// A map from old object identifiers to new ones, filled as the rewrite
/// goes. A key, once recorded, keeps its value: there is no way to change
/// or remove it.
#[derive(Debug)]
pub struct MappingStore {
    buckets: HashMap<u64, Vec<(Oid, Oid)>>,
}

impl View for MappingStore {
    type V = Map<Oid, Oid>;

    closed spec fn view(&self) -> Map<Oid, Oid> {
        map_of(self.buckets@)
    }
}

impl MappingStore {
    #[verifier::type_invariant]
    spec fn fits(self) -> bool {
        buckets_fit(self.buckets@)
    }

    /// A store with nothing recorded.
    pub fn new() -> (store: MappingStore)
        ensures
            store@ == Map::<Oid, Oid>::empty(),
    {
        let store = MappingStore { buckets: HashMap::new() };
        assert(store@ =~= Map::<Oid, Oid>::empty());
        store
    }

    /// What `key` maps to, if it was recorded.
    pub fn get(&self, key: &Oid) -> (r: Option<Oid>)
        ensures
            r == (if self@.contains_key(*key) {
                Some(self@[*key])
            } else {
                None
            }),
    {
        broadcast use group_hash_axioms;

        proof {
            use_type_invariant(self);
        }
        let k = bucket(key);
        match self.buckets.get(&k) {
            None => None,
            Some(entries) => find_value(entries, key),
        }
    }

    /// Whether `key` was recorded.
    pub fn contains(&self, key: &Oid) -> (b: bool)
        ensures
            b == self@.contains_key(*key),
    {
        self.get(key).is_some()
    }

    /// Records that `value` stands for `key`, which is known to be new.
    pub(crate) fn insert_new(&mut self, key: Oid, value: Oid)
        requires
            !old(self)@.contains_key(key),
        ensures
            final(self)@ == old(self)@.insert(key, value),
    {
        proof {
            use_type_invariant(&*self);
        }
        let mut buckets = HashMap::new();
        std::mem::swap(&mut buckets, &mut self.buckets);
        insert_into(&mut buckets, key, value);
        self.buckets = buckets;
    }

    /// Records that `value` stands for `key`, which must be new.
    ///
    /// A key that is already there is refused and nothing changes: no
    /// object is rewritten twice.
    pub fn insert(&mut self, key: Oid, value: Oid) -> (r: Result<(), RewriteError>)
        ensures
            match r {
                Ok(()) => inserted(old(self)@, key, value) == Ok::<Map<Oid, Oid>, RewriteError>(
                    final(self)@,
                ),
                Err(e) => inserted(old(self)@, key, value) == Err::<Map<Oid, Oid>, RewriteError>(e)
                    && final(self)@ == old(self)@,
            },
    {
        if self.contains(&key) {
            Err(RewriteError::Collision(key))
        } else {
            self.insert_new(key, value);
            Ok(())
        }
    }

    /// Records that `value` stands for `key`, which may have been recorded
    /// with that same value before.
    ///
    /// This is for what several commits can share, such as a tree. A key
    /// that is there with another value is refused and nothing changes.
    pub fn insert_shared(&mut self, key: Oid, value: Oid) -> (r: Result<(), RewriteError>)
        ensures
            match r {
                Ok(()) => inserted_shared(old(self)@, key, value) == Ok::<
                    Map<Oid, Oid>,
                    RewriteError,
                >(final(self)@),
                Err(e) => inserted_shared(old(self)@, key, value) == Err::<
                    Map<Oid, Oid>,
                    RewriteError,
                >(e) && final(self)@ == old(self)@,
            },
    {
        match self.get(&key) {
            Some(present) => {
                if present == value {
                    assert(self@.insert(key, value) =~= self@);
                    Ok(())
                } else {
                    Err(RewriteError::Collision(key))
                }
            },
            None => {
                self.insert_new(key, value);
                Ok(())
            },
        }
    }
}

/// The map after `value` is recorded for the new key `key`.
pub open spec fn inserted(m: Map<Oid, Oid>, key: Oid, value: Oid) -> Result<
    Map<Oid, Oid>,
    RewriteError,
> {
    if m.contains_key(key) {
        Err(RewriteError::Collision(key))
    } else {
        Ok(m.insert(key, value))
    }
}

/// The map after `value` is recorded for `key`, which others may have
/// recorded with the same value.
pub open spec fn inserted_shared(m: Map<Oid, Oid>, key: Oid, value: Oid) -> Result<
    Map<Oid, Oid>,
    RewriteError,
> {
    if m.contains_key(key) && m[key] != value {
        Err(RewriteError::Collision(key))
    } else {
        Ok(m.insert(key, value))
    }
}

} // verus!
