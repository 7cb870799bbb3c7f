//! Lists of pairs in which no key comes twice.

use crate::oid::Oid;
use vstd::prelude::*;

verus! {

/// `i` is the place of the key `id` in `entries`.
pub open spec fn is_place_of(entries: Seq<(Oid, Oid)>, id: Oid, i: int) -> bool {
    0 <= i < entries.len() && entries[i].0 == id
}

/// `entries` has the key `id`.
pub open spec fn has_key(entries: Seq<(Oid, Oid)>, id: Oid) -> bool {
    exists|i: int| is_place_of(entries, id, i)
}

/// What `entries` holds for the key `id`.
pub open spec fn value_of(entries: Seq<(Oid, Oid)>, id: Oid) -> Oid {
    entries[choose|i: int| is_place_of(entries, id, i)].1
}

/// No key comes twice in `entries`.
pub open spec fn keys_differ(entries: Seq<(Oid, Oid)>) -> bool {
    forall|i: int, j: int|
        0 <= i < j < entries.len() ==> (#[trigger] entries[i]).0 != (#[trigger] entries[j]).0
}

/// The map that `entries` holds.
pub open spec fn map_of_pairs(entries: Seq<(Oid, Oid)>) -> Map<Oid, Oid> {
    Map::new(|id: Oid| has_key(entries, id), |id: Oid| value_of(entries, id))
}

/// Where no key comes twice, the value of a key is the one beside it.
pub proof fn lemma_value_at(entries: Seq<(Oid, Oid)>, i: int)
    requires
        keys_differ(entries),
        0 <= i < entries.len(),
    ensures
        has_key(entries, entries[i].0),
        value_of(entries, entries[i].0) == entries[i].1,
{
    assert(is_place_of(entries, entries[i].0, i));
    let j = choose|j: int| is_place_of(entries, entries[i].0, j);
    if i < j {
        assert(entries[i].0 != entries[j].0);
    }
    if j < i {
        assert(entries[j].0 != entries[i].0);
    }
}

/// A new key at the end adds its pair to the map and leaves the rest.
pub proof fn lemma_push_new_key(entries: Seq<(Oid, Oid)>, key: Oid, value: Oid)
    requires
        keys_differ(entries),
        !has_key(entries, key),
    ensures
        keys_differ(entries.push((key, value))),
        map_of_pairs(entries.push((key, value))) == map_of_pairs(entries).insert(key, value),
{
    let grown = entries.push((key, value));
    assert forall|i: int, j: int| 0 <= i < j < grown.len() implies (#[trigger] grown[i]).0 != (
    #[trigger] grown[j]).0 by {
        assert(grown[i] == entries[i]);
        if j == entries.len() {
            assert(!is_place_of(entries, key, i));
        } else {
            assert(grown[j] == entries[j]);
        }
    }
    let wanted = map_of_pairs(entries).insert(key, value);
    assert forall|id: Oid| map_of_pairs(grown).contains_key(id) <==> wanted.contains_key(id) by {
        if id == key {
            assert(is_place_of(grown, key, entries.len() as int));
        } else {
            if has_key(grown, id) {
                let i = choose|i: int| is_place_of(grown, id, i);
                assert(grown[i] == entries[i]);
                assert(is_place_of(entries, id, i));
            }
            if has_key(entries, id) {
                let i = choose|i: int| is_place_of(entries, id, i);
                assert(grown[i] == entries[i]);
                assert(is_place_of(grown, id, i));
            }
        }
    }
    assert forall|id: Oid| #[trigger] wanted.contains_key(id) implies map_of_pairs(grown)[id]
        == wanted[id] by {
        if id == key {
            lemma_value_at(grown, entries.len() as int);
        } else {
            let i = choose|i: int| is_place_of(entries, id, i);
            assert(grown[i] == entries[i]);
            lemma_value_at(entries, i);
            lemma_value_at(grown, i);
        }
    }
    assert(map_of_pairs(grown).dom() =~= wanted.dom());
    assert(map_of_pairs(grown) =~= wanted);
}

/// A new value in the place of a key replaces its pair in the map and
/// leaves the rest.
pub proof fn lemma_replace_value(entries: Seq<(Oid, Oid)>, i: int, value: Oid)
    requires
        keys_differ(entries),
        0 <= i < entries.len(),
    ensures
        keys_differ(entries.update(i, (entries[i].0, value))),
        map_of_pairs(entries.update(i, (entries[i].0, value))) == map_of_pairs(entries).insert(
            entries[i].0,
            value,
        ),
{
    let key = entries[i].0;
    let changed = entries.update(i, (key, value));
    assert forall|a: int| 0 <= a < entries.len() implies (#[trigger] changed[a]).0
        == entries[a].0 by {}
    assert forall|a: int, b: int| 0 <= a < b < changed.len() implies (#[trigger] changed[a]).0 != (
    #[trigger] changed[b]).0 by {
        assert(entries[a].0 != entries[b].0);
    }
    let wanted = map_of_pairs(entries).insert(key, value);
    assert forall|id: Oid| map_of_pairs(changed).contains_key(id) <==> wanted.contains_key(id) by {
        if id == key {
            assert(is_place_of(changed, key, i));
        } else {
            if has_key(changed, id) {
                let a = choose|a: int| is_place_of(changed, id, a);
                assert(is_place_of(entries, id, a));
            }
            if has_key(entries, id) {
                let a = choose|a: int| is_place_of(entries, id, a);
                assert(is_place_of(changed, id, a));
            }
        }
    }
    assert forall|id: Oid| #[trigger] wanted.contains_key(id) implies map_of_pairs(changed)[id]
        == wanted[id] by {
        if id == key {
            lemma_value_at(changed, i);
        } else {
            let a = choose|a: int| is_place_of(entries, id, a);
            assert(changed[a] == entries[a]);
            lemma_value_at(entries, a);
            lemma_value_at(changed, a);
        }
    }
    assert(map_of_pairs(changed).dom() =~= wanted.dom());
    assert(map_of_pairs(changed) =~= wanted);
}

/// The place of `key` in `entries`, if it is there.
pub fn find_place(entries: &Vec<(Oid, Oid)>, key: &Oid) -> (r: Option<usize>)
    ensures
        match r {
            Some(i) => is_place_of(entries@, *key, i as int),
            None => !has_key(entries@, *key),
        },
{
    let mut i: usize = 0;
    while i < entries.len()
        invariant
            i <= entries.len(),
            forall|j: int| 0 <= j < i ==> !is_place_of(entries@, *key, j),
        decreases entries.len() - i,
    {
        if entries[i].0 == *key {
            return Some(i);
        }
        i += 1;
    }
    None
}

/// What `entries` holds for `key`, if it is there.
pub fn find_value(entries: &Vec<(Oid, Oid)>, key: &Oid) -> (r: Option<Oid>)
    requires
        keys_differ(entries@),
    ensures
        r == (if has_key(entries@, *key) {
            Some(value_of(entries@, *key))
        } else {
            None
        }),
{
    match find_place(entries, key) {
        Some(i) => {
            proof {
                lemma_value_at(entries@, i as int);
            }
            Some(entries[i].1)
        },
        None => None,
    }
}

} // verus!
