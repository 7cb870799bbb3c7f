//! The substitutions that the user asks for: pointers to replace, and the
//! commit to take in the place of each.

use crate::assoc::{
    find_place, find_value, is_place_of, keys_differ, lemma_push_new_key, lemma_replace_value,
    lemma_value_at, map_of_pairs,
};
use crate::oid::Oid;
use vstd::prelude::*;

verus! {

/// The user's substitutions: for a submodule pointer found in the host
/// history, the submodule commit to take in its place.
///
/// Setting a pointer a second time replaces what was set before.
#[derive(Debug)]
pub struct UserMappings {
    pairs: Vec<(Oid, Oid)>,
}

impl View for UserMappings {
    type V = Map<Oid, Oid>;

    closed spec fn view(&self) -> Map<Oid, Oid> {
        map_of_pairs(self.pairs@)
    }
}

/// `t` is a commit that the substitutions `u` put in some pointer's place.
pub open spec fn is_target(u: Map<Oid, Oid>, t: Oid) -> bool {
    exists|k: Oid| #[trigger] u.contains_key(k) && u[k] == t
}

fn set_in(pairs: &mut Vec<(Oid, Oid)>, pointer: Oid, target: Oid)
    requires
        keys_differ(old(pairs)@),
    ensures
        keys_differ(final(pairs)@),
        map_of_pairs(final(pairs)@) == map_of_pairs(old(pairs)@).insert(pointer, target),
{
    match find_place(pairs, &pointer) {
        Some(i) => {
            proof {
                lemma_replace_value(pairs@, i as int, target);
            }
            pairs.set(i, (pointer, target));
        },
        None => {
            proof {
                lemma_push_new_key(pairs@, pointer, target);
            }
            pairs.push((pointer, target));
        },
    }
}

impl UserMappings {
    #[verifier::type_invariant]
    spec fn fits(self) -> bool {
        keys_differ(self.pairs@)
    }

    /// No substitutions.
    pub fn new() -> (mappings: UserMappings)
        ensures
            mappings@ == Map::<Oid, Oid>::empty(),
    {
        let mappings = UserMappings { pairs: Vec::new() };
        assert(mappings@ =~= Map::<Oid, Oid>::empty());
        mappings
    }

    /// The commit to take in place of `pointer`, if the user named one.
    pub fn get(&self, pointer: &Oid) -> (r: Option<Oid>)
        ensures
            r == (if self@.contains_key(*pointer) {
                Some(self@[*pointer])
            } else {
                None
            }),
    {
        proof {
            use_type_invariant(self);
        }
        find_value(&self.pairs, pointer)
    }

    /// Whether the user named a commit to take in place of `pointer`.
    pub fn contains(&self, pointer: &Oid) -> (b: bool)
        ensures
            b == self@.contains_key(*pointer),
    {
        self.get(pointer).is_some()
    }

    /// Asks for `target` in place of `pointer`, whatever was asked for
    /// that pointer before.
    pub fn set(&mut self, pointer: Oid, target: Oid)
        ensures
            final(self)@ == old(self)@.insert(pointer, target),
    {
        proof {
            use_type_invariant(&*self);
        }
        let mut pairs = Vec::new();
        std::mem::swap(&mut pairs, &mut self.pairs);
        set_in(&mut pairs, pointer, target);
        self.pairs = pairs;
    }

    /// The commits that the user asked for.
    pub fn targets(&self) -> (list: Vec<Oid>)
        ensures
            forall|t: Oid| list@.contains(t) <==> is_target(self@, t),
    {
        proof {
            use_type_invariant(self);
        }
        let mut list: Vec<Oid> = Vec::new();
        let mut i: usize = 0;
        while i < self.pairs.len()
            invariant
                i <= self.pairs@.len(),
                list@.len() == i,
                forall|j: int| 0 <= j < i ==> #[trigger] list@[j] == self.pairs@[j].1,
            decreases self.pairs@.len() - i,
        {
            list.push(self.pairs[i].1);
            i += 1;
        }
        proof {
            assert forall|t: Oid| list@.contains(t) implies is_target(self@, t) by {
                let j = choose|j: int| 0 <= j < list@.len() && list@[j] == t;
                lemma_value_at(self.pairs@, j);
                let k = self.pairs@[j].0;
                assert(self@.contains_key(k) && self@[k] == t);
            }
            assert forall|t: Oid| is_target(self@, t) implies list@.contains(t) by {
                let k = choose|k: Oid| #[trigger] self@.contains_key(k) && self@[k] == t;
                let j = choose|j: int| is_place_of(self.pairs@, k, j);
                lemma_value_at(self.pairs@, j);
                assert(list@[j] == t);
            }
        }
        list
    }
}

} // verus!
