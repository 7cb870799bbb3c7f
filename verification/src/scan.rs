//! Looking for submodule pointers that lead nowhere, before the host
//! history is touched.

use crate::commit::PathLookup;
use crate::error::RewriteError;
use crate::mappings::UserMappings;
use crate::oid::Oid;
use crate::precheck::contains_oid;
use crate::store::MappingStore;
use vstd::prelude::*;

verus! {

/// The pointer `p` leads nowhere: it is no key of the mapping store, the
/// user gave no substitution for it, and there is no default.
pub open spec fn is_dangling(m: Map<Oid, Oid>, u: Map<Oid, Oid>, d: Option<Oid>, p: Oid) -> bool {
    !m.contains_key(p) && !u.contains_key(p) && d is None
}

/// Some commit of `walk` has the pointer `p`.
pub open spec fn is_pointed_to(walk: Seq<(Oid, PathLookup)>, p: Oid) -> bool {
    exists|i: int| 0 <= i < walk.len() && (#[trigger] walk[i]).1 == PathLookup::Found(p)
}

/// `i` is the place of the first commit of `walk` whose lookup failed.
pub open spec fn is_first_failure(walk: Seq<(Oid, PathLookup)>, i: int) -> bool {
    &&& 0 <= i < walk.len()
    &&& walk[i].1 == PathLookup::Failed
    &&& forall|j: int| 0 <= j < i ==> (#[trigger] walk[j]).1 != PathLookup::Failed
}

/// No lookup of `walk` failed.
pub open spec fn all_looked_up(walk: Seq<(Oid, PathLookup)>) -> bool {
    forall|i: int| 0 <= i < walk.len() ==> (#[trigger] walk[i]).1 != PathLookup::Failed
}

/// `list` holds, each once, the pointers of `walk` that lead nowhere.
pub open spec fn lists_dangling(
    list: Seq<Oid>,
    walk: Seq<(Oid, PathLookup)>,
    m: Map<Oid, Oid>,
    u: Map<Oid, Oid>,
    d: Option<Oid>,
) -> bool {
    &&& list.no_duplicates()
    &&& forall|p: Oid| list.contains(p) <==> is_pointed_to(walk, p) && is_dangling(m, u, d, p)
}

/// Whether the pointer leads nowhere.
pub fn pointer_is_dangling(
    store: &MappingStore,
    mappings: &UserMappings,
    default_mapping: &Option<Oid>,
    pointer: &Oid,
) -> (b: bool)
    ensures
        b == is_dangling(store@, mappings@, *default_mapping, *pointer),
{
    !store.contains(pointer) && !mappings.contains(pointer) && default_mapping.is_none()
}

/// The submodule pointers of the host history that lead nowhere, each
/// once.
///
/// `walk` holds, for every commit of the host history, its identifier and
/// what was found at the submodule's path in its tree. A commit without an
/// entry there is passed over. A failed lookup ends the scan.
pub fn find_dangling_references_to_submodule(
    walk: &Vec<(Oid, PathLookup)>,
    store: &MappingStore,
    mappings: &UserMappings,
    default_mapping: &Option<Oid>,
) -> (r: Result<Vec<Oid>, RewriteError>)
    ensures
        r is Ok <==> all_looked_up(walk@),
        r matches Ok(dangling) ==> lists_dangling(
            dangling@,
            walk@,
            store@,
            mappings@,
            *default_mapping,
        ),
        r matches Err(e) ==> exists|i: int|
            is_first_failure(walk@, i) && e == RewriteError::LookupFailed(walk@[i].0),
{
    let mut dangling: Vec<Oid> = Vec::new();
    let mut i: usize = 0;
    while i < walk.len()
        invariant
            i <= walk@.len(),
            all_looked_up(walk@.subrange(0, i as int)),
            lists_dangling(
                dangling@,
                walk@.subrange(0, i as int),
                store@,
                mappings@,
                *default_mapping,
            ),
        decreases walk@.len() - i,
    {
        let ghost seen = walk@.subrange(0, i as int);
        let ghost next = walk@.subrange(0, i + 1);
        let ghost kept = dangling@;
        assert(next == seen.push(walk@[i as int]));
        match walk[i].1 {
            PathLookup::Failed => {
                assert(is_first_failure(walk@, i as int)) by {
                    assert forall|j: int| 0 <= j < i implies (#[trigger] walk@[j]).1
                        != PathLookup::Failed by {
                        assert(seen[j].1 != PathLookup::Failed);
                    }
                }
                return Err(RewriteError::LookupFailed(walk[i].0));
            },
            PathLookup::NotFound => {},
            PathLookup::Found(pointer) => {
                if pointer_is_dangling(store, mappings, default_mapping, &pointer) && !contains_oid(
                    &dangling,
                    &pointer,
                ) {
                    dangling.push(pointer);
                }
            },
        }
        proof {
            let lookup = walk@[i as int].1;
            assert forall|p: Oid|
                is_pointed_to(next, p) <==> is_pointed_to(seen, p) || lookup == PathLookup::Found(
                    p,
                ) by {
                if is_pointed_to(seen, p) {
                    let j = choose|j: int|
                        0 <= j < seen.len() && (#[trigger] seen[j]).1 == PathLookup::Found(p);
                    assert(next[j].1 == PathLookup::Found(p));
                }
                if walk@[i as int].1 == PathLookup::Found(p) {
                    assert(next[i as int].1 == PathLookup::Found(p));
                }
                if is_pointed_to(next, p) {
                    let j = choose|j: int|
                        0 <= j < next.len() && (#[trigger] next[j]).1 == PathLookup::Found(p);
                    if j < i {
                        assert(seen[j].1 == PathLookup::Found(p));
                    }
                }
            }
            assert forall|p: Oid|
                dangling@.contains(p) <==> is_pointed_to(next, p) && is_dangling(
                    store@,
                    mappings@,
                    *default_mapping,
                    p,
                ) by {
                if kept.contains(p) {
                    let j = choose|j: int| 0 <= j < kept.len() && kept[j] == p;
                    assert(dangling@[j] == p);
                }
                if dangling@.len() > kept.len() {
                    assert(dangling@[kept.len() as int] == dangling@.last());
                }
            }
            assert forall|j: int| 0 <= j < next.len() implies (#[trigger] next[j]).1
                != PathLookup::Failed by {
                if j < i {
                    assert(seen[j].1 != PathLookup::Failed);
                }
            }
        }
        assert(lists_dangling(dangling@, next, store@, mappings@, *default_mapping));
        i += 1;
    }
    assert(walk@.subrange(0, i as int) == walk@);
    Ok(dangling)
}

} // verus!
