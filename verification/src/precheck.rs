//! What must hold before anything is rewritten: a clean working tree, and
//! substitutions that lead into the submodule's history.

use crate::mappings::{is_target, UserMappings};
use crate::oid::Oid;
use vstd::prelude::*;

verus! {

/// How to ask for the state of the working tree.
#[derive(Clone, Copy, Debug, PartialEq, Eq)]
pub struct StatusQuery {
    pub include_untracked: bool,
    pub include_ignored: bool,
    pub include_unmodified: bool,
    pub exclude_submodules: bool,
    pub recurse_untracked_dirs: bool,
    pub recurse_ignored_dirs: bool,
}

/// The question whose answer is empty on a clean working tree: files that
/// are untracked, ignored or unmodified do not count, submodules do, and
/// no directory of untracked or ignored files is entered.
pub fn workdir_status_query() -> (query: StatusQuery)
    ensures
        !query.include_untracked,
        !query.include_ignored,
        !query.include_unmodified,
        !query.exclude_submodules,
        !query.recurse_untracked_dirs,
        !query.recurse_ignored_dirs,
{
    StatusQuery {
        include_untracked: false,
        include_ignored: false,
        include_unmodified: false,
        exclude_submodules: false,
        recurse_untracked_dirs: false,
        recurse_ignored_dirs: false,
    }
}

/// The working tree is clean where [`workdir_status_query`] finds nothing.
pub fn is_workdir_clean(status_entries: usize) -> (clean: bool)
    ensures
        clean <==> status_entries == 0,
{
    status_entries == 0
}

/// Whether `id` is among `list`.
pub fn contains_oid(list: &Vec<Oid>, id: &Oid) -> (b: bool)
    ensures
        b == list@.contains(*id),
{
    let mut i: usize = 0;
    while i < list.len()
        invariant
            i <= list@.len(),
            forall|j: int| 0 <= j < i ==> list@[j] != *id,
        decreases list@.len() - i,
    {
        if list[i] == *id {
            return true;
        }
        i += 1;
    }
    false
}

/// `t` is a commit that the rewrite may put in a pointer's place: a target
/// of a substitution, or the default.
pub open spec fn is_wanted(u: Map<Oid, Oid>, d: Option<Oid>, t: Oid) -> bool {
    is_target(u, t) || d == Some(t)
}

/// The commits that the user asked for and that the submodule's history
/// does not hold, each once.
///
/// `walk` is the submodule's history, as walked from its head.
pub fn invalid_mapping_targets(
    walk: &Vec<Oid>,
    mappings: &UserMappings,
    default_mapping: &Option<Oid>,
) -> (missing: Vec<Oid>)
    ensures
        missing@.no_duplicates(),
        forall|t: Oid|
            missing@.contains(t) <==> is_wanted(mappings@, *default_mapping, t) && !walk@.contains(
                t,
            ),
{
    let mut wanted = mappings.targets();
    match default_mapping {
        Some(fallback) => {
            let ghost before = wanted@;
            wanted.push(*fallback);
            assert forall|t: Oid| wanted@.contains(t) <==> is_wanted(
                mappings@,
                *default_mapping,
                t,
            ) by {
                if before.contains(t) {
                    let j = choose|j: int| 0 <= j < before.len() && before[j] == t;
                    assert(wanted@[j] == t);
                }
                if t == *fallback {
                    assert(wanted@[before.len() as int] == t);
                }
            }
        },
        None => {},
    }
    let mut missing: Vec<Oid> = Vec::new();
    let mut i: usize = 0;
    while i < wanted.len()
        invariant
            i <= wanted@.len(),
            missing@.no_duplicates(),
            forall|t: Oid|
                missing@.contains(t) <==> wanted@.subrange(0, i as int).contains(t)
                    && !walk@.contains(t),
        decreases wanted@.len() - i,
    {
        let t = wanted[i];
        let ghost seen = wanted@.subrange(0, i as int);
        let ghost next = wanted@.subrange(0, i + 1);
        let ghost kept = missing@;
        assert(next == seen.push(t));
        if !contains_oid(walk, &t) && !contains_oid(&missing, &t) {
            missing.push(t);
        }
        assert forall|x: Oid|
            missing@.contains(x) <==> next.contains(x) && !walk@.contains(x) by {
            if kept.contains(x) {
                let j = choose|j: int| 0 <= j < kept.len() && kept[j] == x;
                assert(missing@[j] == x);
            }
            if seen.contains(x) {
                let j = choose|j: int| 0 <= j < seen.len() && seen[j] == x;
                assert(next[j] == x);
            }
            if x == t {
                assert(next[i as int] == x);
                if missing@.len() > kept.len() {
                    assert(missing@[kept.len() as int] == x);
                }
            }
        }
        i += 1;
    }
    assert(wanted@.subrange(0, i as int) == wanted@);
    missing
}

/// Whether every commit that the user asked for is in the submodule's
/// history.
pub fn are_mappings_valid(
    walk: &Vec<Oid>,
    mappings: &UserMappings,
    default_mapping: &Option<Oid>,
) -> (valid: bool)
    ensures
        valid <==> forall|t: Oid|
            is_wanted(mappings@, *default_mapping, t) ==> walk@.contains(t),
{
    let missing = invalid_mapping_targets(walk, mappings, default_mapping);
    proof {
        if missing@.len() > 0 {
            assert(missing@.contains(missing@[0]));
        }
    }
    missing.len() == 0
}

} // verus!
