//! The first pass: every commit of the submodule is written anew, with its
//! tree moved under the directory at which the submodule was mounted.

use crate::commit::{Commit, CommitView, NewCommit, NewCommitView};
use crate::error::RewriteError;
use crate::oid::Oid;
use crate::store::{inserted, inserted_shared, MappingStore};
use vstd::prelude::*;
use vstd::string::*;

verus! {

/// The byte that separates the components of a path.
pub const PATH_SEPARATOR: u8 = 0x2f;

/// `path` is `dir` itself or lies below it.
pub open spec fn lies_under(dir: Seq<u8>, path: Seq<u8>) -> bool {
    &&& dir.len() <= path.len()
    &&& path.subrange(0, dir.len() as int) == dir
    &&& (path.len() == dir.len() || path[dir.len() as int] == PATH_SEPARATOR)
}

/// `path` moved below `dir`.
pub open spec fn moved_under(dir: Seq<u8>, path: Seq<u8>) -> Seq<u8> {
    dir + seq![PATH_SEPARATOR] + path
}

fn is_under(dir: &[u8], path: &Vec<u8>) -> (b: bool)
    ensures
        b == lies_under(dir@, path@),
{
    if path.len() < dir.len() {
        return false;
    }
    let mut i: usize = 0;
    while i < dir.len()
        invariant
            i <= dir@.len() <= path@.len(),
            forall|j: int| 0 <= j < i ==> path@[j] == dir@[j],
        decreases dir@.len() - i,
    {
        if path[i] != dir[i] {
            assert(path@.subrange(0, dir@.len() as int)[i as int] != dir@[i as int]);
            return false;
        }
        i += 1;
    }
    assert(path@.subrange(0, dir@.len() as int) =~= dir@);
    path.len() == dir.len() || path[dir.len()] == PATH_SEPARATOR
}

/// Where an entry of a submodule tree goes in the rewritten tree: below
/// the directory at which the submodule was mounted.
///
/// `path` is the entry's path from the root of the submodule's tree. A
/// submodule that itself holds an entry named like its mount point is not
/// taken: the answer is `None` for that entry and for all below it.
pub fn relocated_path(submodule_dir: &str, path: &Vec<u8>) -> (r: Option<Vec<u8>>)
    ensures
        r is None <==> lies_under(submodule_dir.spec_bytes(), path@),
        r matches Some(moved) ==> moved@ == moved_under(submodule_dir.spec_bytes(), path@),
{
    let dir = submodule_dir.as_bytes();
    if is_under(dir, path) {
        return None;
    }
    let mut moved: Vec<u8> = Vec::new();
    let mut i: usize = 0;
    while i < dir.len()
        invariant
            i <= dir@.len(),
            moved@ == dir@.subrange(0, i as int),
        decreases dir@.len() - i,
    {
        moved.push(dir[i]);
        i += 1;
    }
    assert(moved@ == dir@);
    moved.push(PATH_SEPARATOR);
    let mut j: usize = 0;
    while j < path.len()
        invariant
            j <= path@.len(),
            moved@ == dir@ + seq![PATH_SEPARATOR] + path@.subrange(0, j as int),
        decreases path@.len() - j,
    {
        moved.push(path[j]);
        j += 1;
    }
    assert(path@.subrange(0, path@.len() as int) == path@);
    Some(moved)
}

/// Some path of `paths` is `dir` itself or lies below it.
pub open spec fn some_lies_under(dir: Seq<u8>, paths: Seq<Vec<u8>>) -> bool {
    exists|i: int| 0 <= i < paths.len() && lies_under(dir, (#[trigger] paths[i])@)
}

/// Where the entries of a submodule tree go in the rewritten tree: each
/// below the directory at which the submodule was mounted, and nothing
/// else changed.
///
/// `paths` holds the path of every entry, from the root of the
/// submodule's tree. The answer holds the new path of every entry, in the
/// same order. A tree with an entry named like the mount point is not
/// taken.
pub fn relocated_paths(submodule_dir: &str, paths: &Vec<Vec<u8>>) -> (r: Option<Vec<Vec<u8>>>)
    ensures
        r is None <==> some_lies_under(submodule_dir.spec_bytes(), paths@),
        r matches Some(moved) ==> {
            &&& moved@.len() == paths@.len()
            &&& forall|i: int|
                0 <= i < paths@.len() ==> (#[trigger] moved@[i])@ == moved_under(
                    submodule_dir.spec_bytes(),
                    paths@[i]@,
                )
        },
{
    let mut moved: Vec<Vec<u8>> = Vec::new();
    let mut i: usize = 0;
    while i < paths.len()
        invariant
            i <= paths@.len(),
            moved@.len() == i,
            forall|j: int|
                0 <= j < i ==> !lies_under(submodule_dir.spec_bytes(), (#[trigger] paths@[j])@),
            forall|j: int|
                0 <= j < i ==> (#[trigger] moved@[j])@ == moved_under(
                    submodule_dir.spec_bytes(),
                    paths@[j]@,
                ),
        decreases paths@.len() - i,
    {
        match relocated_path(submodule_dir, &paths[i]) {
            None => {
                return None;
            },
            Some(path) => {
                moved.push(path);
            },
        }
        i += 1;
    }
    Some(moved)
}

/// Every one of `ids` is a key of `m`.
pub open spec fn all_known(m: Map<Oid, Oid>, ids: Seq<Oid>) -> bool {
    forall|i: int| 0 <= i < ids.len() ==> m.contains_key(#[trigger] ids[i])
}

/// `i` is the place of the first of `ids` that is no key of `m`.
pub open spec fn is_first_unknown(m: Map<Oid, Oid>, ids: Seq<Oid>, i: int) -> bool {
    &&& 0 <= i < ids.len()
    &&& !m.contains_key(ids[i])
    &&& forall|j: int| 0 <= j < i ==> m.contains_key(#[trigger] ids[j])
}

/// The first of `ids` that is no key of `m`, where there is one.
pub open spec fn first_unknown(m: Map<Oid, Oid>, ids: Seq<Oid>) -> Oid {
    ids[choose|i: int| is_first_unknown(m, ids, i)]
}

/// There is one first unknown identifier at most.
pub proof fn lemma_first_unknown(m: Map<Oid, Oid>, ids: Seq<Oid>, i: int)
    requires
        is_first_unknown(m, ids, i),
    ensures
        first_unknown(m, ids) == ids[i],
        !all_known(m, ids),
{
    let k = choose|k: int| is_first_unknown(m, ids, k);
    if k < i {
        assert(m.contains_key(ids[k]));
    }
    if i < k {
        assert(m.contains_key(ids[i]));
    }
}

/// What `m` records for each of `ids`, in their order.
pub open spec fn rewritten(m: Map<Oid, Oid>, ids: Seq<Oid>) -> Seq<Oid> {
    Seq::new(ids.len(), |i: int| m[ids[i]])
}

/// The rewritten counterparts of `parents`, in the same order, or the first
/// parent that has none.
pub open spec fn rewritten_parents_of(m: Map<Oid, Oid>, parents: Seq<Oid>) -> Result<
    Seq<Oid>,
    RewriteError,
> {
    if all_known(m, parents) {
        Ok(rewritten(m, parents))
    } else {
        Err(RewriteError::MissingParent(first_unknown(m, parents)))
    }
}

/// Looks up the rewritten counterpart of each parent.
pub fn rewritten_parents(store: &MappingStore, parents: &Vec<Oid>) -> (r: Result<
    Vec<Oid>,
    RewriteError,
>)
    ensures
        match r {
            Ok(found) => rewritten_parents_of(store@, parents@) == Ok::<Seq<Oid>, RewriteError>(
                found@,
            ),
            Err(e) => rewritten_parents_of(store@, parents@) == Err::<Seq<Oid>, RewriteError>(e),
        },
{
    let mut found: Vec<Oid> = Vec::new();
    let mut i: usize = 0;
    while i < parents.len()
        invariant
            i <= parents@.len(),
            found@.len() == i,
            forall|j: int| 0 <= j < i ==> store@.contains_key(#[trigger] parents@[j]),
            forall|j: int| 0 <= j < i ==> found@[j] == store@[parents@[j]],
        decreases parents@.len() - i,
    {
        match store.get(&parents[i]) {
            Some(id) => found.push(id),
            None => {
                proof {
                    lemma_first_unknown(store@, parents@, i as int);
                }
                return Err(RewriteError::MissingParent(parents[i]));
            },
        }
        i += 1;
    }
    assert(found@ =~= rewritten(store@, parents@));
    Ok(found)
}

/// The mapping store after the rewrite of the submodule commit `c` has
/// begun, `new_tree` being its tree moved under the mount point.
///
/// The tree is recorded unless the commit is refused at once.
pub open spec fn store_after_submodule_begin(m: Map<Oid, Oid>, c: CommitView, new_tree: Oid) -> Map<
    Oid,
    Oid,
> {
    if m.contains_key(c.id) || c.id == c.tree {
        m
    } else {
        match inserted_shared(m, c.tree, new_tree) {
            Ok(m1) => m1,
            Err(_) => m,
        }
    }
}

/// The commit that takes the place of the submodule commit `c`: its tree
/// is `new_tree`, its parents are the rewritten parents of `c` in the same
/// order, and author, committer and message are those of `c`.
///
/// The commit is refused if it was rewritten before, if its tree was
/// recorded with another result, or if a parent was not rewritten yet. So
/// is a commit named like its own tree, since the tree is recorded under
/// that name.
pub open spec fn submodule_request(m: Map<Oid, Oid>, c: CommitView, new_tree: Oid) -> Result<
    NewCommitView,
    RewriteError,
> {
    if m.contains_key(c.id) || c.id == c.tree {
        Err(RewriteError::Collision(c.id))
    } else {
        match inserted_shared(m, c.tree, new_tree) {
            Err(e) => Err(e),
            Ok(m1) => match rewritten_parents_of(m1, c.parents) {
                Err(e) => Err(e),
                Ok(parents) => Ok(
                    NewCommitView {
                        tree: new_tree,
                        parents,
                        author: c.author,
                        committer: c.committer,
                        message: c.message,
                    },
                ),
            },
        }
    }
}

/// Begins the rewrite of one submodule commit: records its relocated tree
/// and says which commit to create in its place.
///
/// `new_tree` is the tree that holds the entries of the commit's tree at
/// their relocated paths. The commits must come parents first.
pub fn begin_submodule_commit(store: &mut MappingStore, commit: &Commit, new_tree: Oid) -> (r:
    Result<NewCommit, RewriteError>)
    ensures
        final(store)@ == store_after_submodule_begin(old(store)@, commit@, new_tree),
        match r {
            Ok(request) => submodule_request(old(store)@, commit@, new_tree) == Ok::<
                NewCommitView,
                RewriteError,
            >(request@),
            Err(e) => submodule_request(old(store)@, commit@, new_tree) == Err::<
                NewCommitView,
                RewriteError,
            >(e),
        },
        r matches Ok(request) ==> {
            &&& request.tree == new_tree
            &&& request.author@ == commit.author@
            &&& request.committer@ == commit.committer@
            &&& request.message@ == commit.message@
            &&& request.parents@.len() == commit.parents@.len()
            &&& forall|i: int|
                0 <= i < commit.parents@.len() ==> final(store)@.contains_key(commit.parents@[i])
                    && #[trigger] request.parents@[i] == final(store)@[commit.parents@[i]]
        },
{
    if store.contains(&commit.id) || commit.id == commit.tree {
        return Err(RewriteError::Collision(commit.id));
    }
    match store.insert_shared(commit.tree, new_tree) {
        Err(e) => {
            return Err(e);
        },
        Ok(()) => {},
    }
    match rewritten_parents(store, &commit.parents) {
        Err(e) => Err(e),
        Ok(parents) => Ok(
            NewCommit {
                tree: new_tree,
                parents,
                author: commit.author.clone(),
                committer: commit.committer.clone(),
                message: commit.message.clone(),
            },
        ),
    }
}

/// Ends the rewrite of one submodule commit: records the commit that the
/// object store created in its place.
pub fn finish_submodule_commit(store: &mut MappingStore, commit: &Commit, new_commit: Oid) -> (r:
    Result<(), RewriteError>)
    ensures
        match r {
            Ok(()) => inserted(old(store)@, commit.id, new_commit) == Ok::<
                Map<Oid, Oid>,
                RewriteError,
            >(final(store)@),
            Err(e) => inserted(old(store)@, commit.id, new_commit) == Err::<
                Map<Oid, Oid>,
                RewriteError,
            >(e) && final(store)@ == old(store)@,
        },
{
    store.insert(commit.id, new_commit)
}

} // verus!
