//! The second pass: every host commit that holds the submodule is written
//! anew, with the submodule's tree in the pointer's place, and with one
//! parent more where the pointer moved.

use crate::commit::{HostCommit, HostCommitView, PathLookup, Signature, SignatureView};
use crate::error::RewriteError;
use crate::mappings::UserMappings;
use crate::oid::Oid;
use crate::store::{inserted, MappingStore};
use crate::submodule::{rewritten_parents, rewritten_parents_of};
use vstd::prelude::*;

verus! {

/// The submodule commit that stands for the pointer `p`: the one that the
/// user asked for, else `p` itself.
pub open spec fn substituted(u: Map<Oid, Oid>, p: Oid) -> Oid {
    if u.contains_key(p) {
        u[p]
    } else {
        p
    }
}

/// The rewritten submodule commit that a host commit with the pointer `p`
/// takes its submodule tree from.
///
/// The pointer is first replaced as the user asked. What comes of that is
/// looked up among the rewritten commits; where it is not there, the
/// default is looked up in its place.
pub open spec fn resolved(m: Map<Oid, Oid>, u: Map<Oid, Oid>, d: Option<Oid>, p: Oid) -> Result<
    Oid,
    RewriteError,
> {
    let target = substituted(u, p);
    if m.contains_key(target) {
        Ok(m[target])
    } else {
        match d {
            None => Err(RewriteError::UnresolvedPointer(target)),
            Some(fallback) => if m.contains_key(fallback) {
                Ok(m[fallback])
            } else {
                Err(RewriteError::UnknownDefault(fallback))
            },
        }
    }
}

/// The pointer `p` is new at a commit whose parents hold `parent_pointers`:
/// no parent has an entry with that same pointer.
///
/// This is judged on the pointer as the commit holds it, before any
/// substitution.
pub open spec fn advanced(p: Oid, parent_pointers: Seq<PathLookup>) -> bool {
    forall|i: int|
        0 <= i < parent_pointers.len() ==> #[trigger] parent_pointers[i] != PathLookup::Found(p)
}

/// A lookup in the tree of some parent failed.
pub open spec fn some_lookup_failed(parent_pointers: Seq<PathLookup>) -> bool {
    exists|i: int|
        0 <= i < parent_pointers.len() && #[trigger] parent_pointers[i] == PathLookup::Failed
}

/// How to write a host commit anew.
#[derive(Debug, PartialEq, Eq)]
pub struct HostRewrite {
    /// The rewritten submodule commit whose tree, taken at the submodule's
    /// path, replaces the pointer.
    pub submodule_commit: Oid,
    /// Whether the pointer moved at this commit.
    pub advanced: bool,
    /// The parents of the new commit, in order.
    pub parents: Vec<Oid>,
    pub author: Signature,
    pub committer: Signature,
    pub message: Vec<u8>,
}

/// What a [`HostRewrite`] holds.
pub struct HostRewriteView {
    pub submodule_commit: Oid,
    pub advanced: bool,
    pub parents: Seq<Oid>,
    pub author: SignatureView,
    pub committer: SignatureView,
    pub message: Seq<u8>,
}

impl View for HostRewrite {
    type V = HostRewriteView;

    open spec fn view(&self) -> HostRewriteView {
        HostRewriteView {
            submodule_commit: self.submodule_commit,
            advanced: self.advanced,
            parents: self.parents@,
            author: self.author@,
            committer: self.committer@,
            message: self.message@,
        }
    }
}

impl Clone for HostRewrite {
    fn clone(&self) -> (copy: HostRewrite)
        ensures
            copy@ == self@,
    {
        HostRewrite {
            submodule_commit: self.submodule_commit,
            advanced: self.advanced,
            parents: self.parents.clone(),
            author: self.author.clone(),
            committer: self.committer.clone(),
            message: self.message.clone(),
        }
    }
}

/// What becomes of a host commit.
#[derive(Debug, PartialEq, Eq)]
pub enum HostPlan {
    /// The commit does not hold the submodule: it stays as it is, and
    /// stands for itself.
    Unchanged,
    /// The commit holds the submodule: a new commit takes its place.
    Rewrite(HostRewrite),
}

impl Clone for HostPlan {
    fn clone(&self) -> (copy: HostPlan)
        ensures
            copy@ == self@,
    {
        match self {
            HostPlan::Unchanged => HostPlan::Unchanged,
            HostPlan::Rewrite(rewrite) => HostPlan::Rewrite(rewrite.clone()),
        }
    }
}

/// What a [`HostPlan`] holds.
pub enum HostPlanView {
    Unchanged,
    Rewrite(HostRewriteView),
}

impl View for HostPlan {
    type V = HostPlanView;

    open spec fn view(&self) -> HostPlanView {
        match self {
            HostPlan::Unchanged => HostPlanView::Unchanged,
            HostPlan::Rewrite(rewrite) => HostPlanView::Rewrite(rewrite@),
        }
    }
}

/// What becomes of the host commit `hc`, the mapping store being `m`, the
/// user's substitutions `u` and the default `d`.
///
/// A commit without an entry at the submodule's path stays. Any other gets
/// as parents the rewritten parents in their order, and after them, where
/// the pointer moved, the rewritten submodule commit.
pub open spec fn host_plan(
    m: Map<Oid, Oid>,
    u: Map<Oid, Oid>,
    d: Option<Oid>,
    hc: HostCommitView,
) -> Result<HostPlanView, RewriteError> {
    if m.contains_key(hc.commit.id) {
        Err(RewriteError::Collision(hc.commit.id))
    } else {
        match hc.pointer {
            PathLookup::Failed => Err(RewriteError::LookupFailed(hc.commit.id)),
            PathLookup::NotFound => Ok(HostPlanView::Unchanged),
            PathLookup::Found(p) => match resolved(m, u, d, p) {
                Err(e) => Err(e),
                Ok(q) => if some_lookup_failed(hc.parent_pointers) {
                    Err(RewriteError::LookupFailed(hc.commit.id))
                } else {
                    match rewritten_parents_of(m, hc.commit.parents) {
                        Err(e) => Err(e),
                        Ok(parents) => Ok(
                            HostPlanView::Rewrite(
                                HostRewriteView {
                                    submodule_commit: q,
                                    advanced: advanced(p, hc.parent_pointers),
                                    parents: if advanced(p, hc.parent_pointers) {
                                        parents.push(q)
                                    } else {
                                        parents
                                    },
                                    author: hc.commit.author,
                                    committer: hc.commit.committer,
                                    message: hc.commit.message,
                                },
                            ),
                        ),
                    }
                },
            },
        }
    }
}

/// The mapping store after the rewrite of the host commit `hc` has begun:
/// a commit that stays is recorded as standing for itself.
pub open spec fn store_after_host_begin(
    m: Map<Oid, Oid>,
    u: Map<Oid, Oid>,
    d: Option<Oid>,
    hc: HostCommitView,
) -> Map<Oid, Oid> {
    if host_plan(m, u, d, hc) == Ok::<HostPlanView, RewriteError>(HostPlanView::Unchanged) {
        m.insert(hc.commit.id, hc.commit.id)
    } else {
        m
    }
}

/// Finds the rewritten submodule commit for a pointer.
pub fn resolve_pointer(
    store: &MappingStore,
    mappings: &UserMappings,
    default_mapping: &Option<Oid>,
    pointer: &Oid,
) -> (r: Result<Oid, RewriteError>)
    ensures
        r == resolved(store@, mappings@, *default_mapping, *pointer),
{
    let target = match mappings.get(pointer) {
        Some(target) => target,
        None => *pointer,
    };
    match store.get(&target) {
        Some(q) => Ok(q),
        None => match default_mapping {
            None => Err(RewriteError::UnresolvedPointer(target)),
            Some(fallback) => match store.get(fallback) {
                Some(q) => Ok(q),
                None => Err(RewriteError::UnknownDefault(*fallback)),
            },
        },
    }
}

/// What the parents' trees say of the pointer `p`.
enum ParentsSay {
    /// Some lookup failed.
    Failed,
    /// All lookups worked, and this is whether the pointer moved.
    Advanced(bool),
}

fn pointer_advanced(pointer: &Oid, parent_pointers: &Vec<PathLookup>) -> (r: ParentsSay)
    ensures
        match r {
            ParentsSay::Failed => some_lookup_failed(parent_pointers@),
            ParentsSay::Advanced(moved) => !some_lookup_failed(parent_pointers@) && moved
                == advanced(*pointer, parent_pointers@),
        },
{
    let mut moved = true;
    let mut i: usize = 0;
    while i < parent_pointers.len()
        invariant
            i <= parent_pointers@.len(),
            forall|j: int| 0 <= j < i ==> #[trigger] parent_pointers@[j] != PathLookup::Failed,
            moved <==> forall|j: int|
                0 <= j < i ==> #[trigger] parent_pointers@[j] != PathLookup::Found(*pointer),
        decreases parent_pointers@.len() - i,
    {
        match parent_pointers[i] {
            PathLookup::Failed => {
                return ParentsSay::Failed;
            },
            PathLookup::NotFound => {},
            PathLookup::Found(other) => {
                if other == *pointer {
                    moved = false;
                }
            },
        }
        i += 1;
    }
    ParentsSay::Advanced(moved)
}

/// Begins the rewrite of one host commit: says whether it stays or which
/// commit to create in its place.
///
/// A commit that stays is recorded at once as standing for itself. For any
/// other, the tree of the new commit is the commit's own after the
/// [`subtree_splice`](crate::tree::subtree_splice) of the tree found at the
/// submodule's path in the rewritten submodule commit. The commits must
/// come parents first.
pub fn begin_host_commit(
    store: &mut MappingStore,
    mappings: &UserMappings,
    default_mapping: &Option<Oid>,
    commit: &HostCommit,
) -> (r: Result<HostPlan, RewriteError>)
    ensures
        final(store)@ == store_after_host_begin(
            old(store)@,
            mappings@,
            *default_mapping,
            commit@,
        ),
        match r {
            Ok(plan) => host_plan(old(store)@, mappings@, *default_mapping, commit@) == Ok::<
                HostPlanView,
                RewriteError,
            >(plan@),
            Err(e) => host_plan(old(store)@, mappings@, *default_mapping, commit@) == Err::<
                HostPlanView,
                RewriteError,
            >(e),
        },
        r matches Ok(HostPlan::Unchanged) ==> commit.pointer == PathLookup::NotFound,
        r matches Ok(HostPlan::Rewrite(rewrite)) ==> {
            let n = commit.commit.parents@.len();
            &&& commit.pointer matches PathLookup::Found(p)
            &&& resolved(old(store)@, mappings@, *default_mapping, p) == Ok::<Oid, RewriteError>(
                rewrite.submodule_commit,
            )
            &&& rewrite.advanced == advanced(p, commit.parent_pointers@)
            &&& rewrite.author@ == commit.commit.author@
            &&& rewrite.committer@ == commit.commit.committer@
            &&& rewrite.message@ == commit.commit.message@
            &&& forall|i: int|
                0 <= i < n ==> old(store)@.contains_key(commit.commit.parents@[i])
                    && #[trigger] rewrite.parents@[i] == old(store)@[commit.commit.parents@[i]]
            &&& rewrite.advanced ==> rewrite.parents@.len() == n + 1 && rewrite.parents@[n as int]
                == rewrite.submodule_commit
            &&& !rewrite.advanced ==> rewrite.parents@.len() == n
        },
{
    let id = commit.commit.id;
    if store.contains(&id) {
        return Err(RewriteError::Collision(id));
    }
    let pointer = match commit.pointer {
        PathLookup::Failed => {
            return Err(RewriteError::LookupFailed(id));
        },
        PathLookup::NotFound => {
            store.insert_new(id, id);
            return Ok(HostPlan::Unchanged);
        },
        PathLookup::Found(pointer) => pointer,
    };
    let submodule_commit = match resolve_pointer(store, mappings, default_mapping, &pointer) {
        Err(e) => {
            return Err(e);
        },
        Ok(q) => q,
    };
    let moved = match pointer_advanced(&pointer, &commit.parent_pointers) {
        ParentsSay::Failed => {
            return Err(RewriteError::LookupFailed(id));
        },
        ParentsSay::Advanced(moved) => moved,
    };
    let mut parents = match rewritten_parents(store, &commit.commit.parents) {
        Err(e) => {
            return Err(e);
        },
        Ok(parents) => parents,
    };
    if moved {
        parents.push(submodule_commit);
    }
    Ok(
        HostPlan::Rewrite(
            HostRewrite {
                submodule_commit,
                advanced: moved,
                parents,
                author: commit.commit.author.clone(),
                committer: commit.commit.committer.clone(),
                message: commit.commit.message.clone(),
            },
        ),
    )
}

/// Ends the rewrite of one host commit that did not stay: records the
/// commit that the object store created in its place.
pub fn finish_host_commit(store: &mut MappingStore, commit: &HostCommit, new_commit: Oid) -> (r:
    Result<(), RewriteError>)
    ensures
        match r {
            Ok(()) => inserted(old(store)@, commit.commit.id, new_commit) == Ok::<
                Map<Oid, Oid>,
                RewriteError,
            >(final(store)@),
            Err(e) => inserted(old(store)@, commit.commit.id, new_commit) == Err::<
                Map<Oid, Oid>,
                RewriteError,
            >(e) && final(store)@ == old(store)@,
        },
{
    store.insert(commit.commit.id, new_commit)
}

} // verus!
