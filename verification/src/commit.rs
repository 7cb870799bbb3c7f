//! Commits as the rewrite reads and writes them.

use crate::oid::Oid;
use vstd::prelude::*;

verus! {

/// Who wrote or committed a commit, and when.
#[derive(Debug, PartialEq, Eq)]
pub struct Signature {
    pub name: Vec<u8>,
    pub email: Vec<u8>,
    /// Seconds since the epoch.
    pub seconds: i64,
    /// Offset of the time zone, in minutes.
    pub offset_minutes: i32,
}

/// What a [`Signature`] holds.
pub struct SignatureView {
    pub name: Seq<u8>,
    pub email: Seq<u8>,
    pub seconds: i64,
    pub offset_minutes: i32,
}

impl View for Signature {
    type V = SignatureView;

    open spec fn view(&self) -> SignatureView {
        SignatureView {
            name: self.name@,
            email: self.email@,
            seconds: self.seconds,
            offset_minutes: self.offset_minutes,
        }
    }
}

impl Clone for Signature {
    fn clone(&self) -> (copy: Signature)
        ensures
            copy@ == self@,
    {
        Signature {
            name: self.name.clone(),
            email: self.email.clone(),
            seconds: self.seconds,
            offset_minutes: self.offset_minutes,
        }
    }
}

/// A commit read from the object store.
#[derive(Debug, PartialEq, Eq)]
pub struct Commit {
    pub id: Oid,
    /// The root tree.
    pub tree: Oid,
    /// The parents, in the commit's own order.
    pub parents: Vec<Oid>,
    pub author: Signature,
    pub committer: Signature,
    pub message: Vec<u8>,
}

/// What a [`Commit`] holds.
pub struct CommitView {
    pub id: Oid,
    pub tree: Oid,
    pub parents: Seq<Oid>,
    pub author: SignatureView,
    pub committer: SignatureView,
    pub message: Seq<u8>,
}

impl View for Commit {
    type V = CommitView;

    open spec fn view(&self) -> CommitView {
        CommitView {
            id: self.id,
            tree: self.tree,
            parents: self.parents@,
            author: self.author@,
            committer: self.committer@,
            message: self.message@,
        }
    }
}

impl Clone for Commit {
    fn clone(&self) -> (copy: Commit)
        ensures
            copy@ == self@,
    {
        Commit {
            id: self.id,
            tree: self.tree,
            parents: self.parents.clone(),
            author: self.author.clone(),
            committer: self.committer.clone(),
            message: self.message.clone(),
        }
    }
}

/// A commit to be created: everything but the identifier, which the object
/// store gives.
#[derive(Debug, PartialEq, Eq)]
pub struct NewCommit {
    /// The root tree.
    pub tree: Oid,
    /// The parents, in order.
    pub parents: Vec<Oid>,
    pub author: Signature,
    pub committer: Signature,
    pub message: Vec<u8>,
}

/// What a [`NewCommit`] holds.
pub struct NewCommitView {
    pub tree: Oid,
    pub parents: Seq<Oid>,
    pub author: SignatureView,
    pub committer: SignatureView,
    pub message: Seq<u8>,
}

impl View for NewCommit {
    type V = NewCommitView;

    open spec fn view(&self) -> NewCommitView {
        NewCommitView {
            tree: self.tree,
            parents: self.parents@,
            author: self.author@,
            committer: self.committer@,
            message: self.message@,
        }
    }
}

impl Clone for NewCommit {
    fn clone(&self) -> (copy: NewCommit)
        ensures
            copy@ == self@,
    {
        NewCommit {
            tree: self.tree,
            parents: self.parents.clone(),
            author: self.author.clone(),
            committer: self.committer.clone(),
            message: self.message.clone(),
        }
    }
}

/// The outcome of looking up the submodule's path in a commit's tree.
#[derive(Clone, Copy, Debug, PartialEq, Eq)]
pub enum PathLookup {
    /// There is an entry, and this is the object it names: for a gitlink,
    /// the submodule commit that the host commit points to.
    Found(Oid),
    /// The tree has no entry at the path.
    NotFound,
    /// The object store failed in another way.
    Failed,
}

/// How to read a lookup that the object store gave up: the entry is
/// missing where the store says that it did not find something, and says
/// so of a tree; whatever else it says is a failure.
pub fn failed_lookup(not_found: bool, of_tree: bool) -> (lookup: PathLookup)
    ensures
        lookup == (if not_found && of_tree {
            PathLookup::NotFound
        } else {
            PathLookup::Failed
        }),
{
    if not_found && of_tree {
        PathLookup::NotFound
    } else {
        PathLookup::Failed
    }
}

/// A commit of the host history, with what the rewrite reads from its tree
/// and from the trees of its parents.
#[derive(Debug, PartialEq, Eq)]
pub struct HostCommit {
    pub commit: Commit,
    /// The entry at the submodule's path in the commit's own tree.
    pub pointer: PathLookup,
    /// The entry at the submodule's path in the tree of each parent, in the
    /// order of the parents.
    pub parent_pointers: Vec<PathLookup>,
}

/// What a [`HostCommit`] holds.
pub struct HostCommitView {
    pub commit: CommitView,
    pub pointer: PathLookup,
    pub parent_pointers: Seq<PathLookup>,
}

impl View for HostCommit {
    type V = HostCommitView;

    open spec fn view(&self) -> HostCommitView {
        HostCommitView {
            commit: self.commit@,
            pointer: self.pointer,
            parent_pointers: self.parent_pointers@,
        }
    }
}

impl Clone for HostCommit {
    fn clone(&self) -> (copy: HostCommit)
        ensures
            copy@ == self@,
    {
        HostCommit {
            commit: self.commit.clone(),
            pointer: self.pointer,
            parent_pointers: self.parent_pointers.clone(),
        }
    }
}

} // verus!
