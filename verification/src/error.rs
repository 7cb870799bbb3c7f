//! What can stop the rewrite.

use crate::oid::Oid;
use vstd::prelude::*;

verus! {

/// A fault that ends the rewrite. None of them is recoverable: each means
/// that the histories, or the order in which they were walked, are not
/// what the rewrite relies on.
#[derive(Clone, Copy, Debug, PartialEq, Eq)]
pub enum RewriteError {
    /// A parent of the commit at hand has no rewritten counterpart yet:
    /// the commits did not come parents first.
    MissingParent(Oid),
    /// The object is already recorded in the mapping store: a commit that
    /// was rewritten before, or a tree that was moved to another tree.
    Collision(Oid),
    /// A submodule pointer, after the user's substitution, is no rewritten
    /// submodule commit, and there is no default to fall back on.
    UnresolvedPointer(Oid),
    /// The default mapping is no rewritten submodule commit.
    UnknownDefault(Oid),
    /// The object store failed while looking up the submodule's path in
    /// the tree of this commit.
    LookupFailed(Oid),
    /// The branch tip has no rewritten counterpart.
    MissingHead(Oid),
}

} // verus!
