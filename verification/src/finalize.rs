//! The last step: where to move the branch.

use crate::error::RewriteError;
use crate::oid::Oid;
use crate::store::MappingStore;
use vstd::prelude::*;

verus! {

/// How to move the branch and the working tree.
#[derive(Clone, Copy, Debug, PartialEq, Eq)]
pub struct Reset {
    /// The commit that the branch is set to.
    pub target: Oid,
    /// The index and the working tree are set to that commit as well.
    pub hard: bool,
    /// Files of the working tree are overwritten where they differ.
    pub force: bool,
}

/// What the last step does, the branch pointing to `head`: a hard reset,
/// forced, to the commit that took the place of `head`.
pub open spec fn reset_to(m: Map<Oid, Oid>, head: Oid) -> Result<Reset, RewriteError> {
    if m.contains_key(head) {
        Ok(Reset { target: m[head], hard: true, force: true })
    } else {
        Err(RewriteError::MissingHead(head))
    }
}

/// Says how to move the branch onto the rewritten history.
///
/// `head` is the commit that the branch points to. A branch tip without a
/// rewritten counterpart means that the host history was not rewritten
/// from that tip; the branch must then stay where it is. Forcing the
/// working tree is safe only because the rewrite begins on a clean one.
pub fn checkout_rewritten_history(store: &MappingStore, head: &Oid) -> (r: Result<
    Reset,
    RewriteError,
>)
    ensures
        r == reset_to(store@, *head),
{
    match store.get(head) {
        Some(target) => Ok(Reset { target, hard: true, force: true }),
        None => Err(RewriteError::MissingHead(*head)),
    }
}

} // verus!
