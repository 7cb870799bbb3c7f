//! How the two histories are walked.

use crate::commit::CommitView;
use crate::oid::Oid;
use vstd::prelude::*;
use vstd::string::*;

verus! {

/// The order in which a walk hands out the commits of a history.
#[derive(Clone, Copy, Debug, PartialEq, Eq)]
pub struct WalkOrder {
    /// No commit comes between another and that one's ancestors.
    pub topological: bool,
    /// The order is turned round, so that ancestors come first.
    pub reverse: bool,
}

/// The order in which both histories are walked: topological and turned
/// round, so that every commit comes after all its parents.
pub fn history_walk_order() -> (order: WalkOrder)
    ensures
        order.topological,
        order.reverse,
{
    WalkOrder { topological: true, reverse: true }
}

/// Where the objects of the submodule are fetched from: its directory,
/// as seen from the root of the repository that holds it.
pub fn submodule_url(submodule_dir: &str) -> (url: String)
    ensures
        url@ == seq!['.', '/'] + submodule_dir@,
{
    proof {
        reveal_strlit("./");
    }
    let url = String::from_str("./").concat(submodule_dir);
    assert("./"@ =~= seq!['.', '/']);
    url
}

/// The commits come parents first: every parent of every commit either
/// comes earlier in `commits` or is among `known`.
pub open spec fn parents_first(known: Set<Oid>, commits: Seq<CommitView>) -> bool {
    forall|i: int, k: int|
        #![trigger commits[i].parents[k]]
        0 <= i < commits.len() && 0 <= k < commits[i].parents.len() ==> known.contains(
            commits[i].parents[k],
        ) || exists|j: int| 0 <= j < i && (#[trigger] commits[j]).id == commits[i].parents[k]
}

/// What is true of commits that come parents first is true of those that
/// remain when the last is left out.
pub proof fn lemma_parents_first_prefix(known: Set<Oid>, commits: Seq<CommitView>)
    requires
        parents_first(known, commits),
        commits.len() > 0,
    ensures
        parents_first(known, commits.drop_last()),
{
    let shorter = commits.drop_last();
    assert forall|i: int, k: int|
        #![trigger shorter[i].parents[k]]
        0 <= i < shorter.len() && 0 <= k < shorter[i].parents.len() implies known.contains(
        shorter[i].parents[k],
    ) || exists|j: int| 0 <= j < i && (#[trigger] shorter[j]).id == shorter[i].parents[k] by {
        assert(shorter[i] == commits[i]);
        let p = commits[i].parents[k];
        if !known.contains(p) {
            let j = choose|j: int| 0 <= j < i && (#[trigger] commits[j]).id == p;
            assert(shorter[j].id == p);
        }
    }
}

} // verus!
