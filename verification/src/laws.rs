//! Whole passes over a history, and what holds of them.
//!
//! A pass is laid out here as the steps that the rewrite takes, one for
//! each commit in the order walked, each with what the object store
//! answered. The functions of the passes say what one step does; the
//! theorems below say what follows for all of them together.

use crate::commit::{CommitView, HostCommitView, NewCommitView, PathLookup};
use crate::error::RewriteError;
use crate::host::{
    advanced, host_plan, resolved, some_lookup_failed, store_after_host_begin, substituted,
    HostPlanView,
};
use crate::mappings::is_target;
use crate::oid::Oid;
use crate::precheck::is_wanted;
use crate::scan::{is_dangling, is_pointed_to, lists_dangling};
use crate::store::inserted;
use crate::submodule::{all_known, store_after_submodule_begin, submodule_request};
use crate::walk::{lemma_parents_first_prefix, parents_first};
use vstd::prelude::*;

verus! {

/// One step of the first pass: a submodule commit, the tree that holds its
/// entries at their new paths, and the commit created in its place.
pub struct SubmoduleStep {
    pub commit: CommitView,
    pub new_tree: Oid,
    pub new_commit: Oid,
}

/// The mapping store after one step of the first pass.
pub open spec fn submodule_step(m: Map<Oid, Oid>, s: SubmoduleStep) -> Result<
    Map<Oid, Oid>,
    RewriteError,
> {
    match submodule_request(m, s.commit, s.new_tree) {
        Err(e) => Err(e),
        Ok(_) => inserted(
            store_after_submodule_begin(m, s.commit, s.new_tree),
            s.commit.id,
            s.new_commit,
        ),
    }
}

/// The mapping store after the first pass has taken `steps`, one after the
/// other, or the fault that stopped it.
pub open spec fn submodule_pass(m: Map<Oid, Oid>, steps: Seq<SubmoduleStep>) -> Result<
    Map<Oid, Oid>,
    RewriteError,
>
    decreases steps.len(),
{
    if steps.len() == 0 {
        Ok(m)
    } else {
        match submodule_pass(m, steps.drop_last()) {
            Err(e) => Err(e),
            Ok(before) => submodule_step(before, steps.last()),
        }
    }
}

/// `after` holds all that `before` holds, with the same values.
pub open spec fn extends(after: Map<Oid, Oid>, before: Map<Oid, Oid>) -> bool {
    forall|k: Oid|
        #[trigger] before.contains_key(k) ==> after.contains_key(k) && after[k] == before[k]
}

/// A step of the first pass records its commit and loses nothing.
pub proof fn lemma_submodule_step_records(m: Map<Oid, Oid>, s: SubmoduleStep)
    requires
        submodule_step(m, s) is Ok,
    ensures
        extends(submodule_step(m, s)->Ok_0, m),
        submodule_step(m, s)->Ok_0.contains_key(s.commit.id),
        submodule_step(m, s)->Ok_0[s.commit.id] == s.new_commit,
        submodule_step(m, s)->Ok_0.contains_key(s.commit.tree),
        submodule_step(m, s)->Ok_0[s.commit.tree] == s.new_tree,
{
}

/// Totality of the first pass: once it has gone through, every commit
/// that it walked is a key of the mapping store, and maps to the commit
/// created for it; and whatever the store held before, it still holds.
pub proof fn lemma_submodule_pass_total(m: Map<Oid, Oid>, steps: Seq<SubmoduleStep>)
    requires
        submodule_pass(m, steps) is Ok,
    ensures
        extends(submodule_pass(m, steps)->Ok_0, m),
        forall|i: int|
            0 <= i < steps.len() ==> {
                &&& submodule_pass(m, steps)->Ok_0.contains_key((#[trigger] steps[i]).commit.id)
                &&& submodule_pass(m, steps)->Ok_0[steps[i].commit.id] == steps[i].new_commit
                &&& submodule_pass(m, steps)->Ok_0.contains_key(steps[i].commit.tree)
                &&& submodule_pass(m, steps)->Ok_0[steps[i].commit.tree] == steps[i].new_tree
            },
    decreases steps.len(),
{
    if steps.len() > 0 {
        let before = submodule_pass(m, steps.drop_last())->Ok_0;
        lemma_submodule_pass_total(m, steps.drop_last());
        lemma_submodule_step_records(before, steps.last());
        let after = submodule_pass(m, steps)->Ok_0;
        assert forall|i: int| 0 <= i < steps.len() implies {
            &&& after.contains_key((#[trigger] steps[i]).commit.id)
            &&& after[steps[i].commit.id] == steps[i].new_commit
            &&& after.contains_key(steps[i].commit.tree)
            &&& after[steps[i].commit.tree] == steps[i].new_tree
        } by {
            if i < steps.len() - 1 {
                assert(steps.drop_last()[i] == steps[i]);
                assert(before.contains_key(steps[i].commit.id));
                assert(before.contains_key(steps[i].commit.tree));
            }
        }
    }
}

/// The first pass records nothing but the commits and trees that it
/// walked.
pub proof fn lemma_submodule_pass_keys(m: Map<Oid, Oid>, steps: Seq<SubmoduleStep>)
    requires
        submodule_pass(m, steps) is Ok,
    ensures
        forall|k: Oid| #[trigger]
            submodule_pass(m, steps)->Ok_0.contains_key(k) ==> m.contains_key(k) || exists|
                i: int,
            |
                0 <= i < steps.len() && ((#[trigger] steps[i]).commit.id == k
                    || steps[i].commit.tree == k),
    decreases steps.len(),
{
    if steps.len() > 0 {
        let before = submodule_pass(m, steps.drop_last())->Ok_0;
        lemma_submodule_pass_keys(m, steps.drop_last());
        let after = submodule_pass(m, steps)->Ok_0;
        let last = steps.len() - 1;
        assert forall|k: Oid| #[trigger] after.contains_key(k) implies m.contains_key(k) || exists|
            i: int,
        |
            0 <= i < steps.len() && ((#[trigger] steps[i]).commit.id == k || steps[i].commit.tree
                == k) by {
            if before.contains_key(k) {
                if !m.contains_key(k) {
                    let i = choose|i: int|
                        0 <= i < steps.drop_last().len() && ((
                        #[trigger] steps.drop_last()[i]).commit.id == k
                            || steps.drop_last()[i].commit.tree == k);
                    assert(steps[i] == steps.drop_last()[i]);
                }
            } else {
                assert(steps[last].commit.id == k || steps[last].commit.tree == k);
            }
        }
    }
}

/// The commits of `steps`, in their order.
pub open spec fn submodule_commits(steps: Seq<SubmoduleStep>) -> Seq<CommitView> {
    Seq::new(steps.len(), |i: int| steps[i].commit)
}

/// Completeness of the first pass: over commits that come parents first,
/// no step finds a parent missing from the mapping store.
pub proof fn lemma_submodule_pass_finds_parents(m: Map<Oid, Oid>, steps: Seq<SubmoduleStep>)
    requires
        parents_first(m.dom(), submodule_commits(steps)),
    ensures
        !(submodule_pass(m, steps) matches Err(RewriteError::MissingParent(_))),
    decreases steps.len(),
{
    if steps.len() > 0 {
        let commits = submodule_commits(steps);
        lemma_parents_first_prefix(m.dom(), commits);
        assert(commits.drop_last() =~= submodule_commits(steps.drop_last()));
        lemma_submodule_pass_finds_parents(m, steps.drop_last());
        if submodule_pass(m, steps.drop_last()) is Ok {
            let before = submodule_pass(m, steps.drop_last())->Ok_0;
            lemma_submodule_pass_total(m, steps.drop_last());
            let s = steps.last();
            let last = steps.len() - 1;
            assert(commits[last] == s.commit);
            let m1 = store_after_submodule_begin(before, s.commit, s.new_tree);
            assert forall|k: int| 0 <= k < s.commit.parents.len() implies m1.contains_key(
                #[trigger] s.commit.parents[k],
            ) by {
                let p = commits[last].parents[k];
                if !m.dom().contains(p) {
                    let j = choose|j: int| 0 <= j < last && (#[trigger] commits[j]).id == p;
                    assert(steps.drop_last()[j].commit.id == p);
                }
                assert(before.contains_key(p));
            }
            assert(all_known(m1, s.commit.parents));
        }
    }
}

/// One step of the second pass: a host commit with what its tree and the
/// trees of its parents hold at the submodule's path, and the commit
/// created in its place (which counts only where the commit does not stay
/// as it is).
pub struct HostStep {
    pub commit: HostCommitView,
    pub new_commit: Oid,
}

/// The mapping store after one step of the second pass.
pub open spec fn host_step(
    m: Map<Oid, Oid>,
    u: Map<Oid, Oid>,
    d: Option<Oid>,
    s: HostStep,
) -> Result<Map<Oid, Oid>, RewriteError> {
    match host_plan(m, u, d, s.commit) {
        Err(e) => Err(e),
        Ok(HostPlanView::Unchanged) => Ok(store_after_host_begin(m, u, d, s.commit)),
        Ok(HostPlanView::Rewrite(_)) => inserted(
            store_after_host_begin(m, u, d, s.commit),
            s.commit.commit.id,
            s.new_commit,
        ),
    }
}

/// The mapping store after the second pass has taken `steps`, one after
/// the other, or the fault that stopped it.
pub open spec fn host_pass(
    m: Map<Oid, Oid>,
    u: Map<Oid, Oid>,
    d: Option<Oid>,
    steps: Seq<HostStep>,
) -> Result<Map<Oid, Oid>, RewriteError>
    decreases steps.len(),
{
    if steps.len() == 0 {
        Ok(m)
    } else {
        match host_pass(m, u, d, steps.drop_last()) {
            Err(e) => Err(e),
            Ok(before) => host_step(before, u, d, steps.last()),
        }
    }
}

/// What the mapping store holds for the commit of a step that went
/// through: the commit itself where it has no entry at the submodule's
/// path, else the commit created in its place.
pub open spec fn host_counterpart(s: HostStep) -> Oid {
    if s.commit.pointer == PathLookup::NotFound {
        s.commit.commit.id
    } else {
        s.new_commit
    }
}

/// A step of the second pass records its commit and loses nothing.
pub proof fn lemma_host_step_records(
    m: Map<Oid, Oid>,
    u: Map<Oid, Oid>,
    d: Option<Oid>,
    s: HostStep,
)
    requires
        host_step(m, u, d, s) is Ok,
    ensures
        extends(host_step(m, u, d, s)->Ok_0, m),
        host_step(m, u, d, s)->Ok_0 == m.insert(s.commit.commit.id, host_counterpart(s)),
        !m.contains_key(s.commit.commit.id),
{
}

/// Totality of the second pass: once it has gone through, every commit
/// that it walked is a key of the mapping store. A commit that does not
/// hold the submodule maps to itself, any other to the commit created in
/// its place. Whatever the store held before, it still holds.
pub proof fn lemma_host_pass_total(
    m: Map<Oid, Oid>,
    u: Map<Oid, Oid>,
    d: Option<Oid>,
    steps: Seq<HostStep>,
)
    requires
        host_pass(m, u, d, steps) is Ok,
    ensures
        extends(host_pass(m, u, d, steps)->Ok_0, m),
        forall|i: int|
            0 <= i < steps.len() ==> {
                &&& host_pass(m, u, d, steps)->Ok_0.contains_key(
                    (#[trigger] steps[i]).commit.commit.id,
                )
                &&& host_pass(m, u, d, steps)->Ok_0[steps[i].commit.commit.id] == host_counterpart(
                    steps[i],
                )
            },
    decreases steps.len(),
{
    if steps.len() > 0 {
        let before = host_pass(m, u, d, steps.drop_last())->Ok_0;
        lemma_host_pass_total(m, u, d, steps.drop_last());
        lemma_host_step_records(before, u, d, steps.last());
        let after = host_pass(m, u, d, steps)->Ok_0;
        assert forall|i: int| 0 <= i < steps.len() implies after.contains_key(
            (#[trigger] steps[i]).commit.commit.id,
        ) && after[steps[i].commit.commit.id] == host_counterpart(steps[i]) by {
            if i < steps.len() - 1 {
                assert(steps.drop_last()[i] == steps[i]);
                assert(before.contains_key(steps[i].commit.commit.id));
            }
        }
    }
}

/// The commits of `steps`, in their order.
pub open spec fn host_commits(steps: Seq<HostStep>) -> Seq<CommitView> {
    Seq::new(steps.len(), |i: int| steps[i].commit.commit)
}

/// Completeness of the second pass: over commits that come parents first,
/// no step finds a parent missing from the mapping store.
pub proof fn lemma_host_pass_finds_parents(
    m: Map<Oid, Oid>,
    u: Map<Oid, Oid>,
    d: Option<Oid>,
    steps: Seq<HostStep>,
)
    requires
        parents_first(m.dom(), host_commits(steps)),
    ensures
        !(host_pass(m, u, d, steps) matches Err(RewriteError::MissingParent(_))),
    decreases steps.len(),
{
    if steps.len() > 0 {
        let commits = host_commits(steps);
        lemma_parents_first_prefix(m.dom(), commits);
        assert(commits.drop_last() =~= host_commits(steps.drop_last()));
        lemma_host_pass_finds_parents(m, u, d, steps.drop_last());
        if host_pass(m, u, d, steps.drop_last()) is Ok {
            let before = host_pass(m, u, d, steps.drop_last())->Ok_0;
            lemma_host_pass_total(m, u, d, steps.drop_last());
            let s = steps.last();
            let last = steps.len() - 1;
            assert(commits[last] == s.commit.commit);
            let parents = s.commit.commit.parents;
            assert forall|k: int| 0 <= k < parents.len() implies before.contains_key(
                #[trigger] parents[k],
            ) by {
                let p = commits[last].parents[k];
                if !m.dom().contains(p) {
                    let j = choose|j: int| 0 <= j < last && (#[trigger] commits[j]).id == p;
                    assert(steps.drop_last()[j].commit.commit.id == p);
                }
            }
            assert(all_known(before, s.commit.commit.parents));
        }
    }
}

/// Every pointer of `steps` leads somewhere: none is dangling.
pub open spec fn no_pointer_dangles(
    m: Map<Oid, Oid>,
    u: Map<Oid, Oid>,
    d: Option<Oid>,
    steps: Seq<HostStep>,
) -> bool {
    forall|i: int, p: Oid|
        0 <= i < steps.len() && (#[trigger] steps[i]).commit.pointer == PathLookup::Found(p)
            ==> !#[trigger] is_dangling(m, u, d, p)
}

/// Every commit that the user asked for is a key of `m`.
pub open spec fn targets_known(m: Map<Oid, Oid>, u: Map<Oid, Oid>, d: Option<Oid>) -> bool {
    forall|t: Oid| #[trigger] is_wanted(u, d, t) ==> m.contains_key(t)
}

/// A pointer that does not dangle resolves, in a store that knows every
/// commit the user asked for, and in every store that extends it.
pub proof fn lemma_pointer_resolves(
    m: Map<Oid, Oid>,
    later: Map<Oid, Oid>,
    u: Map<Oid, Oid>,
    d: Option<Oid>,
    p: Oid,
)
    requires
        targets_known(m, u, d),
        !is_dangling(m, u, d, p),
        extends(later, m),
    ensures
        resolved(later, u, d, p) is Ok,
{
    if u.contains_key(p) {
        assert(is_target(u, u[p]));
        assert(is_wanted(u, d, u[p]));
    } else if !m.contains_key(p) {
        assert(is_wanted(u, d, d->Some_0));
    }
}

/// Soundness of references: where every commit that the user asked for is
/// a key of the mapping store and no pointer of the host history dangles,
/// the second pass resolves every pointer it meets.
pub proof fn lemma_host_pass_resolves(
    m: Map<Oid, Oid>,
    u: Map<Oid, Oid>,
    d: Option<Oid>,
    steps: Seq<HostStep>,
)
    requires
        targets_known(m, u, d),
        no_pointer_dangles(m, u, d, steps),
    ensures
        !(host_pass(m, u, d, steps) matches Err(RewriteError::UnresolvedPointer(_))),
        !(host_pass(m, u, d, steps) matches Err(RewriteError::UnknownDefault(_))),
    decreases steps.len(),
{
    if steps.len() > 0 {
        assert forall|i: int, p: Oid|
            0 <= i < steps.drop_last().len() && (#[trigger] steps.drop_last()[i]).commit.pointer
                == PathLookup::Found(p) implies !#[trigger] is_dangling(m, u, d, p) by {
            assert(steps[i].commit.pointer == PathLookup::Found(p));
        }
        lemma_host_pass_resolves(m, u, d, steps.drop_last());
        if host_pass(m, u, d, steps.drop_last()) is Ok {
            let before = host_pass(m, u, d, steps.drop_last())->Ok_0;
            lemma_host_pass_total(m, u, d, steps.drop_last());
            let s = steps.last();
            assert(steps[steps.len() - 1] == s);
            if let PathLookup::Found(p) = s.commit.pointer {
                assert(!is_dangling(m, u, d, p));
                lemma_pointer_resolves(m, before, u, d, p);
            }
        }
    }
}

/// The steps of a first pass fit the store and each other: every commit
/// is new and comes once, no tree is named like a commit, and a tree is
/// always moved to the same new tree.
pub open spec fn submodule_steps_fit(m: Map<Oid, Oid>, steps: Seq<SubmoduleStep>) -> bool {
    &&& forall|i: int| 0 <= i < steps.len() ==> !m.contains_key((#[trigger] steps[i]).commit.id)
    &&& forall|i: int, j: int|
        0 <= i < j < steps.len() ==> (#[trigger] steps[i]).commit.id != (
        #[trigger] steps[j]).commit.id
    &&& forall|i: int, j: int|
        0 <= i < steps.len() && 0 <= j < steps.len() ==> (#[trigger] steps[i]).commit.tree != (
        #[trigger] steps[j]).commit.id
    &&& forall|i: int|
        0 <= i < steps.len() && m.contains_key((#[trigger] steps[i]).commit.tree)
            ==> m[steps[i].commit.tree] == steps[i].new_tree
    &&& forall|i: int, j: int|
        0 <= i < steps.len() && 0 <= j < steps.len() && (#[trigger] steps[i]).commit.tree == (
        #[trigger] steps[j]).commit.tree ==> steps[i].new_tree == steps[j].new_tree
}

/// The first pass goes through where the commits come parents first and
/// the steps fit the store and each other.
pub proof fn lemma_submodule_pass_goes_through(m: Map<Oid, Oid>, steps: Seq<SubmoduleStep>)
    requires
        parents_first(m.dom(), submodule_commits(steps)),
        submodule_steps_fit(m, steps),
    ensures
        submodule_pass(m, steps) is Ok,
    decreases steps.len(),
{
    if steps.len() > 0 {
        let shorter = steps.drop_last();
        let last = steps.len() - 1;
        let s = steps.last();
        assert(steps[last] == s);
        assert forall|i: int| 0 <= i < shorter.len() implies #[trigger] shorter[i] == steps[i] by {}
        lemma_parents_first_prefix(m.dom(), submodule_commits(steps));
        assert(submodule_commits(steps).drop_last() =~= submodule_commits(shorter));
        assert(submodule_steps_fit(m, shorter));
        lemma_submodule_pass_goes_through(m, shorter);
        let before = submodule_pass(m, shorter)->Ok_0;
        lemma_submodule_pass_total(m, shorter);
        lemma_submodule_pass_keys(m, shorter);
        lemma_submodule_pass_finds_parents(m, steps);
        assert(!before.contains_key(s.commit.id)) by {
            if before.contains_key(s.commit.id) {
                let i = choose|i: int|
                    0 <= i < shorter.len() && ((#[trigger] shorter[i]).commit.id == s.commit.id
                        || shorter[i].commit.tree == s.commit.id);
                assert(steps[i] == shorter[i]);
            }
        }
        assert(before.contains_key(s.commit.tree) ==> before[s.commit.tree] == s.new_tree) by {
            if before.contains_key(s.commit.tree) && !m.contains_key(s.commit.tree) {
                let i = choose|i: int|
                    0 <= i < shorter.len() && ((#[trigger] shorter[i]).commit.id == s.commit.tree
                        || shorter[i].commit.tree == s.commit.tree);
                assert(steps[i] == shorter[i]);
            }
        }
    }
}

/// The steps of a second pass fit the store and each other: every commit
/// is new and comes once, and no lookup failed.
pub open spec fn host_steps_fit(m: Map<Oid, Oid>, steps: Seq<HostStep>) -> bool {
    &&& forall|i: int|
        0 <= i < steps.len() ==> !m.contains_key((#[trigger] steps[i]).commit.commit.id)
    &&& forall|i: int, j: int|
        0 <= i < j < steps.len() ==> (#[trigger] steps[i]).commit.commit.id != (
        #[trigger] steps[j]).commit.commit.id
    &&& forall|i: int|
        0 <= i < steps.len() ==> (#[trigger] steps[i]).commit.pointer != PathLookup::Failed
    &&& forall|i: int, k: int|
        0 <= i < steps.len() && 0 <= k < steps[i].commit.parent_pointers.len()
            ==> #[trigger] steps[i].commit.parent_pointers[k] != PathLookup::Failed
}

/// The second pass records nothing but the commits that it walked, each
/// with its counterpart.
pub proof fn lemma_host_pass_keys(
    m: Map<Oid, Oid>,
    u: Map<Oid, Oid>,
    d: Option<Oid>,
    steps: Seq<HostStep>,
)
    requires
        host_pass(m, u, d, steps) is Ok,
    ensures
        forall|k: Oid| #[trigger]
            host_pass(m, u, d, steps)->Ok_0.contains_key(k) ==> m.contains_key(k) || exists|
                i: int,
            |
                0 <= i < steps.len() && (#[trigger] steps[i]).commit.commit.id == k,
    decreases steps.len(),
{
    if steps.len() > 0 {
        let before = host_pass(m, u, d, steps.drop_last())->Ok_0;
        lemma_host_pass_keys(m, u, d, steps.drop_last());
        lemma_host_step_records(before, u, d, steps.last());
        let after = host_pass(m, u, d, steps)->Ok_0;
        let last = steps.len() - 1;
        assert forall|k: Oid| #[trigger] after.contains_key(k) implies m.contains_key(k) || exists|
            i: int,
        |
            0 <= i < steps.len() && (#[trigger] steps[i]).commit.commit.id == k by {
            if before.contains_key(k) {
                if !m.contains_key(k) {
                    let i = choose|i: int|
                        0 <= i < steps.drop_last().len() && (
                        #[trigger] steps.drop_last()[i]).commit.commit.id == k;
                    assert(steps[i] == steps.drop_last()[i]);
                }
            } else {
                assert(steps[last].commit.commit.id == k);
            }
        }
    }
}

/// The second pass goes through where the commits come parents first, the
/// steps fit the store and each other, every commit that the user asked
/// for is a key of the store, and no pointer dangles.
pub proof fn lemma_host_pass_goes_through(
    m: Map<Oid, Oid>,
    u: Map<Oid, Oid>,
    d: Option<Oid>,
    steps: Seq<HostStep>,
)
    requires
        parents_first(m.dom(), host_commits(steps)),
        host_steps_fit(m, steps),
        targets_known(m, u, d),
        no_pointer_dangles(m, u, d, steps),
    ensures
        host_pass(m, u, d, steps) is Ok,
    decreases steps.len(),
{
    if steps.len() > 0 {
        let shorter = steps.drop_last();
        let last = steps.len() - 1;
        let s = steps.last();
        assert(steps[last] == s);
        assert forall|i: int| 0 <= i < shorter.len() implies #[trigger] shorter[i] == steps[i] by {}
        lemma_parents_first_prefix(m.dom(), host_commits(steps));
        assert(host_commits(steps).drop_last() =~= host_commits(shorter));
        assert(host_steps_fit(m, shorter));
        assert(no_pointer_dangles(m, u, d, shorter)) by {
            assert forall|i: int, p: Oid|
                0 <= i < shorter.len() && (#[trigger] shorter[i]).commit.pointer
                    == PathLookup::Found(p) implies !#[trigger] is_dangling(m, u, d, p) by {
                assert(steps[i].commit.pointer == PathLookup::Found(p));
            }
        }
        lemma_host_pass_goes_through(m, u, d, shorter);
        let before = host_pass(m, u, d, shorter)->Ok_0;
        lemma_host_pass_keys(m, u, d, shorter);
        lemma_host_pass_finds_parents(m, u, d, steps);
        lemma_host_pass_resolves(m, u, d, steps);
        assert(!before.contains_key(s.commit.commit.id)) by {
            if before.contains_key(s.commit.commit.id) {
                let i = choose|i: int|
                    0 <= i < shorter.len() && (#[trigger] shorter[i]).commit.commit.id
                        == s.commit.commit.id;
                assert(steps[i] == shorter[i]);
            }
        }
        assert(!some_lookup_failed(s.commit.parent_pointers)) by {
            if some_lookup_failed(s.commit.parent_pointers) {
                let lookups = s.commit.parent_pointers;
                let k = choose|k: int|
                    0 <= k < lookups.len() && #[trigger] lookups[k] == PathLookup::Failed;
                assert(steps[last].commit.parent_pointers[k] != PathLookup::Failed);
            }
        }
    }
}

/// The object store answers by content: in `steps`, the new tree is
/// `tree_at` of the commit's tree, and the new commit is `commit_at` of
/// what was asked for.
pub open spec fn answers_follow(
    m: Map<Oid, Oid>,
    steps: Seq<SubmoduleStep>,
    tree_at: spec_fn(Oid) -> Oid,
    commit_at: spec_fn(NewCommitView) -> Oid,
) -> bool {
    forall|i: int|
        0 <= i < steps.len() ==> {
            &&& (#[trigger] steps[i]).new_tree == tree_at(steps[i].commit.tree)
            &&& submodule_pass(m, steps.take(i)) is Ok ==> {
                let before = submodule_pass(m, steps.take(i))->Ok_0;
                let request = submodule_request(before, steps[i].commit, steps[i].new_tree);
                request is Ok ==> steps[i].new_commit == commit_at(request->Ok_0)
            }
        }
}

proof fn lemma_repeats_up_to(
    m: Map<Oid, Oid>,
    a: Seq<SubmoduleStep>,
    b: Seq<SubmoduleStep>,
    tree_at: spec_fn(Oid) -> Oid,
    commit_at: spec_fn(NewCommitView) -> Oid,
    n: int,
)
    requires
        submodule_commits(a) == submodule_commits(b),
        answers_follow(m, a, tree_at, commit_at),
        answers_follow(m, b, tree_at, commit_at),
        0 <= n <= a.len(),
    ensures
        submodule_pass(m, a.take(n)) == submodule_pass(m, b.take(n)),
        submodule_pass(m, a.take(n)) is Ok ==> a.take(n) == b.take(n),
    decreases n,
{
    assert(a.len() == submodule_commits(a).len());
    assert(b.len() == submodule_commits(b).len());
    if n == 0 {
        assert(a.take(0) =~= b.take(0));
    } else {
        lemma_repeats_up_to(m, a, b, tree_at, commit_at, n - 1);
        assert(a.take(n).drop_last() =~= a.take(n - 1));
        assert(b.take(n).drop_last() =~= b.take(n - 1));
        assert(a.take(n).last() == a[n - 1]);
        assert(b.take(n).last() == b[n - 1]);
        assert(a[n - 1].commit == submodule_commits(a)[n - 1]);
        assert(b[n - 1].commit == submodule_commits(b)[n - 1]);
        if submodule_pass(m, a.take(n - 1)) is Ok {
            let before = submodule_pass(m, a.take(n - 1))->Ok_0;
            if submodule_request(before, a[n - 1].commit, a[n - 1].new_tree) is Ok {
                assert(a[n - 1] == b[n - 1]);
                assert(a.take(n) =~= a.take(n - 1).push(a[n - 1]));
                assert(b.take(n) =~= b.take(n - 1).push(b[n - 1]));
            }
        }
    }
}

/// The first pass, taken twice over the same commits, comes to the same
/// end, where the object store answers by content: it stops on the same
/// fault or leaves the same mapping store, and in going through it creates
/// the same trees and commits.
pub proof fn lemma_submodule_pass_repeats(
    m: Map<Oid, Oid>,
    a: Seq<SubmoduleStep>,
    b: Seq<SubmoduleStep>,
    tree_at: spec_fn(Oid) -> Oid,
    commit_at: spec_fn(NewCommitView) -> Oid,
)
    requires
        submodule_commits(a) == submodule_commits(b),
        answers_follow(m, a, tree_at, commit_at),
        answers_follow(m, b, tree_at, commit_at),
    ensures
        submodule_pass(m, a) == submodule_pass(m, b),
        submodule_pass(m, a) is Ok ==> a == b,
{
    assert(a.len() == submodule_commits(a).len());
    assert(b.len() == submodule_commits(b).len());
    lemma_repeats_up_to(m, a, b, tree_at, commit_at, a.len() as int);
    assert(a.take(a.len() as int) =~= a);
    assert(b.take(b.len() as int) =~= b);
}

/// `id` is held by `m` as the value of some key.
pub open spec fn is_value_of(m: Map<Oid, Oid>, id: Oid) -> bool {
    exists|k: Oid| #[trigger] m.contains_key(k) && m[k] == id
}

/// In the first pass over commits that come parents first, every parent
/// of a commit to be created was there before: the store held it when the
/// pass began, or an earlier step created it.
pub proof fn lemma_submodule_parents_came_earlier(
    m: Map<Oid, Oid>,
    steps: Seq<SubmoduleStep>,
    n: int,
)
    requires
        0 <= n < steps.len(),
        parents_first(m.dom(), submodule_commits(steps)),
        submodule_pass(m, steps.take(n)) is Ok,
        submodule_request(
            submodule_pass(m, steps.take(n))->Ok_0,
            steps[n].commit,
            steps[n].new_tree,
        ) is Ok,
    ensures
        forall|k: int|
            #![trigger submodule_request(
                submodule_pass(m, steps.take(n))->Ok_0,
                steps[n].commit,
                steps[n].new_tree,
            )->Ok_0.parents[k]]
            0 <= k < steps[n].commit.parents.len() ==> {
                let parent = submodule_request(
                    submodule_pass(m, steps.take(n))->Ok_0,
                    steps[n].commit,
                    steps[n].new_tree,
                )->Ok_0.parents[k];
                is_value_of(m, parent) || exists|j: int|
                    0 <= j < n && (#[trigger] steps[j]).new_commit == parent
            },
{
    let before = submodule_pass(m, steps.take(n))->Ok_0;
    let s = steps[n];
    let request = submodule_request(before, s.commit, s.new_tree)->Ok_0;
    let commits = submodule_commits(steps);
    lemma_submodule_pass_total(m, steps.take(n));
    assert forall|k: int|
        #![trigger request.parents[k]]
        0 <= k < s.commit.parents.len() implies is_value_of(m, request.parents[k]) || exists|
        j: int,
    |
        0 <= j < n && (#[trigger] steps[j]).new_commit == request.parents[k] by {
        let p = s.commit.parents[k];
        assert(commits[n].parents[k] == p);
        if m.dom().contains(p) {
            assert(m.contains_key(p) && m[p] == request.parents[k]);
        } else {
            let j = choose|j: int| 0 <= j < n && (#[trigger] commits[j]).id == p;
            assert(steps.take(n)[j] == steps[j]);
            assert(steps[j].new_commit == request.parents[k]);
        }
    }
}

/// In the second pass, every parent of a commit to be created was there
/// before: the store held it when the pass began, or it is the
/// counterpart of a commit that an earlier step took.
pub proof fn lemma_host_parents_came_earlier(
    m: Map<Oid, Oid>,
    u: Map<Oid, Oid>,
    d: Option<Oid>,
    steps: Seq<HostStep>,
    n: int,
)
    requires
        0 <= n < steps.len(),
        host_pass(m, u, d, steps.take(n)) is Ok,
        host_plan(host_pass(m, u, d, steps.take(n))->Ok_0, u, d, steps[n].commit) matches Ok(
            HostPlanView::Rewrite(_),
        ),
    ensures
        forall|k: int|
            #![trigger host_plan(
                host_pass(m, u, d, steps.take(n))->Ok_0,
                u,
                d,
                steps[n].commit,
            )->Ok_0->Rewrite_0.parents[k]]
            0 <= k < host_plan(
                host_pass(m, u, d, steps.take(n))->Ok_0,
                u,
                d,
                steps[n].commit,
            )->Ok_0->Rewrite_0.parents.len() ==> {
                let parent = host_plan(
                    host_pass(m, u, d, steps.take(n))->Ok_0,
                    u,
                    d,
                    steps[n].commit,
                )->Ok_0->Rewrite_0.parents[k];
                is_value_of(m, parent) || exists|j: int|
                    0 <= j < n && host_counterpart(#[trigger] steps[j]) == parent
            },
{
    let before = host_pass(m, u, d, steps.take(n))->Ok_0;
    let s = steps[n];
    let rewrite = host_plan(before, u, d, s.commit)->Ok_0->Rewrite_0;
    lemma_host_pass_total(m, u, d, steps.take(n));
    lemma_host_pass_keys(m, u, d, steps.take(n));
    assert forall|key: Oid| #[trigger] before.contains_key(key) implies is_value_of(m, before[key])
        || exists|j: int| 0 <= j < n && host_counterpart(#[trigger] steps[j]) == before[key] by {
        if m.contains_key(key) {
            assert(m[key] == before[key]);
        } else {
            let j = choose|j: int|
                0 <= j < steps.take(n).len() && (#[trigger] steps.take(n)[j]).commit.commit.id
                    == key;
            assert(steps.take(n)[j] == steps[j]);
            assert(host_counterpart(steps[j]) == before[key]);
        }
    }
    let parents = s.commit.commit.parents;
    assert forall|k: int|
        #![trigger rewrite.parents[k]]
        0 <= k < rewrite.parents.len() implies is_value_of(m, rewrite.parents[k]) || exists|
        j: int,
    |
        0 <= j < n && host_counterpart(#[trigger] steps[j]) == rewrite.parents[k] by {
        if k < parents.len() {
            assert(before.contains_key(parents[k]));
            assert(rewrite.parents[k] == before[parents[k]]);
        } else {
            let p = s.commit.pointer->Found_0;
            let target = substituted(u, p);
            if before.contains_key(target) {
                assert(rewrite.parents[k] == before[target]);
            } else {
                assert(rewrite.parents[k] == before[d->Some_0]);
            }
        }
    }
}

/// The commits that the first pass walked, by their identifiers.
pub open spec fn submodule_walk(steps: Seq<SubmoduleStep>) -> Seq<Oid> {
    Seq::new(steps.len(), |i: int| steps[i].commit.id)
}

/// The commits that the second pass walks, each with what its tree holds
/// at the submodule's path.
pub open spec fn host_walk(steps: Seq<HostStep>) -> Seq<(Oid, PathLookup)> {
    Seq::new(steps.len(), |i: int| (steps[i].commit.commit.id, steps[i].commit.pointer))
}

/// The rewrite goes through once its checks have passed: where
/// the first pass went through from an empty store, every commit that the
/// user asked for is in the submodule's history, the scan of the host
/// history found no dangling pointer, the host commits come parents
/// first, and the steps fit, the second pass goes through as well.
pub proof fn lemma_checked_rewrite_goes_through(
    submodule_steps: Seq<SubmoduleStep>,
    host_steps: Seq<HostStep>,
    u: Map<Oid, Oid>,
    d: Option<Oid>,
)
    requires
        submodule_pass(Map::empty(), submodule_steps) is Ok,
        forall|t: Oid|
            #[trigger] is_wanted(u, d, t) ==> submodule_walk(submodule_steps).contains(t),
        lists_dangling(
            Seq::empty(),
            host_walk(host_steps),
            submodule_pass(Map::empty(), submodule_steps)->Ok_0,
            u,
            d,
        ),
        parents_first(
            submodule_pass(Map::empty(), submodule_steps)->Ok_0.dom(),
            host_commits(host_steps),
        ),
        host_steps_fit(submodule_pass(Map::empty(), submodule_steps)->Ok_0, host_steps),
    ensures
        host_pass(
            submodule_pass(Map::empty(), submodule_steps)->Ok_0,
            u,
            d,
            host_steps,
        ) is Ok,
{
    let m = submodule_pass(Map::empty(), submodule_steps)->Ok_0;
    lemma_submodule_pass_total(Map::empty(), submodule_steps);
    assert forall|t: Oid| #[trigger] is_wanted(u, d, t) implies m.contains_key(t) by {
        let walk = submodule_walk(submodule_steps);
        let i = choose|i: int| 0 <= i < walk.len() && walk[i] == t;
        assert(submodule_steps[i].commit.id == t);
    }
    assert forall|i: int, p: Oid|
        0 <= i < host_steps.len() && (#[trigger] host_steps[i]).commit.pointer
            == PathLookup::Found(p) implies !#[trigger] is_dangling(m, u, d, p) by {
        assert(host_walk(host_steps)[i].1 == PathLookup::Found(p));
        assert(is_pointed_to(host_walk(host_steps), p));
        assert(!Seq::<Oid>::empty().contains(p));
    }
    lemma_host_pass_goes_through(m, u, d, host_steps);
}

/// The parents of the commit that stands for the host commit `hc` once
/// `plan` is carried out: those of the new commit, or the commit's own
/// where it stays as it is.
pub open spec fn counterpart_parents(plan: HostPlanView, hc: HostCommitView) -> Seq<Oid> {
    match plan {
        HostPlanView::Unchanged => hc.commit.parents,
        HostPlanView::Rewrite(rewrite) => rewrite.parents,
    }
}

/// Every parent of the commit stands for itself in `m`.
pub open spec fn parents_stay(m: Map<Oid, Oid>, parents: Seq<Oid>) -> bool {
    forall|i: int|
        0 <= i < parents.len() ==> m.contains_key(#[trigger] parents[i]) && m[parents[i]]
            == parents[i]
}

/// The order of the parents is kept: the commit that stands for a host
/// commit has, as its first parents and in the same order, the
/// counterparts of that commit's parents.
///
/// This is said of a commit that holds the submodule, and of one that does
/// not but whose parents all stand for themselves. A commit without the
/// submodule stays as it is, with the parents it has, whatever became of
/// them.
pub proof fn lemma_parent_order_kept(
    m: Map<Oid, Oid>,
    u: Map<Oid, Oid>,
    d: Option<Oid>,
    hc: HostCommitView,
)
    requires
        host_plan(m, u, d, hc) is Ok,
        hc.pointer is Found || parents_stay(m, hc.commit.parents),
    ensures
        counterpart_parents(host_plan(m, u, d, hc)->Ok_0, hc).len() >= hc.commit.parents.len(),
        forall|i: int|
            0 <= i < hc.commit.parents.len() ==> m.contains_key(hc.commit.parents[i])
                && #[trigger] counterpart_parents(host_plan(m, u, d, hc)->Ok_0, hc)[i]
                == m[hc.commit.parents[i]],
{
}

/// A graft comes with an advance, and with nothing else: the commit that
/// takes the place of a host commit holding the submodule has one parent
/// more than that commit where no parent holds the same pointer, and
/// otherwise none. The parent added comes last, and is the rewritten
/// submodule commit that the pointer resolves to.
pub proof fn lemma_graft_iff_advance(
    m: Map<Oid, Oid>,
    u: Map<Oid, Oid>,
    d: Option<Oid>,
    hc: HostCommitView,
)
    requires
        host_plan(m, u, d, hc) matches Ok(HostPlanView::Rewrite(_)),
    ensures
        ({
            let rewrite = host_plan(m, u, d, hc)->Ok_0->Rewrite_0;
            let n = hc.commit.parents.len();
            let p = hc.pointer->Found_0;
            &&& hc.pointer is Found
            &&& rewrite.parents.len() == n || rewrite.parents.len() == n + 1
            &&& rewrite.parents.len() == n + 1 <==> advanced(p, hc.parent_pointers)
            &&& rewrite.advanced == advanced(p, hc.parent_pointers)
            &&& resolved(m, u, d, p) == Ok::<Oid, RewriteError>(rewrite.submodule_commit)
            &&& advanced(p, hc.parent_pointers) ==> rewrite.parents[n as int]
                == rewrite.submodule_commit
        }),
{
}

/// No commit is rewritten twice: the first pass does not go through with
/// one commit at two places.
pub proof fn lemma_submodule_pass_takes_each_once(m: Map<Oid, Oid>, steps: Seq<SubmoduleStep>)
    requires
        submodule_pass(m, steps) is Ok,
    ensures
        forall|i: int, j: int|
            0 <= i < j < steps.len() ==> (#[trigger] steps[i]).commit.id != (
            #[trigger] steps[j]).commit.id,
        forall|i: int| 0 <= i < steps.len() ==> !m.contains_key((#[trigger] steps[i]).commit.id),
    decreases steps.len(),
{
    if steps.len() > 0 {
        let shorter = steps.drop_last();
        lemma_submodule_pass_takes_each_once(m, shorter);
        lemma_submodule_pass_total(m, shorter);
        let before = submodule_pass(m, shorter)->Ok_0;
        let last = steps.len() - 1;
        assert(!before.contains_key(steps[last].commit.id));
        assert forall|i: int, j: int| 0 <= i < j < steps.len() implies (
        #[trigger] steps[i]).commit.id != (#[trigger] steps[j]).commit.id by {
            assert(shorter[i] == steps[i]);
            if j < last {
                assert(shorter[j] == steps[j]);
            } else {
                assert(before.contains_key(shorter[i].commit.id));
            }
        }
        assert forall|i: int| 0 <= i < steps.len() implies !m.contains_key(
            (#[trigger] steps[i]).commit.id,
        ) by {
            if i < last {
                assert(shorter[i] == steps[i]);
            }
        }
    }
}

/// No commit is rewritten twice: the second pass does not go through with
/// one commit at two places.
pub proof fn lemma_host_pass_takes_each_once(
    m: Map<Oid, Oid>,
    u: Map<Oid, Oid>,
    d: Option<Oid>,
    steps: Seq<HostStep>,
)
    requires
        host_pass(m, u, d, steps) is Ok,
    ensures
        forall|i: int, j: int|
            0 <= i < j < steps.len() ==> (#[trigger] steps[i]).commit.commit.id != (
            #[trigger] steps[j]).commit.commit.id,
        forall|i: int|
            0 <= i < steps.len() ==> !m.contains_key((#[trigger] steps[i]).commit.commit.id),
    decreases steps.len(),
{
    if steps.len() > 0 {
        let shorter = steps.drop_last();
        lemma_host_pass_takes_each_once(m, u, d, shorter);
        lemma_host_pass_total(m, u, d, shorter);
        let before = host_pass(m, u, d, shorter)->Ok_0;
        let last = steps.len() - 1;
        lemma_host_step_records(before, u, d, steps.last());
        assert forall|i: int, j: int| 0 <= i < j < steps.len() implies (
        #[trigger] steps[i]).commit.commit.id != (#[trigger] steps[j]).commit.commit.id by {
            assert(shorter[i] == steps[i]);
            if j < last {
                assert(shorter[j] == steps[j]);
            } else {
                assert(before.contains_key(shorter[i].commit.commit.id));
            }
        }
        assert forall|i: int| 0 <= i < steps.len() implies !m.contains_key(
            (#[trigger] steps[i]).commit.commit.id,
        ) by {
            if i < last {
                assert(shorter[i] == steps[i]);
            }
        }
    }
}

} // verus!
