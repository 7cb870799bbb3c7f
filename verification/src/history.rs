//! The histories as graphs of objects: why the rewrite brings no cycle
//! into them, and why the ancestors of a rewritten commit are rewritten
//! commits.

use crate::commit::PathLookup;
use crate::host::{host_plan, substituted, HostPlanView};
use crate::laws::{
    host_counterpart, host_pass, is_value_of, lemma_host_pass_keys, lemma_host_pass_total,
    lemma_host_step_records, lemma_submodule_pass_keys, lemma_submodule_pass_total, parents_stay,
    submodule_pass, HostStep, SubmoduleStep,
};
use crate::oid::Oid;
use crate::submodule::{store_after_submodule_begin, submodule_request};
use vstd::prelude::*;

verus! {

/// `rank` falls along every parent edge of `g`, and every parent of an
/// object of `g` is an object of `g`.
///
/// `g` holds, for every object, its parents; an object that is no commit
/// has none.
pub open spec fn ranked_by(g: Map<Oid, Seq<Oid>>, rank: spec_fn(Oid) -> nat) -> bool {
    forall|c: Oid, k: int|
        #![trigger g[c][k]]
        g.contains_key(c) && 0 <= k < g[c].len() ==> g.contains_key(g[c][k]) && rank(g[c][k])
            < rank(c)
}

/// `g` has no cycle, and no parent is missing from it: there is a rank
/// that falls along every parent edge.
pub open spec fn acyclic(g: Map<Oid, Seq<Oid>>) -> bool {
    exists|rank: spec_fn(Oid) -> nat| ranked_by(g, rank)
}

/// A number that the rank of none of `ids` reaches.
pub open spec fn above(rank: spec_fn(Oid) -> nat, ids: Seq<Oid>) -> nat
    decreases ids.len(),
{
    if ids.len() == 0 {
        0
    } else {
        let rest = above(rank, ids.drop_last());
        if rank(ids.last()) < rest {
            rest
        } else {
            rank(ids.last()) + 1
        }
    }
}

proof fn lemma_above(rank: spec_fn(Oid) -> nat, ids: Seq<Oid>, k: int)
    requires
        0 <= k < ids.len(),
    ensures
        rank(ids[k]) < above(rank, ids),
    decreases ids.len(),
{
    if k < ids.len() - 1 {
        lemma_above(rank, ids.drop_last(), k);
        assert(ids.drop_last()[k] == ids[k]);
    }
}

/// A new object whose parents are all there already brings no cycle.
pub proof fn lemma_new_object_keeps_acyclic(g: Map<Oid, Seq<Oid>>, id: Oid, parents: Seq<Oid>)
    requires
        acyclic(g),
        !g.contains_key(id),
        forall|k: int| 0 <= k < parents.len() ==> g.contains_key(#[trigger] parents[k]),
    ensures
        acyclic(g.insert(id, parents)),
{
    let rank = choose|rank: spec_fn(Oid) -> nat| ranked_by(g, rank);
    let top = above(rank, parents);
    let grown = g.insert(id, parents);
    let raised = |x: Oid|
        if x == id {
            top
        } else {
            rank(x)
        };
    assert forall|c: Oid, k: int|
        #![trigger grown[c][k]]
        grown.contains_key(c) && 0 <= k < grown[c].len() implies grown.contains_key(grown[c][k])
        && raised(grown[c][k]) < raised(c) by {
        if c == id {
            lemma_above(rank, parents, k);
            assert(g.contains_key(parents[k]));
        } else {
            assert(g.contains_key(g[c][k]) && rank(g[c][k]) < rank(c));
        }
    }
    assert(ranked_by(grown, raised));
}

/// `g` with the tree `t`, which has no parents, unless `t` is there.
pub open spec fn with_tree(g: Map<Oid, Seq<Oid>>, t: Oid) -> Map<Oid, Seq<Oid>> {
    if g.contains_key(t) {
        g
    } else {
        g.insert(t, Seq::empty())
    }
}

/// Everything that `m` holds for some key is an object of `g`.
pub open spec fn store_within(m: Map<Oid, Oid>, g: Map<Oid, Seq<Oid>>) -> bool {
    forall|k: Oid| #[trigger] m.contains_key(k) ==> g.contains_key(m[k])
}

/// The history after one step of the first pass: the new tree and the new
/// commit are added to it.
pub open spec fn history_after_submodule_step(
    g: Map<Oid, Seq<Oid>>,
    m: Map<Oid, Oid>,
    s: SubmoduleStep,
) -> Map<Oid, Seq<Oid>> {
    match submodule_request(m, s.commit, s.new_tree) {
        Ok(request) => with_tree(g, s.new_tree).insert(s.new_commit, request.parents),
        Err(_) => g,
    }
}

/// The history after the first pass has taken `steps`.
pub open spec fn history_after_submodule_pass(
    g: Map<Oid, Seq<Oid>>,
    m: Map<Oid, Oid>,
    steps: Seq<SubmoduleStep>,
) -> Map<Oid, Seq<Oid>>
    decreases steps.len(),
{
    if steps.len() == 0 {
        g
    } else {
        let so_far = history_after_submodule_pass(g, m, steps.drop_last());
        match submodule_pass(m, steps.drop_last()) {
            Ok(before) => history_after_submodule_step(so_far, before, steps.last()),
            Err(_) => so_far,
        }
    }
}

/// Every commit that the first pass creates is new to the history at the
/// time.
pub open spec fn submodule_commits_are_new(
    g: Map<Oid, Seq<Oid>>,
    m: Map<Oid, Oid>,
    steps: Seq<SubmoduleStep>,
) -> bool {
    forall|i: int|
        0 <= i < steps.len() ==> !with_tree(
            history_after_submodule_pass(g, m, steps.take(i)),
            (#[trigger] steps[i]).new_tree,
        ).contains_key(steps[i].new_commit)
}

/// The first pass brings no cycle into a history that had none, where
/// every commit that it creates is new to the history: each new commit
/// has as parents only objects that were there before it.
pub proof fn lemma_submodule_pass_keeps_acyclic(
    g: Map<Oid, Seq<Oid>>,
    m: Map<Oid, Oid>,
    steps: Seq<SubmoduleStep>,
)
    requires
        acyclic(g),
        store_within(m, g),
        submodule_pass(m, steps) is Ok,
        submodule_commits_are_new(g, m, steps),
    ensures
        acyclic(history_after_submodule_pass(g, m, steps)),
        store_within(submodule_pass(m, steps)->Ok_0, history_after_submodule_pass(g, m, steps)),
    decreases steps.len(),
{
    if steps.len() > 0 {
        let shorter = steps.drop_last();
        let last = steps.len() - 1;
        let s = steps.last();
        assert(steps[last] == s);
        assert(steps.take(last) =~= shorter);
        assert forall|i: int| 0 <= i < shorter.len() implies !with_tree(
            history_after_submodule_pass(g, m, shorter.take(i)),
            (#[trigger] shorter[i]).new_tree,
        ).contains_key(shorter[i].new_commit) by {
            assert(shorter[i] == steps[i]);
            assert(shorter.take(i) =~= steps.take(i));
        }
        lemma_submodule_pass_keeps_acyclic(g, m, shorter);
        let before = submodule_pass(m, shorter)->Ok_0;
        let so_far = history_after_submodule_pass(g, m, shorter);
        let request = submodule_request(before, s.commit, s.new_tree)->Ok_0;
        let with_new_tree = with_tree(so_far, s.new_tree);
        assert(acyclic(with_new_tree)) by {
            if !so_far.contains_key(s.new_tree) {
                lemma_new_object_keeps_acyclic(so_far, s.new_tree, Seq::empty());
            }
        }
        let m1 = store_after_submodule_begin(before, s.commit, s.new_tree);
        assert(store_within(m1, with_new_tree));
        assert forall|k: int| 0 <= k < request.parents.len() implies with_new_tree.contains_key(
            #[trigger] request.parents[k],
        ) by {
            assert(m1.contains_key(s.commit.parents[k]));
            assert(request.parents[k] == m1[s.commit.parents[k]]);
        }
        lemma_new_object_keeps_acyclic(with_new_tree, s.new_commit, request.parents);
    }
}

/// The history after one step of the second pass: the new commit, where
/// there is one, is added to it.
pub open spec fn history_after_host_step(
    g: Map<Oid, Seq<Oid>>,
    m: Map<Oid, Oid>,
    u: Map<Oid, Oid>,
    d: Option<Oid>,
    s: HostStep,
) -> Map<Oid, Seq<Oid>> {
    match host_plan(m, u, d, s.commit) {
        Ok(HostPlanView::Rewrite(rewrite)) => g.insert(s.new_commit, rewrite.parents),
        _ => g,
    }
}

/// The history after the second pass has taken `steps`.
pub open spec fn history_after_host_pass(
    g: Map<Oid, Seq<Oid>>,
    m: Map<Oid, Oid>,
    u: Map<Oid, Oid>,
    d: Option<Oid>,
    steps: Seq<HostStep>,
) -> Map<Oid, Seq<Oid>>
    decreases steps.len(),
{
    if steps.len() == 0 {
        g
    } else {
        let so_far = history_after_host_pass(g, m, u, d, steps.drop_last());
        match host_pass(m, u, d, steps.drop_last()) {
            Ok(before) => history_after_host_step(so_far, before, u, d, steps.last()),
            Err(_) => so_far,
        }
    }
}

/// Every commit that the second pass creates is new to the history at the
/// time, and every commit that it leaves as it is was in the history from
/// the beginning.
pub open spec fn host_commits_are_new(
    g: Map<Oid, Seq<Oid>>,
    m: Map<Oid, Oid>,
    u: Map<Oid, Oid>,
    d: Option<Oid>,
    steps: Seq<HostStep>,
) -> bool {
    forall|i: int|
        0 <= i < steps.len() ==> if (#[trigger] steps[i]).commit.pointer == PathLookup::NotFound {
            g.contains_key(steps[i].commit.commit.id)
        } else {
            !history_after_host_pass(g, m, u, d, steps.take(i)).contains_key(steps[i].new_commit)
        }
}

/// The second pass loses no object of the history.
pub proof fn lemma_host_pass_keeps_objects(
    g: Map<Oid, Seq<Oid>>,
    m: Map<Oid, Oid>,
    u: Map<Oid, Oid>,
    d: Option<Oid>,
    steps: Seq<HostStep>,
)
    ensures
        forall|id: Oid| #[trigger]
            g.contains_key(id) ==> history_after_host_pass(g, m, u, d, steps).contains_key(id),
    decreases steps.len(),
{
    if steps.len() > 0 {
        lemma_host_pass_keeps_objects(g, m, u, d, steps.drop_last());
    }
}

/// The second pass brings no cycle into a history that had none, where
/// every commit that it creates is new to the history: each new commit
/// has as parents only objects that were there before it.
pub proof fn lemma_host_pass_keeps_acyclic(
    g: Map<Oid, Seq<Oid>>,
    m: Map<Oid, Oid>,
    u: Map<Oid, Oid>,
    d: Option<Oid>,
    steps: Seq<HostStep>,
)
    requires
        acyclic(g),
        store_within(m, g),
        host_pass(m, u, d, steps) is Ok,
        host_commits_are_new(g, m, u, d, steps),
    ensures
        acyclic(history_after_host_pass(g, m, u, d, steps)),
        store_within(
            host_pass(m, u, d, steps)->Ok_0,
            history_after_host_pass(g, m, u, d, steps),
        ),
    decreases steps.len(),
{
    if steps.len() > 0 {
        let shorter = steps.drop_last();
        let last = steps.len() - 1;
        let s = steps.last();
        assert(steps[last] == s);
        assert(steps.take(last) =~= shorter);
        assert forall|i: int| 0 <= i < shorter.len() implies if (
        #[trigger] shorter[i]).commit.pointer == PathLookup::NotFound {
            g.contains_key(shorter[i].commit.commit.id)
        } else {
            !history_after_host_pass(g, m, u, d, shorter.take(i)).contains_key(
                shorter[i].new_commit,
            )
        } by {
            assert(shorter[i] == steps[i]);
            assert(shorter.take(i) =~= steps.take(i));
        }
        lemma_host_pass_keeps_acyclic(g, m, u, d, shorter);
        lemma_host_pass_keeps_objects(g, m, u, d, shorter);
        let before = host_pass(m, u, d, shorter)->Ok_0;
        let so_far = history_after_host_pass(g, m, u, d, shorter);
        lemma_host_step_records(before, u, d, s);
        match host_plan(before, u, d, s.commit) {
            Ok(HostPlanView::Rewrite(rewrite)) => {
                let parents = s.commit.commit.parents;
                assert forall|k: int| 0 <= k < rewrite.parents.len() implies so_far.contains_key(
                    #[trigger] rewrite.parents[k],
                ) by {
                    if k < parents.len() {
                        assert(before.contains_key(parents[k]));
                        assert(rewrite.parents[k] == before[parents[k]]);
                    } else {
                        let p = s.commit.pointer->Found_0;
                        let target = substituted(u, p);
                        if before.contains_key(target) {
                            assert(rewrite.parents[k] == before[target]);
                        } else {
                            assert(rewrite.parents[k] == before[d->Some_0]);
                        }
                    }
                }
                lemma_new_object_keeps_acyclic(so_far, s.new_commit, rewrite.parents);
            },
            _ => {
                assert(g.contains_key(s.commit.commit.id));
            },
        }
    }
}

/// The objects that stand for others: what `m` holds for its keys.
pub open spec fn counterparts(m: Map<Oid, Oid>) -> Set<Oid> {
    Set::new(|id: Oid| is_value_of(m, id))
}

/// `set` holds, with every object of `g` that it holds, the parents of
/// that object: whatever can be reached from an object of `set` along
/// parent edges is in `set`.
pub open spec fn closed_under_parents(g: Map<Oid, Seq<Oid>>, set: Set<Oid>) -> bool {
    forall|c: Oid, k: int|
        #![trigger g[c][k]]
        set.contains(c) && g.contains_key(c) && 0 <= k < g[c].len() ==> set.contains(g[c][k])
}

/// Every object of `grown` is an object of `g`, with the parents it has
/// there, or stands for another in `m`.
pub open spec fn grown_by_counterparts(
    grown: Map<Oid, Seq<Oid>>,
    g: Map<Oid, Seq<Oid>>,
    m: Map<Oid, Oid>,
) -> bool {
    forall|id: Oid| #[trigger]
        grown.contains_key(id) ==> (g.contains_key(id) && grown[id] == g[id]) || counterparts(
            m,
        ).contains(id)
}

/// No tree that the first pass creates is an object of the history with
/// parents.
pub open spec fn new_trees_have_no_parents(
    g: Map<Oid, Seq<Oid>>,
    steps: Seq<SubmoduleStep>,
) -> bool {
    forall|i: int|
        0 <= i < steps.len() && g.contains_key((#[trigger] steps[i]).new_tree)
            ==> g[steps[i].new_tree].len() == 0
}

/// After the first pass, whatever can be reached from a counterpart is a
/// counterpart, and every object added to the history is one.
///
/// This is said of a history in which the counterparts were closed under
/// parents before, every commit created is new, and no tree created is
/// named like an object with parents.
pub proof fn lemma_submodule_pass_keeps_closed(
    g: Map<Oid, Seq<Oid>>,
    m: Map<Oid, Oid>,
    steps: Seq<SubmoduleStep>,
)
    requires
        closed_under_parents(g, counterparts(m)),
        submodule_pass(m, steps) is Ok,
        submodule_commits_are_new(g, m, steps),
        new_trees_have_no_parents(g, steps),
    ensures
        closed_under_parents(
            history_after_submodule_pass(g, m, steps),
            counterparts(submodule_pass(m, steps)->Ok_0),
        ),
        grown_by_counterparts(
            history_after_submodule_pass(g, m, steps),
            g,
            submodule_pass(m, steps)->Ok_0,
        ),
    decreases steps.len(),
{
    if steps.len() > 0 {
        let shorter = steps.drop_last();
        let last = steps.len() - 1;
        let s = steps.last();
        assert(steps[last] == s);
        assert(steps.take(last) =~= shorter);
        assert forall|i: int| 0 <= i < shorter.len() implies !with_tree(
            history_after_submodule_pass(g, m, shorter.take(i)),
            (#[trigger] shorter[i]).new_tree,
        ).contains_key(shorter[i].new_commit) by {
            assert(shorter[i] == steps[i]);
            assert(shorter.take(i) =~= steps.take(i));
        }
        assert forall|i: int|
            0 <= i < shorter.len() && g.contains_key(
                (#[trigger] shorter[i]).new_tree,
            ) implies g[shorter[i].new_tree].len() == 0 by {
            assert(shorter[i] == steps[i]);
        }
        lemma_submodule_pass_keeps_closed(g, m, shorter);
        let before = submodule_pass(m, shorter)->Ok_0;
        let so_far = history_after_submodule_pass(g, m, shorter);
        let request = submodule_request(before, s.commit, s.new_tree)->Ok_0;
        let with_new_tree = with_tree(so_far, s.new_tree);
        let m1 = store_after_submodule_begin(before, s.commit, s.new_tree);
        let after = submodule_pass(m, steps)->Ok_0;
        let grown = history_after_submodule_pass(g, m, steps);
        assert(grown == with_new_tree.insert(s.new_commit, request.parents));
        assert(after == m1.insert(s.commit.id, s.new_commit));
        assert(after.contains_key(s.commit.id) && after[s.commit.id] == s.new_commit);
        assert(after.contains_key(s.commit.tree) && after[s.commit.tree] == s.new_tree);
        assert forall|c: Oid| counterparts(before).contains(c) implies counterparts(
            after,
        ).contains(c) by {
            let key = choose|key: Oid| #[trigger] before.contains_key(key) && before[key] == c;
            assert(after.contains_key(key) && after[key] == c);
        }
        assert forall|c: Oid|
            counterparts(after).contains(c) && c != s.new_commit && c
                != s.new_tree implies counterparts(before).contains(c) by {
            let key = choose|key: Oid| #[trigger] after.contains_key(key) && after[key] == c;
            assert(before.contains_key(key) && before[key] == c);
        }
        assert forall|id: Oid| #[trigger] grown.contains_key(id) implies (g.contains_key(id)
            && grown[id] == g[id]) || counterparts(after).contains(id) by {
            if id != s.new_commit && id != s.new_tree {
                assert(so_far.contains_key(id));
            }
        }
        assert forall|c: Oid, k: int|
            #![trigger grown[c][k]]
            counterparts(after).contains(c) && grown.contains_key(c) && 0 <= k
                < grown[c].len() implies counterparts(after).contains(grown[c][k]) by {
            if c == s.new_commit {
                let p = s.commit.parents[k];
                assert(m1.contains_key(p) && m1[p] == request.parents[k]);
                assert(after.contains_key(p) && after[p] == request.parents[k]);
            } else if so_far.contains_key(c) {
                assert(grown[c] == so_far[c]);
                if counterparts(before).contains(c) {
                    assert(counterparts(before).contains(so_far[c][k]));
                } else {
                    assert(c == s.new_tree);
                    assert(g.contains_key(c) && so_far[c] == g[c]);
                }
            }
        }
    }
}

/// A commit that the second pass leaves as it is has, in the history, the
/// parents that were read from it, and each of them stands for itself at
/// the time.
pub open spec fn unchanged_commits_keep_unchanged_parents(
    g: Map<Oid, Seq<Oid>>,
    m: Map<Oid, Oid>,
    u: Map<Oid, Oid>,
    d: Option<Oid>,
    steps: Seq<HostStep>,
) -> bool {
    forall|i: int|
        0 <= i < steps.len() && (#[trigger] steps[i]).commit.pointer == PathLookup::NotFound ==> {
            &&& g.contains_key(steps[i].commit.commit.id)
            &&& g[steps[i].commit.commit.id] == steps[i].commit.commit.parents
            &&& host_pass(m, u, d, steps.take(i)) is Ok ==> parents_stay(
                host_pass(m, u, d, steps.take(i))->Ok_0,
                steps[i].commit.commit.parents,
            )
        }
}

/// After the second pass, whatever can be reached from a counterpart is a
/// counterpart, and every object added to the history is one.
///
/// This is said of a history in which the counterparts were closed under
/// parents before, every commit created is new, and every parent of a
/// commit without the submodule stands for itself. The last is not so of
/// every history: a commit without the submodule stays as it is, with the
/// parents it has, whatever became of them.
pub proof fn lemma_host_pass_keeps_closed(
    g: Map<Oid, Seq<Oid>>,
    m: Map<Oid, Oid>,
    u: Map<Oid, Oid>,
    d: Option<Oid>,
    steps: Seq<HostStep>,
)
    requires
        closed_under_parents(g, counterparts(m)),
        host_pass(m, u, d, steps) is Ok,
        host_commits_are_new(g, m, u, d, steps),
        unchanged_commits_keep_unchanged_parents(g, m, u, d, steps),
    ensures
        closed_under_parents(
            history_after_host_pass(g, m, u, d, steps),
            counterparts(host_pass(m, u, d, steps)->Ok_0),
        ),
        grown_by_counterparts(
            history_after_host_pass(g, m, u, d, steps),
            g,
            host_pass(m, u, d, steps)->Ok_0,
        ),
    decreases steps.len(),
{
    if steps.len() > 0 {
        let shorter = steps.drop_last();
        let last = steps.len() - 1;
        let s = steps.last();
        assert(steps[last] == s);
        assert(steps.take(last) =~= shorter);
        assert forall|i: int| 0 <= i < shorter.len() implies if (
        #[trigger] shorter[i]).commit.pointer == PathLookup::NotFound {
            g.contains_key(shorter[i].commit.commit.id)
        } else {
            !history_after_host_pass(g, m, u, d, shorter.take(i)).contains_key(
                shorter[i].new_commit,
            )
        } by {
            assert(shorter[i] == steps[i]);
            assert(shorter.take(i) =~= steps.take(i));
        }
        assert forall|i: int|
            0 <= i < shorter.len() && (#[trigger] shorter[i]).commit.pointer
                == PathLookup::NotFound implies {
            &&& g.contains_key(shorter[i].commit.commit.id)
            &&& g[shorter[i].commit.commit.id] == shorter[i].commit.commit.parents
            &&& host_pass(m, u, d, shorter.take(i)) is Ok ==> parents_stay(
                host_pass(m, u, d, shorter.take(i))->Ok_0,
                shorter[i].commit.commit.parents,
            )
        } by {
            assert(shorter[i] == steps[i]);
            assert(shorter.take(i) =~= steps.take(i));
        }
        lemma_host_pass_keeps_closed(g, m, u, d, shorter);
        let before = host_pass(m, u, d, shorter)->Ok_0;
        let so_far = history_after_host_pass(g, m, u, d, shorter);
        let after = host_pass(m, u, d, steps)->Ok_0;
        let grown = history_after_host_pass(g, m, u, d, steps);
        let id = s.commit.commit.id;
        lemma_host_step_records(before, u, d, s);
        assert forall|c: Oid| counterparts(before).contains(c) implies counterparts(
            after,
        ).contains(c) by {
            let key = choose|key: Oid| #[trigger] before.contains_key(key) && before[key] == c;
            assert(after.contains_key(key) && after[key] == c);
        }
        assert(after.contains_key(id));
        assert forall|c: Oid|
            counterparts(after).contains(c) && c != after[id] implies counterparts(
            before,
        ).contains(c) by {
            let key = choose|key: Oid| #[trigger] after.contains_key(key) && after[key] == c;
            assert(before.contains_key(key) && before[key] == c);
        }
        match host_plan(before, u, d, s.commit) {
            Ok(HostPlanView::Rewrite(rewrite)) => {
                let parents = s.commit.commit.parents;
                assert(grown == so_far.insert(s.new_commit, rewrite.parents));
                assert(after[id] == s.new_commit);
                assert forall|k: int| 0 <= k < rewrite.parents.len() implies counterparts(
                    before,
                ).contains(#[trigger] rewrite.parents[k]) by {
                    if k < parents.len() {
                        assert(before.contains_key(parents[k]));
                        assert(rewrite.parents[k] == before[parents[k]]);
                    } else {
                        let p = s.commit.pointer->Found_0;
                        let target = substituted(u, p);
                        if before.contains_key(target) {
                            assert(rewrite.parents[k] == before[target]);
                        } else {
                            assert(rewrite.parents[k] == before[d->Some_0]);
                        }
                    }
                }
                assert forall|c: Oid, k: int|
                    #![trigger grown[c][k]]
                    counterparts(after).contains(c) && grown.contains_key(c) && 0 <= k
                        < grown[c].len() implies counterparts(after).contains(grown[c][k]) by {
                    if c == s.new_commit {
                        assert(counterparts(before).contains(rewrite.parents[k]));
                    } else {
                        assert(grown[c] == so_far[c]);
                        assert(counterparts(before).contains(so_far[c][k]));
                    }
                }
                assert forall|x: Oid| #[trigger] grown.contains_key(x) implies (g.contains_key(x)
                    && grown[x] == g[x]) || counterparts(after).contains(x) by {
                    if x != s.new_commit {
                        assert(so_far.contains_key(x));
                    }
                }
            },
            _ => {
                assert(grown == so_far);
                assert(after[id] == id);
                let parents = s.commit.commit.parents;
                assert(parents_stay(before, parents));
                assert forall|c: Oid, k: int|
                    #![trigger grown[c][k]]
                    counterparts(after).contains(c) && grown.contains_key(c) && 0 <= k
                        < grown[c].len() implies counterparts(after).contains(grown[c][k]) by {
                    if counterparts(before).contains(c) {
                        assert(counterparts(before).contains(so_far[c][k]));
                    } else {
                        assert(c == id);
                        assert(so_far[c] == g[c]);
                        assert(before.contains_key(parents[k]) && before[parents[k]]
                            == parents[k]);
                        assert(counterparts(before).contains(parents[k]));
                    }
                }
            },
        }
    }
}

/// The counterparts that the first pass adds are the trees and commits
/// that it created.
pub proof fn lemma_counterparts_of_submodule_pass(m: Map<Oid, Oid>, steps: Seq<SubmoduleStep>)
    requires
        submodule_pass(m, steps) is Ok,
    ensures
        forall|id: Oid| #[trigger]
            counterparts(submodule_pass(m, steps)->Ok_0).contains(id) ==> counterparts(m).contains(
                id,
            ) || exists|i: int|
                0 <= i < steps.len() && ((#[trigger] steps[i]).new_commit == id
                    || steps[i].new_tree == id),
{
    let after = submodule_pass(m, steps)->Ok_0;
    lemma_submodule_pass_total(m, steps);
    lemma_submodule_pass_keys(m, steps);
    assert forall|id: Oid| #[trigger] counterparts(after).contains(id) implies counterparts(
        m,
    ).contains(id) || exists|i: int|
        0 <= i < steps.len() && ((#[trigger] steps[i]).new_commit == id || steps[i].new_tree
            == id) by {
        let key = choose|key: Oid| #[trigger] after.contains_key(key) && after[key] == id;
        if m.contains_key(key) {
            assert(m[key] == id);
        } else {
            let i = choose|i: int|
                0 <= i < steps.len() && ((#[trigger] steps[i]).commit.id == key
                    || steps[i].commit.tree == key);
            assert(steps[i].new_commit == id || steps[i].new_tree == id);
        }
    }
}

/// The counterparts that the second pass adds are the commits that it
/// created and the commits that it left as they were, which have no entry
/// at the submodule's path.
pub proof fn lemma_counterparts_of_host_pass(
    m: Map<Oid, Oid>,
    u: Map<Oid, Oid>,
    d: Option<Oid>,
    steps: Seq<HostStep>,
)
    requires
        host_pass(m, u, d, steps) is Ok,
    ensures
        forall|id: Oid| #[trigger]
            counterparts(host_pass(m, u, d, steps)->Ok_0).contains(id) ==> counterparts(
                m,
            ).contains(id) || exists|i: int|
                0 <= i < steps.len() && host_counterpart(#[trigger] steps[i]) == id,
{
    let after = host_pass(m, u, d, steps)->Ok_0;
    lemma_host_pass_total(m, u, d, steps);
    lemma_host_pass_keys(m, u, d, steps);
    assert forall|id: Oid| #[trigger] counterparts(after).contains(id) implies counterparts(
        m,
    ).contains(id) || exists|i: int|
        0 <= i < steps.len() && host_counterpart(#[trigger] steps[i]) == id by {
        let key = choose|key: Oid| #[trigger] after.contains_key(key) && after[key] == id;
        if m.contains_key(key) {
            assert(m[key] == id);
        } else {
            let i = choose|i: int|
                0 <= i < steps.len() && (#[trigger] steps[i]).commit.commit.id == key;
            assert(host_counterpart(steps[i]) == id);
        }
    }
}

/// The whole rewrite, begun with an empty mapping store, leaves a history
/// without a cycle, in which whatever can be reached from a counterpart
/// is a counterpart.
///
/// This is said of a history without a cycle, in which every commit
/// created is new, no tree created is named like an object with parents,
/// and every parent of a host commit without the submodule stands for
/// itself.
pub proof fn lemma_rewrite_keeps_history_sound(
    g: Map<Oid, Seq<Oid>>,
    submodule_steps: Seq<SubmoduleStep>,
    host_steps: Seq<HostStep>,
    u: Map<Oid, Oid>,
    d: Option<Oid>,
)
    requires
        acyclic(g),
        submodule_pass(Map::empty(), submodule_steps) is Ok,
        submodule_commits_are_new(g, Map::empty(), submodule_steps),
        new_trees_have_no_parents(g, submodule_steps),
        host_pass(submodule_pass(Map::empty(), submodule_steps)->Ok_0, u, d, host_steps) is Ok,
        host_commits_are_new(
            history_after_submodule_pass(g, Map::empty(), submodule_steps),
            submodule_pass(Map::empty(), submodule_steps)->Ok_0,
            u,
            d,
            host_steps,
        ),
        unchanged_commits_keep_unchanged_parents(
            history_after_submodule_pass(g, Map::empty(), submodule_steps),
            submodule_pass(Map::empty(), submodule_steps)->Ok_0,
            u,
            d,
            host_steps,
        ),
    ensures
        ({
            let halfway = submodule_pass(Map::empty(), submodule_steps)->Ok_0;
            let history = history_after_host_pass(
                history_after_submodule_pass(g, Map::empty(), submodule_steps),
                halfway,
                u,
                d,
                host_steps,
            );
            let store = host_pass(halfway, u, d, host_steps)->Ok_0;
            &&& acyclic(history)
            &&& store_within(store, history)
            &&& closed_under_parents(history, counterparts(store))
        }),
{
    let empty = Map::<Oid, Oid>::empty();
    let halfway = submodule_pass(empty, submodule_steps)->Ok_0;
    let grown = history_after_submodule_pass(g, empty, submodule_steps);
    assert(store_within(empty, g));
    assert(closed_under_parents(g, counterparts(empty))) by {
        assert forall|c: Oid| !counterparts(empty).contains(c) by {
            if is_value_of(empty, c) {
                let key = choose|key: Oid| #[trigger] empty.contains_key(key) && empty[key] == c;
                assert(false);
            }
        }
    }
    lemma_submodule_pass_keeps_acyclic(g, empty, submodule_steps);
    lemma_submodule_pass_keeps_closed(g, empty, submodule_steps);
    lemma_host_pass_keeps_acyclic(grown, halfway, u, d, host_steps);
    lemma_host_pass_keeps_closed(grown, halfway, u, d, host_steps);
}

} // verus!
