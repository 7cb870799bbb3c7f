//! The order of the work, and how the program ends.

use vstd::prelude::*;

verus! {

/// The branch was moved to the rewritten history.
pub const E_SUCCESS: i32 = 0;

/// The current directory holds no repository.
pub const E_NO_GIT_REPO: i32 = 1;

/// The host history points to submodule commits that lead nowhere.
pub const E_FOUND_DANGLING_REFERENCES: i32 = 2;

/// An argument is no commit identifier.
pub const E_INVALID_COMMIT_ID: i32 = 3;

/// A commit that the user asked for is not in the submodule's history.
pub const E_INVALID_MAPPINGS: i32 = 4;

/// The working tree holds changes that are not committed.
pub const E_DIRTY_WORKDIR: i32 = 5;

/// What is to be done next.
#[derive(Clone, Copy, Debug, PartialEq, Eq, Structural)]
pub enum Stage {
    ParseArguments,
    OpenRepository,
    CheckWorkdir,
    CheckMappings,
    RewriteSubmodule,
    ScanReferences,
    RewriteHost,
    /// Move the branch: the one step that changes a reference.
    Checkout,
    /// End the program with this code.
    Exit(i32),
}

/// What came of the work of a stage.
#[derive(Clone, Copy, Debug, PartialEq, Eq, Structural)]
pub enum Event {
    ArgumentsParsed { valid: bool },
    RepositoryOpened { found: bool },
    WorkdirChecked { clean: bool },
    MappingsChecked { valid: bool },
    SubmoduleRewritten,
    ReferencesScanned { dangling: usize },
    HostRewritten,
    CheckedOut,
}

/// The stage that follows `stage` once `event` came of it, or `None` where
/// that event cannot come of that stage.
///
/// Every check that fails ends the program with its own code, and nothing
/// after it is begun.
pub open spec fn stage_after(stage: Stage, event: Event) -> Option<Stage> {
    match (stage, event) {
        (Stage::ParseArguments, Event::ArgumentsParsed { valid }) => Some(
            if valid {
                Stage::OpenRepository
            } else {
                Stage::Exit(E_INVALID_COMMIT_ID)
            },
        ),
        (Stage::OpenRepository, Event::RepositoryOpened { found }) => Some(
            if found {
                Stage::CheckWorkdir
            } else {
                Stage::Exit(E_NO_GIT_REPO)
            },
        ),
        (Stage::CheckWorkdir, Event::WorkdirChecked { clean }) => Some(
            if clean {
                Stage::CheckMappings
            } else {
                Stage::Exit(E_DIRTY_WORKDIR)
            },
        ),
        (Stage::CheckMappings, Event::MappingsChecked { valid }) => Some(
            if valid {
                Stage::RewriteSubmodule
            } else {
                Stage::Exit(E_INVALID_MAPPINGS)
            },
        ),
        (Stage::RewriteSubmodule, Event::SubmoduleRewritten) => Some(Stage::ScanReferences),
        (Stage::ScanReferences, Event::ReferencesScanned { dangling }) => Some(
            if dangling == 0 {
                Stage::RewriteHost
            } else {
                Stage::Exit(E_FOUND_DANGLING_REFERENCES)
            },
        ),
        (Stage::RewriteHost, Event::HostRewritten) => Some(Stage::Checkout),
        (Stage::Checkout, Event::CheckedOut) => Some(Stage::Exit(E_SUCCESS)),
        _ => None,
    }
}

/// The stage to begin with.
pub fn first_stage() -> (stage: Stage)
    ensures
        stage == Stage::ParseArguments,
{
    Stage::ParseArguments
}

/// Says what to do once `event` came of `stage`.
pub fn next_stage(stage: Stage, event: Event) -> (r: Option<Stage>)
    ensures
        r == stage_after(stage, event),
{
    match (stage, event) {
        (Stage::ParseArguments, Event::ArgumentsParsed { valid }) => Some(
            if valid {
                Stage::OpenRepository
            } else {
                Stage::Exit(E_INVALID_COMMIT_ID)
            },
        ),
        (Stage::OpenRepository, Event::RepositoryOpened { found }) => Some(
            if found {
                Stage::CheckWorkdir
            } else {
                Stage::Exit(E_NO_GIT_REPO)
            },
        ),
        (Stage::CheckWorkdir, Event::WorkdirChecked { clean }) => Some(
            if clean {
                Stage::CheckMappings
            } else {
                Stage::Exit(E_DIRTY_WORKDIR)
            },
        ),
        (Stage::CheckMappings, Event::MappingsChecked { valid }) => Some(
            if valid {
                Stage::RewriteSubmodule
            } else {
                Stage::Exit(E_INVALID_MAPPINGS)
            },
        ),
        (Stage::RewriteSubmodule, Event::SubmoduleRewritten) => Some(Stage::ScanReferences),
        (Stage::ScanReferences, Event::ReferencesScanned { dangling }) => Some(
            if dangling == 0 {
                Stage::RewriteHost
            } else {
                Stage::Exit(E_FOUND_DANGLING_REFERENCES)
            },
        ),
        (Stage::RewriteHost, Event::HostRewritten) => Some(Stage::Checkout),
        (Stage::Checkout, Event::CheckedOut) => Some(Stage::Exit(E_SUCCESS)),
        _ => None,
    }
}

/// The stage reached from `stage` once `events` came one after the other,
/// or `None` where one of them cannot come of the stage before it.
pub open spec fn stage_reached(stage: Stage, events: Seq<Event>) -> Option<Stage>
    decreases events.len(),
{
    if events.len() == 0 {
        Some(stage)
    } else {
        match stage_reached(stage, events.drop_last()) {
            None => None,
            Some(before) => stage_after(before, events.last()),
        }
    }
}

/// The events that lead from the start to the move of the branch.
pub open spec fn events_before_checkout() -> Seq<Event> {
    seq![
        Event::ArgumentsParsed { valid: true },
        Event::RepositoryOpened { found: true },
        Event::WorkdirChecked { clean: true },
        Event::MappingsChecked { valid: true },
        Event::SubmoduleRewritten,
        Event::ReferencesScanned { dangling: 0 },
        Event::HostRewritten,
    ]
}

/// The branch is moved last, and only after every check has passed: the
/// one way from the start to the stage that moves it leads through valid
/// arguments, a repository, a clean working tree, valid mappings, the
/// first pass, a scan that found nothing, and the second pass.
pub proof fn lemma_checkout_comes_last(events: Seq<Event>)
    requires
        stage_reached(Stage::ParseArguments, events) == Some(Stage::Checkout),
    ensures
        events == events_before_checkout(),
{
    let e7 = events;
    assert(e7.len() > 0);
    let e6 = e7.drop_last();
    assert(stage_reached(Stage::ParseArguments, e6) == Some(Stage::RewriteHost));
    assert(e6.len() > 0);
    let e5 = e6.drop_last();
    assert(stage_reached(Stage::ParseArguments, e5) == Some(Stage::ScanReferences));
    assert(e5.len() > 0);
    let e4 = e5.drop_last();
    assert(stage_reached(Stage::ParseArguments, e4) == Some(Stage::RewriteSubmodule));
    assert(e4.len() > 0);
    let e3 = e4.drop_last();
    assert(stage_reached(Stage::ParseArguments, e3) == Some(Stage::CheckMappings));
    assert(e3.len() > 0);
    let e2 = e3.drop_last();
    assert(stage_reached(Stage::ParseArguments, e2) == Some(Stage::CheckWorkdir));
    assert(e2.len() > 0);
    let e1 = e2.drop_last();
    assert(stage_reached(Stage::ParseArguments, e1) == Some(Stage::OpenRepository));
    assert(e1.len() > 0);
    let e0 = e1.drop_last();
    assert(stage_reached(Stage::ParseArguments, e0) == Some(Stage::ParseArguments));
    assert(e0.len() == 0) by {
        if e0.len() > 0 {
            assert(stage_reached(Stage::ParseArguments, e0.drop_last()) is Some);
        }
    }
    assert(events =~= events_before_checkout());
}

/// The program ends well only after the branch was moved.
pub proof fn lemma_success_follows_checkout(events: Seq<Event>)
    requires
        stage_reached(Stage::ParseArguments, events) == Some(Stage::Exit(E_SUCCESS)),
    ensures
        events == events_before_checkout().push(Event::CheckedOut),
{
    assert(events.len() > 0);
    assert(stage_reached(Stage::ParseArguments, events.drop_last()) == Some(Stage::Checkout));
    lemma_checkout_comes_last(events.drop_last());
    assert(events =~= events.drop_last().push(events.last()));
}

} // verus!
