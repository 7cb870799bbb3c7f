use submerge::pipeline::{
    first_stage, next_stage, Event, Stage, E_DIRTY_WORKDIR, E_FOUND_DANGLING_REFERENCES,
    E_INVALID_COMMIT_ID, E_INVALID_MAPPINGS, E_NO_GIT_REPO, E_SUCCESS,
};
use submerge::precheck::is_workdir_clean;

/// Feeds the events to the stages, one after the other, and says which
/// stages were gone through.
fn stages(events: &[Event]) -> Vec<Stage> {
    let mut seen = vec![first_stage()];
    for event in events {
        let stage = *seen.last().unwrap();
        seen.push(next_stage(stage, *event).expect("the event does not come of the stage"));
    }
    seen
}

#[test]
fn exit_codes() {
    assert_eq!(E_SUCCESS, 0);
    assert_eq!(E_NO_GIT_REPO, 1);
    assert_eq!(E_FOUND_DANGLING_REFERENCES, 2);
    assert_eq!(E_INVALID_COMMIT_ID, 3);
    assert_eq!(E_INVALID_MAPPINGS, 4);
    assert_eq!(E_DIRTY_WORKDIR, 5);
}

#[test]
fn a_run_without_faults_ends_well() {
    let seen = stages(&[
        Event::ArgumentsParsed { valid: true },
        Event::RepositoryOpened { found: true },
        Event::WorkdirChecked { clean: true },
        Event::MappingsChecked { valid: true },
        Event::SubmoduleRewritten,
        Event::ReferencesScanned { dangling: 0 },
        Event::HostRewritten,
        Event::CheckedOut,
    ]);
    assert_eq!(
        seen,
        vec![
            Stage::ParseArguments,
            Stage::OpenRepository,
            Stage::CheckWorkdir,
            Stage::CheckMappings,
            Stage::RewriteSubmodule,
            Stage::ScanReferences,
            Stage::RewriteHost,
            Stage::Checkout,
            Stage::Exit(0),
        ]
    );
}

#[test]
fn malformed_argument_ends_with_three() {
    let seen = stages(&[Event::ArgumentsParsed { valid: false }]);
    assert_eq!(seen, vec![Stage::ParseArguments, Stage::Exit(3)]);
}

#[test]
fn missing_repository_ends_with_one() {
    let seen = stages(&[
        Event::ArgumentsParsed { valid: true },
        Event::RepositoryOpened { found: false },
    ]);
    assert_eq!(seen.last(), Some(&Stage::Exit(1)));
}

#[test]
fn dirty_working_tree() {
    let clean = is_workdir_clean(1);
    let seen = stages(&[
        Event::ArgumentsParsed { valid: true },
        Event::RepositoryOpened { found: true },
        Event::WorkdirChecked { clean },
    ]);
    assert_eq!(seen.last(), Some(&Stage::Exit(5)));
    // nothing was rewritten, and the branch was not moved
    assert!(!seen.contains(&Stage::RewriteSubmodule));
    assert!(!seen.contains(&Stage::RewriteHost));
    assert!(!seen.contains(&Stage::Checkout));
}

#[test]
fn invalid_mappings_end_with_four() {
    let seen = stages(&[
        Event::ArgumentsParsed { valid: true },
        Event::RepositoryOpened { found: true },
        Event::WorkdirChecked { clean: true },
        Event::MappingsChecked { valid: false },
    ]);
    assert_eq!(seen.last(), Some(&Stage::Exit(4)));
    assert!(!seen.contains(&Stage::RewriteSubmodule));
    assert!(!seen.contains(&Stage::Checkout));
}

#[test]
fn dangling_references_end_with_two() {
    let seen = stages(&[
        Event::ArgumentsParsed { valid: true },
        Event::RepositoryOpened { found: true },
        Event::WorkdirChecked { clean: true },
        Event::MappingsChecked { valid: true },
        Event::SubmoduleRewritten,
        Event::ReferencesScanned { dangling: 1 },
    ]);
    assert_eq!(seen.last(), Some(&Stage::Exit(2)));
    // the host history was not touched, and the branch was not moved
    assert!(!seen.contains(&Stage::RewriteHost));
    assert!(!seen.contains(&Stage::Checkout));
}

#[test]
fn an_event_of_another_stage_is_refused() {
    assert_eq!(next_stage(Stage::ParseArguments, Event::CheckedOut), None);
    assert_eq!(next_stage(Stage::CheckWorkdir, Event::HostRewritten), None);
    assert_eq!(next_stage(Stage::RewriteHost, Event::CheckedOut), None);
    assert_eq!(next_stage(Stage::Checkout, Event::HostRewritten), None);
    assert_eq!(
        next_stage(Stage::ScanReferences, Event::MappingsChecked { valid: true }),
        None
    );
}

#[test]
fn nothing_follows_the_end() {
    for event in [
        Event::ArgumentsParsed { valid: true },
        Event::RepositoryOpened { found: true },
        Event::WorkdirChecked { clean: true },
        Event::MappingsChecked { valid: true },
        Event::SubmoduleRewritten,
        Event::ReferencesScanned { dangling: 0 },
        Event::HostRewritten,
        Event::CheckedOut,
    ] {
        assert_eq!(next_stage(Stage::Exit(0), event), None);
        assert_eq!(next_stage(Stage::Exit(2), event), None);
    }
}
