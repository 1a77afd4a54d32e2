//! The Pi session provider.

use search_preview::pi::{
    sessions_pi_owns_with_id, DeleteStep, Deleted, PiProvider, PiStorage, Source,
};

#[test]
fn find_by_id_leaves_the_titled_log_in_a_shared_session_directory_to_omp() {
    let titled = "titled.jsonl".to_string();
    let untitled = "untitled.jsonl".to_string();
    let checks: Vec<(String, Result<Option<Source>, String>)> = vec![
        (titled, Ok(Some(Source::Omp))),
        (untitled.clone(), Ok(Some(Source::Pi))),
    ];

    let found = sessions_pi_owns_with_id(checks).unwrap();

    assert_eq!(found, vec![untitled]);
}

#[test]
fn a_log_that_cannot_be_read_ends_the_search() {
    let checks: Vec<(u32, Result<Option<Source>, &str>)> = vec![
        (1, Ok(Some(Source::Pi))),
        (2, Ok(None)),
        (3, Err("first")),
        (4, Err("second")),
    ];
    assert_eq!(sessions_pi_owns_with_id(checks), Err("first"));
}

#[test]
fn logs_of_nobody_are_not_found() {
    let checks: Vec<(u32, Result<Option<Source>, ()>)> =
        vec![(1, Ok(None)), (2, Ok(Some(Source::Pi))), (3, Ok(Some(Source::Pi)))];
    assert_eq!(sessions_pi_owns_with_id(checks), Ok(vec![2, 3]));
}

#[test]
fn a_deletion_removes_a_file_only_after_its_owner_is_known() {
    let start: DeleteStep<&str> = DeleteStep::RequireOwned;
    let second = PiProvider.delete_session(start, Ok(()));
    assert!(matches!(second, DeleteStep::RemoveFile));
    let third = PiProvider.delete_session(second, Ok(()));
    assert!(matches!(third, DeleteStep::Finished(Ok(Deleted::JustTheSession))));
}

#[test]
fn a_file_of_another_owner_survives() {
    let next = PiProvider.delete_session(DeleteStep::RequireOwned, Err("not owned"));
    assert!(matches!(next, DeleteStep::Finished(Err("not owned"))));
    let after = PiProvider.delete_session(next, Ok(()));
    assert!(matches!(after, DeleteStep::Finished(Err("not owned"))));
}

#[test]
fn a_file_that_cannot_be_removed_is_an_error() {
    let next = PiProvider.delete_session(DeleteStep::RemoveFile, Err("busy"));
    assert!(matches!(next, DeleteStep::Finished(Err("busy"))));
}

#[test]
fn names_and_flags() {
    let labels = PiProvider.labels();
    assert_eq!((labels.name, labels.list, labels.display), ("pi", "Pi", "Pi"));
    let namespaces = PiProvider.ref_namespaces();
    assert_eq!(namespaces.conversation, Some("agent-pi-v1"));
    assert_eq!(namespaces.project, "agent-pi-project-v1");
    let launcher = PiProvider.launcher();
    assert_eq!(launcher.program, "pi");
    assert_eq!((launcher.resume_flag, launcher.fork_flag), ("--session", "--fork"));
    assert_eq!(PiProvider.source(), Source::Pi);
    assert!(!PiProvider.is_session_id_shape("0b5f7f60-91e1-4a0d-a8f0-0c9c2a1f2d11"));
    let resolved: Result<Option<String>, ()> = PiProvider.resolve_session_id("any");
    assert_eq!(resolved, Ok(None));
}

#[test]
fn the_cache_of_pi_sessions() {
    let cache = PiStorage.cache();
    assert_eq!(cache.directory, "pi");
    assert_eq!(&cache.magic, b"PIHIST01");
    assert_eq!(cache.schema_version, 6);
    assert_eq!(PiStorage.max_session_bytes(), None);
    assert_eq!(PiStorage.source(), Source::Pi);
    assert!(PiProvider.storage().is_some());
}
