use obsidian_vault_grouper::retry::{
    after_persist_attempt, failure_passes, persist_failure, FailureKind, PersistStep,
    RETRY_INITIAL_INTERVAL_MS, RETRY_MAX_ELAPSED_SECS, RETRY_MAX_INTERVAL_MS,
};
use obsidian_vault_grouper::should_retry;
use std::io::{Error, ErrorKind};

#[test]
fn retries_failures_that_may_pass() {
    assert!(should_retry(&Error::from(ErrorKind::PermissionDenied)));
    assert!(should_retry(&Error::from_raw_os_error(32)));
    assert!(should_retry(&Error::from_raw_os_error(33)));
}

#[test]
fn gives_up_on_other_failures() {
    assert!(!should_retry(&Error::from(ErrorKind::NotFound)));
    assert!(!should_retry(&Error::from(ErrorKind::Other)));
    assert!(!should_retry(&Error::from_raw_os_error(31)));
    assert!(!should_retry(&Error::from_raw_os_error(34)));
}

#[test]
fn kind_or_code_decides() {
    assert!(failure_passes(FailureKind::PermissionDenied, None));
    assert!(failure_passes(FailureKind::PermissionDenied, Some(2)));
    assert!(failure_passes(FailureKind::Other, Some(32)));
    assert!(failure_passes(FailureKind::Other, Some(33)));
    assert!(!failure_passes(FailureKind::Other, Some(2)));
    assert!(!failure_passes(FailureKind::Other, None));
}

#[test]
fn attempts_hand_the_file_back() {
    assert!(matches!(after_persist_attempt::<u8>(Ok(())), PersistStep::Done));
    let denied = Error::from(ErrorKind::PermissionDenied);
    assert!(matches!(
        after_persist_attempt(Err((7u8, denied))),
        PersistStep::Retry { temp: 7, .. }
    ));
    let missing = Error::from(ErrorKind::NotFound);
    match after_persist_attempt(Err((8u8, missing))) {
        PersistStep::Fail { temp, error } => {
            assert_eq!(temp, 8);
            assert_eq!(error.kind(), ErrorKind::NotFound);
        }
        _ => unreachable!(),
    }
}

#[test]
fn retry_intervals() {
    assert_eq!(RETRY_INITIAL_INTERVAL_MS, 5);
    assert_eq!(RETRY_MAX_INTERVAL_MS, 100);
    assert_eq!(RETRY_MAX_ELAPSED_SECS, 3);
}

#[test]
fn failures_are_reported() {
    assert_eq!(
        persist_failure("out/vault_pack_0001.md", "access denied"),
        "Failed to persist 'out/vault_pack_0001.md': access denied"
    );
}
