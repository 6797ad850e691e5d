//! Moving a finished document to its place, again where another program holds
//! the target for a moment.

use vstd::prelude::*;

verus! {

/// Milliseconds before the second attempt.
pub const RETRY_INITIAL_INTERVAL_MS: u64 = 5;

/// Milliseconds between two attempts, at most.
pub const RETRY_MAX_INTERVAL_MS: u64 = 100;

/// Seconds after which no further attempt is made.
pub const RETRY_MAX_ELAPSED_SECS: u64 = 3;

/// Operating system code of a sharing violation.
pub const SHARING_VIOLATION: i32 = 32;

/// Operating system code of a lock violation.
pub const LOCK_VIOLATION: i32 = 33;

/// `std::io::Error`, looked at through `failure_kind` and `raw_os_error` only.
#[verifier::external_type_specification]
#[verifier::external_body]
pub struct ExIoError(std::io::Error);

/// What tells a failed write apart.
#[derive(Debug, Clone, Copy, PartialEq, Eq, Structural)]
pub enum FailureKind {
    PermissionDenied,
    Other,
}

/// What `std::io::Error::kind` gives for `err`.
pub uninterp spec fn kind_of(err: std::io::Error) -> FailureKind;

/// What `std::io::Error::raw_os_error` gives for `err`.
pub uninterp spec fn os_code_of(err: std::io::Error) -> Option<i32>;

/// `std::io::Error::kind`, with every kind but `PermissionDenied` taken
/// together. The kind is a property of the error: that which it was made with,
/// or the one that stands for the operating system's code.
#[verifier::external_body]
fn failure_kind(err: &std::io::Error) -> (kind: FailureKind)
    ensures
        kind == kind_of(*err),
{
    match err.kind() {
        std::io::ErrorKind::PermissionDenied => FailureKind::PermissionDenied,
        _ => FailureKind::Other,
    }
}

/// `std::io::Error::raw_os_error` gives the operating system's code for the
/// error, where there is one. The code is a property of the error.
pub assume_specification[ std::io::Error::raw_os_error ](err: &std::io::Error) -> (code: Option<i32>)
    ensures
        code == os_code_of(*err),
;

/// Whether a failure may pass by itself: permission is denied, or another
/// program shares or locks the target.
pub open spec fn passes(kind: FailureKind, code: Option<i32>) -> bool {
    kind == FailureKind::PermissionDenied || code == Some(SHARING_VIOLATION) || code == Some(
        LOCK_VIOLATION,
    )
}

/// Whether a failure of this kind and code may pass by itself.
pub fn failure_passes(kind: FailureKind, code: Option<i32>) -> (r: bool)
    ensures
        r == passes(kind, code),
{
    if kind == FailureKind::PermissionDenied {
        return true;
    }
    match code {
        Some(c) => c == SHARING_VIOLATION || c == LOCK_VIOLATION,
        None => false,
    }
}

/// Whether a write that failed with `err` is worth another attempt.
pub fn should_retry(err: &std::io::Error) -> (r: bool)
    ensures
        r == passes(kind_of(*err), os_code_of(*err)),
{
    failure_passes(failure_kind(err), err.raw_os_error())
}

/// What follows an attempt to move a temporary file to its place.
#[derive(Debug)]
pub enum PersistStep<T> {
    /// The file is in place.
    Done,
    /// Try again with the file that was handed back.
    Retry { temp: T, error: std::io::Error },
    /// The failure lasts.
    Fail { temp: T, error: std::io::Error },
}

/// Decides what follows an attempt. A failed attempt hands the temporary file
/// back, and the file stays at hand for the next one.
pub fn after_persist_attempt<T>(attempt: Result<(), (T, std::io::Error)>) -> (step: PersistStep<T>)
    ensures
        match attempt {
            Ok(()) => step == PersistStep::<T>::Done,
            Err((temp, error)) => if passes(kind_of(error), os_code_of(error)) {
                step == (PersistStep::Retry { temp, error })
            } else {
                step == (PersistStep::Fail { temp, error })
            },
        },
{
    match attempt {
        Ok(()) => PersistStep::Done,
        Err((temp, error)) => {
            if should_retry(&error) {
                PersistStep::Retry { temp, error }
            } else {
                PersistStep::Fail { temp, error }
            }
        },
    }
}

/// The report of a file that could not be put in place.
pub open spec fn persist_failure_text(target: Seq<char>, cause: Seq<char>) -> Seq<char> {
    "Failed to persist '"@ + target + "': "@ + cause
}

/// Words the report of a file that could not be put in place.
pub fn persist_failure(target: &str, cause: &str) -> (text: String)
    ensures
        text@ == persist_failure_text(target@, cause@),
{
    let mut text = "Failed to persist '".to_owned();
    text.append(target);
    text.append("': ");
    text.append(cause);
    text
}

} // verus!
