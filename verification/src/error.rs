//! The errors of the watcher.

use vstd::prelude::*;

verus! {

/// What went wrong, by the call that failed.
#[derive(PartialEq, Eq, Structural, Clone, Copy, Debug)]
pub enum ErrorKind {
    /// The notification instance could not be opened.
    OpenFailed,
    /// A watch could not be registered.
    RegisterFailed,
    /// A read from the notification instance failed.
    ReadFailed,
    /// The system's ceiling on watches could not be read.
    LimitUnavailable,
}

impl ErrorKind {
    /// The status with which the process ends on an error of this kind;
    /// `None` for a kind that does not end it.
    pub open spec fn spec_exit_status(self) -> Option<i32> {
        match self {
            ErrorKind::OpenFailed => Some(1),
            ErrorKind::LimitUnavailable => Some(2),
            ErrorKind::RegisterFailed => None,
            ErrorKind::ReadFailed => None,
        }
    }

    /// The status with which the process ends on an error of this kind;
    /// `None` for a kind that does not end it.
    #[verifier::when_used_as_spec(spec_exit_status)]
    pub fn exit_status(self) -> (r: Option<i32>)
        ensures
            r == self.spec_exit_status(),
    {
        match self {
            ErrorKind::OpenFailed => Some(1),
            ErrorKind::LimitUnavailable => Some(2),
            ErrorKind::RegisterFailed => None,
            ErrorKind::ReadFailed => None,
        }
    }

    /// Whether the watcher cannot go on after an error of this kind.
    pub fn is_fatal(self) -> (r: bool)
        ensures
            r == self.spec_exit_status() is Some,
    {
        self.exit_status().is_some()
    }
}

/// An error of the watcher: its kind, and the operating system's error code
/// where there is one, else 0.
#[derive(PartialEq, Eq, Structural, Clone, Copy, Debug)]
pub struct WatchError {
    pub kind: ErrorKind,
    pub code: i32,
}

} // verus!
