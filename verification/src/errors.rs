//! Typed failures surfaced by the library and the binary around it.

use vstd::prelude::*;

verus! {

use vstd::string::StringExecFns;

/// Everything that can abort a command. Failures are surfaced to the top
/// level; none are silently swallowed.
#[derive(Debug)]
pub enum StError {
    /// No active repository was found.
    NotAGitRepository,
    /// An expected ref or target is missing.
    BranchUnavailable,
    /// A branch name was looked up in the tree and is not tracked there.
    BranchNotTracked(String),
    /// The remote host's API failed; carries the host-level detail.
    RemoteApiFailure(String),
    /// The user aborted an interactive prompt.
    PromptCancelled,
    /// The credential or settings failed validation.
    ConfigInvalid,
    /// The working tree has uncommitted modifications.
    WorkingTreeDirty,
    /// A branch in the stack is not based on its parent's tip and must be
    /// restacked before the stack can be submitted.
    NeedsRestack(String),
}

impl StError {
    /// A short human-readable description of the failure.
    pub fn message(&self) -> String {
        match self {
            StError::NotAGitRepository => "not within a git repository".to_owned(),
            StError::BranchUnavailable => "branch or target unavailable".to_owned(),
            StError::BranchNotTracked(name) => {
                let mut m = "branch is not tracked: ".to_owned();
                m.append(name.as_str());
                m
            },
            StError::RemoteApiFailure(detail) => {
                let mut m = "remote host API failure: ".to_owned();
                m.append(detail.as_str());
                m
            },
            StError::PromptCancelled => "prompt cancelled".to_owned(),
            StError::ConfigInvalid => "configuration is invalid".to_owned(),
            StError::WorkingTreeDirty => "working tree has uncommitted changes".to_owned(),
            StError::NeedsRestack(name) => {
                let mut m = "branch must be restacked: ".to_owned();
                m.append(name.as_str());
                m
            },
        }
    }
}

/// The library's result type.
pub type StResult<T> = Result<T, StError>;

} // verus!
