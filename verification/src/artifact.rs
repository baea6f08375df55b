//! What a built target left behind and how it can be run.
//!
//! Running is decided here and carried out by the caller: `run_action` says
//! what to execute, and `run_outcome` says what the end of that execution
//! amounts to.

use std::path::{Path, PathBuf};
use vstd::prelude::*;

verus! {

/// `std::path::PathBuf`, carried through as an opaque value.
#[verifier::external_type_specification]
#[verifier::external_body]
pub struct ExPathBuf(PathBuf);

/// `PathBuf::clone`: an equal path.
pub assume_specification[ <PathBuf as Clone>::clone ](path: &PathBuf) -> (copy: PathBuf)
    ensures
        copy == *path,
;

/// The directory that holds `path`, if the path names one.
pub uninterp spec fn containing_directory(path: PathBuf) -> Option<PathBuf>;

/// `Path::parent`: the path without its final component, and nothing where
/// the path ends in a root or prefix or is empty. It goes by the path's text
/// alone.
#[verifier::external_body]
fn parent_of(path: &PathBuf) -> (parent: Option<PathBuf>)
    ensures
        parent == containing_directory(*path),
{
    path.parent().map(Path::to_path_buf)
}

/// How a resolved target can be run.
#[derive(Debug, Clone)]
pub enum RunMode {
    /// Target cannot be run.
    NotRunnable,
    /// Target is run by executing a path.
    Path { path: PathBuf },
}

/// Represents a resolved target.
#[derive(Debug, Clone)]
pub struct ResolvedTarget {
    /// How the built target can be run.
    pub run_mode: RunMode,
    /// Where build artifacts are stored on the filesystem.
    pub output_path: PathBuf,
}

/// What running a resolved target asks of the caller.
#[derive(Debug)]
pub enum RunAction {
    /// There is nothing to execute: the run has succeeded.
    Nothing,
    /// Execute `program` as a child process with `directory` as its working
    /// directory, and wait for it to end.
    Execute { program: PathBuf, directory: PathBuf },
}

/// How the execution that a `RunAction` asked for ended.
#[derive(Debug, Clone, Copy)]
pub enum RunEvent {
    /// The process could not be started.
    NotStarted,
    /// The process ran and ended, with a success status or another.
    Exited { success: bool },
}

/// Why running a resolved target failed.
#[derive(Debug, Clone, Copy, PartialEq, Eq)]
pub enum RunError {
    /// The process could not be started, or ended without success.
    RunFailed,
}

impl ResolvedTarget {
    /// Whether `run_action` can say what to do: a path to execute must lie
    /// in a directory.
    pub open spec fn can_run(self) -> bool {
        match self.run_mode {
            RunMode::NotRunnable => true,
            RunMode::Path { path } => containing_directory(path) is Some,
        }
    }

    /// What running asks for: nothing for a target that cannot be run, else
    /// the execution of the path in the directory that holds it.
    pub open spec fn action(self) -> RunAction {
        match self.run_mode {
            RunMode::NotRunnable => RunAction::Nothing,
            RunMode::Path { path } => RunAction::Execute {
                program: path,
                directory: containing_directory(path)->Some_0,
            },
        }
    }

    /// What to do to run this target.
    pub fn run_action(&self) -> (action: RunAction)
        requires
            self.can_run(),
        ensures
            action == self.action(),
    {
        match &self.run_mode {
            RunMode::NotRunnable => RunAction::Nothing,
            RunMode::Path { path } => {
                let directory = parent_of(path).unwrap();
                RunAction::Execute { program: path.clone(), directory }
            },
        }
    }

    /// What to do to run this target, or nothing where its path lies in no
    /// directory.
    pub fn checked_run_action(&self) -> (action: Option<RunAction>)
        ensures
            action == if self.can_run() {
                Some(self.action())
            } else {
                None
            },
    {
        match &self.run_mode {
            RunMode::NotRunnable => Some(self.run_action()),
            RunMode::Path { path } => {
                match parent_of(path) {
                    Some(_) => Some(self.run_action()),
                    None => None,
                }
            },
        }
    }
}

impl RunError {
    /// The text of the error, for people.
    pub fn message(&self) -> (text: &'static str)
        ensures
            text@ == "cargo run failed"@,
    {
        "cargo run failed"
    }
}

/// What the end of an execution amounts to: success if the process ended
/// with a success status, a failed run otherwise.
pub fn run_outcome(event: RunEvent) -> (outcome: Result<(), RunError>)
    ensures
        outcome == (match event {
            RunEvent::Exited { success: true } => Ok::<(), RunError>(()),
            _ => Err::<(), RunError>(RunError::RunFailed),
        }),
{
    match event {
        RunEvent::Exited { success } => {
            if success {
                Ok(())
            } else {
                Err(RunError::RunFailed)
            }
        },
        RunEvent::NotStarted => Err(RunError::RunFailed),
    }
}

} // verus!
