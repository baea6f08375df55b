use starlark_dialect_build_targets::artifact::{
    run_outcome, ResolvedTarget, RunAction, RunError, RunEvent, RunMode,
};
use std::path::PathBuf;

#[test]
fn not_runnable_target_asks_for_nothing() {
    let target = ResolvedTarget {
        run_mode: RunMode::NotRunnable,
        output_path: PathBuf::from("/build/out"),
    };
    assert!(matches!(target.run_action(), RunAction::Nothing));
    assert!(matches!(target.checked_run_action(), Some(RunAction::Nothing)));
}

#[test]
fn path_target_executes_in_containing_directory() {
    let target = ResolvedTarget {
        run_mode: RunMode::Path { path: PathBuf::from("/build/out/bin/app") },
        output_path: PathBuf::from("/build/out"),
    };
    match target.run_action() {
        RunAction::Execute { program, directory } => {
            assert_eq!(program, PathBuf::from("/build/out/bin/app"));
            assert_eq!(directory, PathBuf::from("/build/out/bin"));
        }
        RunAction::Nothing => panic!("a path was to be executed"),
    }
}

#[test]
fn path_without_directory_has_no_action() {
    let target = ResolvedTarget {
        run_mode: RunMode::Path { path: PathBuf::from("/") },
        output_path: PathBuf::from("/"),
    };
    assert!(target.checked_run_action().is_none());
    let empty = ResolvedTarget {
        run_mode: RunMode::Path { path: PathBuf::new() },
        output_path: PathBuf::new(),
    };
    assert!(empty.checked_run_action().is_none());
}

#[test]
fn run_succeeds_only_on_success_status() {
    assert_eq!(run_outcome(RunEvent::Exited { success: true }), Ok(()));
    assert_eq!(run_outcome(RunEvent::Exited { success: false }), Err(RunError::RunFailed));
    assert_eq!(run_outcome(RunEvent::NotStarted), Err(RunError::RunFailed));
}

#[test]
fn run_error_message() {
    assert_eq!(RunError::RunFailed.message(), "cargo run failed");
}
