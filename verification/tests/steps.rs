use framework_bundler::console::command::{CommandDescriptor, ProcessOutput};
use framework_bundler::console::error::{Cause, Error, ErrorKind};
use framework_bundler::console::progress::{Config, ProgressGroup, ProgressHandle, Status};
use framework_bundler::console::step::{run_step, run_step_with_commands, run_tracked};
use framework_bundler::path::TreePath;

fn command(program: &str, arguments: &[&str]) -> CommandDescriptor {
    CommandDescriptor {
        program: program.to_string(),
        arguments: arguments.iter().map(|argument| argument.to_string()).collect(),
    }
}

fn success() -> ProcessOutput {
    ProcessOutput { success: true, stderr: vec![] }
}

fn failure(stderr: &str) -> ProcessOutput {
    ProcessOutput { success: false, stderr: stderr.as_bytes().to_vec() }
}

fn quiet() -> Config {
    Config { silent: true }
}

/// Runs the commands against prepared outputs and counts how many were
/// spawned.
fn drive(config: &Config, count: usize, outputs: Vec<ProcessOutput>) -> (usize, Option<Result<(), Error>>) {
    let commands = (0..count).map(|i| command("tool", &[&i.to_string()])).collect();
    let mut step = run_step_with_commands(config, "build", commands);
    let mut outputs = outputs.into_iter();
    let mut spawned = 0;
    while let Some(pending) = step.pending() {
        assert_eq!(pending.arguments, vec![spawned.to_string()]);
        spawned += 1;
        let output = outputs.next().unwrap();
        step = step.advance(output);
    }
    assert_eq!(step.spawned(), spawned);
    (spawned, step.into_outcome())
}

#[test]
fn run_step_returns_the_value_of_the_work() {
    for silent in [true, false] {
        let config = Config { silent };
        let result = run_step(&config, "compute", || Ok(41 + 1));
        assert_eq!(result, Ok(42));
    }
}

#[test]
fn run_step_returns_the_error_of_the_work() {
    for silent in [true, false] {
        let config = Config { silent };
        let result: Result<u8, Error> = run_step(&config, "compute", || {
            Err(Error::from_stderr(b"went wrong".to_vec()))
        });
        assert_eq!(result, Err(Error::from_stderr(b"went wrong".to_vec())));
    }
}

#[test]
fn run_step_runs_the_work_once() {
    let mut calls = 0;
    let result = run_step(&quiet(), "count", || {
        calls += 1;
        Ok(())
    });
    assert_eq!(result, Ok(()));
    assert_eq!(calls, 1);
}

#[test]
fn handle_starts_pending_with_its_label() {
    let hidden = ProgressHandle::new(&quiet(), "Building");
    assert_eq!(hidden.status(), Status::Pending);
    assert_eq!(hidden.label(), "Building");
    assert!(!hidden.is_visible());
    let shown = ProgressHandle::new(&Config { silent: false }, "Building");
    assert_eq!(shown.status(), Status::Pending);
    assert!(shown.is_visible());
}

#[test]
fn handle_in_a_group_is_shown_as_the_group_is() {
    let hidden = ProgressGroup::new(&quiet());
    assert!(!ProgressHandle::new_in(&hidden, "x").is_visible());
    let shown = ProgressGroup::new(&Config { silent: false });
    let handle = ProgressHandle::new_in(&shown, "x");
    assert!(handle.is_visible());
    assert_eq!(handle.label(), "x");
    assert_eq!(handle.status(), Status::Pending);
}

#[test]
fn handle_goes_from_pending_to_running_to_an_end() {
    for silent in [true, false] {
        let mut handle = ProgressHandle::new(&Config { silent }, "step");
        handle.start();
        assert_eq!(handle.status(), Status::Running);
        handle.finish();
        assert_eq!(handle.status(), Status::Succeeded);
        let mut other = ProgressHandle::new(&Config { silent }, "step");
        other.start();
        other.fail();
        assert_eq!(other.status(), Status::Failed);
    }
}

#[test]
fn handle_ignores_what_does_not_fit_its_status() {
    let mut handle = ProgressHandle::new(&quiet(), "step");
    handle.finish();
    assert_eq!(handle.status(), Status::Pending);
    handle.fail();
    assert_eq!(handle.status(), Status::Pending);
    handle.start();
    handle.start();
    assert_eq!(handle.status(), Status::Running);
    handle.end(true);
    handle.fail();
    handle.start();
    assert_eq!(handle.status(), Status::Succeeded);
}

#[test]
fn run_tracked_marks_the_handle_as_the_work_ends() {
    let mut handle = ProgressHandle::new(&quiet(), "step");
    assert_eq!(run_tracked(&mut handle, || Ok(7)), Ok(7));
    assert_eq!(handle.status(), Status::Succeeded);
    let mut other = ProgressHandle::new(&Config { silent: false }, "step");
    let result: Result<(), Error> = run_tracked(&mut other, || Err(Error::from_stderr(vec![1])));
    assert_eq!(result, Err(Error::from_stderr(vec![1])));
    assert_eq!(other.status(), Status::Failed);
}

#[test]
fn command_info_is_the_program_and_its_arguments() {
    assert_eq!(command("cargo", &["build", "--release"]).info(), "cargo build --release");
    assert_eq!(command("xcodebuild", &[]).info(), "xcodebuild");
    assert_eq!(command("echo", &[""]).info(), "echo ");
}

#[test]
fn commands_run_in_order_until_all_succeeded() {
    for silent in [true, false] {
        let config = Config { silent };
        let (spawned, outcome) = drive(&config, 3, vec![success(), success(), success()]);
        assert_eq!(spawned, 3);
        assert_eq!(outcome, Some(Ok(())));
    }
}

#[test]
fn no_command_after_the_first_failure_is_spawned() {
    for first_failure in 1..=4 {
        let mut outputs = Vec::new();
        for i in 1..=4 {
            if i == first_failure {
                outputs.push(failure(&format!("command {i} failed")));
            } else if i < first_failure {
                outputs.push(success());
            } else {
                outputs.push(failure("must never run"));
            }
        }
        let (spawned, outcome) = drive(&quiet(), 4, outputs);
        assert_eq!(spawned, first_failure);
        assert_eq!(
            outcome,
            Some(Err(Error::from_stderr(format!("command {first_failure} failed").into_bytes())))
        );
    }
}

#[test]
fn step_without_commands_has_succeeded_at_once() {
    let step = run_step_with_commands(&quiet(), "nothing", vec![]);
    assert!(step.pending().is_none());
    assert!(step.is_finished());
    assert_eq!(step.spawned(), 0);
    assert_eq!(step.status(), Status::Succeeded);
    assert_eq!(step.command_statuses(), vec![]);
    assert_eq!(step.into_outcome(), Some(Ok(())));
}

#[test]
fn handles_follow_the_commands() {
    let commands = vec![command("a", &[]), command("b", &["x"]), command("c", &[])];
    let step = run_step_with_commands(&Config { silent: false }, "three", commands);
    assert_eq!(step.status(), Status::Running);
    assert_eq!(step.command_statuses(), vec![Status::Running]);
    assert_eq!(step.pending(), Some(&command("a", &[])));
    assert!(!step.is_finished());
    let step = step.advance(success());
    assert_eq!(step.status(), Status::Running);
    assert_eq!(step.command_statuses(), vec![Status::Succeeded, Status::Running]);
    assert_eq!(step.pending(), Some(&command("b", &["x"])));
    assert_eq!(step.spawned(), 2);
    let step = step.advance(failure("boom"));
    assert_eq!(step.status(), Status::Failed);
    assert_eq!(step.command_statuses(), vec![Status::Succeeded, Status::Failed]);
    assert_eq!(step.pending(), None);
    assert_eq!(step.spawned(), 2);
    assert!(step.is_finished());
    let step = step.advance(success());
    assert_eq!(step.status(), Status::Failed);
    assert_eq!(step.command_statuses(), vec![Status::Succeeded, Status::Failed]);
    assert_eq!(step.spawned(), 2);
    let error = step.into_outcome().unwrap().unwrap_err();
    assert_eq!(error.kind(), ErrorKind::Process);
    assert_eq!(error.cause, Cause::CommandFailed { stderr: b"boom".to_vec() });
    assert_eq!(error.message(), "boom");
}

#[test]
fn last_success_ends_the_step_as_succeeded() {
    let step = run_step_with_commands(&quiet(), "two", vec![command("a", &[]), command("b", &[])]);
    let step = step.advance(success());
    assert!(!step.is_finished());
    let step = step.advance(success());
    assert!(step.is_finished());
    assert_eq!(step.status(), Status::Succeeded);
    assert_eq!(step.command_statuses(), vec![Status::Succeeded, Status::Succeeded]);
    assert_eq!(step.spawned(), 2);
    assert_eq!(step.pending(), None);
    assert_eq!(step.into_outcome(), Some(Ok(())));
}

#[test]
fn outcome_is_open_while_a_command_is_awaited() {
    let step = run_step_with_commands(&quiet(), "one", vec![command("a", &[])]);
    assert_eq!(step.into_outcome(), None);
}

#[test]
fn error_kinds_follow_the_cause() {
    let path = TreePath::root().join("p");
    assert_eq!(Cause::ListFailed { directory: path.clone() }.kind(), ErrorKind::Io);
    assert_eq!(Cause::BundleNotFound { searched: path.clone() }.kind(), ErrorKind::Validation);
    assert_eq!(Cause::MissingHeaders { headers: path.clone() }.kind(), ErrorKind::Validation);
    assert_eq!(Cause::CreateFailed { directory: path.clone() }.kind(), ErrorKind::Io);
    assert_eq!(Cause::ReadFailed { directory: path.clone() }.kind(), ErrorKind::Io);
    assert_eq!(Cause::CopyFailed { from: path.clone(), to: path.clone() }.kind(), ErrorKind::Io);
    assert_eq!(Cause::CommandFailed { stderr: vec![] }.kind(), ErrorKind::Process);
    assert_eq!(Cause::InvalidName { what: "x".to_string() }.kind(), ErrorKind::Validation);
    assert_eq!(
        Cause::OperationFailed { doing: "x".to_string(), reason: "y".to_string() }.kind(),
        ErrorKind::Io
    );
}

#[test]
fn errors_from_outside_the_tree_have_their_text() {
    let invalid = Error::new(Cause::InvalidName { what: "Output directory".to_string() });
    assert_eq!(invalid.message(), "Output directory has an invalid name!");
    let refused = Error::new(Cause::OperationFailed {
        doing: "reading out".to_string(),
        reason: "permission denied".to_string(),
    });
    assert_eq!(refused.message(), "reading out: permission denied");
}
