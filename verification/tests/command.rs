use std::io;

use owo_colors::OwoColorize;
use railyard::command::{
    process_stream, Action, Closing, Command, CommandReport, CommandReporter, CommandRun, Event, ExitStatus, Phase, Shown,
    Stream, StreamOutcome,
};
use railyard::error::{RailyardError, RailyardErrorKind};

const SUCCESS: ExitStatus = ExitStatus {
    success: true,
    code: Some(0),
};

fn failure(code: i32) -> ExitStatus {
    ExitStatus {
        success: false,
        code: Some(code),
    }
}

fn broken() -> io::Error {
    io::Error::new(io::ErrorKind::BrokenPipe, "broken")
}

fn command(name: &str, args: &[&str]) -> Command {
    let args = args.iter().map(|a| a.to_string()).collect();
    let (command, reporter) = Command::new(name.to_string(), args, vec!["fetch".to_string()]);
    assert_eq!(reporter.name, name);
    command
}

fn running() -> CommandRun {
    let (mut run, action) = CommandRun::start(command("build", &["cargo", "build", "-q"]));
    assert!(matches!(action, Action::AwaitDependencies));
    assert!(matches!(
        run.step(Event::DependencyReady(0)),
        Action::AcquirePermit
    ));
    match run.step(Event::PermitAcquired) {
        Action::Spawn { program, arguments } => {
            assert_eq!(program, "cargo");
            assert_eq!(arguments, vec!["build".to_string(), "-q".to_string()]);
        }
        _ => panic!("the process is to be started"),
    }
    assert!(matches!(run.step(Event::Spawned), Action::Poll));
    assert_eq!(run.phase, Phase::Running);
    run
}

fn finish(action: Action) -> (CommandReport, bool) {
    match action {
        Action::Finish(steps) => {
            let announce = steps.iter().any(|s| matches!(s, Closing::Announce));
            let mut reports: Vec<CommandReport> = steps
                .into_iter()
                .filter_map(|s| match s {
                    Closing::SendReport(report) => Some(report),
                    _ => None,
                })
                .collect();
            assert_eq!(reports.len(), 1);
            (reports.remove(0), announce)
        }
        _ => panic!("the command is to be done"),
    }
}

#[test]
fn a_command_without_a_program_is_refused() {
    let (run, action) = CommandRun::start(command("nothing", &[]));
    assert_eq!(run.phase, Phase::Done);
    let (report, announce) = finish(action);
    assert!(!announce);
    match report {
        CommandReport::Error(error) => {
            assert_eq!(error.command, "nothing");
            assert!(matches!(error.kind, RailyardErrorKind::InvalidArguments));
        }
        _ => panic!("an error was due"),
    }
}

fn closing_words(action: Action) -> Vec<&'static str> {
    match action {
        Action::Finish(steps) => steps
            .iter()
            .map(|s| match s {
                Closing::ReleasePermit => "release",
                Closing::Announce => "announce",
                Closing::SendReport(_) => "report",
                Closing::Notify => "notify",
            })
            .collect(),
        _ => panic!("the command is to be done"),
    }
}

#[test]
fn every_end_gives_the_turn_back_and_tells_once() {
    let (_, action) = CommandRun::start(command("nothing", &[]));
    assert_eq!(closing_words(action), ["report", "notify"]);
    let (mut run, _) = CommandRun::start(command("build", &["cargo"]));
    assert_eq!(
        closing_words(run.step(Event::DependencyCancelled)),
        ["report", "notify"]
    );
    let (mut run, _) = CommandRun::start(command("build", &["cargo"]));
    run.step(Event::DependencyReady(0));
    run.step(Event::PermitAcquired);
    assert_eq!(
        closing_words(run.step(Event::SpawnFailed(broken()))),
        ["report", "notify", "release"]
    );
    let ran = ["release", "announce", "report", "notify"];
    assert_eq!(closing_words(running().step(Event::Exited(Ok(SUCCESS)))), ran);
    assert_eq!(closing_words(running().step(Event::Exited(Ok(failure(1))))), ran);
    assert_eq!(closing_words(running().step(Event::Exited(Err(broken())))), ran);
    assert_eq!(
        closing_words(running().step(Event::Read(Stream::Stderr, Err(broken())))),
        ran
    );
}

#[test]
fn a_cancelled_command_is_never_started() {
    let (mut run, _) = CommandRun::start(command("build", &["cargo"]));
    let (report, announce) = finish(run.step(Event::DependencyCancelled));
    assert!(!announce);
    assert!(matches!(
        report,
        CommandReport::Error(RailyardError {
            kind: RailyardErrorKind::Cancelled,
            ..
        })
    ));
    assert_eq!(run.phase, Phase::Done);
}

#[test]
fn a_command_that_cannot_be_started_is_not_ready() {
    let (mut run, _) = CommandRun::start(command("build", &["no-such-program"]));
    run.step(Event::DependencyReady(0));
    run.step(Event::PermitAcquired);
    let (report, announce) = finish(run.step(Event::SpawnFailed(broken())));
    assert!(!announce);
    assert!(matches!(
        report,
        CommandReport::Error(RailyardError {
            kind: RailyardErrorKind::SpawnError(_),
            ..
        })
    ));
}

#[test]
fn a_failure_still_makes_the_name_ready() {
    let mut run = running();
    run.stderr_line.extend_from_slice(b"warning\n");
    match run.step(Event::Read(Stream::Stderr, Ok(8))) {
        Action::Publish(line) => assert_eq!(line, b"warning\n"),
        _ => panic!("the line is to be shown"),
    }
    assert!(run.stderr_line.is_empty());
    run.stderr_line.extend_from_slice(b"error\n");
    run.step(Event::Read(Stream::Stderr, Ok(6)));
    let (report, announce) = finish(run.step(Event::Exited(Ok(failure(101)))));
    assert!(announce);
    match report {
        CommandReport::Failed(output) => {
            assert_eq!(output.name, "build");
            assert_eq!(output.exit_code, 101);
            assert_eq!(output.buffer, b"warning\nerror\n");
        }
        _ => panic!("a failure was due"),
    }
    assert!(run.buffer.is_empty());
}

#[test]
fn a_success_makes_the_name_ready() {
    let mut run = running();
    run.stderr_line.extend_from_slice(b"fine\n");
    run.step(Event::Read(Stream::Stderr, Ok(5)));
    let (report, announce) = finish(run.step(Event::Exited(Ok(SUCCESS))));
    assert!(announce);
    assert!(matches!(report, CommandReport::Success));
    assert_eq!(run.buffer, b"fine\n");
}

#[test]
fn the_end_of_a_stream_changes_nothing() {
    let mut run = running();
    run.stderr_line.extend_from_slice(b"half");
    assert!(matches!(run.step(Event::Read(Stream::Stdout, Ok(0))), Action::Poll));
    assert!(matches!(run.step(Event::Read(Stream::Stderr, Ok(0))), Action::Poll));
    assert_eq!(run.stderr_line, b"half");
    assert!(run.buffer.is_empty());
}

#[test]
fn both_streams_are_gathered_in_the_order_of_the_reads() {
    let mut run = running();
    run.stdout_line.extend_from_slice(b"out\n");
    run.stderr_line.extend_from_slice(b"half");
    match run.step(Event::Read(Stream::Stdout, Ok(4))) {
        Action::Publish(line) => assert_eq!(line, b"out\n"),
        _ => panic!("a line is to be shown"),
    }
    assert!(run.stdout_line.is_empty());
    assert_eq!(run.stderr_line, b"half");
    run.stderr_line.extend_from_slice(b" done\n");
    match run.step(Event::Read(Stream::Stderr, Ok(6))) {
        Action::Publish(line) => assert_eq!(line, b"half done\n"),
        _ => panic!("a line is to be shown"),
    }
    assert_eq!(run.buffer, b"out\nhalf done\n");
}

#[test]
fn a_command_waits_for_every_name() {
    let names = vec!["a".to_string(), "b".to_string(), "a".to_string()];
    let (command, _) = Command::new("all".to_string(), vec!["true".to_string()], names);
    let (mut run, action) = CommandRun::start(command);
    assert!(matches!(action, Action::AwaitDependencies));
    assert!(matches!(
        run.step(Event::DependencyReady(2)),
        Action::AwaitDependencies
    ));
    assert!(matches!(
        run.step(Event::DependencyReady(0)),
        Action::AwaitDependencies
    ));
    assert_eq!(run.ready, vec![true, false, true]);
    assert!(matches!(
        run.step(Event::DependencyReady(1)),
        Action::AcquirePermit
    ));
    let (command, _) = Command::new("free".to_string(), vec!["true".to_string()], vec![]);
    let (run, action) = CommandRun::start(command);
    assert!(matches!(action, Action::AcquirePermit));
    assert_eq!(run.phase, Phase::Queued);
}

#[test]
fn errors_of_a_running_process_make_the_name_ready() {
    let mut run = running();
    let (report, announce) = finish(run.step(Event::Read(Stream::Stdout, Err(broken()))));
    assert!(announce);
    assert!(matches!(
        report,
        CommandReport::Error(RailyardError {
            kind: RailyardErrorKind::StreamError(_),
            ..
        })
    ));
    let mut run = running();
    let (report, announce) = finish(run.step(Event::Exited(Err(broken()))));
    assert!(announce);
    assert!(matches!(
        report,
        CommandReport::Error(RailyardError {
            kind: RailyardErrorKind::CommandError(_),
            ..
        })
    ));
}

#[test]
fn a_read_moves_the_line_to_the_buffer() {
    let command = command("build", &["cargo"]);
    let mut line = b"two\n".to_vec();
    let mut buffer = b"one\n".to_vec();
    match process_stream(Ok(4), &mut line, &mut buffer, &command) {
        StreamOutcome::Line(shown) => assert_eq!(shown, b"two\n"),
        _ => panic!("a line was due"),
    }
    assert!(line.is_empty());
    assert_eq!(buffer, b"one\ntwo\n");
    assert!(matches!(
        process_stream(Ok(0), &mut line, &mut buffer, &command),
        StreamOutcome::Ended
    ));
    match process_stream(Err(broken()), &mut line, &mut buffer, &command) {
        StreamOutcome::Failed(CommandReport::Error(error)) => {
            assert_eq!(error.command, "build");
            assert!(matches!(error.kind, RailyardErrorKind::StreamError(_)));
        }
        _ => panic!("an error was due"),
    }
    assert_eq!(buffer, b"one\ntwo\n");
}

#[test]
fn a_failure_takes_the_buffer() {
    let command = command("build", &["cargo"]);
    let mut buffer = b"text".to_vec();
    assert!(matches!(
        CommandReport::build(Ok(SUCCESS), &mut buffer, &command),
        CommandReport::Success
    ));
    assert_eq!(buffer, b"text");
    match CommandReport::build(Ok(failure(2)), &mut buffer, &command) {
        CommandReport::Failed(output) => assert_eq!(output.buffer, b"text"),
        _ => panic!("a failure was due"),
    }
    assert!(buffer.is_empty());
}

fn finished(outcome: CommandReport) -> (String, Option<String>) {
    let reporter = CommandReporter {
        name: "build".to_string(),
    };
    match reporter.report(Some(outcome), None) {
        Shown::Finished {
            message,
            error_heading,
            ..
        } => (message, error_heading),
        _ => panic!("the command is done"),
    }
}

fn error(kind: RailyardErrorKind) -> CommandReport {
    CommandReport::Error(RailyardError {
        command: "build".to_string(),
        kind,
    })
}

#[test]
fn outcomes_are_shown_in_colour() {
    assert_eq!(
        finished(CommandReport::Success),
        ("\x1b[1m\x1b[32msuccess\x1b[39m\x1b[0m".to_string(), None)
    );
    assert_eq!(
        finished(error(RailyardErrorKind::Cancelled)),
        ("\x1b[1m\x1b[2mcancelled\x1b[0m\x1b[0m".to_string(), None)
    );
    assert_eq!(
        finished(error(RailyardErrorKind::SpawnError(broken()))),
        (
            "\x1b[31minternal error\x1b[39m".to_string(),
            Some("[\x1b[31mINTERNAL ERROR\x1b[39m] ".to_string())
        )
    );
    let mut buffer = Vec::new();
    let report = CommandReport::build(Ok(failure(-3)), &mut buffer, &command("build", &["x"]));
    assert_eq!(
        finished(report),
        ("\x1b[1m\x1b[31mexited\x1b[39m\x1b[0m with -3".to_string(), None)
    );
}

#[test]
fn styles_nest_as_the_colour_crate_nests_them() {
    assert_eq!(
        finished(CommandReport::Success).0,
        format!("{}", "success".green().bold())
    );
    assert_eq!(
        finished(error(RailyardErrorKind::Cancelled)).0,
        format!("{}", "cancelled".dimmed().bold())
    );
    assert_eq!(
        finished(error(RailyardErrorKind::InvalidArguments)),
        (
            format!("{}", "internal error".red()),
            Some(format!("[{}] ", "INTERNAL ERROR".red()))
        )
    );
}

#[test]
fn lines_are_shown_where_they_are_text() {
    let reporter = CommandReporter {
        name: "build".to_string(),
    };
    let text = "h\u{e9}llo\n".as_bytes().to_vec();
    match reporter.report(None, Some(&text)) {
        Shown::Line(line) => assert_eq!(line, "h\u{e9}llo\n"),
        _ => panic!("a line was due"),
    }
    assert!(matches!(
        reporter.report(None, Some(&vec![0xff, 0xfe])),
        Shown::Nothing
    ));
    assert!(matches!(reporter.report(None, None), Shown::Nothing));
}

#[test]
fn errors_have_exit_codes() {
    assert_eq!(RailyardErrorKind::InvalidArguments.report(), 2);
    assert_eq!(RailyardErrorKind::SpawnError(broken()).report(), 2);
    assert_eq!(RailyardErrorKind::CommandError(broken()).report(), 3);
    assert_eq!(RailyardErrorKind::StreamError(broken()).report(), 3);
    let error = RailyardError {
        command: "build".to_string(),
        kind: RailyardErrorKind::StreamError(broken()),
    };
    assert_eq!(error.report(), 3);
}

#[test]
fn no_more_processes_run_than_there_are_turns() {
    let jobs = 2;
    let mut free = jobs;
    let mut most = 0;
    let mut waiting: Vec<CommandRun> = (0..5)
        .map(|i| {
            let (command, _) = Command::new(format!("c{}", i), vec!["true".to_string()], vec![]);
            let (run, action) = CommandRun::start(command);
            assert!(matches!(action, Action::AcquirePermit));
            run
        })
        .collect();
    let mut active: Vec<CommandRun> = Vec::new();
    while !waiting.is_empty() || !active.is_empty() {
        while free > 0 && !waiting.is_empty() {
            let mut run = waiting.remove(0);
            free -= 1;
            run.step(Event::PermitAcquired);
            run.step(Event::Spawned);
            active.push(run);
        }
        most = most.max(active.len());
        let mut run = active.remove(0);
        match run.step(Event::Exited(Ok(failure(1)))) {
            Action::Finish(steps) => {
                free += steps
                    .iter()
                    .filter(|s| matches!(s, Closing::ReleasePermit))
                    .count();
            }
            _ => panic!("the command is to be done"),
        }
    }
    assert_eq!(most, jobs);
    assert_eq!(free, jobs);
}

#[test]
fn a_command_whose_name_never_comes_can_only_be_given_up() {
    let names = vec!["comes".to_string(), "never".to_string()];
    let (command, _) = Command::new("late".to_string(), vec!["true".to_string()], names);
    let (mut run, _) = CommandRun::start(command);
    assert!(matches!(
        run.step(Event::DependencyReady(0)),
        Action::AwaitDependencies
    ));
    match run.step(Event::DependencyCancelled) {
        Action::Finish(steps) => {
            assert_eq!(steps.len(), 2);
            assert!(matches!(
                &steps[0],
                Closing::SendReport(CommandReport::Error(RailyardError {
                    command,
                    kind: RailyardErrorKind::Cancelled,
                })) if command == "late"
            ));
            assert!(matches!(&steps[1], Closing::Notify));
        }
        _ => panic!("the command is to be done"),
    }
}
