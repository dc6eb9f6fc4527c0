//! One command: from waiting for what it depends on to the report of its end.

use vstd::prelude::*;
use vstd::utf8::{decode_utf8, valid_utf8};

use crate::error::{RailyardError, RailyardErrorKind};
use crate::style::{bold, dimmed, green, in_bold, in_dim, in_green, in_red, red};
use crate::text::{copied, integer, integer_text, texts};

verus! {

/// A command: its name, the program and the arguments it runs, and the names
/// it waits for.
pub struct Command {
    pub name: String,
    pub args: Vec<String>,
    pub dependencies: Vec<String>,
}

/// What a [`Command`] says.
pub struct CommandView {
    pub name: Seq<char>,
    pub args: Seq<Seq<char>>,
    pub dependencies: Seq<Seq<char>>,
}

impl View for Command {
    type V = CommandView;

    open spec fn view(&self) -> CommandView {
        CommandView {
            name: self.name@,
            args: texts(self.args@),
            dependencies: texts(self.dependencies@),
        }
    }
}

/// The part of a command that shows how it fares.
pub struct CommandReporter {
    pub name: String,
}

/// How a process ended.
#[derive(PartialEq, Eq, Structural, Clone, Copy, Debug)]
pub struct ExitStatus {
    /// Whether it ended well.
    pub success: bool,
    /// Its exit code, where it ended by itself.
    pub code: Option<i32>,
}

/// What a command that failed left behind.
#[derive(Debug)]
pub struct CommandOutput {
    pub name: String,
    pub exit_code: i32,
    pub buffer: Vec<u8>,
}

/// What a [`CommandOutput`] says.
pub struct OutputView {
    pub name: Seq<char>,
    pub exit_code: i32,
    pub buffer: Seq<u8>,
}

impl View for CommandOutput {
    type V = OutputView;

    open spec fn view(&self) -> OutputView {
        OutputView { name: self.name@, exit_code: self.exit_code, buffer: self.buffer@ }
    }
}

/// What became of a command.
#[derive(Debug)]
pub enum CommandReport {
    Success,
    Error(RailyardError),
    Failed(CommandOutput),
}

/// What a [`CommandReport`] says.
pub enum ReportView {
    Success,
    Error { command: Seq<char>, kind: RailyardErrorKind },
    Failed(OutputView),
}

impl View for CommandReport {
    type V = ReportView;

    open spec fn view(&self) -> ReportView {
        match self {
            CommandReport::Success => ReportView::Success,
            CommandReport::Error(error) => ReportView::Error { command: error.command@, kind: error.kind },
            CommandReport::Failed(output) => ReportView::Failed(output@),
        }
    }
}

/// Whether an end can be reported: a process that was stopped from outside has
/// no exit code to report.
pub open spec fn reportable(end: Result<ExitStatus, std::io::Error>) -> bool {
    end matches Ok(status) ==> status.success || status.code is Some
}

/// The report on a process of the command `name` that ended, or could not be
/// awaited, after `buffer` had been gathered.
pub open spec fn end_report(
    end: Result<ExitStatus, std::io::Error>,
    buffer: Seq<u8>,
    name: Seq<char>,
) -> ReportView {
    match end {
        Ok(status) => if status.success {
            ReportView::Success
        } else {
            ReportView::Failed(OutputView { name, exit_code: status.code->0, buffer })
        },
        Err(error) => ReportView::Error { command: name, kind: RailyardErrorKind::CommandError(error) },
    }
}

impl CommandReport {
    /// Reports on a process that ended or could not be awaited. What was
    /// gathered of the output of a failure moves into its report.
    pub fn build(
        value: Result<ExitStatus, std::io::Error>,
        buffer: &mut Vec<u8>,
        command: &Command,
    ) -> (report: CommandReport)
        requires
            reportable(value),
        ensures
            report@ == end_report(value, old(buffer)@, command.name@),
            report is Success <==> value is Ok && value->Ok_0.success,
            report is Failed <==> value is Ok && !value->Ok_0.success,
            report matches CommandReport::Failed(output) ==> value->Ok_0.code == Some(output.exit_code)
                && output.name@ == command.name@ && output.buffer@ == old(buffer)@,
            report matches CommandReport::Error(error) ==> error.command@ == command.name@ && error.kind
                == RailyardErrorKind::CommandError(value->Err_0),
            final(buffer)@ == if report is Failed {
                Seq::<u8>::empty()
            } else {
                old(buffer)@
            },
    {
        match value {
            Ok(status) => {
                if status.success {
                    CommandReport::Success
                } else {
                    let mut output: Vec<u8> = Vec::new();
                    std::mem::swap(&mut output, buffer);
                    CommandReport::Failed(
                        CommandOutput {
                            name: command.name.clone(),
                            exit_code: status.code.unwrap(),
                            buffer: output,
                        },
                    )
                }
            },
            Err(error) => CommandReport::Error(
                RailyardError {
                    command: command.name.clone(),
                    kind: RailyardErrorKind::CommandError(error),
                },
            ),
        }
    }
}

/// What a read from a stream of a process came to.
pub enum StreamOutcome {
    /// Nothing came.
    Ended,
    /// A line is to be shown.
    Line(Vec<u8>),
    /// The stream could not be read.
    Failed(CommandReport),
}

/// Takes up the result of reading from a stream of a process: where something
/// came, `line` moves to the end of `buffer` and is to be shown.
pub fn process_stream(
    output: Result<usize, std::io::Error>,
    line: &mut Vec<u8>,
    buffer: &mut Vec<u8>,
    command: &Command,
) -> (outcome: StreamOutcome)
    ensures
        match output {
            Ok(n) => if n == 0 {
                &&& outcome is Ended
                &&& final(line)@ == old(line)@
                &&& final(buffer)@ == old(buffer)@
            } else {
                &&& outcome matches StreamOutcome::Line(shown) && shown@ == old(line)@
                &&& final(line)@ == Seq::<u8>::empty()
                &&& final(buffer)@ == old(buffer)@ + old(line)@
            },
            Err(error) => {
                &&& outcome matches StreamOutcome::Failed(report) && report@ == (ReportView::Error {
                    command: command.name@,
                    kind: RailyardErrorKind::StreamError(error),
                })
                &&& final(line)@ == old(line)@
                &&& final(buffer)@ == old(buffer)@
            },
        },
{
    match output {
        Ok(n) => {
            if n == 0 {
                StreamOutcome::Ended
            } else {
                let ghost gathered = buffer@;
                let mut shown: Vec<u8> = Vec::new();
                std::mem::swap(&mut shown, line);
                buffer.extend_from_slice(shown.as_slice());
                assert(buffer@ == gathered + shown@);
                StreamOutcome::Line(shown)
            }
        },
        Err(error) => StreamOutcome::Failed(
            CommandReport::Error(
                RailyardError {
                    command: command.name.clone(),
                    kind: RailyardErrorKind::StreamError(error),
                },
            ),
        ),
    }
}

/// How far a command has come.
#[derive(PartialEq, Eq, Structural, Clone, Copy, Debug)]
pub enum Phase {
    /// It waits for what it depends on.
    Waiting,
    /// It waits for its turn.
    Queued,
    /// Its process is being started.
    Spawning,
    /// Its process runs.
    Running,
    /// Its report is out.
    Done,
}

/// The streams that a process writes to.
#[derive(PartialEq, Eq, Structural, Clone, Copy, Debug)]
pub enum Stream {
    Stdout,
    Stderr,
}

/// What happens to a command.
pub enum Event {
    /// The name at this place among those it waits for is ready.
    DependencyReady(usize),
    /// A name it waits for will not come.
    DependencyCancelled,
    /// It is its turn.
    PermitAcquired,
    /// Its process runs.
    Spawned,
    /// Its process could not be started.
    SpawnFailed(std::io::Error),
    /// A stream of its process was read, up to and with a newline.
    Read(Stream, Result<usize, std::io::Error>),
    /// Its process ended.
    Exited(Result<ExitStatus, std::io::Error>),
}

/// What is to be done for a command.
pub enum Action {
    /// Wait for the names that are not ready yet.
    AwaitDependencies,
    /// Wait for its turn.
    AcquirePermit,
    /// Start its process, with both output streams to be read.
    Spawn { program: String, arguments: Vec<String> },
    /// Read on, until something comes or the process ends.
    Poll,
    /// Show a line and read on.
    Publish(Vec<u8>),
    /// Do these things, in this order, and nothing after them.
    Finish(Vec<Closing>),
}

/// Something to be done when a command is done.
pub enum Closing {
    /// End its turn.
    ReleasePermit,
    /// Make its name ready.
    Announce,
    /// Hand its report out.
    SendReport(CommandReport),
    /// Tell the run that one more of its commands is done.
    Notify,
}

/// What a [`Closing`] says.
pub enum ClosingView {
    ReleasePermit,
    Announce,
    SendReport(ReportView),
    Notify,
}

impl View for Closing {
    type V = ClosingView;

    open spec fn view(&self) -> ClosingView {
        match self {
            Closing::ReleasePermit => ClosingView::ReleasePermit,
            Closing::Announce => ClosingView::Announce,
            Closing::SendReport(report) => ClosingView::SendReport(report@),
            Closing::Notify => ClosingView::Notify,
        }
    }
}

/// What each of the closing steps says.
pub open spec fn closing_views(steps: Seq<Closing>) -> Seq<ClosingView> {
    steps.map_values(|c: Closing| c@)
}

/// What an [`Action`] says.
pub enum ActionView {
    AwaitDependencies,
    AcquirePermit,
    Spawn { program: Seq<char>, arguments: Seq<Seq<char>> },
    Poll,
    Publish(Seq<u8>),
    Finish(Seq<ClosingView>),
}

impl View for Action {
    type V = ActionView;

    open spec fn view(&self) -> ActionView {
        match self {
            Action::AwaitDependencies => ActionView::AwaitDependencies,
            Action::AcquirePermit => ActionView::AcquirePermit,
            Action::Spawn { program, arguments } => ActionView::Spawn {
                program: program@,
                arguments: texts(arguments@),
            },
            Action::Poll => ActionView::Poll,
            Action::Publish(line) => ActionView::Publish(line@),
            Action::Finish(steps) => ActionView::Finish(closing_views(steps@)),
        }
    }
}

/// A command on its way. What is read from the process goes to the end of
/// `stdout_line` and `stderr_line`, up to and with a newline at a time.
pub struct CommandRun {
    pub command: Command,
    pub phase: Phase,
    /// Which of the names it waits for are ready.
    pub ready: Vec<bool>,
    pub stdout_line: Vec<u8>,
    pub stderr_line: Vec<u8>,
    pub buffer: Vec<u8>,
}

/// What a [`CommandRun`] says.
pub struct RunView {
    pub command: CommandView,
    pub phase: Phase,
    pub ready: Seq<bool>,
    pub stdout_line: Seq<u8>,
    pub stderr_line: Seq<u8>,
    pub buffer: Seq<u8>,
}

impl RunView {
    /// What was read of a stream and not taken up yet.
    pub open spec fn line(self, stream: Stream) -> Seq<u8> {
        match stream {
            Stream::Stdout => self.stdout_line,
            Stream::Stderr => self.stderr_line,
        }
    }

    /// Whether the command has its turn: from when it gets it until it is done.
    pub open spec fn holds_turn(self) -> bool {
        self.phase == Phase::Spawning || self.phase == Phase::Running
    }
}

impl View for CommandRun {
    type V = RunView;

    open spec fn view(&self) -> RunView {
        RunView {
            command: self.command@,
            phase: self.phase,
            ready: self.ready@,
            stdout_line: self.stdout_line@,
            stderr_line: self.stderr_line@,
            buffer: self.buffer@,
        }
    }
}

/// How a command ends whose process never ran: nothing that waits for it is
/// told that it is ready, and its turn ends where it has it.
pub open spec fn refusal(run: RunView, kind: RailyardErrorKind) -> ActionView {
    let told = seq![
        ClosingView::SendReport(ReportView::Error { command: run.command.name, kind }),
        ClosingView::Notify,
    ];
    ActionView::Finish(
        if run.holds_turn() {
            told.push(ClosingView::ReleasePermit)
        } else {
            told
        },
    )
}

/// How a command ends whose process ran: its turn ends, and then its name is
/// ready, whatever the report says.
pub open spec fn ending(report: ReportView) -> ActionView {
    ActionView::Finish(
        seq![
            ClosingView::ReleasePermit,
            ClosingView::Announce,
            ClosingView::SendReport(report),
            ClosingView::Notify,
        ],
    )
}

/// Whether all of some things are so.
pub open spec fn all_true(flags: Seq<bool>) -> bool {
    forall|k: int| 0 <= k < flags.len() ==> #[trigger] flags[k]
}

/// A command that has a program to run and waits, or stands in line where
/// everything it waits for is ready.
pub open spec fn waiting(run: RunView) -> (RunView, ActionView) {
    if all_true(run.ready) {
        (RunView { phase: Phase::Queued, ..run }, ActionView::AcquirePermit)
    } else {
        (RunView { phase: Phase::Waiting, ..run }, ActionView::AwaitDependencies)
    }
}

/// How a command starts: it waits, unless it has no program to run.
pub open spec fn start(command: CommandView) -> (RunView, ActionView) {
    let run = RunView {
        command,
        phase: Phase::Done,
        ready: Seq::new(command.dependencies.len(), |k: int| false),
        stdout_line: Seq::empty(),
        stderr_line: Seq::empty(),
        buffer: Seq::empty(),
    };
    if command.args.len() == 0 {
        (run, refusal(run, RailyardErrorKind::InvalidArguments))
    } else {
        waiting(run)
    }
}

/// Whether an event can happen to a command that has come this far.
pub open spec fn possible(run: RunView, event: Event) -> bool {
    match event {
        Event::DependencyReady(k) => run.phase == Phase::Waiting && k < run.ready.len() && !run.ready[k as int],
        Event::DependencyCancelled => run.phase == Phase::Waiting,
        Event::PermitAcquired => run.phase == Phase::Queued,
        Event::Spawned | Event::SpawnFailed(_) => run.phase == Phase::Spawning,
        Event::Read(..) => run.phase == Phase::Running,
        Event::Exited(end) => run.phase == Phase::Running && reportable(end),
    }
}

/// How a read from one of the streams of a running process is taken up: where
/// something came, the line of that stream moves to the gathered output and is
/// shown.
pub open spec fn after_read(
    run: RunView,
    stream: Stream,
    output: Result<usize, std::io::Error>,
) -> (RunView, ActionView) {
    match output {
        Ok(n) => if n == 0 {
            (run, ActionView::Poll)
        } else {
            match stream {
                Stream::Stdout => (
                    RunView { stdout_line: Seq::empty(), buffer: run.buffer + run.stdout_line, ..run },
                    ActionView::Publish(run.stdout_line),
                ),
                Stream::Stderr => (
                    RunView { stderr_line: Seq::empty(), buffer: run.buffer + run.stderr_line, ..run },
                    ActionView::Publish(run.stderr_line),
                ),
            }
        },
        Err(error) => (
            RunView { phase: Phase::Done, ..run },
            ending(
                ReportView::Error {
                    command: run.command.name,
                    kind: RailyardErrorKind::StreamError(error),
                },
            ),
        ),
    }
}

/// How a command takes up an event: how far it has come then, and what is to
/// be done.
pub open spec fn turn(run: RunView, event: Event) -> (RunView, ActionView) {
    match event {
        Event::DependencyReady(k) => waiting(RunView { ready: run.ready.update(k as int, true), ..run }),
        Event::DependencyCancelled => (
            RunView { phase: Phase::Done, ..run },
            refusal(run, RailyardErrorKind::Cancelled),
        ),
        Event::PermitAcquired => (
            RunView { phase: Phase::Spawning, ..run },
            ActionView::Spawn {
                program: run.command.args[0],
                arguments: run.command.args.skip(1),
            },
        ),
        Event::Spawned => (RunView { phase: Phase::Running, ..run }, ActionView::Poll),
        Event::SpawnFailed(error) => (
            RunView { phase: Phase::Done, ..run },
            refusal(run, RailyardErrorKind::SpawnError(error)),
        ),
        Event::Read(stream, output) => after_read(run, stream, output),
        Event::Exited(end) => {
            let report = end_report(end, run.buffer, run.command.name);
            (
                RunView {
                    phase: Phase::Done,
                    buffer: if report is Failed { Seq::empty() } else { run.buffer },
                    ..run
                },
                ending(report),
            )
        },
    }
}

impl Command {
    /// A command and the part of it that shows how it fares.
    pub fn new(name: String, args: Vec<String>, dependencies: Vec<String>) -> (parts: (
        Command,
        CommandReporter,
    ))
        ensures
            parts.0@ == (CommandView {
                name: name@,
                args: texts(args@),
                dependencies: texts(dependencies@),
            }),
            parts.1.name@ == name@,
    {
        let reporter = CommandReporter { name: name.clone() };
        let command = Command { name, args, dependencies };
        (command, reporter)
    }
}

impl CommandRun {
    /// A command that was started has a program to run, until it is done, and
    /// each name it waits for is ready or not.
    pub open spec fn wf(self) -> bool {
        &&& self.phase != Phase::Done ==> self.command.args@.len() > 0
        &&& self.ready@.len() == self.command.dependencies@.len()
    }

    /// Starts a command.
    pub fn start(command: Command) -> (started: (CommandRun, Action))
        ensures
            started.0.wf(),
            (started.0@, started.1@) == start(command@),
    {
        let mut ready: Vec<bool> = Vec::new();
        for k in 0..command.dependencies.len()
            invariant
                ready@ == Seq::new(k as nat, |k: int| false),
        {
            ready.push(false);
            assert(ready@ =~= Seq::new((k + 1) as nat, |k: int| false));
        }
        let mut run = CommandRun {
            command,
            phase: Phase::Done,
            ready,
            stdout_line: Vec::new(),
            stderr_line: Vec::new(),
            buffer: Vec::new(),
        };
        let action = if run.command.args.len() == 0 {
            run.refuse(RailyardErrorKind::InvalidArguments)
        } else {
            run.wait()
        };
        (run, action)
    }

    fn wait(&mut self) -> (action: Action)
        requires
            old(self).command.args@.len() > 0,
            old(self).wf(),
        ensures
            final(self).wf(),
            (final(self)@, action@) == waiting(old(self)@),
    {
        let mut k: usize = 0;
        while k < self.ready.len() && self.ready[k]
            invariant
                k <= self.ready@.len(),
                forall|j: int| 0 <= j < k ==> #[trigger] self.ready@[j],
            decreases self.ready@.len() - k,
        {
            k = k + 1;
        }
        if k == self.ready.len() {
            self.phase = Phase::Queued;
            Action::AcquirePermit
        } else {
            self.phase = Phase::Waiting;
            Action::AwaitDependencies
        }
    }

    fn refuse(&self, kind: RailyardErrorKind) -> (action: Action)
        ensures
            action@ == refusal(self@, kind),
    {
        let error = RailyardError { command: self.command.name.clone(), kind };
        let mut steps: Vec<Closing> = Vec::new();
        steps.push(Closing::SendReport(CommandReport::Error(error)));
        steps.push(Closing::Notify);
        if self.phase == Phase::Spawning || self.phase == Phase::Running {
            steps.push(Closing::ReleasePermit);
        }
        assert(closing_views(steps@) =~= refusal(self@, kind)->Finish_0);
        Action::Finish(steps)
    }

    fn end(report: CommandReport) -> (action: Action)
        ensures
            action@ == ending(report@),
    {
        let mut steps: Vec<Closing> = Vec::new();
        steps.push(Closing::ReleasePermit);
        steps.push(Closing::Announce);
        steps.push(Closing::SendReport(report));
        steps.push(Closing::Notify);
        assert(closing_views(steps@) =~= ending(report@)->Finish_0);
        Action::Finish(steps)
    }

    fn read(&mut self, stream: Stream, output: Result<usize, std::io::Error>) -> (action: Action)
        requires
            old(self).wf(),
        ensures
            final(self).wf(),
            (final(self)@, action@) == after_read(old(self)@, stream, output),
    {
        let outcome = match stream {
            Stream::Stdout => process_stream(output, &mut self.stdout_line, &mut self.buffer, &self.command),
            Stream::Stderr => process_stream(output, &mut self.stderr_line, &mut self.buffer, &self.command),
        };
        match outcome {
            StreamOutcome::Ended => Action::Poll,
            StreamOutcome::Line(line) => Action::Publish(line),
            StreamOutcome::Failed(report) => {
                self.phase = Phase::Done;
                Self::end(report)
            },
        }
    }

    /// Takes up an event.
    pub fn step(&mut self, event: Event) -> (action: Action)
        requires
            old(self).wf(),
            possible(old(self)@, event),
        ensures
            final(self).wf(),
            (final(self)@, action@) == turn(old(self)@, event),
    {
        match event {
            Event::DependencyReady(k) => {
                self.ready.set(k, true);
                self.wait()
            },
            Event::DependencyCancelled => {
                let action = self.refuse(RailyardErrorKind::Cancelled);
                self.phase = Phase::Done;
                action
            },
            Event::PermitAcquired => {
                self.phase = Phase::Spawning;
                let program = self.command.args[0].clone();
                let all = self.command.args.as_slice();
                let arguments = copied(vstd::slice::slice_subrange(all, 1, all.len()));
                assert(texts(arguments@) =~= texts(self.command.args@).skip(1));
                Action::Spawn { program, arguments }
            },
            Event::Spawned => {
                self.phase = Phase::Running;
                Action::Poll
            },
            Event::SpawnFailed(error) => {
                let action = self.refuse(RailyardErrorKind::SpawnError(error));
                self.phase = Phase::Done;
                action
            },
            Event::Read(stream, output) => self.read(stream, output),
            Event::Exited(end) => {
                self.phase = Phase::Done;
                let report = CommandReport::build(end, &mut self.buffer, &self.command);
                Self::end(report)
            },
        }
    }
}

/// What is shown of a command that is done.
pub open spec fn outcome_message(outcome: ReportView) -> Seq<char> {
    match outcome {
        ReportView::Success => in_bold(in_green("success"@)),
        ReportView::Error { command: _, kind } => if kind is Cancelled {
            in_bold(in_dim("cancelled"@))
        } else {
            in_red("internal error"@)
        },
        ReportView::Failed(output) => in_bold(in_red("exited"@)) + " with "@ + integer(
            output.exit_code as int,
        ),
    }
}

/// Whether a report tells of an error that is to be printed in full.
pub open spec fn is_internal_error(outcome: ReportView) -> bool {
    outcome matches ReportView::Error { command: _, kind } && !(kind is Cancelled)
}

/// What a reporter has to show.
pub enum Shown {
    /// The command is done. An error is printed in full behind the heading
    /// that is given for it.
    Finished { message: String, error_heading: Option<String>, outcome: CommandReport },
    /// The command wrote a line.
    Line(String),
    /// There is nothing new that can be shown.
    Nothing,
}

/// Reads bytes as text, by `String::from_utf8`: they are the text that they
/// encode in UTF-8, or no text at all.
#[verifier::external_body]
fn utf8_text(bytes: Vec<u8>) -> (text: Option<String>)
    ensures
        text is Some <==> valid_utf8(bytes@),
        text matches Some(t) ==> t@ == decode_utf8(bytes@),
{
    String::from_utf8(bytes).ok()
}

impl CommandReporter {
    /// Says what to show, of the report of the command where it is out, else
    /// of the last line that the command wrote.
    pub fn report(&self, outcome: Option<CommandReport>, line: Option<&Vec<u8>>) -> (shown: Shown)
        ensures
            match outcome {
                Some(report) => {
                    &&& shown matches Shown::Finished { message, error_heading, outcome: handed }
                    &&& handed == report
                    &&& message@ == outcome_message(report@)
                    &&& match error_heading {
                        Some(heading) => is_internal_error(report@) && heading@ == "["@ + in_red(
                            "INTERNAL ERROR"@,
                        ) + "] "@,
                        None => !is_internal_error(report@),
                    }
                },
                None => match line {
                    Some(bytes) => if valid_utf8(bytes@) {
                        shown matches Shown::Line(text) && text@ == decode_utf8(bytes@)
                    } else {
                        shown is Nothing
                    },
                    None => shown is Nothing,
                },
            },
            outcome matches Some(CommandReport::Error(error)) ==> (shown->error_heading is Some <==> !(
            error.kind is Cancelled)),
            outcome is Some && !(outcome->0 is Error) ==> shown->error_heading is None,
    {
        match outcome {
            Some(report) => {
                let message = match &report {
                    CommandReport::Success => bold(green("success").as_str()),
                    CommandReport::Error(error) => match &error.kind {
                        RailyardErrorKind::Cancelled => bold(dimmed("cancelled").as_str()),
                        _ => red("internal error"),
                    },
                    CommandReport::Failed(output) => {
                        let mut text = bold(red("exited").as_str());
                        text.append(" with ");
                        text.append(integer_text(output.exit_code).as_str());
                        text
                    },
                };
                let error_heading = match &report {
                    CommandReport::Error(error) => match &error.kind {
                        RailyardErrorKind::Cancelled => None,
                        _ => {
                            let mut heading = String::from_str("[");
                            heading.append(red("INTERNAL ERROR").as_str());
                            heading.append("] ");
                            Some(heading)
                        },
                    },
                    _ => None,
                };
                Shown::Finished { message, error_heading, outcome: report }
            },
            None => match line {
                Some(bytes) => {
                    let mut copy: Vec<u8> = Vec::new();
                    copy.extend_from_slice(bytes.as_slice());
                    assert(copy@ == bytes@);
                    match utf8_text(copy) {
                        Some(text) => Shown::Line(text),
                        None => Shown::Nothing,
                    }
                },
                None => Shown::Nothing,
            },
        }
    }
}

/// What is shown of a command that is done: that it succeeded, that it was
/// cancelled, that there was an error, or the exit code of its process.
pub proof fn lemma_outcome_messages(command: Seq<char>, kind: RailyardErrorKind, output: OutputView)
    ensures
        outcome_message(ReportView::Success) == "\x1b[1m"@ + ("\x1b[32m"@ + "success"@ + "\x1b[39m"@) + "\x1b[0m"@,
        kind is Cancelled ==> outcome_message(ReportView::Error { command, kind }) == "\x1b[1m"@ + ("\x1b[2m"@
            + "cancelled"@ + "\x1b[0m"@) + "\x1b[0m"@,
        !(kind is Cancelled) ==> outcome_message(ReportView::Error { command, kind }) == "\x1b[31m"@
            + "internal error"@ + "\x1b[39m"@,
        outcome_message(ReportView::Failed(output)) == "\x1b[1m"@ + ("\x1b[31m"@ + "exited"@ + "\x1b[39m"@)
            + "\x1b[0m"@ + " with "@ + integer(output.exit_code as int),
        is_internal_error(ReportView::Error { command, kind }) <==> !(kind is Cancelled),
        !is_internal_error(ReportView::Success),
        !is_internal_error(ReportView::Failed(output)),
{
}

/// What a command, an output, a report and closing steps say is as much as they
/// hold, one for one.
pub proof fn lemma_command_says(
    command: Command,
    output: CommandOutput,
    report: CommandReport,
    steps: Seq<Closing>,
    run: CommandRun,
)
    ensures
        command@.name == command.name@,
        command@.args.len() == command.args@.len(),
        forall|i: int| 0 <= i < command.args@.len() ==> #[trigger] command@.args[i] == command.args@[i]@,
        command@.dependencies.len() == command.dependencies@.len(),
        forall|i: int|
            0 <= i < command.dependencies@.len() ==> #[trigger] command@.dependencies[i]
                == command.dependencies@[i]@,
        output@.name == output.name@,
        output@.exit_code == output.exit_code,
        output@.buffer == output.buffer@,
        match report {
            CommandReport::Success => report@ is Success,
            CommandReport::Error(error) => report@ is Error && report@->command == error.command@ && report@->kind
                == error.kind,
            CommandReport::Failed(output) => report@ == ReportView::Failed(output@),
        },
        closing_views(steps).len() == steps.len(),
        forall|i: int|
            0 <= i < steps.len() ==> match steps[i] {
                Closing::ReleasePermit => (#[trigger] closing_views(steps)[i]) is ReleasePermit,
                Closing::Announce => closing_views(steps)[i] is Announce,
                Closing::SendReport(report) => closing_views(steps)[i] == ClosingView::SendReport(report@),
                Closing::Notify => closing_views(steps)[i] is Notify,
            },
        run@.command == run.command@,
        run@.phase == run.phase,
        run@.ready == run.ready@,
        run@.line(Stream::Stdout) == run.stdout_line@,
        run@.line(Stream::Stderr) == run.stderr_line@,
        run@.buffer == run.buffer@,
{
}

/// What an action says is what it asks for.
pub proof fn lemma_action_says(action: Action)
    ensures
        match action {
            Action::AwaitDependencies => action@ is AwaitDependencies,
            Action::AcquirePermit => action@ is AcquirePermit,
            Action::Spawn { program, arguments } => {
                &&& action@ is Spawn
                &&& action@->program == program@
                &&& action@->arguments.len() == arguments@.len()
                &&& forall|i: int|
                    0 <= i < arguments@.len() ==> #[trigger] action@->arguments[i] == arguments@[i]@
            },
            Action::Poll => action@ is Poll,
            Action::Publish(line) => action@ == ActionView::Publish(line@),
            Action::Finish(steps) => action@ == ActionView::Finish(closing_views(steps@)),
        },
{
}

} // verus!
