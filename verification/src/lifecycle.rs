//! What holds of a command over its whole life.

use vstd::prelude::*;

use crate::command::{
    all_true, end_report, ending, possible, refusal, reportable, start, turn, ActionView, ClosingView, CommandView,
    Event, ExitStatus, OutputView, Phase, ReportView, RunView, Stream,
};
use crate::error::RailyardErrorKind;

verus! {

/// Whether `later` is `earlier` after more was read into its lines.
pub open spec fn read_further(earlier: RunView, later: RunView) -> bool {
    &&& earlier.stdout_line.is_prefix_of(later.stdout_line)
    &&& earlier.stderr_line.is_prefix_of(later.stderr_line)
    &&& later == (RunView {
        stdout_line: later.stdout_line,
        stderr_line: later.stderr_line,
        ..earlier
    })
}

/// A command's life so far: the events that happened to it, and how far it had
/// come at each of them.
pub struct Life {
    pub command: CommandView,
    pub runs: Seq<RunView>,
    pub events: Seq<Event>,
}

impl Life {
    /// How far the command has come once `n` events were taken up.
    pub open spec fn reached(self, n: int) -> RunView {
        if n == 0 {
            start(self.command).0
        } else {
            turn(self.runs[n - 1], self.events[n - 1]).0
        }
    }

    /// What was to be done once `n` events were taken up.
    pub open spec fn action(self, n: int) -> ActionView {
        if n == 0 {
            start(self.command).1
        } else {
            turn(self.runs[n - 1], self.events[n - 1]).1
        }
    }

    /// The event after the first `n` was possible when it happened, and since
    /// the event before it only more was read.
    pub open spec fn fits(self, n: int) -> bool {
        &&& read_further(self.reached(n), self.runs[n])
        &&& possible(self.runs[n], self.events[n])
    }

    /// Every event was possible when it happened, and between two events only
    /// more was read.
    pub open spec fn lived(self) -> bool {
        &&& self.runs.len() == self.events.len()
        &&& forall|n: int| 0 <= n < self.events.len() ==> #[trigger] self.fits(n)
    }

    /// Whether the name at place `k` among those the command waits for was said
    /// to be ready in the first `n` events.
    pub open spec fn was_ready(self, n: int, k: int) -> bool {
        exists|m: int| 0 <= m < n && #[trigger] self.events[m] == Event::DependencyReady(k as usize)
    }

    /// Whether the command got its turn in the first `n` events.
    pub open spec fn had_turn(self, n: int) -> bool {
        exists|m: int| 0 <= m < n && #[trigger] self.events[m] is PermitAcquired
    }

    /// Whether the command's process was started in the first `n` events.
    pub open spec fn was_spawned(self, n: int) -> bool {
        exists|m: int| 0 <= m < n && #[trigger] self.events[m] is Spawned
    }

    /// The lines that were shown once `n` events were taken up, one after the
    /// other.
    pub open spec fn shown(self, n: int) -> Seq<u8>
        decreases n,
    {
        if n <= 0 {
            Seq::empty()
        } else {
            match self.action(n) {
                ActionView::Publish(line) => self.shown(n - 1) + line,
                _ => self.shown(n - 1),
            }
        }
    }

    /// What was read of a stream before the event after the first `n`, since
    /// the event before it.
    pub open spec fn newly_read(self, stream: Stream, n: int) -> Seq<u8> {
        self.runs[n].line(stream).skip(self.reached(n).line(stream).len() as int)
    }

    /// All that was read of a stream once `n` events were taken up.
    pub open spec fn all_read(self, stream: Stream, n: int) -> Seq<u8>
        decreases n,
    {
        if n <= 0 {
            Seq::empty()
        } else {
            self.all_read(stream, n - 1) + self.newly_read(stream, n - 1)
        }
    }

    /// What was shown of a stream once `n` events were taken up.
    pub open spec fn shown_of(self, stream: Stream, n: int) -> Seq<u8>
        decreases n,
    {
        if n <= 0 {
            Seq::empty()
        } else {
            match (self.events[n - 1], self.action(n)) {
                (Event::Read(from, _), ActionView::Publish(line)) => if from == stream {
                    self.shown_of(stream, n - 1) + line
                } else {
                    self.shown_of(stream, n - 1)
                },
                _ => self.shown_of(stream, n - 1),
            }
        }
    }
}

/// How far a command has come tells what has happened to it: a name is marked
/// ready once it was said to be; a command stands in line, starts or runs only
/// after all its names were said to be ready, starts or runs only after it got
/// its turn, and runs exactly after its process was started.
pub proof fn lemma_what_has_happened(life: Life, n: int)
    requires
        life.lived(),
        0 <= n <= life.events.len(),
    ensures
        life.reached(n).command == life.command,
        life.reached(n).ready.len() == life.command.dependencies.len(),
        life.reached(n).phase != Phase::Done ==> life.command.args.len() > 0,
        forall|k: int|
            0 <= k < life.command.dependencies.len() && #[trigger] life.reached(n).ready[k] ==> life.was_ready(n, k),
        life.reached(n).phase == Phase::Queued || life.reached(n).phase == Phase::Spawning
            || life.reached(n).phase == Phase::Running ==> all_true(life.reached(n).ready),
        life.reached(n).phase == Phase::Spawning || life.reached(n).phase == Phase::Running
            ==> life.had_turn(n),
        life.reached(n).phase == Phase::Running ==> life.was_spawned(n),
        life.reached(n).phase != Phase::Running && life.reached(n).phase != Phase::Done ==> !life.was_spawned(n),
    decreases n,
{
    if n > 0 {
        lemma_what_has_happened(life, n - 1);
        assert(life.fits(n - 1));
        let run = life.runs[n - 1];
        let event = life.events[n - 1];
        assert(run.ready == life.reached(n - 1).ready);
        assert(run.phase == life.reached(n - 1).phase);
        assert forall|k: int|
            0 <= k < life.command.dependencies.len() && #[trigger] life.reached(n).ready[k] implies life.was_ready(
            n,
            k,
        ) by {
            if life.reached(n - 1).ready[k] {
                let m = choose|m: int| 0 <= m < n - 1 && life.events[m] == Event::DependencyReady(k as usize);
                assert(life.events[m] == Event::DependencyReady(k as usize));
            } else {
                assert(life.events[n - 1] == Event::DependencyReady(k as usize));
            }
        }
        if life.had_turn(n - 1) {
            let m = choose|m: int| 0 <= m < n - 1 && #[trigger] life.events[m] is PermitAcquired;
            assert(life.events[m] is PermitAcquired);
        }
        if life.was_spawned(n - 1) {
            let m = choose|m: int| 0 <= m < n - 1 && #[trigger] life.events[m] is Spawned;
            assert(life.events[m] is Spawned);
        }
        if life.was_spawned(n) {
            let m = choose|m: int| 0 <= m < n && #[trigger] life.events[m] is Spawned;
            assert(m == n - 1 || life.was_spawned(n - 1));
        }
    }
}

/// A process is started only after every name that the command waits for was
/// said to be ready and the command got its turn, and it is the program that
/// the command names.
pub proof fn lemma_started_after_dependencies(life: Life, n: int)
    requires
        life.lived(),
        0 <= n <= life.events.len(),
        life.action(n) is Spawn,
    ensures
        forall|k: int| 0 <= k < life.command.dependencies.len() ==> #[trigger] life.was_ready(n, k),
        life.had_turn(n),
        life.command.args.len() > 0,
        life.action(n) == (ActionView::Spawn {
            program: life.command.args[0],
            arguments: life.command.args.skip(1),
        }),
{
    lemma_what_has_happened(life, n);
    if n > 0 {
        lemma_what_has_happened(life, n - 1);
        assert(life.fits(n - 1));
        assert forall|k: int| 0 <= k < life.command.dependencies.len() implies #[trigger] life.was_ready(n, k) by {
            assert(life.reached(n).ready[k]);
        }
    }
}

/// One where something holds, else nothing.
pub open spec fn one_if(holds: bool) -> nat {
    if holds {
        1
    } else {
        0
    }
}

/// How many of some closing steps are of a kind.
pub open spec fn how_many(steps: Seq<ClosingView>, kind: spec_fn(ClosingView) -> bool) -> nat
    decreases steps.len(),
{
    if steps.len() == 0 {
        0
    } else {
        how_many(steps.drop_last(), kind) + one_if(kind(steps.last()))
    }
}

/// How many closing steps of a kind an action asks for.
pub open spec fn asks_for(action: ActionView, kind: spec_fn(ClosingView) -> bool) -> nat {
    match action {
        ActionView::Finish(steps) => how_many(steps, kind),
        _ => 0,
    }
}

impl Life {
    /// How many closing steps of a kind were asked for once `n` events were
    /// taken up.
    pub open spec fn closed(self, kind: spec_fn(ClosingView) -> bool, n: int) -> nat
        decreases n,
    {
        if n <= 0 {
            asks_for(self.action(0), kind)
        } else {
            self.closed(kind, n - 1) + asks_for(self.action(n), kind)
        }
    }

    /// How many reports were handed out.
    pub open spec fn reports(self, n: int) -> nat {
        self.closed(|c: ClosingView| c is SendReport, n)
    }

    /// How often the run was told that the command is done.
    pub open spec fn notifications(self, n: int) -> nat {
        self.closed(|c: ClosingView| c is Notify, n)
    }

    /// How often the command's turn was ended.
    pub open spec fn turns_ended(self, n: int) -> nat {
        self.closed(|c: ClosingView| c is ReleasePermit, n)
    }

    /// How often the command got its turn in the first `n` events.
    pub open spec fn turns_got(self, n: int) -> nat
        decreases n,
    {
        if n <= 0 {
            0
        } else {
            self.turns_got(n - 1) + one_if(self.events[n - 1] is PermitAcquired)
        }
    }
}

proof fn lemma_how_many_push(steps: Seq<ClosingView>, step: ClosingView, kind: spec_fn(ClosingView) -> bool)
    ensures
        how_many(steps.push(step), kind) == how_many(steps, kind) + one_if(kind(step)),
{
    assert(steps.push(step).drop_last() =~= steps);
}

/// What the two ways in which a command ends ask for.
proof fn lemma_closing_counts(
    run: RunView,
    error: RailyardErrorKind,
    report: ReportView,
    kind: spec_fn(ClosingView) -> bool,
)
    ensures
        asks_for(refusal(run, error), kind) == one_if(
            kind(ClosingView::SendReport(ReportView::Error { command: run.command.name, kind: error })),
        ) + one_if(kind(ClosingView::Notify)) + one_if(run.holds_turn() && kind(ClosingView::ReleasePermit)),
        asks_for(ending(report), kind) == one_if(kind(ClosingView::ReleasePermit)) + one_if(
            kind(ClosingView::Announce),
        ) + one_if(kind(ClosingView::SendReport(report))) + one_if(kind(ClosingView::Notify)),
{
    let none = Seq::<ClosingView>::empty();
    let sent = none.push(
        ClosingView::SendReport(ReportView::Error { command: run.command.name, kind: error }),
    );
    let notified = sent.push(ClosingView::Notify);
    lemma_how_many_push(none, sent.last(), kind);
    lemma_how_many_push(sent, ClosingView::Notify, kind);
    lemma_how_many_push(notified, ClosingView::ReleasePermit, kind);
    assert(refusal(run, error)->Finish_0 =~= if run.holds_turn() {
        notified.push(ClosingView::ReleasePermit)
    } else {
        notified
    });
    let released = none.push(ClosingView::ReleasePermit);
    let announced = released.push(ClosingView::Announce);
    let told = announced.push(ClosingView::SendReport(report));
    lemma_how_many_push(none, ClosingView::ReleasePermit, kind);
    lemma_how_many_push(released, ClosingView::Announce, kind);
    lemma_how_many_push(announced, ClosingView::SendReport(report), kind);
    lemma_how_many_push(told, ClosingView::Notify, kind);
    assert(ending(report)->Finish_0 =~= told.push(ClosingView::Notify));
}

/// What one event makes of the counts.
proof fn lemma_turn_counts(run: RunView, event: Event)
    requires
        possible(run, event),
    ensures
        ({
            let (next, action) = turn(run, event);
            let done = one_if(next.phase == Phase::Done);
            &&& asks_for(action, |c: ClosingView| c is SendReport) == done
            &&& asks_for(action, |c: ClosingView| c is Notify) == done
            &&& asks_for(action, |c: ClosingView| c is ReleasePermit) == one_if(
                run.holds_turn() && next.phase == Phase::Done,
            )
            &&& next.holds_turn() == (event is PermitAcquired || (run.holds_turn() && next.phase != Phase::Done))
        }),
{
    let report = match event {
        Event::Read(_, Err(error)) => ReportView::Error {
            command: run.command.name,
            kind: RailyardErrorKind::StreamError(error),
        },
        Event::Exited(end) => end_report(end, run.buffer, run.command.name),
        _ => ReportView::Success,
    };
    let error = match event {
        Event::SpawnFailed(error) => RailyardErrorKind::SpawnError(error),
        _ => RailyardErrorKind::Cancelled,
    };
    lemma_closing_counts(run, error, report, |c: ClosingView| c is SendReport);
    lemma_closing_counts(run, error, report, |c: ClosingView| c is Notify);
    lemma_closing_counts(run, error, report, |c: ClosingView| c is ReleasePermit);
}

/// A command holds one turn exactly while its process is being started or
/// runs, and none otherwise; none is left once it is done. It hands out one
/// report and tells the run once, both when it is done and not before.
pub proof fn lemma_turn_report_and_notification(life: Life, n: int)
    requires
        life.lived(),
        0 <= n <= life.events.len(),
    ensures
        life.turns_got(n) - life.turns_ended(n) == one_if(life.reached(n).holds_turn()),
        life.reached(n).phase == Phase::Done ==> life.turns_got(n) == life.turns_ended(n),
        life.turns_got(n) <= 1,
        life.reports(n) == one_if(life.reached(n).phase == Phase::Done),
        life.notifications(n) == one_if(life.reached(n).phase == Phase::Done),
    decreases n,
{
    if n > 0 {
        lemma_turn_report_and_notification(life, n - 1);
        assert(life.fits(n - 1));
        lemma_turn_counts(life.runs[n - 1], life.events[n - 1]);
        lemma_no_turn_before(life, n - 1);
    } else {
        let run = life.reached(0);
        let error = RailyardErrorKind::InvalidArguments;
        lemma_closing_counts(run, error, ReportView::Success, |c: ClosingView| c is SendReport);
        lemma_closing_counts(run, error, ReportView::Success, |c: ClosingView| c is Notify);
        lemma_closing_counts(run, error, ReportView::Success, |c: ClosingView| c is ReleasePermit);
    }
}

/// A command that waits, for names or in line, has had no turn yet.
proof fn lemma_no_turn_before(life: Life, n: int)
    requires
        life.lived(),
        0 <= n <= life.events.len(),
    ensures
        life.reached(n).phase == Phase::Waiting || life.reached(n).phase == Phase::Queued ==> life.turns_got(n) == 0,
    decreases n,
{
    if n > 0 {
        lemma_no_turn_before(life, n - 1);
        assert(life.fits(n - 1));
    }
}

/// A command hands out one report: once it did, nothing more happens to it.
pub proof fn lemma_one_report(life: Life, n: int)
    requires
        life.lived(),
        0 <= n <= life.events.len(),
    ensures
        life.action(n) is Finish <==> life.reached(n).phase == Phase::Done,
        life.action(n) is Finish ==> n == life.events.len(),
{
    if n < life.events.len() {
        assert(life.fits(n));
    }
    if n > 0 {
        assert(life.fits(n - 1));
    }
}

/// A command whose process ran makes its name ready when it is done, however
/// its process ended; a command whose process never ran does not.
pub proof fn lemma_failure_does_not_stop_the_rest(life: Life, n: int)
    requires
        life.lived(),
        0 <= n <= life.events.len(),
        life.action(n) is Finish,
    ensures
        life.action(n)->Finish_0.contains(ClosingView::Announce) <==> life.was_spawned(n),
{
    if n > 0 {
        lemma_what_has_happened(life, n - 1);
        assert(life.fits(n - 1));
        if life.was_spawned(n - 1) {
            let m = choose|m: int| 0 <= m < n - 1 && #[trigger] life.events[m] is Spawned;
            assert(life.events[m] is Spawned);
        }
        if life.was_spawned(n) {
            let m = choose|m: int| 0 <= m < n && #[trigger] life.events[m] is Spawned;
            assert(m == n - 1 || life.was_spawned(n - 1));
        }
    }
    let steps = life.action(n)->Finish_0;
    if steps[0] == ClosingView::ReleasePermit {
        assert(steps[1] == ClosingView::Announce);
    }
}

/// While a process runs, what was gathered of its output is what was shown.
pub proof fn lemma_gathered_is_shown(life: Life, n: int)
    requires
        life.lived(),
        0 <= n <= life.events.len(),
        life.reached(n).phase != Phase::Done,
    ensures
        life.reached(n).buffer == life.shown(n),
    decreases n,
{
    if n > 0 {
        assert(life.fits(n - 1));
        lemma_gathered_is_shown(life, n - 1);
    }
}

/// Nothing that a process writes is lost or changed on its way: what was shown
/// of a stream, and then what was not taken up yet, is what was read of it.
pub proof fn lemma_read_is_shown(life: Life, stream: Stream, n: int)
    requires
        life.lived(),
        0 <= n <= life.events.len(),
    ensures
        life.shown_of(stream, n) + life.reached(n).line(stream) == life.all_read(stream, n),
    decreases n,
{
    if n > 0 {
        lemma_read_is_shown(life, stream, n - 1);
        assert(life.fits(n - 1));
        let run = life.runs[n - 1];
        let line = life.reached(n - 1).line(stream);
        assert(run.line(stream) =~= line + life.newly_read(stream, n - 1));
        assert(life.shown_of(stream, n) + life.reached(n).line(stream) =~= life.shown_of(stream, n - 1)
            + run.line(stream));
    }
    assert(life.shown_of(stream, n) + life.reached(n).line(stream) =~= life.all_read(stream, n));
}

/// The report on a failure holds the output that was shown while the process
/// ran, under the name of the command.
pub proof fn lemma_failure_report(life: Life, n: int, output: OutputView)
    requires
        life.lived(),
        0 <= n <= life.events.len(),
        life.action(n) is Finish,
        life.action(n)->Finish_0.contains(ClosingView::SendReport(ReportView::Failed(output))),
    ensures
        output.name == life.command.name,
        output.buffer == life.shown(n),
        n > 0,
        life.events[n - 1] matches Event::Exited(Ok(status)) && !status.success && status.code == Some(
            output.exit_code,
        ),
{
    if n > 0 {
        assert(life.fits(n - 1));
        lemma_what_has_happened(life, n - 1);
        lemma_gathered_is_shown(life, n - 1);
    }
}

/// A command that waits for a name that never comes is never started, and the
/// only way it ends is that waiting is given up: then it reports that and tells
/// the run, and nothing more.
pub proof fn lemma_name_never_comes(life: Life, n: int, k: int)
    requires
        life.lived(),
        0 <= n <= life.events.len(),
        0 <= k < life.command.dependencies.len(),
        life.command.args.len() > 0,
        !life.was_ready(n, k),
    ensures
        !(life.action(n) is Spawn),
        !life.was_spawned(n),
        life.action(n) is Finish ==> life.action(n) == ActionView::Finish(
            seq![
                ClosingView::SendReport(
                    ReportView::Error { command: life.command.name, kind: RailyardErrorKind::Cancelled },
                ),
                ClosingView::Notify,
            ],
        ),
    decreases n,
{
    lemma_what_has_happened(life, n);
    assert(!life.reached(n).ready[k]);
    if n > 0 {
        assert(life.fits(n - 1));
        if life.was_ready(n - 1, k) {
            let m = choose|m: int|
                0 <= m < n - 1 && #[trigger] life.events[m] == Event::DependencyReady(k as usize);
            assert(life.events[m] == Event::DependencyReady(k as usize));
        }
        lemma_name_never_comes(life, n - 1, k);
        lemma_what_has_happened(life, n - 1);
        assert(!life.reached(n - 1).ready[k]);
        assert(!all_true(life.reached(n - 1).ready));
        assert(life.runs[n - 1].phase == Phase::Waiting);
        if life.was_spawned(n) {
            let m = choose|m: int| 0 <= m < n && #[trigger] life.events[m] is Spawned;
            assert(m == n - 1 || life.was_spawned(n - 1));
        }
    }
}

/// Exactly the names that were said to be ready are marked, and a command does
/// not wait with all of them marked.
proof fn lemma_marks(life: Life, n: int)
    requires
        life.lived(),
        0 <= n <= life.events.len(),
        life.command.dependencies.len() <= usize::MAX,
    ensures
        life.reached(n).ready.len() == life.command.dependencies.len(),
        forall|k: int|
            0 <= k < life.command.dependencies.len() ==> (#[trigger] life.reached(n).ready[k] <==> life.was_ready(
                n,
                k,
            )),
        life.reached(n).phase == Phase::Waiting ==> exists|k: int|
            0 <= k < life.command.dependencies.len() && !(#[trigger] life.reached(n).ready[k]),
    decreases n,
{
    lemma_what_has_happened(life, n);
    if n > 0 {
        lemma_marks(life, n - 1);
        assert(life.fits(n - 1));
        let run = life.runs[n - 1];
        assert forall|k: int| 0 <= k < life.command.dependencies.len() && life.was_ready(n, k) implies #[trigger] life.reached(
            n,
        ).ready[k] by {
            let m = choose|m: int| 0 <= m < n && #[trigger] life.events[m] == Event::DependencyReady(k as usize);
            if m < n - 1 {
                assert(life.was_ready(n - 1, k));
                assert(life.reached(n - 1).ready[k]);
                assert(run.ready[k]);
            }
        }
        if life.reached(n).phase == Phase::Waiting {
            assert(life.events[n - 1] is DependencyReady);
            assert(!all_true(life.reached(n).ready));
        }
    }
}

/// A command waits no longer than it has to: once each name that it waits for
/// was said to be ready, it does not wait for names any more, and at the event
/// that made the last of them ready, or at its start where it waits for none,
/// it is put in line for its turn.
pub proof fn lemma_goes_on_once_all_are_ready(life: Life, n: int)
    requires
        life.lived(),
        0 <= n <= life.events.len(),
        life.command.args.len() > 0,
        life.command.dependencies.len() <= usize::MAX,
        forall|k: int| 0 <= k < life.command.dependencies.len() ==> #[trigger] life.was_ready(n, k),
    ensures
        life.reached(n).phase != Phase::Waiting,
        !(life.action(n) is AwaitDependencies),
        n == 0 || life.events[n - 1] is DependencyReady ==> life.action(n) is AcquirePermit
            && life.reached(n).phase == Phase::Queued,
{
    lemma_marks(life, n);
    if n > 0 {
        assert(life.fits(n - 1));
    }
}

/// A command waits as long as it has to: while a name that it waits for was not
/// said to be ready, each one that is leaves it waiting.
pub proof fn lemma_waits_until_all_are_ready(life: Life, n: int, k: int)
    requires
        life.lived(),
        0 <= n <= life.events.len(),
        life.command.args.len() > 0,
        0 <= k < life.command.dependencies.len() <= usize::MAX,
        !life.was_ready(n, k),
        n == 0 || life.events[n - 1] is DependencyReady,
    ensures
        life.action(n) is AwaitDependencies,
        life.reached(n).phase == Phase::Waiting,
{
    lemma_marks(life, n);
    assert(!life.reached(n).ready[k]);
    assert(!all_true(life.reached(n).ready));
    if n > 0 {
        assert(life.fits(n - 1));
    }
}

/// Whether an action ends a command with this report, and with no other.
pub open spec fn tells(action: ActionView, report: ReportView) -> bool {
    &&& action is Finish
    &&& action->Finish_0.contains(ClosingView::SendReport(report))
    &&& forall|i: int|
        0 <= i < action->Finish_0.len() && (#[trigger] action->Finish_0[i]) is SendReport
            ==> action->Finish_0[i] == ClosingView::SendReport(report)
}

proof fn lemma_refusal_tells(run: RunView, kind: RailyardErrorKind)
    ensures
        tells(refusal(run, kind), ReportView::Error { command: run.command.name, kind }),
{
    let report = ReportView::Error { command: run.command.name, kind };
    assert(refusal(run, kind)->Finish_0[0] == ClosingView::SendReport(report));
}

proof fn lemma_ending_tells(report: ReportView)
    ensures
        tells(ending(report), report),
{
    assert(ending(report)->Finish_0[2] == ClosingView::SendReport(report));
}

/// A process that ended well is reported as a success. One that ended badly is
/// reported as a failure, with its exit code and with all of its output that
/// was shown, under the name of the command. A process that could not be
/// awaited, read or started, and a wait that was given up, are reported as the
/// errors they are. Nothing else ends a command that has a program to run.
pub proof fn lemma_outcome(life: Life, n: int)
    requires
        life.lived(),
        0 < n <= life.events.len(),
    ensures
        match life.events[n - 1] {
            Event::Exited(Ok(status)) => if status.success {
                tells(life.action(n), ReportView::Success)
            } else {
                status.code is Some && tells(
                    life.action(n),
                    ReportView::Failed(
                        OutputView {
                            name: life.command.name,
                            exit_code: status.code->0,
                            buffer: life.shown(n - 1),
                        },
                    ),
                )
            },
            Event::Exited(Err(error)) => tells(
                life.action(n),
                ReportView::Error { command: life.command.name, kind: RailyardErrorKind::CommandError(error) },
            ),
            Event::Read(_, Err(error)) => tells(
                life.action(n),
                ReportView::Error { command: life.command.name, kind: RailyardErrorKind::StreamError(error) },
            ),
            Event::SpawnFailed(error) => tells(
                life.action(n),
                ReportView::Error { command: life.command.name, kind: RailyardErrorKind::SpawnError(error) },
            ),
            Event::DependencyCancelled => tells(
                life.action(n),
                ReportView::Error { command: life.command.name, kind: RailyardErrorKind::Cancelled },
            ),
            _ => !(life.action(n) is Finish),
        },
{
    assert(life.fits(n - 1));
    lemma_what_has_happened(life, n - 1);
    lemma_gathered_is_shown(life, n - 1);
    let run = life.runs[n - 1];
    match life.events[n - 1] {
        Event::Exited(end) => {
            lemma_ending_tells(end_report(end, run.buffer, run.command.name));
        },
        Event::Read(_, Err(error)) => {
            lemma_ending_tells(
                ReportView::Error { command: run.command.name, kind: RailyardErrorKind::StreamError(error) },
            );
        },
        Event::SpawnFailed(error) => {
            lemma_refusal_tells(run, RailyardErrorKind::SpawnError(error));
        },
        Event::DependencyCancelled => {
            lemma_refusal_tells(run, RailyardErrorKind::Cancelled);
        },
        _ => {},
    }
}

/// A success is reported exactly where the process ended well, and a failure
/// exactly where it ended badly.
pub proof fn lemma_success_is_earned(life: Life, n: int)
    requires
        life.lived(),
        0 <= n <= life.events.len(),
    ensures
        life.action(n) is Finish && life.action(n)->Finish_0.contains(
            ClosingView::SendReport(ReportView::Success),
        ) <==> n > 0 && life.events[n - 1] is Exited && life.events[n - 1]->Exited_0 is Ok
            && life.events[n - 1]->Exited_0->Ok_0.success,
        (exists|output: OutputView|
            life.action(n) is Finish && #[trigger] life.action(n)->Finish_0.contains(
                ClosingView::SendReport(ReportView::Failed(output)),
            )) <==> n > 0 && life.events[n - 1] is Exited && life.events[n - 1]->Exited_0 is Ok
            && !life.events[n - 1]->Exited_0->Ok_0.success,
{
    if n > 0 {
        lemma_outcome(life, n);
        if life.action(n) is Finish {
            let steps = life.action(n)->Finish_0;
            assert forall|report: ReportView| #[trigger]
                steps.contains(ClosingView::SendReport(report)) implies tells(life.action(n), report) by {
                let i = choose|i: int| 0 <= i < steps.len() && steps[i] == ClosingView::SendReport(report);
                assert(steps[i] is SendReport);
            }
        }
    } else {
        lemma_no_program(life);
        if life.action(0) is Finish {
            let steps = life.action(0)->Finish_0;
            assert forall|report: ReportView| #[trigger]
                steps.contains(ClosingView::SendReport(report)) implies report is Error by {
                let i = choose|i: int| 0 <= i < steps.len() && steps[i] == ClosingView::SendReport(report);
                assert(steps[i] is SendReport);
            }
        }
    }
}

/// A command ends at its start exactly where it has no program to run, and that
/// is what it reports.
pub proof fn lemma_no_program(life: Life)
    ensures
        life.command.args.len() == 0 <==> life.action(0) is Finish,
        life.command.args.len() == 0 ==> tells(
            life.action(0),
            ReportView::Error { command: life.command.name, kind: RailyardErrorKind::InvalidArguments },
        ),
        life.reached(0).command == life.command,
        life.reached(0).stdout_line.len() == 0,
        life.reached(0).stderr_line.len() == 0,
        life.reached(0).buffer.len() == 0,
{
    lemma_refusal_tells(life.reached(0), RailyardErrorKind::InvalidArguments);
}

/// A command that gets its turn is started, with the first of its texts as the
/// program and all the others as arguments, in their order. Once it is started
/// it is read from. A read that brought nothing changes nothing; one that
/// brought something shows all that was read of that stream and not shown
/// before, and leaves the other stream alone. In both cases it is read on.
pub proof fn lemma_runs_and_is_read(life: Life, n: int)
    requires
        life.lived(),
        0 < n <= life.events.len(),
    ensures
        match life.events[n - 1] {
            Event::PermitAcquired => {
                &&& life.action(n) is Spawn
                &&& life.action(n)->program == life.command.args[0]
                &&& life.action(n)->arguments.len() + 1 == life.command.args.len()
                &&& forall|i: int|
                    0 < i < life.command.args.len() ==> #[trigger] life.command.args[i] == life.action(
                        n,
                    )->arguments[i - 1]
                &&& life.reached(n).phase == Phase::Spawning
            },
            Event::Spawned => life.action(n) is Poll && life.reached(n).phase == Phase::Running,
            Event::Read(stream, Ok(count)) => {
                let other = match stream {
                    Stream::Stdout => Stream::Stderr,
                    Stream::Stderr => Stream::Stdout,
                };
                &&& life.reached(n).phase == Phase::Running
                &&& life.reached(n).line(other) == life.runs[n - 1].line(other)
                &&& count == 0 ==> life.action(n) is Poll && life.reached(n) == life.runs[n - 1]
                &&& count > 0 ==> {
                    &&& life.action(n) == ActionView::Publish(life.runs[n - 1].line(stream))
                    &&& life.reached(n).line(stream).len() == 0
                    &&& life.reached(n).buffer == life.runs[n - 1].buffer + life.runs[n - 1].line(stream)
                }
            },
            _ => !(life.action(n) is Spawn || life.action(n) is Poll || life.action(n) is Publish),
        },
{
    assert(life.fits(n - 1));
    lemma_what_has_happened(life, n - 1);
}

/// When a command ends, the run hears of it after the report is out. A command
/// whose process ran gives its turn back before its name becomes ready, and its
/// name is ready before its report is out. A command whose process never ran
/// gives back the turn it had after all else. Nothing is done twice.
pub proof fn lemma_closing_order(life: Life, n: int)
    requires
        life.lived(),
        0 <= n <= life.events.len(),
        life.action(n) is Finish,
    ensures
        ({
            let steps = life.action(n)->Finish_0;
            &&& forall|i: int, j: int|
                0 <= i < steps.len() && 0 <= j < steps.len() && (#[trigger] steps[i]) is SendReport
                    && (#[trigger] steps[j]) is Notify ==> i < j
            &&& forall|i: int, j: int|
                0 <= i < steps.len() && 0 <= j < steps.len() && (#[trigger] steps[i]) is Announce
                    && (#[trigger] steps[j]) is SendReport ==> i < j
            &&& forall|i: int, j: int|
                0 <= i < steps.len() && 0 <= j < steps.len() && (#[trigger] steps[i]) is ReleasePermit
                    && (#[trigger] steps[j]) is Announce ==> i < j
            &&& !steps.contains(ClosingView::Announce) ==> forall|i: int|
                0 <= i < steps.len() && (#[trigger] steps[i]) is ReleasePermit ==> i == steps.len() - 1
            &&& forall|i: int, j: int| 0 <= i < j < steps.len() ==> #[trigger] steps[i] != #[trigger] steps[j]
        }),
{
    if n > 0 {
        assert(life.fits(n - 1));
    }
    let steps = life.action(n)->Finish_0;
    if steps[0] == ClosingView::ReleasePermit {
        assert(steps[1] == ClosingView::Announce);
    }
}

/// What can happen to a command, by how far it has come: a name that it waits
/// for can become ready while it waits, and waiting can be given up; its turn
/// can come while it stands in line; its process can start or fail to; and
/// while its process runs any read and any end can be taken up, but for an end
/// that is bad and has no exit code.
pub proof fn lemma_what_can_happen(
    run: RunView,
    k: usize,
    error: std::io::Error,
    stream: Stream,
    output: Result<usize, std::io::Error>,
    status: ExitStatus,
)
    ensures
        possible(run, Event::DependencyReady(k)) <==> run.phase == Phase::Waiting && k < run.ready.len()
            && !run.ready[k as int],
        possible(run, Event::DependencyCancelled) <==> run.phase == Phase::Waiting,
        possible(run, Event::PermitAcquired) <==> run.phase == Phase::Queued,
        possible(run, Event::Spawned) <==> run.phase == Phase::Spawning,
        possible(run, Event::SpawnFailed(error)) <==> run.phase == Phase::Spawning,
        possible(run, Event::Read(stream, output)) <==> run.phase == Phase::Running,
        possible(run, Event::Exited(Err(error))) <==> run.phase == Phase::Running,
        possible(run, Event::Exited(Ok(status))) <==> run.phase == Phase::Running && (status.success
            || status.code is Some),
        reportable(Ok(status)) <==> status.success || status.code is Some,
        reportable(Err(error)),
        run.holds_turn() <==> run.phase == Phase::Spawning || run.phase == Phase::Running,
{
}

/// An event changes nothing that it is not about: no event changes the command;
/// only a name that becomes ready is marked, and only that one; a line is taken
/// up only by a read from its stream; and what was gathered only grows by what
/// is read, until it moves into the report on a failure.
pub proof fn lemma_nothing_else_changes(life: Life, n: int)
    requires
        life.lived(),
        0 < n <= life.events.len(),
    ensures
        ({
            let (before, after) = (life.runs[n - 1], life.reached(n));
            let event = life.events[n - 1];
            &&& after.command == before.command
            &&& after.ready.len() == before.ready.len()
            &&& forall|k: int|
                0 <= k < before.ready.len() ==> #[trigger] after.ready[k] == (before.ready[k] || (
                event matches Event::DependencyReady(j) && j == k))
            &&& !(event is Read) ==> after.stdout_line == before.stdout_line && after.stderr_line
                == before.stderr_line
            &&& event matches Event::Read(_, Err(_)) ==> after.stdout_line == before.stdout_line && after.stderr_line
                == before.stderr_line && after.buffer == before.buffer
            &&& !(event is Read || event is Exited) ==> after.buffer == before.buffer
            &&& event matches Event::Exited(Ok(status)) ==> after.buffer == if status.success {
                before.buffer
            } else {
                Seq::<u8>::empty()
            }
            &&& event matches Event::Exited(Err(_)) ==> after.buffer == before.buffer
        }),
{
    assert(life.fits(n - 1));
}

} // verus!
