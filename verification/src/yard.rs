//! What holds of several commands that run at once.

use vstd::prelude::*;

use crate::command::{
    all_true, possible, start, turn, ActionView, ClosingView, CommandView, Event, Phase, RunView,
};
use crate::commands::{can_run, lemma_something_can_run, waits_are_met, waits_go_down};
use crate::lifecycle::{one_if, read_further};

verus! {

/// Something that happened to the command at a place, and how far that command
/// had come when it did.
pub struct Happening {
    pub place: int,
    pub run: RunView,
    pub event: Event,
}

/// How far each of the commands has come after all that happened.
pub open spec fn runs_after(commands: Seq<CommandView>, happened: Seq<Happening>) -> Seq<RunView>
    decreases happened.len(),
{
    if happened.len() == 0 {
        commands.map_values(|c: CommandView| start(c).0)
    } else {
        let last = happened.last();
        runs_after(commands, happened.drop_last()).update(last.place, turn(last.run, last.event).0)
    }
}

/// How many of the commands have their turn.
pub open spec fn holders(runs: Seq<RunView>) -> nat
    decreases runs.len(),
{
    if runs.len() == 0 {
        0
    } else {
        holders(runs.drop_last()) + one_if(runs.last().holds_turn())
    }
}

/// Whether something can happen next: it is possible for the command it
/// happens to, of which only more was read since, and a turn is given only
/// while fewer than `jobs` commands have theirs.
pub open spec fn can_happen(runs: Seq<RunView>, jobs: nat, next: Happening) -> bool {
    &&& 0 <= next.place < runs.len()
    &&& read_further(runs[next.place], next.run)
    &&& possible(next.run, next.event)
    &&& next.event is PermitAcquired ==> holders(runs) < jobs
}

/// Whether all that happened could happen when it did.
pub open spec fn took_place(commands: Seq<CommandView>, jobs: nat, happened: Seq<Happening>) -> bool
    decreases happened.len(),
{
    happened.len() > 0 ==> {
        &&& took_place(commands, jobs, happened.drop_last())
        &&& can_happen(runs_after(commands, happened.drop_last()), jobs, happened.last())
    }
}

/// Which of the commands have a process that was started and has not ended.
pub open spec fn processes(commands: Seq<CommandView>, happened: Seq<Happening>) -> Seq<bool>
    decreases happened.len(),
{
    if happened.len() == 0 {
        commands.map_values(|c: CommandView| false)
    } else {
        let earlier = processes(commands, happened.drop_last());
        let last = happened.last();
        match last.event {
            Event::Spawned => earlier.update(last.place, true),
            Event::Exited(Ok(_)) => earlier.update(last.place, false),
            _ => earlier,
        }
    }
}

/// How many of some things are so.
pub open spec fn count_true(flags: Seq<bool>) -> nat
    decreases flags.len(),
{
    if flags.len() == 0 {
        0
    } else {
        count_true(flags.drop_last()) + one_if(flags.last())
    }
}

/// Whether no process was lost sight of: every stream could be read, and the
/// end of every process could be awaited.
pub open spec fn none_lost(happened: Seq<Happening>) -> bool {
    forall|n: int|
        0 <= n < happened.len() ==> !((#[trigger] happened[n]).event matches Event::Read(_, Err(_)))
            && !(happened[n].event matches Event::Exited(Err(_)))
}

proof fn lemma_holders_update(runs: Seq<RunView>, place: int, run: RunView)
    requires
        0 <= place < runs.len(),
    ensures
        holders(runs.update(place, run)) + one_if(runs[place].holds_turn()) == holders(runs) + one_if(
            run.holds_turn(),
        ),
    decreases runs.len(),
{
    let changed = runs.update(place, run);
    if place == runs.len() - 1 {
        assert(changed.drop_last() =~= runs.drop_last());
    } else {
        assert(changed.drop_last() =~= runs.drop_last().update(place, run));
        lemma_holders_update(runs.drop_last(), place, run);
    }
}

proof fn lemma_no_holders(runs: Seq<RunView>)
    requires
        forall|i: int| 0 <= i < runs.len() ==> !(#[trigger] runs[i]).holds_turn(),
    ensures
        holders(runs) == 0,
    decreases runs.len(),
{
    if runs.len() > 0 {
        assert(!runs[runs.len() - 1].holds_turn());
        assert forall|i: int| 0 <= i < runs.len() - 1 implies !(#[trigger] runs.drop_last()[i]).holds_turn() by {
            assert(runs[i] == runs.drop_last()[i]);
        }
        lemma_no_holders(runs.drop_last());
    }
}

/// At most `jobs` commands have their turn at a time.
pub proof fn lemma_at_most_jobs_turns(commands: Seq<CommandView>, jobs: nat, happened: Seq<Happening>)
    requires
        took_place(commands, jobs, happened),
    ensures
        runs_after(commands, happened).len() == commands.len(),
        holders(runs_after(commands, happened)) <= jobs,
    decreases happened.len(),
{
    if happened.len() == 0 {
        lemma_no_holders(runs_after(commands, happened));
    } else {
        let earlier = happened.drop_last();
        let last = happened.last();
        let before = runs_after(commands, earlier);
        lemma_at_most_jobs_turns(commands, jobs, earlier);
        lemma_holders_update(before, last.place, turn(last.run, last.event).0);
        assert(last.run.phase == before[last.place].phase);
    }
}

/// A process that was started and has not ended is that of a command that has
/// come as far as to run, where none was lost sight of.
proof fn lemma_processes_run(commands: Seq<CommandView>, jobs: nat, happened: Seq<Happening>)
    requires
        took_place(commands, jobs, happened),
        none_lost(happened),
    ensures
        processes(commands, happened).len() == commands.len(),
        runs_after(commands, happened).len() == commands.len(),
        forall|i: int|
            0 <= i < commands.len() && #[trigger] processes(commands, happened)[i] ==> runs_after(
                commands,
                happened,
            )[i].phase == Phase::Running,
    decreases happened.len(),
{
    if happened.len() > 0 {
        let earlier = happened.drop_last();
        let last = happened.last();
        assert forall|n: int| 0 <= n < earlier.len() implies !((#[trigger] earlier[n]).event matches Event::Read(
            _,
            Err(_),
        )) && !(earlier[n].event matches Event::Exited(Err(_))) by {
            assert(happened[n] == earlier[n]);
        }
        lemma_processes_run(commands, jobs, earlier);
        assert(happened[happened.len() - 1] == last);
        let before = runs_after(commands, earlier);
        assert(last.run.phase == before[last.place].phase);
        assert forall|i: int|
            0 <= i < commands.len() && #[trigger] processes(commands, happened)[i] implies runs_after(
            commands,
            happened,
        )[i].phase == Phase::Running by {
            if i != last.place {
                assert(processes(commands, earlier)[i]);
            } else if !(last.event is Spawned) {
                assert(processes(commands, earlier)[i]);
            }
        }
    }
}

proof fn lemma_fewer_than_holders(flags: Seq<bool>, runs: Seq<RunView>)
    requires
        flags.len() == runs.len(),
        forall|i: int| 0 <= i < flags.len() && #[trigger] flags[i] ==> runs[i].holds_turn(),
    ensures
        count_true(flags) <= holders(runs),
    decreases flags.len(),
{
    if flags.len() > 0 {
        assert(flags[flags.len() - 1] ==> runs[flags.len() - 1].holds_turn());
        assert forall|i: int| 0 <= i < flags.len() - 1 && #[trigger] flags.drop_last()[i] implies runs.drop_last()[i].holds_turn() by {
            assert(flags[i]);
        }
        lemma_fewer_than_holders(flags.drop_last(), runs.drop_last());
    }
}

/// At most `jobs` processes run at a time, where none was lost sight of.
pub proof fn lemma_at_most_jobs_processes(commands: Seq<CommandView>, jobs: nat, happened: Seq<Happening>)
    requires
        took_place(commands, jobs, happened),
        none_lost(happened),
    ensures
        count_true(processes(commands, happened)) <= jobs,
{
    lemma_at_most_jobs_turns(commands, jobs, happened);
    lemma_processes_run(commands, jobs, happened);
    lemma_fewer_than_holders(processes(commands, happened), runs_after(commands, happened));
}

/// Whether what happened at place `n` ended a command of that name and made
/// the name ready.
pub open spec fn announces(
    commands: Seq<CommandView>,
    happened: Seq<Happening>,
    name: Seq<char>,
    n: int,
) -> bool {
    &&& commands[happened[n].place].name == name
    &&& turn(happened[n].run, happened[n].event).1 matches ActionView::Finish(steps) && steps.contains(
        ClosingView::Announce,
    )
}

/// Whether a command of that name made it ready before place `n`.
pub open spec fn announced(
    commands: Seq<CommandView>,
    happened: Seq<Happening>,
    name: Seq<char>,
    n: int,
) -> bool {
    exists|m: int| 0 <= m < n && #[trigger] announces(commands, happened, name, m)
}

/// Whether commands were told the truth: one that was told that a name it waits
/// for is ready was told so after a command of that name made it ready.
pub open spec fn told_truly(commands: Seq<CommandView>, happened: Seq<Happening>) -> bool {
    forall|n: int|
        0 <= n < happened.len() ==> ((#[trigger] happened[n]).event matches Event::DependencyReady(k) ==> announced(
            commands,
            happened,
            commands[happened[n].place].dependencies[k as int],
            n,
        ))
}

/// What happened first could happen, and so could what happened next.
proof fn lemma_took_place_before(commands: Seq<CommandView>, jobs: nat, happened: Seq<Happening>, n: int)
    requires
        took_place(commands, jobs, happened),
        0 <= n <= happened.len(),
    ensures
        took_place(commands, jobs, happened.take(n)),
        n < happened.len() ==> can_happen(runs_after(commands, happened.take(n)), jobs, happened[n]),
    decreases happened.len(),
{
    if n == happened.len() {
        assert(happened.take(n) =~= happened);
    } else {
        let earlier = happened.drop_last();
        if n == earlier.len() {
            assert(happened.take(n) =~= earlier);
        } else {
            lemma_took_place_before(commands, jobs, earlier, n);
            assert(earlier.take(n) =~= happened.take(n));
            assert(earlier[n] == happened[n]);
        }
    }
}

/// What the commands have marked ready was made ready, and a command that has
/// come further than to wait has all its names marked.
proof fn lemma_marked_was_announced(
    commands: Seq<CommandView>,
    jobs: nat,
    happened: Seq<Happening>,
    n: int,
    place: int,
)
    requires
        took_place(commands, jobs, happened),
        told_truly(commands, happened),
        0 <= n <= happened.len(),
        0 <= place < commands.len(),
    ensures
        ({
            let runs = runs_after(commands, happened.take(n));
            let run = runs[place];
            &&& runs.len() == commands.len()
            &&& run.command == commands[place]
            &&& run.ready.len() == commands[place].dependencies.len()
            &&& forall|k: int|
                0 <= k < run.ready.len() && #[trigger] run.ready[k] ==> announced(
                    commands,
                    happened,
                    commands[place].dependencies[k],
                    n,
                )
            &&& run.phase == Phase::Queued || run.holds_turn() ==> all_true(run.ready)
        }),
    decreases n,
{
    if n > 0 {
        lemma_marked_was_announced(commands, jobs, happened, n - 1, place);
        lemma_took_place_before(commands, jobs, happened, n - 1);
        let earlier = runs_after(commands, happened.take(n - 1));
        let last = happened[n - 1];
        assert(happened.take(n).drop_last() =~= happened.take(n - 1));
        assert(happened.take(n).last() == last);
        let run = runs_after(commands, happened.take(n))[place];
        assert forall|k: int| 0 <= k < run.ready.len() && #[trigger] run.ready[k] implies announced(
            commands,
            happened,
            commands[place].dependencies[k],
            n,
        ) by {
            let name = commands[place].dependencies[k];
            if !earlier[place].ready[k] {
                assert(last.place == place);
                assert(last.event == Event::DependencyReady(k as usize));
            }
            assert(announced(commands, happened, name, n - 1));
            let m = choose|m: int| 0 <= m < n - 1 && #[trigger] announces(commands, happened, name, m);
            assert(announces(commands, happened, name, m));
        }
    }
}

/// A process is started only after those that its command waits for: for each
/// name that the command waits for, a command of that name was done before, in
/// success or in failure, and made the name ready. This holds when the command
/// gets its turn and when its process is started.
pub proof fn lemma_started_after_those_it_waits_for(
    commands: Seq<CommandView>,
    jobs: nat,
    happened: Seq<Happening>,
    n: int,
)
    requires
        took_place(commands, jobs, happened),
        told_truly(commands, happened),
        0 <= n < happened.len(),
        happened[n].event is PermitAcquired || happened[n].event is Spawned,
    ensures
        0 <= happened[n].place < commands.len(),
        forall|k: int|
            0 <= k < commands[happened[n].place].dependencies.len() ==> announced(
                commands,
                happened,
                #[trigger] commands[happened[n].place].dependencies[k],
                n,
            ),
{
    lemma_took_place_before(commands, jobs, happened, n);
    lemma_at_most_jobs_turns(commands, jobs, happened.take(n));
    let place = happened[n].place;
    lemma_marked_was_announced(commands, jobs, happened, n, place);
    let run = runs_after(commands, happened.take(n))[place];
    assert forall|k: int| 0 <= k < commands[place].dependencies.len() implies announced(
        commands,
        happened,
        #[trigger] commands[place].dependencies[k],
        n,
    ) by {
        assert(run.ready[k]);
    }
}

/// A name is made ready exactly when the process of a command of that name
/// ends, however it ends, or is lost sight of.
pub proof fn lemma_every_end_announces(
    commands: Seq<CommandView>,
    jobs: nat,
    happened: Seq<Happening>,
    n: int,
)
    requires
        took_place(commands, jobs, happened),
        0 <= n < happened.len(),
    ensures
        announces(commands, happened, commands[happened[n].place].name, n) <==> (happened[n].event is Exited
            || happened[n].event matches Event::Read(_, Err(_))),
{
    lemma_took_place_before(commands, jobs, happened, n);
    let (run, event) = (happened[n].run, happened[n].event);
    if let ActionView::Finish(steps) = turn(run, event).1 {
        if steps[0] == ClosingView::ReleasePermit {
            assert(steps[1] == ClosingView::Announce);
        }
    }
}

/// The chain goes on, whatever failed in it: where every name that is waited
/// for has a command and no command waits for itself, and some name was not
/// made ready yet, there is a command whose own name was not, and for which
/// every name it waits for was.
pub proof fn lemma_chain_goes_on(
    commands: Seq<CommandView>,
    happened: Seq<Happening>,
    rank: spec_fn(Seq<char>) -> nat,
    place: int,
)
    requires
        waits_are_met(commands),
        waits_go_down(commands, rank),
        0 <= place < commands.len(),
        !announced(commands, happened, commands[place].name, happened.len() as int),
    ensures
        exists|i: int|
            0 <= i < commands.len() && !announced(
                commands,
                happened,
                (#[trigger] commands[i]).name,
                happened.len() as int,
            ) && forall|k: int|
                0 <= k < commands[i].dependencies.len() ==> announced(
                    commands,
                    happened,
                    #[trigger] commands[i].dependencies[k],
                    happened.len() as int,
                ),
{
    let done = Set::new(|name: Seq<char>| announced(commands, happened, name, happened.len() as int));
    lemma_something_can_run(commands, rank, done, place);
    let i = choose|i: int| #[trigger] can_run(commands, done, i);
    assert forall|k: int| 0 <= k < commands[i].dependencies.len() implies announced(
        commands,
        happened,
        #[trigger] commands[i].dependencies[k],
        happened.len() as int,
    ) by {
        assert(done.contains(commands[i].dependencies[k]));
    }
    assert(!announced(commands, happened, commands[i].name, happened.len() as int));
}

} // verus!
