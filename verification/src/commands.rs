//! The commands of one run: which there are, when the run is stuck, and what
//! is said at its end.

use vstd::prelude::*;

use crate::command::{Command, CommandOutput, CommandReport, CommandView, OutputView, ReportView};
use crate::ordered::{in_order, lemma_name_before_irreflexive, name_before, OrderedMap};
use crate::style::{bold, dimmed, in_bold, in_dim, in_red, red};
use crate::text::{
    centered, centered_line, copied, decimal, decimal_text, integer, integer_text, line_text, texts, LINE_WIDTH,
};

verus! {

/// The commands of a run.
#[must_use]
pub struct Commands {
    commands: Vec<Command>,
    free_commands: usize,
    reports: OrderedMap<usize>,
    show_reports: bool,
    jobs: usize,
}

/// What [`Commands`] say.
pub struct CommandsView {
    /// The commands, in the order in which they were added.
    pub commands: Seq<CommandView>,
    /// Whether the output of failures is shown at the end.
    pub show_reports: bool,
    /// How many processes run at a time.
    pub jobs: usize,
}

/// What each of the commands says.
pub open spec fn views(commands: Seq<Command>) -> Seq<CommandView> {
    commands.map_values(|c: Command| c@)
}

/// How many of the commands wait for nothing.
pub open spec fn free_count(commands: Seq<CommandView>) -> nat
    decreases commands.len(),
{
    if commands.len() == 0 {
        0
    } else {
        free_count(commands.drop_last()) + if commands.last().dependencies.len() == 0 { 1nat } else { 0nat }
    }
}

/// For each name, the place of the last command of that name.
pub open spec fn last_places(commands: Seq<CommandView>) -> Map<Seq<char>, usize>
    decreases commands.len(),
{
    if commands.len() == 0 {
        Map::empty()
    } else {
        last_places(commands.drop_last()).insert(commands.last().name, (commands.len() - 1) as usize)
    }
}

/// Whether `place` is that of the last command of its name.
pub open spec fn last_of_its_name(commands: Seq<CommandView>, place: int) -> bool {
    &&& 0 <= place < commands.len()
    &&& forall|j: int| place < j < commands.len() ==> (#[trigger] commands[j]).name != commands[place].name
}

/// Whether there is a command of that name.
pub open spec fn has_name(commands: Seq<CommandView>, name: Seq<char>) -> bool {
    exists|i: int| 0 <= i < commands.len() && (#[trigger] commands[i]).name == name
}

/// The names of the commands.
pub open spec fn command_names(commands: Seq<CommandView>) -> Seq<Seq<char>> {
    commands.map_values(|c: CommandView| c.name)
}

/// The names of the commands at some places.
pub open spec fn names_at(commands: Seq<CommandView>, places: Seq<usize>) -> Seq<Seq<char>> {
    places.map_values(|p: usize| commands[p as int].name)
}

/// Whether `places` are those of the commands whose reports count: of each
/// name the last command, in the order of the names.
pub open spec fn reporting_places(commands: Seq<CommandView>, places: Seq<usize>) -> bool {
    &&& forall|k: int| 0 <= k < places.len() ==> last_of_its_name(commands, #[trigger] places[k] as int)
    &&& in_order(names_at(commands, places))
    &&& forall|name: Seq<char>| has_name(commands, name) <==> #[trigger] names_at(commands, places).contains(name)
}

proof fn lemma_last_places(commands: Seq<CommandView>)
    requires
        commands.len() <= usize::MAX,
    ensures
        forall|name: Seq<char>| #[trigger] last_places(commands).contains_key(name) <==> has_name(commands, name),
        forall|name: Seq<char>| #[trigger]
            last_places(commands).contains_key(name) ==> {
                let place = last_places(commands)[name] as int;
                last_of_its_name(commands, place) && commands[place].name == name
            },
    decreases commands.len(),
{
    if commands.len() > 0 {
        let earlier = commands.drop_last();
        let last = commands.last();
        lemma_last_places(earlier);
        assert forall|name: Seq<char>|
            (#[trigger] last_places(commands).contains_key(name) <==> has_name(commands, name)) && (last_places(
                commands,
            ).contains_key(name) ==> {
                let place = last_places(commands)[name] as int;
                last_of_its_name(commands, place) && commands[place].name == name
            }) by {
            if has_name(commands, name) {
                let i = choose|i: int| 0 <= i < commands.len() && (#[trigger] commands[i]).name == name;
                if i < earlier.len() {
                    assert(earlier[i].name == name);
                    assert(has_name(earlier, name));
                }
            }
            if last.name == name {
                assert(commands[commands.len() - 1].name == name);
            } else if last_places(earlier).contains_key(name) {
                let place = last_places(earlier)[name] as int;
                assert(last_of_its_name(earlier, place));
                assert(commands[place] == earlier[place]);
                assert forall|j: int| place < j < commands.len() implies (#[trigger] commands[j]).name
                    != commands[place].name by {
                    if j < earlier.len() {
                        assert(earlier[j] == commands[j]);
                    }
                }
            }
        }
    }
}

impl View for Commands {
    type V = CommandsView;

    closed spec fn view(&self) -> CommandsView {
        CommandsView {
            commands: views(self.commands@),
            show_reports: self.show_reports,
            jobs: self.jobs,
        }
    }
}

/// How a run ends.
#[derive(PartialEq, Eq, Structural, Clone, Copy, Debug)]
pub enum Exit {
    Success,
    Failure,
}

/// Something to be written to standard error.
pub enum Write {
    /// A text that has to arrive.
    Text(String),
    /// The output of a command, which may be lost.
    Output(Vec<u8>),
}

/// What a [`Write`] says.
pub enum WriteView {
    Text(Seq<char>),
    Output(Seq<u8>),
}

impl View for Write {
    type V = WriteView;

    open spec fn view(&self) -> WriteView {
        match self {
            Write::Text(text) => WriteView::Text(text@),
            Write::Output(bytes) => WriteView::Output(bytes@),
        }
    }
}

/// What each of the writes says.
pub open spec fn written(writes: Seq<Write>) -> Seq<WriteView> {
    writes.map_values(|w: Write| w@)
}

/// What is left to do at the end of a run.
pub struct Conclusion {
    pub exit: Exit,
    pub writes: Vec<Write>,
}

/// Why a run cannot begin in which every command waits for something.
pub open spec fn none_free_message() -> Seq<char> {
    "["@ + in_bold(in_red("ERROR"@)) + "]: No commands without dependencies"@
}

/// Whether one of the commands waits for nothing.
pub open spec fn some_free(commands: Seq<CommandView>) -> bool {
    exists|i: int| 0 <= i < commands.len() && (#[trigger] commands[i]).dependencies.len() == 0
}

/// What each of the reports says, where there is one.
pub open spec fn report_views(outcomes: Seq<Option<CommandReport>>) -> Seq<Option<ReportView>> {
    outcomes.map_values(
        |o: Option<CommandReport>|
            match o {
                Some(report) => Some(report@),
                None => None,
            },
    )
}

/// What the failed ones of some commands left behind, in the same order.
pub open spec fn failures(outcomes: Seq<Option<ReportView>>) -> Seq<OutputView>
    decreases outcomes.len(),
{
    if outcomes.len() == 0 {
        Seq::empty()
    } else {
        match outcomes.last() {
            Some(ReportView::Failed(output)) => failures(outcomes.drop_last()).push(output),
            _ => failures(outcomes.drop_last()),
        }
    }
}

/// What each of the outputs says.
pub open spec fn output_views(outputs: Seq<CommandOutput>) -> Seq<OutputView> {
    outputs.map_values(|o: CommandOutput| o@)
}

/// A line with a message in its middle.
pub open spec fn title(message: Seq<char>) -> WriteView {
    WriteView::Text(centered(message, LINE_WIDTH as nat).push('\n'))
}

/// The line that counts the failures.
pub open spec fn count_title(count: nat) -> WriteView {
    title(" "@ + decimal(count) + " Tasks Failed "@)
}

/// The output of each failure, under its name.
pub open spec fn outputs_shown(failed: Seq<OutputView>) -> Seq<WriteView>
    decreases failed.len(),
{
    if failed.len() == 0 {
        Seq::empty()
    } else {
        outputs_shown(failed.drop_last()) + seq![
            title(" "@ + failed.last().name + " "@),
            WriteView::Output(failed.last().buffer),
        ]
    }
}

/// The line that sums a failure up.
pub open spec fn summary(failed: OutputView) -> WriteView {
    WriteView::Text(
        (in_dim(in_bold(failed.name)) + ": "@ + in_bold(in_red("exited"@)) + " with "@ + integer(
            failed.exit_code as int,
        )).push('\n'),
    )
}

/// What is said of failures: their number, the output of each, their number
/// again, and a line for each.
pub open spec fn failure_report(failed: Seq<OutputView>) -> Seq<WriteView> {
    seq![count_title(failed.len())] + outputs_shown(failed) + seq![count_title(failed.len())]
        + failed.map_values(|f: OutputView| summary(f))
}

fn titled(message: &str) -> (write: Write)
    ensures
        write@ == title(message@),
{
    Write::Text(centered_line(message))
}

fn counted(count: usize) -> (write: Write)
    ensures
        write@ == count_title(count as nat),
{
    let mut message = String::from_str(" ");
    message.append(decimal_text(count as u64).as_str());
    message.append(" Tasks Failed ");
    titled(message.as_str())
}

fn summed_up(failed: &CommandOutput) -> (write: Write)
    ensures
        write@ == summary(failed@),
{
    let mut text = dimmed(bold(failed.name.as_str()).as_str());
    text.append(": ");
    text.append(bold(red("exited").as_str()).as_str());
    text.append(" with ");
    text.append(integer_text(failed.exit_code).as_str());
    Write::Text(line_text(text.as_str()))
}

/// Says what is written of failures.
pub fn report_failures(failed: &Vec<CommandOutput>) -> (writes: Vec<Write>)
    ensures
        written(writes@) == failure_report(output_views(failed@)),
{
    let mut writes: Vec<Write> = Vec::new();
    let ghost all = output_views(failed@);
    writes.push(counted(failed.len()));
    assert(written(writes@) =~= seq![count_title(all.len())] + outputs_shown(all.take(0)));
    for i in 0..failed.len()
        invariant
            all == output_views(failed@),
            written(writes@) == seq![count_title(all.len())] + outputs_shown(all.take(i as int)),
    {
        let ghost earlier = written(writes@);
        let output = &failed[i];
        let mut message = String::from_str(" ");
        message.append(output.name.as_str());
        message.append(" ");
        writes.push(titled(message.as_str()));
        let mut bytes: Vec<u8> = Vec::new();
        bytes.extend_from_slice(output.buffer.as_slice());
        assert(bytes@ == output.buffer@);
        writes.push(Write::Output(bytes));
        proof {
            let seen = all.take(i + 1);
            assert(seen.drop_last() == all.take(i as int));
            assert(seen.last() == output@);
            assert(written(writes@) =~= earlier + seq![
                title(" "@ + output.name@ + " "@),
                WriteView::Output(output.buffer@),
            ]);
            assert(written(writes@) =~= seq![count_title(all.len())] + outputs_shown(seen));
        }
    }
    assert(all.take(failed@.len() as int) == all);
    writes.push(counted(failed.len()));
    let ghost head = seq![count_title(all.len())] + outputs_shown(all) + seq![count_title(all.len())];
    let ghost lines = all.map_values(|f: OutputView| summary(f));
    assert(written(writes@) =~= head + lines.take(0));
    for i in 0..failed.len()
        invariant
            all == output_views(failed@),
            lines == all.map_values(|f: OutputView| summary(f)),
            written(writes@) == head + lines.take(i as int),
    {
        let ghost earlier = written(writes@);
        writes.push(summed_up(&failed[i]));
        proof {
            assert(all[i as int] == failed@[i as int]@);
            assert(written(writes@) =~= earlier.push(summary(all[i as int])));
            assert(lines.take(i + 1) =~= lines.take(i as int).push(lines[i as int]));
            assert(written(writes@) =~= head + lines.take(i + 1));
        }
    }
    assert(lines.take(failed@.len() as int) == lines);
    writes
}

/// Picks what the failed ones of some commands left behind.
pub fn collect_failures(outcomes: Vec<Option<CommandReport>>) -> (failed: Vec<CommandOutput>)
    ensures
        output_views(failed@) == failures(report_views(outcomes@)),
{
    let mut failed: Vec<CommandOutput> = Vec::new();
    let ghost all = report_views(outcomes@);
    assert(output_views(failed@) =~= failures(all.take(0)));
    for outcome in reports: outcomes
        invariant
            all == report_views(reports.seq()),
            output_views(failed@) == failures(all.take(reports.index())),
    {
        let ghost earlier = failed@;
        proof {
            let i = reports.index();
            assert(all.take(i + 1).drop_last() == all.take(i));
            assert(all.take(i + 1).last() == all[i]);
        }
        if let Some(CommandReport::Failed(output)) = outcome {
            failed.push(output);
            assert(output_views(failed@) =~= output_views(earlier).push(output@));
        }
    }
    assert(all.take(all.len() as int) == all);
    failed
}

impl Commands {
    /// The commands that wait for nothing are counted, and each name has the
    /// place of its last command.
    pub closed spec fn wf(self) -> bool {
        &&& self.free_commands == free_count(views(self.commands@))
        &&& self.reports.wf()
        &&& self.reports@ == last_places(views(self.commands@))
    }

    /// No commands yet, for a run of `jobs` processes at a time.
    pub fn new(show_reports: bool, jobs: usize) -> (commands: Self)
        ensures
            commands.wf(),
            commands@ == (CommandsView { commands: Seq::empty(), show_reports, jobs }),
    {
        let commands = Commands {
            commands: Vec::new(),
            free_commands: 0,
            reports: OrderedMap::new(),
            show_reports,
            jobs,
        };
        assert(views(commands.commands@) =~= Seq::<CommandView>::empty());
        commands
    }

    /// Adds a command that waits for the names `dependencies`.
    pub fn dependent_command(&mut self, name: &str, args: &[String], dependencies: &[String])
        requires
            old(self).wf(),
        ensures
            final(self).wf(),
            final(self)@ == (CommandsView {
                commands: old(self)@.commands.push(
                    CommandView {
                        name: name@,
                        args: texts(args@),
                        dependencies: texts(dependencies@),
                    },
                ),
                ..old(self)@
            }),
    {
        let ghost earlier = views(self.commands@);
        let place = self.commands.len();
        let (command, _) = Command::new(name.to_owned(), copied(args), copied(dependencies));
        let ghost added = command@;
        self.commands.push(command);
        proof {
            lemma_free_count_bound(earlier);
            assert(views(self.commands@) =~= earlier.push(added));
            assert(views(self.commands@).drop_last() =~= earlier);
            assert(self.commands.len() <= usize::MAX);
        }
        if dependencies.len() == 0 {
            self.free_commands = self.free_commands + 1;
        }
        let _ = self.reports.insert(name.to_owned(), place);
    }

    /// Adds a command that waits for nothing.
    pub fn command(&mut self, name: &str, args: &[String])
        requires
            old(self).wf(),
        ensures
            final(self).wf(),
            final(self)@ == (CommandsView {
                commands: old(self)@.commands.push(
                    CommandView { name: name@, args: texts(args@), dependencies: Seq::empty() },
                ),
                ..old(self)@
            }),
    {
        let none: Vec<String> = Vec::new();
        assert(texts(none@) =~= Seq::<Seq<char>>::empty());
        self.dependent_command(name, args, none.as_slice());
    }

    /// How many commands there are.
    pub fn len(&self) -> (count: usize)
        ensures
            count == self@.commands.len(),
    {
        self.commands.len()
    }

    /// One of the commands.
    pub fn at(&self, place: usize) -> (command: &Command)
        requires
            place < self@.commands.len(),
        ensures
            command@ == self@.commands[place as int],
    {
        &self.commands[place]
    }

    /// How many processes run at a time.
    pub fn jobs(&self) -> (jobs: usize)
        ensures
            jobs == self@.jobs,
    {
        self.jobs
    }

    /// Why the run cannot begin: every command waits for something.
    pub fn start_error(&self) -> (error: Option<String>)
        requires
            self.wf(),
        ensures
            match error {
                Some(message) => !some_free(self@.commands) && message@ == none_free_message(),
                None => some_free(self@.commands),
            },
            error is Some <==> forall|i: int|
                0 <= i < self@.commands.len() ==> (#[trigger] self@.commands[i]).dependencies.len() > 0,
    {
        proof {
            lemma_free_count_zero(self@.commands);
        }
        if self.free_commands == 0 {
            let mut message = String::from_str("[");
            message.append(bold(red("ERROR").as_str()).as_str());
            message.append("]: No commands without dependencies");
            Some(message)
        } else {
            None
        }
    }

    /// How a run ends that cannot begin: it is a failure, and a line says why.
    pub fn refusal(&self) -> (end: Option<Conclusion>)
        requires
            self.wf(),
        ensures
            match end {
                Some(conclusion) => {
                    &&& !some_free(self@.commands)
                    &&& conclusion.exit == Exit::Failure
                    &&& written(conclusion.writes@) == seq![WriteView::Text(none_free_message().push('\n'))]
                },
                None => some_free(self@.commands),
            },
            end is Some <==> forall|i: int|
                0 <= i < self@.commands.len() ==> (#[trigger] self@.commands[i]).dependencies.len() > 0,
    {
        match self.start_error() {
            Some(message) => {
                let mut writes: Vec<Write> = Vec::new();
                writes.push(Write::Text(line_text(message.as_str())));
                assert(written(writes@) =~= seq![WriteView::Text(none_free_message().push('\n'))]);
                Some(Conclusion { exit: Exit::Failure, writes })
            },
            None => None,
        }
    }

    /// The places of the commands whose reports count at the end: of each name
    /// the last command, in the order of the names.
    pub fn reporting(&self) -> (places: Vec<usize>)
        requires
            self.wf(),
        ensures
            reporting_places(self@.commands, places@),
    {
        let mut places: Vec<usize> = Vec::new();
        let ghost commands = self@.commands;
        let count = self.reports.len();
        proof {
            assert(self.commands.len() <= usize::MAX);
            lemma_last_places(commands);
            self.reports.lemma_names();
        }
        for i in 0..count
            invariant
                self.wf(),
                commands == self@.commands,
                count == self.reports.names().len(),
                places@.len() == i,
                forall|name: Seq<char>| #[trigger]
                    last_places(commands).contains_key(name) ==> {
                        let place = last_places(commands)[name] as int;
                        last_of_its_name(commands, place) && commands[place].name == name
                    },
                forall|k: int|
                    0 <= k < i ==> last_of_its_name(commands, #[trigger] places@[k] as int)
                        && commands[places@[k] as int].name == self.reports.names()[k],
        {
            let (name, place) = self.reports.at(i);
            assert(last_places(commands).contains_key(name@));
            places.push(*place);
        }
        proof {
            assert(names_at(commands, places@) =~= self.reports.names());
            assert forall|name: Seq<char>|
                has_name(commands, name) <==> #[trigger] names_at(commands, places@).contains(name) by {
                assert(last_places(commands).contains_key(name) <==> has_name(commands, name));
            }
        }
        places
    }

    /// How many reports count at the end: one for each name.
    pub fn report_count(&self) -> (count: usize)
        requires
            self.wf(),
        ensures
            count == command_names(self@.commands).to_set().len(),
    {
        proof {
            let commands = self@.commands;
            assert(self.commands.len() <= usize::MAX);
            lemma_last_places(commands);
            let names = command_names(commands);
            assert forall|name: Seq<char>|
                names.to_set().contains(name) <==> self.reports@.dom().contains(name) by {
                if names.contains(name) {
                    let i = choose|i: int| 0 <= i < names.len() && names[i] == name;
                    assert(commands[i].name == name);
                }
                if self.reports@.contains_key(name) {
                    let i = choose|i: int| 0 <= i < commands.len() && (#[trigger] commands[i]).name == name;
                    assert(names[i] == name);
                }
            }
            assert(names.to_set() =~= self.reports@.dom());
        }
        self.reports.len()
    }

    /// Ends a run, given what became of the commands whose reports count, in
    /// their order: it is a failure if one of them failed, and the failures
    /// are told of where reports are wanted.
    pub fn conclude(&self, outcomes: Vec<Option<CommandReport>>) -> (conclusion: Conclusion)
        ensures
            ({
                let failed = failures(report_views(outcomes@));
                &&& conclusion.exit == if failed.len() > 0 { Exit::Failure } else { Exit::Success }
                &&& written(conclusion.writes@) == if self@.show_reports && failed.len() > 0 {
                    failure_report(failed)
                } else {
                    Seq::<WriteView>::empty()
                }
            }),
            conclusion.exit == Exit::Failure <==> exists|i: int|
                0 <= i < outcomes@.len() && #[trigger] outcomes@[i] matches Some(CommandReport::Failed(_)),
            !self@.show_reports ==> conclusion.writes@.len() == 0,
            conclusion.exit == Exit::Success ==> conclusion.writes@.len() == 0,
            self@.show_reports && conclusion.exit == Exit::Failure ==> conclusion.writes@.len() == 2 + 3 * failures(
                report_views(outcomes@),
            ).len(),
    {
        proof {
            let reports = report_views(outcomes@);
            lemma_failures(reports);
            lemma_every_failure_told(failures(reports));
            assert forall|i: int| 0 <= i < outcomes@.len() implies (#[trigger] outcomes@[i] matches Some(
                CommandReport::Failed(_),
            )) == (reports[i] matches Some(ReportView::Failed(_))) by {}
            if failures(reports).len() > 0 {
                let i = choose|i: int|
                    0 <= i < reports.len() && #[trigger] reports[i] matches Some(ReportView::Failed(_));
                assert(outcomes@[i] matches Some(CommandReport::Failed(_)));
            }
            if exists|i: int|
                0 <= i < outcomes@.len() && #[trigger] outcomes@[i] matches Some(CommandReport::Failed(_)) {
                let i = choose|i: int|
                    0 <= i < outcomes@.len() && #[trigger] outcomes@[i] matches Some(CommandReport::Failed(_));
                assert(reports[i] matches Some(ReportView::Failed(_)));
            }
        }
        let failed = collect_failures(outcomes);
        let exit = if failed.len() > 0 { Exit::Failure } else { Exit::Success };
        let writes: Vec<Write> = if self.show_reports && failed.len() > 0 {
            report_failures(&failed)
        } else {
            Vec::new()
        };
        assert(failures(report_views(outcomes@)).len() == failed@.len());
        assert(writes@.len() == written(writes@).len());
        proof {
            if !(self.show_reports && failed@.len() > 0) {
                assert(written(writes@) =~= Seq::<WriteView>::empty());
            }
        }
        Conclusion { exit, writes }
    }
}

proof fn lemma_free_count_bound(commands: Seq<CommandView>)
    ensures
        free_count(commands) <= commands.len(),
    decreases commands.len(),
{
    if commands.len() > 0 {
        lemma_free_count_bound(commands.drop_last());
    }
}

proof fn lemma_free_count_zero(commands: Seq<CommandView>)
    ensures
        free_count(commands) == 0 ==> forall|i: int|
            0 <= i < commands.len() ==> (#[trigger] commands[i]).dependencies.len() > 0,
        free_count(commands) > 0 ==> exists|i: int|
            0 <= i < commands.len() && (#[trigger] commands[i]).dependencies.len() == 0,
    decreases commands.len(),
{
    if commands.len() > 0 {
        let earlier = commands.drop_last();
        lemma_free_count_zero(earlier);
        assert(commands[commands.len() - 1] == commands.last());
        if free_count(earlier) > 0 {
            let i = choose|i: int| 0 <= i < earlier.len() && (#[trigger] earlier[i]).dependencies.len() == 0;
            assert(commands[i].dependencies.len() == 0);
        }
        if free_count(commands) == 0 {
            assert forall|i: int| 0 <= i < commands.len() implies (#[trigger] commands[i]).dependencies.len()
                > 0 by {
                if i < earlier.len() {
                    assert(earlier[i] == commands[i]);
                }
            }
        }
    }
}

/// Which commands' reports count, and in which order, is settled by the
/// commands.
pub proof fn lemma_reporting_places_unique(commands: Seq<CommandView>, a: Seq<usize>, b: Seq<usize>)
    requires
        reporting_places(commands, a),
        reporting_places(commands, b),
    ensures
        a == b,
{
    let (x, y) = (names_at(commands, a), names_at(commands, b));
    assert forall|name: Seq<char>| x.contains(name) <==> y.contains(name) by {
        assert(has_name(commands, name) <==> names_at(commands, a).contains(name));
        assert(has_name(commands, name) <==> names_at(commands, b).contains(name));
    }
    crate::ordered::lemma_in_order_unique(x, y);
    assert forall|k: int| 0 <= k < a.len() implies a[k] == b[k] by {
        assert(x[k] == y[k]);
        assert(last_of_its_name(commands, a[k] as int));
        assert(last_of_its_name(commands, b[k] as int));
        if a[k] < b[k] {
            assert(commands[b[k] as int].name != commands[a[k] as int].name);
        }
        if b[k] < a[k] {
            assert(commands[a[k] as int].name != commands[b[k] as int].name);
        }
    }
    assert(a.len() == x.len() && b.len() == y.len());
}

/// A run fails exactly when one of the reports that count tells of a failure.
pub proof fn lemma_failures(outcomes: Seq<Option<ReportView>>)
    ensures
        failures(outcomes).len() > 0 <==> exists|i: int|
            0 <= i < outcomes.len() && #[trigger] outcomes[i] matches Some(ReportView::Failed(_)),
    decreases outcomes.len(),
{
    if outcomes.len() > 0 {
        let earlier = outcomes.drop_last();
        lemma_failures(earlier);
        assert(outcomes[outcomes.len() - 1] == outcomes.last());
        if failures(earlier).len() > 0 {
            let i = choose|i: int|
                0 <= i < earlier.len() && #[trigger] earlier[i] matches Some(ReportView::Failed(_));
            assert(outcomes[i] == earlier[i]);
        }
        if failures(outcomes).len() == 0 {
            assert forall|i: int| 0 <= i < outcomes.len() implies !(#[trigger] outcomes[i] matches Some(
                ReportView::Failed(_),
            )) by {
                if i < earlier.len() {
                    assert(earlier[i] == outcomes[i]);
                }
            }
        }
    }
}

/// Whether every name that a command waits for is the name of a command.
pub open spec fn waits_are_met(commands: Seq<CommandView>) -> bool {
    forall|i: int, k: int|
        0 <= i < commands.len() && 0 <= k < commands[i].dependencies.len() ==> has_name(
            commands,
            #[trigger] commands[i].dependencies[k],
        )
}

/// Whether no command waits for itself, not even by way of others: names have
/// ranks, and a command waits only for names of lower rank.
pub open spec fn waits_go_down(commands: Seq<CommandView>, rank: spec_fn(Seq<char>) -> nat) -> bool {
    forall|i: int, k: int|
        0 <= i < commands.len() && 0 <= k < commands[i].dependencies.len() ==> rank(
            #[trigger] commands[i].dependencies[k],
        ) < rank(commands[i].name)
}

/// Whether the command at `place` is not done and everything it waits for is.
pub open spec fn can_run(commands: Seq<CommandView>, done: Set<Seq<char>>, place: int) -> bool {
    &&& 0 <= place < commands.len()
    &&& !done.contains(commands[place].name)
    &&& forall|k: int|
        0 <= k < commands[place].dependencies.len() ==> done.contains(
            #[trigger] commands[place].dependencies[k],
        )
}

/// As long as something is left to do, something can be done: where every name
/// that is waited for has a command and no command waits for itself, and some
/// command is not done, there is one that has nothing left to wait for.
pub proof fn lemma_something_can_run(
    commands: Seq<CommandView>,
    rank: spec_fn(Seq<char>) -> nat,
    done: Set<Seq<char>>,
    place: int,
)
    requires
        waits_are_met(commands),
        waits_go_down(commands, rank),
        0 <= place < commands.len(),
        !done.contains(commands[place].name),
    ensures
        exists|i: int| #[trigger] can_run(commands, done, i),
    decreases rank(commands[place].name),
{
    let waits = commands[place].dependencies;
    if forall|k: int| 0 <= k < waits.len() ==> done.contains(#[trigger] waits[k]) {
        assert(can_run(commands, done, place));
    } else {
        let k = choose|k: int| 0 <= k < waits.len() && !done.contains(#[trigger] waits[k]);
        let name = commands[place].dependencies[k];
        assert(has_name(commands, name));
        let i = choose|i: int| 0 <= i < commands.len() && (#[trigger] commands[i]).name == name;
        lemma_something_can_run(commands, rank, done, i);
    }
}

/// What failed is gathered part by part: a list of reports gives the failures
/// of its first part and then those of its second; one report gives its output
/// where it tells of a failure, and nothing else gives anything.
pub proof fn lemma_failures_in_parts(
    a: Seq<Option<ReportView>>,
    b: Seq<Option<ReportView>>,
    report: Option<ReportView>,
)
    ensures
        failures(a + b) == failures(a) + failures(b),
        failures(Seq::empty()) == Seq::<OutputView>::empty(),
        report matches Some(ReportView::Failed(output)) ==> failures(seq![report]) == seq![output],
        !(report matches Some(ReportView::Failed(_))) ==> failures(seq![report]) == Seq::<OutputView>::empty(),
    decreases b.len(),
{
    assert(seq![report].drop_last() =~= Seq::<Option<ReportView>>::empty());
    reveal_with_fuel(failures, 2);
    if b.len() == 0 {
        assert(a + b =~= a);
        assert(failures(a) + failures(b) =~= failures(a));
    } else {
        assert((a + b).drop_last() =~= a + b.drop_last());
        assert((a + b).last() == b.last());
        lemma_failures_in_parts(a, b.drop_last(), report);
        assert(failures(a + b) =~= failures(a) + failures(b));
    }
    match report {
        Some(ReportView::Failed(output)) => {
            assert(failures(seq![report]) =~= seq![output]);
        },
        _ => {},
    }
}

/// The views of reports, outputs, writes and commands are as many as these are,
/// each that of its own.
pub proof fn lemma_views_one_for_one(
    outcomes: Seq<Option<CommandReport>>,
    outputs: Seq<CommandOutput>,
    writes: Seq<Write>,
    commands: Seq<Command>,
)
    ensures
        report_views(outcomes).len() == outcomes.len(),
        forall|i: int|
            0 <= i < outcomes.len() ==> match outcomes[i] {
                Some(report) => #[trigger] report_views(outcomes)[i] == Some(report@),
                None => report_views(outcomes)[i] is None,
            },
        output_views(outputs).len() == outputs.len(),
        forall|i: int| 0 <= i < outputs.len() ==> #[trigger] output_views(outputs)[i] == outputs[i]@,
        written(writes).len() == writes.len(),
        forall|i: int| 0 <= i < writes.len() ==> #[trigger] written(writes)[i] == writes[i]@,
        forall|i: int|
            0 <= i < writes.len() ==> match writes[i] {
                Write::Text(text) => #[trigger] written(writes)[i] == WriteView::Text(text@),
                Write::Output(bytes) => written(writes)[i] == WriteView::Output(bytes@),
            },
        views(commands).len() == commands.len(),
        forall|i: int| 0 <= i < commands.len() ==> #[trigger] views(commands)[i] == commands[i]@,
{
}

proof fn lemma_outputs_shown(failed: Seq<OutputView>)
    ensures
        outputs_shown(failed).len() == 2 * failed.len(),
        forall|i: int|
            0 <= i < failed.len() ==> outputs_shown(failed)[2 * i] == title(" "@ + (#[trigger] failed[i]).name + " "@)
                && outputs_shown(failed)[2 * i + 1] == WriteView::Output(failed[i].buffer),
    decreases failed.len(),
{
    if failed.len() > 0 {
        let earlier = failed.drop_last();
        lemma_outputs_shown(earlier);
        assert forall|i: int| 0 <= i < failed.len() implies outputs_shown(failed)[2 * i] == title(
            " "@ + (#[trigger] failed[i]).name + " "@,
        ) && outputs_shown(failed)[2 * i + 1] == WriteView::Output(failed[i].buffer) by {
            if i < earlier.len() {
                assert(earlier[i] == failed[i]);
                assert(outputs_shown(failed)[2 * i] == outputs_shown(earlier)[2 * i]);
                assert(outputs_shown(failed)[2 * i + 1] == outputs_shown(earlier)[2 * i + 1]);
            }
        }
    }
}

/// Everything that failed is told of, in its order: between two lines that
/// count the failures, each has its name in the middle of a line and then its
/// output; after them each has a line with its name and its exit code. Nothing
/// else is written.
pub proof fn lemma_every_failure_told(failed: Seq<OutputView>)
    ensures
        failure_report(failed).len() == 2 + 3 * failed.len(),
        failure_report(failed)[0] == WriteView::Text(
            centered(" "@ + decimal(failed.len()) + " Tasks Failed "@, 80).push('\n'),
        ),
        failure_report(failed)[1 + 2 * failed.len() as int] == failure_report(failed)[0],
        forall|i: int|
            0 <= i < failed.len() ==> {
                &&& failure_report(failed)[1 + 2 * i] == WriteView::Text(
                    centered(" "@ + (#[trigger] failed[i]).name + " "@, 80).push('\n'),
                )
                &&& failure_report(failed)[2 + 2 * i] == WriteView::Output(failed[i].buffer)
                &&& failure_report(failed)[2 + 2 * failed.len() + i] == WriteView::Text(
                    "\x1b[2m"@ + ("\x1b[1m"@ + failed[i].name + "\x1b[0m"@) + "\x1b[0m"@ + ": "@ + ("\x1b[1m"@ + (
                    "\x1b[31m"@ + "exited"@ + "\x1b[39m"@) + "\x1b[0m"@) + " with "@ + integer(
                        failed[i].exit_code as int,
                    ) + "\n"@,
                )
            },
{
    reveal_strlit("\n");
    lemma_outputs_shown(failed);
    let report = failure_report(failed);
    let shown = outputs_shown(failed);
    assert forall|i: int| 0 <= i < failed.len() implies {
        &&& report[1 + 2 * i] == WriteView::Text(
            centered(" "@ + (#[trigger] failed[i]).name + " "@, 80).push('\n'),
        )
        &&& report[2 + 2 * i] == WriteView::Output(failed[i].buffer)
        &&& report[2 + 2 * failed.len() + i] == WriteView::Text(
            "\x1b[2m"@ + ("\x1b[1m"@ + failed[i].name + "\x1b[0m"@) + "\x1b[0m"@ + ": "@ + ("\x1b[1m"@ + ("\x1b[31m"@
                + "exited"@ + "\x1b[39m"@) + "\x1b[0m"@) + " with "@ + integer(failed[i].exit_code as int) + "\n"@,
        )
    } by {
        assert(report[1 + 2 * i] == shown[2 * i]);
        assert(report[2 + 2 * i] == shown[2 * i + 1]);
        assert(report[2 + 2 * failed.len() + i] == summary(failed[i]));
        let line = in_dim(in_bold(failed[i].name)) + ": "@ + in_bold(in_red("exited"@)) + " with "@ + integer(
            failed[i].exit_code as int,
        );
        assert(line.push('\n') =~= line + "\n"@);
    }
}

/// Of every command there is a report that counts: that of the last command of
/// its name. The places that report are in range, and stand in the order of
/// their names, so that no name reports twice.
pub proof fn lemma_every_name_reports_once(commands: Seq<CommandView>, places: Seq<usize>, i: int)
    requires
        reporting_places(commands, places),
        0 <= i < commands.len(),
    ensures
        exists|k: int|
            0 <= k < places.len() && i <= #[trigger] places[k] < commands.len() && commands[places[k] as int].name
                == commands[i].name && forall|j: int|
                places[k] < j < commands.len() ==> (#[trigger] commands[j]).name != commands[i].name,
        forall|k: int, l: int|
            0 <= k < l < places.len() ==> name_before(
                commands[#[trigger] places[k] as int].name,
                commands[#[trigger] places[l] as int].name,
            ),
{
    let names = names_at(commands, places);
    assert(has_name(commands, commands[i].name));
    assert(names.contains(commands[i].name));
    let k = choose|k: int| 0 <= k < names.len() && names[k] == commands[i].name;
    assert(last_of_its_name(commands, places[k] as int));
    assert(commands[places[k] as int].name == commands[i].name);
    assert forall|k: int, l: int| 0 <= k < l < places.len() implies name_before(
        commands[#[trigger] places[k] as int].name,
        commands[#[trigger] places[l] as int].name,
    ) by {
        assert(name_before(names[k], names[l]));
    }
}

/// What is said of a run that cannot begin.
pub proof fn lemma_none_free_message()
    ensures
        none_free_message() == "["@ + ("\x1b[1m"@ + ("\x1b[31m"@ + "ERROR"@ + "\x1b[39m"@) + "\x1b[0m"@)
            + "]: No commands without dependencies"@,
{
}

/// A run can begin as soon as one command waits for nothing: no commands are
/// not enough, and one more is enough exactly where those before it were or it
/// waits for nothing itself.
pub proof fn lemma_some_free(commands: Seq<CommandView>, command: CommandView)
    ensures
        !some_free(Seq::empty()),
        some_free(commands.push(command)) <==> some_free(commands) || command.dependencies.len() == 0,
{
    let more = commands.push(command);
    if some_free(commands) {
        let i = choose|i: int| 0 <= i < commands.len() && (#[trigger] commands[i]).dependencies.len() == 0;
        assert(more[i] == commands[i]);
    }
    if command.dependencies.len() == 0 {
        assert(more[commands.len() as int] == command);
    }
    if some_free(more) {
        let i = choose|i: int| 0 <= i < more.len() && (#[trigger] more[i]).dependencies.len() == 0;
        if i < commands.len() {
            assert(commands[i] == more[i]);
        }
    }
}

/// As many reports count as there are names.
pub proof fn lemma_as_many_reports_as_names(commands: Seq<CommandView>, places: Seq<usize>)
    requires
        reporting_places(commands, places),
    ensures
        places.len() == command_names(commands).to_set().len(),
{
    let names = names_at(commands, places);
    let all = command_names(commands);
    assert forall|i: int, j: int| 0 <= i < j < names.len() implies names[i] != names[j] by {
        lemma_name_before_irreflexive(names[i], names[j]);
    }
    names.unique_seq_to_set();
    assert forall|name: Seq<char>| names.to_set().contains(name) <==> all.to_set().contains(name) by {
        assert(has_name(commands, name) <==> names.contains(name));
        if all.contains(name) {
            let i = choose|i: int| 0 <= i < all.len() && all[i] == name;
            assert(commands[i].name == name);
        }
        if has_name(commands, name) {
            let i = choose|i: int| 0 <= i < commands.len() && (#[trigger] commands[i]).name == name;
            assert(all[i] == name);
        }
    }
    assert(names.to_set() =~= all.to_set());
}

/// The names of commands, and of those at some places, are as many as these
/// are, each that of its own.
pub proof fn lemma_names_one_for_one(commands: Seq<CommandView>, places: Seq<usize>)
    ensures
        command_names(commands).len() == commands.len(),
        forall|i: int| 0 <= i < commands.len() ==> #[trigger] command_names(commands)[i] == commands[i].name,
        names_at(commands, places).len() == places.len(),
        forall|k: int|
            0 <= k < places.len() ==> #[trigger] names_at(commands, places)[k] == commands[places[k] as int].name,
{
}

} // verus!
