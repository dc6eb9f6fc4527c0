//! Which commands a railyard file asks for.

use vstd::prelude::*;

use crate::command::CommandView;
use crate::commands::{command_names, Commands, CommandsView};
use crate::text::texts;

verus! {

/// The error of reading a TOML document (`toml_edit::TomlError`). The library
/// carries it and does not look inside.
#[verifier::external_type_specification]
#[verifier::external_body]
pub struct ExTomlError(toml_edit::TomlError);

/// An entry at the top of a TOML document. Of an array, each element is its
/// text where it is a string.
pub struct Entry {
    pub name: String,
    pub array: Option<Vec<Option<String>>>,
}

/// What the elements of an array say.
pub open spec fn element_views(elements: Seq<Option<String>>) -> Seq<Option<Seq<char>>> {
    elements.map_values(
        |e: Option<String>|
            match e {
                Some(text) => Some(text@),
                None => None,
            },
    )
}

/// What an [`Entry`] says: its name and, where it is an array, its elements.
pub open spec fn entry_view(entry: Entry) -> (Seq<char>, Option<Seq<Option<Seq<char>>>>) {
    (
        entry.name@,
        match entry.array {
            Some(elements) => Some(element_views(elements@)),
            None => None,
        },
    )
}

/// What each of the entries says.
pub open spec fn entry_views(entries: Seq<Entry>) -> Seq<(Seq<char>, Option<Seq<Option<Seq<char>>>>)> {
    entries.map_values(|e: Entry| entry_view(e))
}

/// The entries at the top of the TOML document that `toml_edit` reads in a
/// text, in its order, or nothing where it reads none.
pub uninterp spec fn toml_document(text: Seq<char>) -> Option<Seq<(Seq<char>, Option<Seq<Option<Seq<char>>>>)>>;

/// Reads a text as a TOML document, by the `FromStr` of
/// `toml_edit::DocumentMut`, and hands out the entries of its root table one
/// for one. What is claimed is that entries and failure depend on the text
/// alone, and that no two entries of a table have the same name.
#[verifier::external_body]
fn parse_document(raw: &str) -> (document: Result<Vec<Entry>, toml_edit::TomlError>)
    ensures
        match document {
            Ok(entries) => toml_document(raw@) == Some(entry_views(entries@)),
            Err(_) => toml_document(raw@) is None,
        },
        document matches Ok(entries) ==> distinct_names(entry_views(entries@)),
{
    let document: toml_edit::DocumentMut = raw.parse()?;
    let entries = document.as_table().iter().map(|(name, item)| Entry {
        name: name.to_string(),
        array: item.as_array().map(|array| {
            array.iter().map(|value| value.as_str().map(|text| text.to_string())).collect()
        }),
    });
    Ok(entries.collect())
}

/// Whether no two entries have the same name.
pub open spec fn distinct_names(entries: Seq<(Seq<char>, Option<Seq<Option<Seq<char>>>>)>) -> bool {
    forall|i: int, j: int| 0 <= i < j < entries.len() ==> (#[trigger] entries[i]).0 != (#[trigger] entries[j]).0
}

/// The texts among some elements.
pub open spec fn strings_among(elements: Seq<Option<Seq<char>>>) -> Seq<Seq<char>>
    decreases elements.len(),
{
    if elements.len() == 0 {
        Seq::empty()
    } else {
        match elements.last() {
            Some(text) => strings_among(elements.drop_last()).push(text),
            None => strings_among(elements.drop_last()),
        }
    }
}

/// The commands that some entries ask for: one for each array, which runs the
/// texts in it and waits for nothing.
pub open spec fn entry_commands(entries: Seq<(Seq<char>, Option<Seq<Option<Seq<char>>>>)>) -> Seq<CommandView>
    decreases entries.len(),
{
    if entries.len() == 0 {
        Seq::empty()
    } else {
        let earlier = entry_commands(entries.drop_last());
        match entries.last().1 {
            Some(elements) => earlier.push(
                CommandView {
                    name: entries.last().0,
                    args: strings_among(elements),
                    dependencies: Seq::empty(),
                },
            ),
            None => earlier,
        }
    }
}

fn strings_of(elements: &Vec<Option<String>>) -> (strings: Vec<String>)
    ensures
        texts(strings@) == strings_among(element_views(elements@)),
{
    let mut strings: Vec<String> = Vec::new();
    let ghost all = element_views(elements@);
    assert(texts(strings@) =~= strings_among(all.take(0)));
    for i in 0..elements.len()
        invariant
            all == element_views(elements@),
            texts(strings@) == strings_among(all.take(i as int)),
    {
        let ghost earlier = strings@;
        proof {
            assert(all.take(i + 1).drop_last() == all.take(i as int));
            assert(all.take(i + 1).last() == all[i as int]);
        }
        if let Some(text) = &elements[i] {
            strings.push(text.clone());
            assert(texts(strings@) =~= texts(earlier).push(text@));
        }
    }
    assert(all.take(all.len() as int) == all);
    strings
}

/// Adds the commands that the entries of a railyard file ask for.
pub fn add_entries(commands: &mut Commands, entries: &Vec<Entry>)
    requires
        old(commands).wf(),
    ensures
        final(commands).wf(),
        final(commands)@ == (CommandsView {
            commands: old(commands)@.commands + entry_commands(entry_views(entries@)),
            ..old(commands)@
        }),
{
    let ghost had = commands@;
    let ghost all = entry_views(entries@);
    assert(had.commands + entry_commands(all.take(0)) =~= had.commands);
    for i in 0..entries.len()
        invariant
            commands.wf(),
            all == entry_views(entries@),
            commands@ == (CommandsView {
                commands: had.commands + entry_commands(all.take(i as int)),
                ..had
            }),
    {
        let ghost earlier = commands@.commands;
        proof {
            assert(all.take(i + 1).drop_last() == all.take(i as int));
            assert(all.take(i + 1).last() == all[i as int]);
        }
        let entry = &entries[i];
        if let Some(elements) = &entry.array {
            let args = strings_of(elements);
            commands.command(entry.name.as_str(), args.as_slice());
            proof {
                let added = CommandView {
                    name: entry.name@,
                    args: texts(args@),
                    dependencies: Seq::empty(),
                };
                assert(commands@.commands =~= earlier.push(added));
                assert(had.commands + entry_commands(all.take(i + 1)) =~= earlier.push(added));
            }
        }
    }
    assert(all.take(all.len() as int) == all);
}

/// Why a railyard file gives no commands.
#[derive(Debug)]
pub enum RailfileError {
    /// It is no TOML document.
    InvalidToml(toml_edit::TomlError),
}

/// Adds the commands that the text of a railyard file asks for: one for each
/// array at its top, in order. The text is a TOML document;
/// [`try_read_railyard_file`] takes any text.
pub fn read_railyard_file(commands: &mut Commands, raw: &str)
    requires
        old(commands).wf(),
        toml_document(raw@) is Some,
    ensures
        final(commands).wf(),
        distinct_names(toml_document(raw@)->0),
        final(commands)@ == (CommandsView {
            commands: old(commands)@.commands + entry_commands(toml_document(raw@)->0),
            ..old(commands)@
        }),
{
    if let Ok(entries) = parse_document(raw) {
        add_entries(commands, &entries);
    }
}

/// Adds the commands that a text asks for, where it is a TOML document; else
/// adds none and says why.
pub fn try_read_railyard_file(commands: &mut Commands, raw: &str) -> (result: Result<(), RailfileError>)
    requires
        old(commands).wf(),
    ensures
        final(commands).wf(),
        match toml_document(raw@) {
            Some(entries) => {
                &&& result is Ok
                &&& distinct_names(entries)
                &&& final(commands)@ == (CommandsView {
                    commands: old(commands)@.commands + entry_commands(entries),
                    ..old(commands)@
                })
            },
            None => {
                &&& result is Err
                &&& final(commands)@ == old(commands)@
            },
        },
{
    match parse_document(raw) {
        Ok(_) => {
            read_railyard_file(commands, raw);
            Ok(())
        },
        Err(error) => Err(RailfileError::InvalidToml(error)),
    }
}

/// The commands of a railyard file wait for nothing.
pub proof fn lemma_entry_commands_free(entries: Seq<(Seq<char>, Option<Seq<Option<Seq<char>>>>)>)
    ensures
        forall|i: int|
            0 <= i < entry_commands(entries).len() ==> (#[trigger] entry_commands(entries)[i]).dependencies.len()
                == 0,
    decreases entries.len(),
{
    if entries.len() > 0 {
        let earlier = entry_commands(entries.drop_last());
        lemma_entry_commands_free(entries.drop_last());
        assert forall|i: int| 0 <= i < entry_commands(entries).len() implies (#[trigger] entry_commands(
            entries,
        )[i]).dependencies.len() == 0 by {
            if i < earlier.len() {
                assert(entry_commands(entries)[i] == earlier[i]);
            }
        }
    }
}

/// The commands of a railyard file have names of their own.
pub proof fn lemma_entry_commands_distinct(entries: Seq<(Seq<char>, Option<Seq<Option<Seq<char>>>>)>)
    requires
        distinct_names(entries),
    ensures
        command_names(entry_commands(entries)).no_duplicates(),
        forall|i: int|
            0 <= i < entry_commands(entries).len() ==> exists|j: int|
                0 <= j < entries.len() && (#[trigger] entry_commands(entries)[i]).name == (#[trigger] entries[j]).0,
    decreases entries.len(),
{
    if entries.len() > 0 {
        let earlier = entries.drop_last();
        lemma_entry_commands_distinct(earlier);
        let commands = entry_commands(entries);
        let fewer = entry_commands(earlier);
        assert forall|i: int| 0 <= i < commands.len() implies exists|j: int|
            0 <= j < entries.len() && (#[trigger] commands[i]).name == (#[trigger] entries[j]).0 by {
            if i < fewer.len() {
                assert(commands[i] == fewer[i]);
                let j = choose|j: int| 0 <= j < earlier.len() && fewer[i].name == (#[trigger] earlier[j]).0;
                assert(entries[j] == earlier[j]);
            } else {
                assert(commands[i].name == entries[entries.len() - 1].0);
            }
        }
        let names = command_names(commands);
        assert forall|i: int, k: int| 0 <= i < k < names.len() implies names[i] != names[k] by {
            assert(names[i] == commands[i].name && names[k] == commands[k].name);
            assert(commands[i] == fewer[i]);
            if k < fewer.len() {
                assert(command_names(fewer)[i] == names[i]);
                assert(command_names(fewer)[k] == names[k]);
            } else {
                let j = choose|j: int| 0 <= j < earlier.len() && fewer[i].name == (#[trigger] earlier[j]).0;
                assert(entries[j].0 != entries[entries.len() - 1].0);
            }
        }
    }
}

/// The texts among elements are found part by part: those of a first part and
/// then those of a second; one text alone is found, and what is no text is not.
pub proof fn lemma_strings_in_parts(
    a: Seq<Option<Seq<char>>>,
    b: Seq<Option<Seq<char>>>,
    text: Seq<char>,
)
    ensures
        strings_among(a + b) == strings_among(a) + strings_among(b),
        strings_among(Seq::empty()) == Seq::<Seq<char>>::empty(),
        strings_among(seq![Some(text)]) == seq![text],
        strings_among(seq![None::<Seq<char>>]) == Seq::<Seq<char>>::empty(),
    decreases b.len(),
{
    reveal_with_fuel(strings_among, 2);
    assert(seq![Some(text)].drop_last() =~= Seq::<Option<Seq<char>>>::empty());
    assert(seq![None::<Seq<char>>].drop_last() =~= Seq::<Option<Seq<char>>>::empty());
    assert(strings_among(seq![Some(text)]) =~= seq![text]);
    if b.len() == 0 {
        assert(a + b =~= a);
        assert(strings_among(a) + strings_among(b) =~= strings_among(a));
    } else {
        assert((a + b).drop_last() =~= a + b.drop_last());
        assert((a + b).last() == b.last());
        lemma_strings_in_parts(a, b.drop_last(), text);
        assert(strings_among(a + b) =~= strings_among(a) + strings_among(b));
    }
}

/// An array of texts alone runs all of them, in their order.
pub proof fn lemma_all_strings_run(elements: Seq<Option<Seq<char>>>)
    requires
        forall|i: int| 0 <= i < elements.len() ==> (#[trigger] elements[i]) is Some,
    ensures
        strings_among(elements).len() == elements.len(),
        forall|i: int| 0 <= i < elements.len() ==> Some(#[trigger] strings_among(elements)[i]) == elements[i],
    decreases elements.len(),
{
    if elements.len() > 0 {
        let earlier = elements.drop_last();
        assert forall|i: int| 0 <= i < earlier.len() implies (#[trigger] earlier[i]) is Some by {
            assert(elements[i] == earlier[i]);
        }
        assert(elements[elements.len() - 1] is Some);
        lemma_all_strings_run(earlier);
        assert forall|i: int| 0 <= i < elements.len() implies Some(#[trigger] strings_among(elements)[i])
            == elements[i] by {
            if i < earlier.len() {
                assert(strings_among(elements)[i] == strings_among(earlier)[i]);
            }
        }
    }
}

/// Commands are asked for part by part: the entries of a first part ask for
/// theirs, and then those of a second. An array alone asks for one command, of
/// its name, that runs its texts and waits for nothing; anything else asks for
/// none.
pub proof fn lemma_commands_in_parts(
    a: Seq<(Seq<char>, Option<Seq<Option<Seq<char>>>>)>,
    b: Seq<(Seq<char>, Option<Seq<Option<Seq<char>>>>)>,
    name: Seq<char>,
    elements: Seq<Option<Seq<char>>>,
)
    ensures
        entry_commands(a + b) == entry_commands(a) + entry_commands(b),
        entry_commands(Seq::empty()) == Seq::<CommandView>::empty(),
        entry_commands(seq![(name, None)]) == Seq::<CommandView>::empty(),
        entry_commands(seq![(name, Some(elements))]).len() == 1,
        entry_commands(seq![(name, Some(elements))])[0].name == name,
        entry_commands(seq![(name, Some(elements))])[0].args == strings_among(elements),
        entry_commands(seq![(name, Some(elements))])[0].dependencies.len() == 0,
    decreases b.len(),
{
    reveal_with_fuel(entry_commands, 2);
    let none = Seq::<(Seq<char>, Option<Seq<Option<Seq<char>>>>)>::empty();
    assert(seq![(name, Some(elements))].drop_last() =~= none);
    assert(seq![(name, None::<Seq<Option<Seq<char>>>>)].drop_last() =~= none);
    if b.len() == 0 {
        assert(a + b =~= a);
        assert(entry_commands(a) + entry_commands(b) =~= entry_commands(a));
    } else {
        assert((a + b).drop_last() =~= a + b.drop_last());
        assert((a + b).last() == b.last());
        lemma_commands_in_parts(a, b.drop_last(), name, elements);
        assert(entry_commands(a + b) =~= entry_commands(a) + entry_commands(b));
    }
}

/// How many entries are arrays.
pub open spec fn array_count(entries: Seq<(Seq<char>, Option<Seq<Option<Seq<char>>>>)>) -> nat
    decreases entries.len(),
{
    if entries.len() == 0 {
        0
    } else if entries.last().1 is Some {
        array_count(entries.drop_last()) + 1
    } else {
        array_count(entries.drop_last())
    }
}

/// There is one command for each array, and it stands where the arrays before
/// it leave it to stand.
pub proof fn lemma_one_command_per_array(
    entries: Seq<(Seq<char>, Option<Seq<Option<Seq<char>>>>)>,
    i: int,
)
    requires
        0 <= i < entries.len(),
    ensures
        entry_commands(entries).len() == array_count(entries),
        entries[i].1 matches Some(elements) ==> {
            let at = array_count(entries.take(i)) as int;
            &&& 0 <= at < entry_commands(entries).len()
            &&& entry_commands(entries)[at].name == entries[i].0
            &&& entry_commands(entries)[at].args == strings_among(elements)
            &&& entry_commands(entries)[at].dependencies.len() == 0
        },
    decreases entries.len(),
{
    let earlier = entries.drop_last();
    if earlier.len() == 0 {
        reveal_with_fuel(entry_commands, 2);
        reveal_with_fuel(array_count, 2);
        assert(entries.take(i) =~= earlier);
    } else if i < earlier.len() {
        lemma_one_command_per_array(earlier, i);
        assert(earlier.take(i) =~= entries.take(i));
        assert(earlier[i] == entries[i]);
    } else {
        lemma_one_command_per_array(earlier, 0);
        assert(entries.take(i) =~= earlier);
    }
}

/// What entries say is as much as they hold: each its name and, where it is an
/// array, each element its text where it has one.
pub proof fn lemma_entry_views(entries: Seq<Entry>, i: int)
    requires
        0 <= i < entries.len(),
    ensures
        entry_views(entries).len() == entries.len(),
        entry_views(entries)[i].0 == entries[i].name@,
        entry_views(entries)[i].1 is Some <==> entries[i].array is Some,
        entries[i].array matches Some(elements) ==> {
            let said = entry_views(entries)[i].1->0;
            &&& said.len() == elements@.len()
            &&& forall|k: int|
                0 <= k < elements@.len() ==> match elements@[k] {
                    Some(text) => #[trigger] said[k] == Some(text@),
                    None => said[k] is None,
                }
        },
{
}

} // verus!
