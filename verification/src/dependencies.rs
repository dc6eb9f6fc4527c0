//! Which names are ready, and who waits for the others.

use vstd::prelude::*;

use crate::ordered::OrderedMap;
use crate::text::{joined, joined_text, texts};

verus! {

/// What is known of a name: that something waits for it, over a channel that
/// will tell, or that it is ready.
pub enum Dependency<C> {
    /// The channel over which the waiters are told, and who they are.
    Waiting(C, Vec<String>),
    Ready,
}

/// What a [`Dependency`] says.
pub enum DependencyView<C> {
    Waiting(C, Seq<Seq<char>>),
    Ready,
}

impl<C> View for Dependency<C> {
    type V = DependencyView<C>;

    open spec fn view(&self) -> DependencyView<C> {
        match self {
            Dependency::Waiting(channel, waiters) => DependencyView::Waiting(*channel, texts(waiters@)),
            Dependency::Ready => DependencyView::Ready,
        }
    }
}

impl<C> Dependency<C> {
    /// The state in one word.
    pub fn fmt(&self) -> (word: String)
        ensures
            word@ == match self@ {
                DependencyView::Waiting(..) => "Waiting"@,
                DependencyView::Ready => "Recieved"@,
            },
    {
        match self {
            Dependency::Waiting(..) => String::from_str("Waiting"),
            Dependency::Ready => String::from_str("Recieved"),
        }
    }
}

/// The names that are ready or waited for. `C` is a channel over which the
/// waiters of one name are told that it is ready; dropping the channel tells
/// them that it never will be.
pub struct Dependencies<C> {
    dependencies: OrderedMap<Dependency<C>>,
}

/// The line that tells that waiting for `name` is given up.
pub open spec fn cancellation_line(name: Seq<char>, waiters: Seq<Seq<char>>) -> Seq<char> {
    "cancelling "@ + name + ": awaited by "@ + joined(waiters, ","@) + "\n"@
}

/// The lines for those of `names` that are waited for, in the order given.
pub open spec fn cancellation<C>(
    names: Seq<Seq<char>>,
    states: Map<Seq<char>, DependencyView<C>>,
) -> Seq<char>
    decreases names.len(),
{
    if names.len() == 0 {
        Seq::empty()
    } else {
        let shown = cancellation(names.drop_last(), states);
        match states[names.last()] {
            DependencyView::Waiting(_, waiters) => shown + cancellation_line(names.last(), waiters),
            DependencyView::Ready => shown,
        }
    }
}

/// What is known after `source` began to wait for `name`, with `channel` at
/// hand in case it is the first to.
pub open spec fn after_wait<C>(
    states: Map<Seq<char>, DependencyView<C>>,
    source: Seq<char>,
    name: Seq<char>,
    channel: C,
) -> Map<Seq<char>, DependencyView<C>> {
    if !states.contains_key(name) {
        states.insert(name, DependencyView::Waiting(channel, seq![source]))
    } else {
        match states[name] {
            DependencyView::Waiting(c, waiters) => states.insert(
                name,
                DependencyView::Waiting(c, waiters.push(source)),
            ),
            DependencyView::Ready => states,
        }
    }
}

/// What is known after `name` became ready.
pub open spec fn after_ready<C>(
    states: Map<Seq<char>, DependencyView<C>>,
    name: Seq<char>,
) -> Map<Seq<char>, DependencyView<C>> {
    states.insert(name, DependencyView::Ready)
}

/// Whether `name` is known to be ready.
pub open spec fn is_ready<C>(states: Map<Seq<char>, DependencyView<C>>, name: Seq<char>) -> bool {
    states.contains_key(name) && states[name] is Ready
}

/// The channel over which those who wait for `name` are to be told.
pub open spec fn channel_of<C>(states: Map<Seq<char>, DependencyView<C>>, name: Seq<char>) -> Option<C> {
    if states.contains_key(name) {
        match states[name] {
            DependencyView::Waiting(channel, _) => Some(channel),
            DependencyView::Ready => None,
        }
    } else {
        None
    }
}

impl<C> View for Dependencies<C> {
    type V = Map<Seq<char>, DependencyView<C>>;

    closed spec fn view(&self) -> Map<Seq<char>, DependencyView<C>> {
        self.dependencies@.map_values(|d: Dependency<C>| d@)
    }
}

impl<C> Dependencies<C> {
    /// The names stand in order.
    pub closed spec fn wf(self) -> bool {
        self.dependencies.wf()
    }

    /// The names that are ready or waited for, in order.
    pub closed spec fn names(self) -> Seq<Seq<char>> {
        self.dependencies.names()
    }

    /// The names are exactly those something is known of, each once, in the
    /// order of names.
    pub proof fn lemma_names(self)
        requires
            self.wf(),
        ensures
            crate::ordered::in_order(self.names()),
            forall|name: Seq<char>| #[trigger] self@.contains_key(name) <==> self.names().contains(name),
            self.names().no_duplicates(),
    {
        self.dependencies.lemma_names();
        assert forall|name: Seq<char>|
            #[trigger] self@.contains_key(name) <==> self.names().contains(name) by {
            assert(self.dependencies@.contains_key(name) <==> self@.contains_key(name));
        }
    }

    /// Nothing is ready and nothing is waited for.
    pub fn new() -> (dependencies: Self)
        ensures
            dependencies.wf(),
            dependencies@ == Map::<Seq<char>, DependencyView<C>>::empty(),
    {
        let dependencies = Dependencies { dependencies: OrderedMap::new() };
        assert(dependencies@ =~= Map::<Seq<char>, DependencyView<C>>::empty());
        dependencies
    }

    /// Gives up all waiting: forgets every name and returns a line for each
    /// name that was waited for.
    pub fn cancel(&mut self) -> (message: String)
        requires
            old(self).wf(),
        ensures
            final(self).wf(),
            final(self)@ == Map::<Seq<char>, DependencyView<C>>::empty(),
            message@ == cancellation(old(self).names(), old(self)@),
    {
        let mut message = String::new();
        let count = self.dependencies.len();
        let ghost names = self.names();
        let ghost states = self@;
        for i in 0..count
            invariant
                self.wf(),
                names == self.names(),
                states == self@,
                count == names.len(),
                message@ == cancellation(names.take(i as int), states),
        {
            proof {
                assert(names.take(i + 1).drop_last() == names.take(i as int));
                assert(names.take(i + 1).last() == names[i as int]);
            }
            let (item, dependency) = self.dependencies.at(i);
            assert(states[item@] == dependency@);
            if let Dependency::Waiting(_, waiters) = dependency {
                let list = joined_text(waiters.as_slice(), ",");
                let ghost shown = message@;
                message.append("cancelling ");
                message.append(item.as_str());
                message.append(": awaited by ");
                message.append(list.as_str());
                message.append("\n");
                assert(message@ == shown + cancellation_line(item@, texts(waiters@)));
            }
        }
        assert(names.take(count as int) == names);
        self.dependencies.clear();
        assert(self@ =~= Map::<Seq<char>, DependencyView<C>>::empty());
        message
    }

    /// Lets `source` wait for `name`. Returns the channel that will tell, or
    /// `None` where the name is ready already. The first to wait for a name
    /// brings the channel.
    pub fn wait(&mut self, source: String, name: &str, channel: C) -> (told_by: Option<&C>)
        requires
            old(self).wf(),
        ensures
            final(self).wf(),
            final(self)@ == after_wait(old(self)@, source@, name@, channel),
            match told_by {
                Some(c) => !is_ready(old(self)@, name@) && channel_of(final(self)@, name@) == Some(*c),
                None => is_ready(old(self)@, name@),
            },
            told_by is None <==> old(self)@.contains_key(name@) && old(self)@[name@] is Ready,
            told_by matches Some(c) ==> *c == if old(self)@.contains_key(name@) {
                old(self)@[name@]->Waiting_0
            } else {
                channel
            },
    {
        let ghost states = self@;
        let ghost asker = source@;
        match self.dependencies.get_mut(name) {
            None => {
                let mut waiters: Vec<String> = Vec::new();
                waiters.push(source);
                assert(texts(waiters@) == seq![asker]);
                let _ = self.dependencies.insert(
                    name.to_owned(),
                    Dependency::Waiting(channel, waiters),
                );
            },
            Some(dependency) => {
                match dependency {
                    Dependency::Waiting(_, waiters) => {
                        let ghost before = waiters@;
                        waiters.push(source);
                        assert(texts(waiters@) == texts(before).push(asker));
                    },
                    Dependency::Ready => {},
                }
            },
        }
        assert(self@ =~= after_wait(states, asker, name@, channel));
        match self.dependencies.get(name) {
            Some(Dependency::Waiting(c, _)) => Some(c),
            _ => None,
        }
    }

    /// Makes `name` ready. Returns the channel over which its waiters are to
    /// be told, where it has any. A name becomes ready once.
    pub fn ready(&mut self, name: &str) -> (told_by: Option<C>)
        requires
            old(self).wf(),
            !is_ready(old(self)@, name@),
        ensures
            final(self).wf(),
            final(self)@ == after_ready(old(self)@, name@),
            told_by == channel_of(old(self)@, name@),
            told_by is Some <==> old(self)@.contains_key(name@),
            told_by matches Some(c) ==> old(self)@[name@] is Waiting && old(self)@[name@]->Waiting_0 == c,
    {
        let ghost states = self@;
        let previous = self.dependencies.insert(name.to_owned(), Dependency::Ready);
        assert(self@ =~= after_ready(states, name@));
        match previous {
            Some(Dependency::Waiting(c, _)) => Some(c),
            _ => None,
        }
    }

    /// Whether a name is ready.
    pub fn ready_already(&self, name: &str) -> (ready: bool)
        requires
            self.wf(),
        ensures
            ready == is_ready(self@, name@),
            ready <==> self@.contains_key(name@) && self@[name@] is Ready,
    {
        match self.dependencies.get(name) {
            Some(Dependency::Ready) => true,
            _ => false,
        }
    }
}

/// One call on [`Dependencies`].
pub enum Call<C> {
    Wait { source: Seq<char>, name: Seq<char>, channel: C },
    Ready { name: Seq<char> },
    Cancel,
}

/// What is known after one call.
pub open spec fn after_call<C>(
    states: Map<Seq<char>, DependencyView<C>>,
    call: Call<C>,
) -> Map<Seq<char>, DependencyView<C>> {
    match call {
        Call::Wait { source, name, channel } => after_wait(states, source, name, channel),
        Call::Ready { name } => after_ready(states, name),
        Call::Cancel => Map::empty(),
    }
}

/// What is known after a history of calls, the first of them on new
/// [`Dependencies`].
pub open spec fn after_calls<C>(calls: Seq<Call<C>>) -> Map<Seq<char>, DependencyView<C>>
    decreases calls.len(),
{
    if calls.len() == 0 {
        Map::empty()
    } else {
        after_call(after_calls(calls.drop_last()), calls.last())
    }
}

/// The calls since waiting was last given up.
pub open spec fn recent<C>(calls: Seq<Call<C>>) -> Seq<Call<C>>
    decreases calls.len(),
{
    if calls.len() == 0 || calls.last() is Cancel {
        Seq::empty()
    } else {
        recent(calls.drop_last()).push(calls.last())
    }
}

/// Who waited for `name` in a history of calls, in the order of the calls.
pub open spec fn waiters_for<C>(calls: Seq<Call<C>>, name: Seq<char>) -> Seq<Seq<char>>
    decreases calls.len(),
{
    if calls.len() == 0 {
        Seq::empty()
    } else {
        let earlier = waiters_for(calls.drop_last(), name);
        match calls.last() {
            Call::Wait { source, name: waited, channel: _ } => if waited == name {
                earlier.push(source)
            } else {
                earlier
            },
            _ => earlier,
        }
    }
}

/// Whether `name` was made ready in a history of calls.
pub open spec fn made_ready<C>(calls: Seq<Call<C>>, name: Seq<char>) -> bool {
    exists|i: int| 0 <= i < calls.len() && #[trigger] calls[i] == (Call::<C>::Ready { name })
}

/// A name is ready exactly when it was made ready since waiting was last given
/// up. It is waited for exactly when it was not, but somebody waited for it
/// since; the waiters are those, in the order in which they came.
pub proof fn lemma_history<C>(calls: Seq<Call<C>>, name: Seq<char>)
    ensures
        is_ready(after_calls(calls), name) <==> made_ready(recent(calls), name),
        after_calls(calls).contains_key(name) <==> made_ready(recent(calls), name)
            || waiters_for(recent(calls), name).len() > 0,
        !made_ready(recent(calls), name) && waiters_for(recent(calls), name).len() > 0 ==> (
        after_calls(calls)[name] matches DependencyView::Waiting(_, waiters)
            && waiters == waiters_for(recent(calls), name)),
    decreases calls.len(),
{
    reveal_with_fuel(waiters_for, 2);
    if calls.len() > 0 && !(calls.last() is Cancel) {
        let earlier = calls.drop_last();
        lemma_history(earlier, name);
        let since = recent(earlier);
        let call = calls.last();
        assert(recent(calls).drop_last() == since);
        assert(recent(calls) == since.push(call));
        if made_ready(since, name) {
            let i = choose|i: int| 0 <= i < since.len() && #[trigger] since[i] == (Call::<C>::Ready { name });
            assert(recent(calls)[i] == since[i]);
        }
        if made_ready(recent(calls), name) {
            let i = choose|i: int|
                0 <= i < recent(calls).len() && #[trigger] recent(calls)[i] == (Call::<C>::Ready { name });
            if i < since.len() {
                assert(since[i] == recent(calls)[i]);
            }
        }
        if call == (Call::<C>::Ready { name }) {
            assert(recent(calls)[since.len() as int] == call);
        }
        if !made_ready(recent(calls), name) && waiters_for(recent(calls), name).len() > 0 {
            let waiters = after_calls(calls)[name]->Waiting_1;
            assert(waiters =~= waiters_for(recent(calls), name));
        }
    }
}

/// A name that was never made ready before can be made ready.
pub proof fn lemma_may_become_ready<C>(calls: Seq<Call<C>>, name: Seq<char>)
    requires
        !made_ready(calls, name),
    ensures
        !is_ready(after_calls(calls), name),
{
    lemma_history(calls, name);
    lemma_recent_is_suffix(calls);
    let since = recent(calls);
    if made_ready(since, name) {
        let i = choose|i: int| 0 <= i < since.len() && #[trigger] since[i] == (Call::<C>::Ready { name });
        assert(calls[calls.len() - since.len() + i] == since[i]);
    }
}

proof fn lemma_recent_is_suffix<C>(calls: Seq<Call<C>>)
    ensures
        recent(calls).len() <= calls.len(),
        recent(calls) == calls.skip(calls.len() - recent(calls).len()),
    decreases calls.len(),
{
    if calls.len() == 0 || calls.last() is Cancel {
        assert(calls.skip(calls.len() as int) =~= Seq::<Call<C>>::empty());
    } else {
        let earlier = calls.drop_last();
        lemma_recent_is_suffix(earlier);
        assert(recent(calls) =~= calls.skip(calls.len() - recent(calls).len()));
    }
}

/// Until a name is made ready or waiting is given up, the channel its waiters
/// were given stays the channel of the name, and its waiters stay.
pub proof fn lemma_channel_stays<C>(
    states: Map<Seq<char>, DependencyView<C>>,
    name: Seq<char>,
    call: Call<C>,
)
    requires
        states.contains_key(name),
        states[name] is Waiting,
        call != (Call::<C>::Ready { name }),
        !(call is Cancel),
    ensures
        after_call(states, call).contains_key(name),
        after_call(states, call)[name] is Waiting,
        after_call(states, call)[name]->Waiting_0 == states[name]->Waiting_0,
        states[name]->Waiting_1.is_prefix_of(after_call(states, call)[name]->Waiting_1),
{
}

/// A name that is ready stays ready until waiting is given up.
pub proof fn lemma_ready_stays<C>(
    states: Map<Seq<char>, DependencyView<C>>,
    name: Seq<char>,
    call: Call<C>,
)
    requires
        is_ready(states, name),
        !(call is Cancel),
    ensures
        is_ready(after_call(states, call), name),
{
}

/// A call about one name leaves what is known of every other name as it was;
/// giving up leaves nothing known.
pub proof fn lemma_other_names_untouched<C>(
    states: Map<Seq<char>, DependencyView<C>>,
    call: Call<C>,
    other: Seq<char>,
)
    ensures
        call matches Call::Wait { source: _, name, channel: _ } ==> name != other ==> {
            &&& after_call(states, call).contains_key(other) <==> states.contains_key(other)
            &&& after_call(states, call)[other] == states[other]
        },
        call matches Call::Ready { name } ==> name != other ==> {
            &&& after_call(states, call).contains_key(other) <==> states.contains_key(other)
            &&& after_call(states, call)[other] == states[other]
        },
        call is Cancel ==> !after_call(states, call).contains_key(other),
{
}

/// The first to wait for a name brings the channel and is its only waiter; one
/// that comes later waits behind those before it, over their channel; one that
/// waits for a name that is ready changes nothing. A name that was made ready
/// is ready and has no channel.
pub proof fn lemma_one_call<C>(
    states: Map<Seq<char>, DependencyView<C>>,
    source: Seq<char>,
    name: Seq<char>,
    channel: C,
)
    ensures
        !states.contains_key(name) ==> {
            let after = after_wait(states, source, name, channel);
            &&& after.contains_key(name)
            &&& after[name] is Waiting
            &&& after[name]->Waiting_0 == channel
            &&& after[name]->Waiting_1.len() == 1
            &&& after[name]->Waiting_1[0] == source
        },
        states.contains_key(name) && states[name] is Waiting ==> {
            let after = after_wait(states, source, name, channel);
            &&& after.contains_key(name)
            &&& after[name] is Waiting
            &&& after[name]->Waiting_0 == states[name]->Waiting_0
            &&& after[name]->Waiting_1.len() == states[name]->Waiting_1.len() + 1
            &&& after[name]->Waiting_1.last() == source
            &&& states[name]->Waiting_1.is_prefix_of(after[name]->Waiting_1)
        },
        states.contains_key(name) && states[name] is Ready ==> after_wait(states, source, name, channel) == states,
        after_ready(states, name).contains_key(name) && after_ready(states, name)[name] is Ready,
        is_ready(after_ready(states, name), name),
        channel_of(after_ready(states, name), name) is None,
        channel_of(states, name) is Some <==> states.contains_key(name) && states[name] is Waiting,
        channel_of(states, name) matches Some(c) ==> states[name]->Waiting_0 == c,
        is_ready(states, name) <==> states.contains_key(name) && states[name] is Ready,
{
}

/// Giving up says something part by part: of a first part of the names and then
/// of a second. Of one name that is waited for it says who waited, all of them;
/// of a name that is ready it says nothing.
pub proof fn lemma_cancellation_in_parts<C>(
    a: Seq<Seq<char>>,
    b: Seq<Seq<char>>,
    name: Seq<char>,
    states: Map<Seq<char>, DependencyView<C>>,
)
    ensures
        cancellation(a + b, states) == cancellation(a, states) + cancellation(b, states),
        cancellation(Seq::empty(), states) == Seq::<char>::empty(),
        states[name] is Ready ==> cancellation(seq![name], states) == Seq::<char>::empty(),
        states[name] matches DependencyView::Waiting(_, waiters) ==> cancellation(seq![name], states)
            == "cancelling "@ + name + ": awaited by "@ + joined(waiters, ","@) + "\n"@,
    decreases b.len(),
{
    reveal_with_fuel(cancellation, 2);
    assert(seq![name].drop_last() =~= Seq::<Seq<char>>::empty());
    match states[name] {
        DependencyView::Waiting(_, waiters) => {
            assert(cancellation(seq![name], states) =~= cancellation_line(name, waiters));
        },
        DependencyView::Ready => {},
    }
    if b.len() == 0 {
        assert(a + b =~= a);
        assert(cancellation(a, states) + cancellation(b, states) =~= cancellation(a, states));
    } else {
        assert((a + b).drop_last() =~= a + b.drop_last());
        assert((a + b).last() == b.last());
        lemma_cancellation_in_parts(a, b.drop_last(), name, states);
        assert(cancellation(a + b, states) =~= cancellation(a, states) + cancellation(b, states));
    }
}

/// What is known of a name says as much as it holds: the channel, and each of
/// the waiters in order.
pub proof fn lemma_dependency_says<C>(dependency: Dependency<C>)
    ensures
        match dependency {
            Dependency::Waiting(channel, waiters) => {
                &&& dependency@ is Waiting
                &&& dependency@->Waiting_0 == channel
                &&& dependency@->Waiting_1.len() == waiters@.len()
                &&& forall|i: int|
                    0 <= i < waiters@.len() ==> #[trigger] dependency@->Waiting_1[i] == waiters@[i]@
            },
            Dependency::Ready => dependency@ is Ready,
        },
{
}

} // verus!
