//! What becomes of a wait over a history of calls.

use vstd::prelude::*;

use crate::dependencies::{after_call, after_calls, channel_of, is_ready, Call, DependencyView};

verus! {

/// What was known before the call at place `n`, or after all of them.
pub open spec fn before<C>(calls: Seq<Call<C>>, n: int) -> Map<Seq<char>, DependencyView<C>> {
    after_calls(calls.take(n))
}

/// Whether the call at place `w` began to wait for `name`, which was not ready.
pub open spec fn began<C>(calls: Seq<Call<C>>, w: int, name: Seq<char>) -> bool {
    &&& 0 <= w < calls.len()
    &&& calls[w] is Wait
    &&& calls[w]->Wait_name == name
    &&& !is_ready(before(calls, w), name)
}

/// The channel that the wait at place `w` for `name` was given.
pub open spec fn given<C>(calls: Seq<Call<C>>, w: int, name: Seq<char>) -> C {
    channel_of(before(calls, w + 1), name)->0
}

/// How a wait stands.
pub enum Fate {
    /// Neither of the other two came yet.
    Pending,
    /// The name was made ready.
    Ready,
    /// Waiting was given up.
    Cancelled,
}

/// How the wait at place `w` for `name` stands after the first `n` calls: it is
/// settled by the first call that makes the name ready or gives up waiting.
pub open spec fn fate<C>(calls: Seq<Call<C>>, w: int, name: Seq<char>, n: int) -> Fate
    decreases n,
{
    if n <= w + 1 || n <= 0 {
        Fate::Pending
    } else {
        match fate(calls, w, name, n - 1) {
            Fate::Pending => match calls[n - 1] {
                Call::Ready { name: made } => if made == name {
                    Fate::Ready
                } else {
                    Fate::Pending
                },
                Call::Cancel => Fate::Cancelled,
                Call::Wait { .. } => Fate::Pending,
            },
            settled => settled,
        }
    }
}

/// Whether a channel is held for some name.
pub open spec fn holds<C>(states: Map<Seq<char>, DependencyView<C>>, channel: C) -> bool {
    exists|name: Seq<char>| #[trigger] channel_of(states, name) == Some(channel)
}

/// Whether the call at place `m` made a name ready and handed back `channel`
/// for its waiters to be told.
pub open spec fn tells<C>(calls: Seq<Call<C>>, channel: C, m: int) -> bool {
    &&& calls[m] is Ready
    &&& channel_of(before(calls, m), calls[m]->Ready_name) == Some(channel)
}

/// Whether the call at place `m` gave up waiting and dropped `channel`.
pub open spec fn drops<C>(calls: Seq<Call<C>>, channel: C, m: int) -> bool {
    &&& calls[m] is Cancel
    &&& holds(before(calls, m), channel)
}

/// Whether `channel` was handed back in the first `n` calls.
pub open spec fn told<C>(calls: Seq<Call<C>>, channel: C, n: int) -> bool {
    exists|m: int| 0 <= m < n && #[trigger] tells(calls, channel, m)
}

/// Whether `channel` was dropped in the first `n` calls.
pub open spec fn dropped<C>(calls: Seq<Call<C>>, channel: C, n: int) -> bool {
    exists|m: int| 0 <= m < n && #[trigger] drops(calls, channel, m)
}

/// Whether every wait brought a channel of its own.
pub open spec fn own_channels<C>(calls: Seq<Call<C>>) -> bool {
    forall|i: int, j: int|
        0 <= i < j < calls.len() && (#[trigger] calls[i]) is Wait && (#[trigger] calls[j]) is Wait
            ==> calls[i]->Wait_channel != calls[j]->Wait_channel
}

proof fn lemma_before_step<C>(calls: Seq<Call<C>>, n: int)
    requires
        0 < n <= calls.len(),
    ensures
        before(calls, n) == after_call(before(calls, n - 1), calls[n - 1]),
{
    assert(calls.take(n).drop_last() =~= calls.take(n - 1));
    assert(calls.take(n).last() == calls[n - 1]);
}

/// As long as a wait is pending, the channel it was given is that of the name,
/// whatever else is called.
pub proof fn lemma_pending_wait_keeps_channel<C>(calls: Seq<Call<C>>, w: int, name: Seq<char>, n: int)
    requires
        began(calls, w, name),
        w < n <= calls.len(),
        fate(calls, w, name, n) is Pending,
    ensures
        channel_of(before(calls, n), name) == Some(given(calls, w, name)),
    decreases n,
{
    lemma_before_step(calls, n);
    if n > w + 1 {
        lemma_pending_wait_keeps_channel(calls, w, name, n - 1);
    }
}

/// A wait that is settled was settled by one call, before which it was pending.
proof fn lemma_settling<C>(calls: Seq<Call<C>>, w: int, name: Seq<char>, n: int) -> (m: int)
    requires
        0 <= w < n <= calls.len(),
        !(fate(calls, w, name, n) is Pending),
    ensures
        w < m < n,
        fate(calls, w, name, m) is Pending,
        fate(calls, w, name, n) is Ready ==> calls[m] == (Call::<C>::Ready { name }),
        fate(calls, w, name, n) is Cancelled ==> calls[m] is Cancel,
    decreases n,
{
    if fate(calls, w, name, n - 1) is Pending {
        n - 1
    } else {
        lemma_settling(calls, w, name, n - 1)
    }
}

/// A channel that is held for a name was brought by a wait for it, since which
/// neither the name was made ready nor waiting given up.
proof fn lemma_brought<C>(calls: Seq<Call<C>>, name: Seq<char>, channel: C, n: int) -> (i: int)
    requires
        0 <= n <= calls.len(),
        channel_of(before(calls, n), name) == Some(channel),
    ensures
        0 <= i < n,
        calls[i] is Wait,
        calls[i]->Wait_name == name,
        calls[i]->Wait_channel == channel,
        forall|k: int|
            i <= k < n ==> !((#[trigger] calls[k]) is Cancel) && calls[k] != (Call::<C>::Ready { name }),
    decreases n,
{
    if n == 0 {
        assert(calls.take(0) =~= Seq::<Call<C>>::empty());
        0
    } else {
        lemma_before_step(calls, n);
        let states = before(calls, n - 1);
        let call = calls[n - 1];
        if channel_of(states, name) == Some(channel) {
            lemma_brought(calls, name, channel, n - 1)
        } else {
            n - 1
        }
    }
}

/// A channel that is held was neither handed back nor dropped before, where
/// every wait brought a channel of its own.
proof fn lemma_held_is_unsettled<C>(calls: Seq<Call<C>>, name: Seq<char>, channel: C, n: int)
    requires
        own_channels(calls),
        0 <= n <= calls.len(),
        channel_of(before(calls, n), name) == Some(channel),
    ensures
        !told(calls, channel, n),
        !dropped(calls, channel, n),
{
    let i = lemma_brought(calls, name, channel, n);
    assert forall|m: int| 0 <= m < n implies !(#[trigger] tells(calls, channel, m)) by {
        if tells(calls, channel, m) {
            let other = calls[m]->Ready_name;
            let j = lemma_brought(calls, other, channel, m);
            assert(i == j);
            assert(calls[m] == (Call::<C>::Ready { name }));
        }
    }
    assert forall|m: int| 0 <= m < n implies !(#[trigger] drops(calls, channel, m)) by {
        if drops(calls, channel, m) {
            let other = choose|other: Seq<char>| #[trigger]
                channel_of(before(calls, m), other) == Some(channel);
            let j = lemma_brought(calls, other, channel, m);
            assert(i == j);
            assert(calls[m] is Cancel);
        }
    }
}

/// A wait is settled by whichever comes first. As long as neither comes, its
/// channel is neither handed back nor dropped, whatever becomes of other
/// names. Once its name is made ready, its channel was handed back, and is
/// never dropped by giving up later. Once waiting is given up, its channel was
/// dropped, and is never handed back by a later call that makes the name
/// ready.
pub proof fn lemma_wait_settled_by_what_comes_first<C>(
    calls: Seq<Call<C>>,
    w: int,
    name: Seq<char>,
    n: int,
)
    requires
        own_channels(calls),
        began(calls, w, name),
        w < n <= calls.len(),
    ensures
        told(calls, given(calls, w, name), n) <==> fate(calls, w, name, n) is Ready,
        dropped(calls, given(calls, w, name), n) <==> fate(calls, w, name, n) is Cancelled,
{
    let channel = given(calls, w, name);
    if fate(calls, w, name, n) is Pending {
        lemma_pending_wait_keeps_channel(calls, w, name, n);
        lemma_held_is_unsettled(calls, name, channel, n);
    } else {
        let m = lemma_settling(calls, w, name, n);
        lemma_pending_wait_keeps_channel(calls, w, name, m);
        lemma_held_is_unsettled(calls, name, channel, m);
        if fate(calls, w, name, n) is Ready {
            assert(tells(calls, channel, m));
            assert forall|k: int| 0 <= k < n implies !(#[trigger] drops(calls, channel, k)) by {
                if drops(calls, channel, k) {
                    assert(m < k);
                    let other = choose|other: Seq<char>| #[trigger]
                        channel_of(before(calls, k), other) == Some(channel);
                    lemma_held_is_unsettled(calls, other, channel, k);
                }
            }
        } else {
            assert(holds(before(calls, m), channel));
            assert(drops(calls, channel, m));
            assert forall|k: int| 0 <= k < n implies !(#[trigger] tells(calls, channel, k)) by {
                if tells(calls, channel, k) {
                    assert(m < k);
                    lemma_held_is_unsettled(calls, calls[k]->Ready_name, channel, k);
                }
            }
        }
    }
}

/// A wait that is settled stays as it was settled.
pub proof fn lemma_settled_stays<C>(calls: Seq<Call<C>>, w: int, name: Seq<char>, n: int, later: int)
    requires
        n <= later <= calls.len(),
        !(fate(calls, w, name, n) is Pending),
    ensures
        fate(calls, w, name, later) == fate(calls, w, name, n),
    decreases later,
{
    if n < later {
        lemma_settled_stays(calls, w, name, n, later - 1);
    }
}

/// The first call that makes a name ready reaches every wait for it that is
/// pending: it hands back the channel that the wait was given.
pub proof fn lemma_ready_reaches_every_wait<C>(
    calls: Seq<Call<C>>,
    w: int,
    name: Seq<char>,
    m: int,
    later: int,
)
    requires
        began(calls, w, name),
        w < m < later <= calls.len(),
        fate(calls, w, name, m) is Pending,
        calls[m] == (Call::<C>::Ready { name }),
    ensures
        tells(calls, given(calls, w, name), m),
        fate(calls, w, name, later) is Ready,
{
    lemma_pending_wait_keeps_channel(calls, w, name, m);
    lemma_settled_stays(calls, w, name, m + 1, later);
}

/// Giving up reaches every wait that is pending, on any name: it drops the
/// channel that the wait was given, and from then on no wait that began before
/// is pending, and nothing is held.
pub proof fn lemma_cancel_reaches_every_wait<C>(
    calls: Seq<Call<C>>,
    w: int,
    name: Seq<char>,
    m: int,
    later: int,
)
    requires
        began(calls, w, name),
        w < m < later <= calls.len(),
        calls[m] is Cancel,
    ensures
        fate(calls, w, name, m) is Pending ==> drops(calls, given(calls, w, name), m) && fate(
            calls,
            w,
            name,
            later,
        ) is Cancelled,
        !(fate(calls, w, name, later) is Pending),
        before(calls, m + 1) == Map::<Seq<char>, DependencyView<C>>::empty(),
{
    lemma_before_step(calls, m + 1);
    if fate(calls, w, name, m) is Pending {
        lemma_pending_wait_keeps_channel(calls, w, name, m);
        assert(holds(before(calls, m), given(calls, w, name)));
    }
    lemma_settled_stays(calls, w, name, m + 1, later);
}

} // verus!
