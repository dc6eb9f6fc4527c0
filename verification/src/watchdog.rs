//! When a run is stuck: nothing has been running for a while.

use vstd::prelude::*;

verus! {

/// How many milliseconds pass between two looks at the run.
pub const TICK_MILLIS: u64 = 100;

/// How many looks in a row may find nothing running.
pub const PATIENCE: usize = 5;

/// Looks at how many permits to run are free, and says when to give up.
pub struct Watchdog {
    permits: usize,
    no_progress_found: usize,
}

/// How many looks in a row found nothing running, after one more.
pub open spec fn counted(permits: usize, count: nat, available: usize) -> nat {
    if available == permits {
        count + 1
    } else {
        0
    }
}

/// How many looks in a row found nothing running, after all of `looks`.
pub open spec fn idle_looks(permits: usize, looks: Seq<usize>) -> nat
    decreases looks.len(),
{
    if looks.len() == 0 {
        0
    } else {
        counted(permits, idle_looks(permits, looks.drop_last()), looks.last())
    }
}

impl Watchdog {
    /// How many permits there are.
    pub closed spec fn permits(self) -> usize {
        self.permits
    }

    /// How many looks in a row found nothing running.
    pub closed spec fn count(self) -> nat {
        self.no_progress_found as nat
    }

    /// Starts to look after a run that has all its permits.
    pub fn new(permits: usize) -> (watchdog: Self)
        ensures
            watchdog.permits() == permits,
            watchdog.count() == 0,
    {
        Watchdog { permits, no_progress_found: 0 }
    }

    /// Takes in how many permits are free now, and says whether to give up. It
    /// is not asked again after that.
    pub fn tick(&mut self, available: usize) -> (give_up: bool)
        requires
            old(self).count() <= PATIENCE,
        ensures
            final(self).permits() == old(self).permits(),
            final(self).count() == counted(old(self).permits(), old(self).count(), available),
            give_up == (final(self).count() > PATIENCE),
    {
        if available == self.permits {
            self.no_progress_found = self.no_progress_found + 1;
        } else {
            self.no_progress_found = 0;
        }
        self.no_progress_found > PATIENCE
    }
}

/// A run is given up at a look exactly when that look and the ones before it,
/// one more than there is patience for, all found every permit free.
pub proof fn lemma_gives_up_when_idle(permits: usize, looks: Seq<usize>, n: nat)
    ensures
        idle_looks(permits, looks) > n <==> looks.len() > n && forall|i: int|
            looks.len() - n - 1 <= i < looks.len() ==> looks[i] == permits,
    decreases looks.len(),
{
    if looks.len() > 0 {
        let earlier = looks.drop_last();
        if n > 0 {
            lemma_gives_up_when_idle(permits, earlier, (n - 1) as nat);
            if looks.len() > n && (forall|i: int|
                looks.len() - n - 1 <= i < looks.len() ==> looks[i] == permits) {
                assert(looks[looks.len() - 1] == permits);
                assert forall|i: int| earlier.len() - (n - 1) - 1 <= i < earlier.len() implies earlier[i]
                    == permits by {
                    assert(looks[i] == permits);
                }
            }
            if idle_looks(permits, looks) > n {
                assert forall|i: int| looks.len() - n - 1 <= i < looks.len() implies looks[i] == permits by {
                    if i < earlier.len() {
                        assert(earlier[i] == permits);
                    }
                }
            }
        } else {
            assert(looks[looks.len() - 1] == looks.last());
        }
    }
}

/// A run is given up at a look exactly when that look and the five before it
/// all found every permit free. There are ten looks in a second.
pub proof fn lemma_gives_up_at_the_sixth(permits: usize, looks: Seq<usize>)
    ensures
        idle_looks(permits, looks) > PATIENCE <==> looks.len() >= 6 && forall|i: int|
            looks.len() - 6 <= i < looks.len() ==> looks[i] == permits,
        10 * TICK_MILLIS == 1000,
{
    lemma_gives_up_when_idle(permits, looks, 5);
}

/// One look more counts one more where it found every permit free, and starts
/// again from nothing where it did not.
pub proof fn lemma_one_look_more(permits: usize, looks: Seq<usize>, available: usize)
    ensures
        idle_looks(permits, Seq::empty()) == 0,
        available == permits ==> idle_looks(permits, looks.push(available)) == idle_looks(permits, looks) + 1,
        available != permits ==> idle_looks(permits, looks.push(available)) == 0,
{
    assert(looks.push(available).drop_last() =~= looks);
}

} // verus!
