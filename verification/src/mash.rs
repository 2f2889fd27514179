//! The mashing minigames: each press of the key (or each full sweep of the
//! mouse) takes one off a count, and the minigame is won at zero.
use vstd::prelude::*;

verus! {

/// The count after a key press in the mash minigame: Space counts while the
/// count is not zero, and Enter always counts; the count never goes below
/// zero.
pub open spec fn spec_mash(count: nat, space: bool, enter: bool) -> nat {
    if (count != 0 && space) || enter {
        if count == 0 {
            0
        } else {
            (count - 1) as nat
        }
    } else {
        count
    }
}

/// The count after a frame of the sweep minigame: a full sweep takes one off
/// while the count is not zero.
pub open spec fn spec_sweep(count: nat, swept: bool) -> nat {
    if count != 0 && swept {
        (count - 1) as nat
    } else {
        count
    }
}

/// The count of a mashing minigame and the count it started from.
pub struct MashCount {
    count: usize,
    start: usize,
}

impl MashCount {
    #[verifier::type_invariant]
    spec fn at_most_start(self) -> bool {
        self.count <= self.start
    }

    /// The presses still needed.
    pub closed spec fn spec_count(self) -> nat {
        self.count as nat
    }

    /// The presses needed at the start.
    pub closed spec fn spec_start(self) -> nat {
        self.start as nat
    }

    /// A minigame that needs `count` presses.
    pub fn new(count: usize) -> (m: MashCount)
        ensures
            m.spec_count() == count,
            m.spec_start() == count,
    {
        MashCount { count, start: count }
    }

    /// The presses still needed.
    pub fn count(&self) -> (n: usize)
        ensures
            n == self.spec_count(),
            n <= self.spec_start(),
    {
        proof {
            use_type_invariant(self);
        }
        self.count
    }

    /// The presses needed at the start.
    pub fn start(&self) -> (n: usize)
        ensures
            n == self.spec_start(),
    {
        self.start
    }

    /// A frame of the mash minigame, with whether Space and Enter were just
    /// pressed: see `spec_mash`. Tells whether the press counted.
    pub fn mash(&mut self, space: bool, enter: bool) -> (counted: bool)
        ensures
            final(self).spec_start() == old(self).spec_start(),
            final(self).spec_count() == spec_mash(old(self).spec_count(), space, enter),
            counted == ((old(self).spec_count() != 0 && space) || enter),
    {
        proof {
            use_type_invariant(&*self);
        }
        if (self.count != 0 && space) || enter {
            self.count = self.count.saturating_sub(1);
            true
        } else {
            false
        }
    }

    /// A frame of the sweep minigame, with whether the mouse moved far enough:
    /// see `spec_sweep`. Tells whether the sweep counted.
    pub fn sweep(&mut self, swept: bool) -> (counted: bool)
        ensures
            final(self).spec_start() == old(self).spec_start(),
            final(self).spec_count() == spec_sweep(old(self).spec_count(), swept),
            counted == (old(self).spec_count() != 0 && swept),
    {
        proof {
            use_type_invariant(&*self);
        }
        if self.count != 0 && swept {
            self.count = self.count - 1;
            true
        } else {
            false
        }
    }

    /// Whether the minigame is won: no press is needed any more.
    pub fn is_won(&self) -> (b: bool)
        ensures
            b == (self.spec_count() == 0),
    {
        self.count == 0
    }
}

/// The count after `n` presses of Space.
pub open spec fn mash_times(count: nat, n: nat) -> nat
    decreases n,
{
    if n == 0 {
        count
    } else {
        mash_times(spec_mash(count, true, false), (n - 1) as nat)
    }
}

/// The count never goes up, and pressing Space as many times as the count
/// wins: the count is then zero.
pub proof fn mashing_count_times_wins(count: nat, space: bool, enter: bool)
    ensures
        spec_mash(count, space, enter) <= count,
        mash_times(count, count) == 0,
    decreases count,
{
    if count > 0 {
        mashing_count_times_wins((count - 1) as nat, space, enter);
        assert(spec_mash(count, true, false) == count - 1);
    }
}

/// Every counted press, of Space or of Enter, takes exactly one off a count
/// that is not zero; a frame without a press leaves the count as it is; the
/// count never goes below zero.
pub proof fn each_press_takes_one_off(count: nat, space: bool, enter: bool)
    ensures
        count > 0 && (space || enter) ==> spec_mash(count, space, enter) == count - 1,
        !space && !enter ==> spec_mash(count, space, enter) == count,
        count == 0 ==> spec_mash(count, space, enter) == 0,
{
}

/// Every full sweep takes exactly one off a count that is not zero; a frame
/// without one leaves the count as it is.
pub proof fn each_sweep_takes_one_off(count: nat, swept: bool)
    ensures
        count > 0 && swept ==> spec_sweep(count, swept) == count - 1,
        !swept ==> spec_sweep(count, swept) == count,
        count == 0 ==> spec_sweep(count, swept) == 0,
{
}

/// The count after `n` presses of Enter alone.
pub open spec fn enter_times(count: nat, n: nat) -> nat
    decreases n,
{
    if n == 0 {
        count
    } else {
        enter_times(spec_mash(count, false, true), (n - 1) as nat)
    }
}

/// Pressing Enter alone wins only after as many presses as the count: after
/// `n` presses the count is `count - n` (and zero from then on).
pub proof fn enter_presses_win_after_count_presses(count: nat, n: nat)
    ensures
        enter_times(count, n) == if n <= count { (count - n) as nat } else { 0 },
    decreases n,
{
    if n > 0 {
        enter_presses_win_after_count_presses(spec_mash(count, false, true), (n - 1) as nat);
    }
}

} // verus!
