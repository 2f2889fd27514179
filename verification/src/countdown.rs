//! The count down before a minigame: three, two, one, go.
use vstd::prelude::*;

verus! {

/// What a tick of the count down shows.
#[derive(Clone, Copy, PartialEq, Eq, Structural)]
pub enum CountDownStep {
    /// A boom, and the image "two".
    Two,
    /// A boom, and the image "one".
    One,
    /// The start sound: the count down ends and the minigame is chosen.
    Go,
}

/// The step that the `index`-th tick shows, counted from one.
pub open spec fn spec_count_down(index: nat) -> CountDownStep {
    if index == 1 {
        CountDownStep::Two
    } else if index == 2 {
        CountDownStep::One
    } else {
        CountDownStep::Go
    }
}

/// The count down, which starts on "three".
pub struct CountDown {
    pub index: usize,
}

impl CountDown {
    /// A count down that shows "three".
    pub fn new() -> (c: CountDown)
        ensures
            c.index == 0,
    {
        CountDown { index: 0 }
    }

    /// The timer ran out once more: see `spec_count_down`.
    pub fn tick(&mut self) -> (step: CountDownStep)
        requires
            old(self).index < usize::MAX,
        ensures
            final(self).index == old(self).index + 1,
            step == spec_count_down(final(self).index as nat),
    {
        self.index = self.index + 1;
        match self.index {
            1 => CountDownStep::Two,
            2 => CountDownStep::One,
            _ => CountDownStep::Go,
        }
    }
}

/// From the start, the count down shows two, then one, then goes.
pub proof fn count_down_goes_after_three_ticks()
    ensures
        spec_count_down(1) == CountDownStep::Two,
        spec_count_down(2) == CountDownStep::One,
        forall|i: nat| i >= 3 ==> spec_count_down(i) == CountDownStep::Go,
{
}

} // verus!
