//! Text boxes that wait for the typewriter to finish, or for the player.
use vstd::prelude::*;

verus! {

/// A text box that closes once the typewriter has finished: tells whether it
/// closes this frame.
pub fn await_finish(finished_now: bool) -> (closes: bool)
    ensures
        closes == finished_now,
{
    finished_now
}

/// A text box that waits, once the typewriter has finished, for Space or
/// Enter.
pub struct AwaitInput {
    pub awaiting_input: bool,
}

impl AwaitInput {
    /// A text box whose typewriter has not finished yet.
    pub fn new() -> (a: AwaitInput)
        ensures
            !a.awaiting_input,
    {
        AwaitInput { awaiting_input: false }
    }

    /// One frame: before the typewriter finishes nothing closes and its end
    /// starts the wait; during the wait, Space or Enter closes the box.
    pub fn step(&mut self, finished_now: bool, confirm: bool) -> (closes: bool)
        ensures
            !old(self).awaiting_input ==> !closes && final(self).awaiting_input == finished_now,
            old(self).awaiting_input ==> closes == confirm && final(self).awaiting_input,
            (final(self).awaiting_input, closes) == await_step(
                old(self).awaiting_input,
                finished_now,
                confirm,
            ),
    {
        if !self.awaiting_input {
            if finished_now {
                self.awaiting_input = true;
            }
            false
        } else {
            confirm
        }
    }
}

/// One frame of a text box that waits for input, from whether it was waiting:
/// whether it waits afterwards, and whether it closes.
pub open spec fn await_step(awaiting: bool, finished_now: bool, confirm: bool) -> (bool, bool) {
    if !awaiting {
        (finished_now, false)
    } else {
        (true, confirm)
    }
}

/// What a text box that waits for input answers on each of `frames` (whether
/// the typewriter finished then, whether Space or Enter was pressed), from
/// whether it was waiting.
pub open spec fn await_answers(awaiting: bool, frames: Seq<(bool, bool)>) -> Seq<bool>
    decreases frames.len(),
{
    if frames.len() == 0 {
        Seq::empty()
    } else {
        let (next, closes) = await_step(awaiting, frames[0].0, frames[0].1);
        seq![closes] + await_answers(next, frames.drop_first())
    }
}

/// Whether the typewriter finished on a frame before frame `t`.
pub open spec fn finished_before(frames: Seq<(bool, bool)>, t: int) -> bool {
    exists|j: int| 0 <= j < t && #[trigger] frames[j].0
}

/// A text box that waits for input never closes up to and including the frame
/// on which the typewriter finishes; on every later frame it closes exactly
/// when Space or Enter is pressed.
pub proof fn input_closes_only_after_the_typewriter(frames: Seq<(bool, bool)>, t: int)
    requires
        0 <= t < frames.len(),
    ensures
        await_answers(false, frames).len() == frames.len(),
        await_answers(false, frames)[t] == (finished_before(frames, t) && frames[t].1),
{
    lemma_await_answers(false, frames, t);
}

proof fn lemma_await_answers(awaiting: bool, frames: Seq<(bool, bool)>, t: int)
    requires
        0 <= t < frames.len(),
    ensures
        await_answers(awaiting, frames).len() == frames.len(),
        await_answers(awaiting, frames)[t] == ((awaiting || finished_before(frames, t))
            && frames[t].1),
    decreases frames.len(),
{
    let (next, closes) = await_step(awaiting, frames[0].0, frames[0].1);
    let rest = frames.drop_first();
    if rest.len() > 0 {
        lemma_await_answers(next, rest, if t > 0 { t - 1 } else { 0 });
    } else {
        assert(await_answers(next, rest) =~= Seq::<bool>::empty());
    }
    if t > 0 {
        assert(frames[t] == rest[t - 1]);
        if finished_before(frames, t) {
            let j = choose|j: int| 0 <= j < t && #[trigger] frames[j].0;
            if j > 0 {
                assert(rest[j - 1].0);
                assert(finished_before(rest, t - 1));
            }
        }
        if finished_before(rest, t - 1) {
            let j = choose|j: int| 0 <= j < t - 1 && #[trigger] rest[j].0;
            assert(frames[j + 1].0);
        }
    }
}

/// Whether revealing `text` plays the glyph sound: for anything but a single
/// space.
pub fn glyph_audible(text: &str) -> (b: bool)
    ensures
        b == (text@ != seq![' ']),
{
    if text.unicode_len() == 1 && text.get_char(0) == ' ' {
        proof {
            assert(text@ =~= seq![' ']);
        }
        false
    } else {
        true
    }
}

} // verus!
