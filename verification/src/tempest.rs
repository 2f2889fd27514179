//! The tempest minigame: waves of enemies fly out from the centre, and the
//! player circling the centre must dodge them.
use vstd::prelude::*;

verus! {

/// What a spawner does in a frame.
#[derive(Clone, Copy, PartialEq, Eq, Structural)]
pub enum SpawnerStep {
    /// All three waves are out: the spawner goes away.
    Despawn,
    /// A wave of this many enemies, spread around the circle and turned by the
    /// wave number.
    Spawn { enemies: usize, wave: usize },
    /// Nothing yet.
    Wait,
}

/// The number of waves of a spawner.
pub const WAVES: usize = 3;

/// A spawner of waves of enemies.
pub struct Spawner {
    pub wave: usize,
    pub enemies: usize,
}

impl Spawner {
    /// A spawner that has sent no wave yet, with `enemies` enemies a wave.
    pub fn new(enemies: usize) -> (s: Spawner)
        ensures
            s.wave == 0,
            s.enemies == enemies,
    {
        Spawner { wave: 0, enemies }
    }

    /// A frame, with whether the spawner's timer ran out in it: after three
    /// waves the spawner goes away; otherwise a run-out timer sends the next
    /// wave.
    pub fn step(&mut self, timer_finished: bool) -> (step: SpawnerStep)
        ensures
            final(self).enemies == old(self).enemies,
            final(self).wave == spec_spawn(old(self).wave as nat, timer_finished),
            old(self).wave >= WAVES ==> step == SpawnerStep::Despawn && final(self).wave
                == old(self).wave,
            old(self).wave < WAVES && timer_finished ==> step == (SpawnerStep::Spawn {
                enemies: old(self).enemies,
                wave: old(self).wave,
            }) && final(self).wave == old(self).wave + 1,
            old(self).wave < WAVES && !timer_finished ==> step == SpawnerStep::Wait
                && final(self).wave == old(self).wave,
    {
        if self.wave >= WAVES {
            return SpawnerStep::Despawn;
        }
        if timer_finished {
            let wave = self.wave;
            self.wave = self.wave + 1;
            SpawnerStep::Spawn { enemies: self.enemies, wave }
        } else {
            SpawnerStep::Wait
        }
    }
}

/// The tempest is won once the spawner is gone and no enemy is left.
pub fn tempest_won(spawner_left: bool, enemies_left: usize) -> (b: bool)
    ensures
        b == (!spawner_left && enemies_left == 0),
{
    !spawner_left && enemies_left == 0
}

/// The wave count of a spawner after a frame.
pub open spec fn spec_spawn(wave: nat, timer_finished: bool) -> nat {
    if wave < WAVES && timer_finished {
        wave + 1
    } else {
        wave
    }
}

/// The wave count after frames whose timers ran out as `timers` says.
pub open spec fn waves_after(wave: nat, timers: Seq<bool>) -> nat
    decreases timers.len(),
{
    if timers.len() == 0 {
        wave
    } else {
        waves_after(spec_spawn(wave, timers[0]), timers.drop_first())
    }
}

/// How many entries of `s` are true.
pub open spec fn count_true(s: Seq<bool>) -> nat
    decreases s.len(),
{
    if s.len() == 0 {
        0
    } else {
        (if s[0] {
            1nat
        } else {
            0nat
        }) + count_true(s.drop_first())
    }
}

/// A spawner sends one wave per run-out timer until it has sent three, and
/// never more: from `wave` waves, the count after any frames is the smaller of
/// three and `wave` plus the number of run-out timers.
pub proof fn spawner_sends_three_waves(wave: nat, timers: Seq<bool>)
    requires
        wave <= WAVES,
    ensures
        waves_after(wave, timers) == if wave + count_true(timers) <= WAVES {
            wave + count_true(timers)
        } else {
            WAVES as nat
        },
    decreases timers.len(),
{
    if timers.len() > 0 {
        spawner_sends_three_waves(spec_spawn(wave, timers[0]), timers.drop_first());
    }
}

} // verus!
