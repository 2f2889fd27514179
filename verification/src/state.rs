//! The phases of the game and the moves between them.
use vstd::prelude::*;

verus! {

/// The phase the game is in.
#[derive(Clone, Copy, PartialEq, Eq, Structural)]
pub enum GameState {
    Loading,
    Intro,
    PhaseOne,
    PhaseTwo,
    Restart(&'static GameState),
    Outro,
}

impl Default for GameState {
    fn default() -> (s: GameState)
        ensures
            s == GameState::Loading,
    {
        GameState::Loading
    }
}

/// Whether the game is in one of its two phases of minigames.
pub open spec fn is_phase(state: GameState) -> bool {
    state == GameState::PhaseOne || state == GameState::PhaseTwo
}

/// The state that restarts `phase`.
pub fn restart_of(phase: GameState) -> (r: GameState)
    requires
        is_phase(phase),
    ensures
        r == GameState::Restart(&phase),
{
    match phase {
        GameState::PhaseOne => GameState::Restart(&GameState::PhaseOne),
        _ => GameState::Restart(&GameState::PhaseTwo),
    }
}

/// The phase that a restart goes back to.
pub fn restart_state(state: GameState) -> (next: GameState)
    requires
        exists|p: GameState| is_phase(p) && state == GameState::Restart(&p),
    ensures
        is_phase(next),
        state == GameState::Restart(&next),
{
    match state {
        GameState::Restart(inner) => *inner,
        _ => GameState::Outro,
    }
}

/// Restarting a phase goes back to that phase: the phase that `restart_state`
/// gives for the state that `restart_of(phase)` gives is `phase`.
pub proof fn restart_returns_to_its_phase(phase: GameState, back: GameState)
    requires
        is_phase(phase),
        GameState::Restart(&phase) == GameState::Restart(&back),
    ensures
        back == phase,
{
}

/// The number of minigames finished in the current phase.
pub struct CompletedMinigames(pub usize);

impl Default for CompletedMinigames {
    fn default() -> (c: CompletedMinigames)
        ensures
            c.0 == 0,
    {
        CompletedMinigames(0)
    }
}

/// The colors of the transition between two minigames.
#[derive(Clone, Copy, PartialEq, Eq, Structural)]
pub enum TransitionPalette {
    Blue,
    Red,
}

impl Default for TransitionPalette {
    fn default() -> (p: TransitionPalette)
        ensures
            p == TransitionPalette::Blue,
    {
        TransitionPalette::Blue
    }
}

/// What happens once every minigame of a phase is done.
#[derive(Clone, Copy, PartialEq, Eq, Structural)]
pub enum ExhaustedAction {
    /// The first phase ends with its closing scene.
    ExitPhaseOne,
    /// Any other phase goes on to the outro.
    Outro,
}

/// What happens once every minigame of the current phase is done.
pub fn exhausted_minigames(state: GameState) -> (a: ExhaustedAction)
    ensures
        a == (if state == GameState::PhaseOne {
            ExhaustedAction::ExitPhaseOne
        } else {
            ExhaustedAction::Outro
        }),
{
    match state {
        GameState::PhaseOne => ExhaustedAction::ExitPhaseOne,
        _ => ExhaustedAction::Outro,
    }
}

/// The closing scene of the first phase starts over its count of finished
/// minigames and turns the transition blue.
pub fn exit_phase_one(completed: &mut CompletedMinigames, palette: &mut TransitionPalette)
    ensures
        final(completed).0 == 0,
        *final(palette) == TransitionPalette::Blue,
{
    completed.0 = 0;
    *palette = TransitionPalette::Blue;
}

/// The text behind the fractal during the closing scene of the first phase.
#[derive(Clone, Copy, PartialEq, Eq, Structural)]
pub enum BackgroundStep {
    /// "EVOLVING", over the burning-ship fractal.
    Evolving,
    /// "WEAKENING THE STRANDS", over the odd Julia fractal.
    WeakeningTheStrands,
    /// No text, over the star-ship fractal.
    StarShip,
}

/// One more turn of the closing scene of the first phase: the counter goes up
/// by one; at two it shows the weakening text and starts over, at one the
/// evolving text, and beyond two only the star-ship fractal.
pub open spec fn spec_background_step(i: nat) -> (nat, BackgroundStep) {
    if i + 1 == 2 {
        (0, BackgroundStep::WeakeningTheStrands)
    } else if i + 1 == 1 {
        (1, BackgroundStep::Evolving)
    } else {
        (i + 1, BackgroundStep::StarShip)
    }
}

/// One more turn of the closing scene of the first phase: see
/// `spec_background_step`.
pub fn background_step(i: &mut usize) -> (step: BackgroundStep)
    requires
        *old(i) < usize::MAX,
    ensures
        (*final(i) as nat, step) == spec_background_step(*old(i) as nat),
{
    *i = *i + 1;
    if *i == 2 {
        *i = 0;
        BackgroundStep::WeakeningTheStrands
    } else if *i == 1 {
        BackgroundStep::Evolving
    } else {
        BackgroundStep::StarShip
    }
}

/// From a counter below two, the closing scene keeps its counter below two: it
/// alternates between the evolving and the weakening texts and never reaches
/// the star-ship step.
pub proof fn background_alternates(i: nat)
    requires
        i < 2,
    ensures
        spec_background_step(i).0 < 2,
        spec_background_step(i).1 != BackgroundStep::StarShip,
        spec_background_step(spec_background_step(i).0).1 != spec_background_step(i).1,
{
}

} // verus!
