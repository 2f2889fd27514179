use fever::minigame::{
    candidates, lost_minigame, next_in_sequence, next_minigame, next_minigame_random,
    noise_texture, random_noise_texture, tick_available_after, transition_plan, won_minigame,
    enter_chained_phrase, queue_follow_up, register_loss, AfterLoss, ControlsTransition, LossCounter, MinigameQueue, NextMinigame, NoiseTexture,
    TransitionKind,
};
use fever::state::{
    background_step, exhausted_minigames, exit_phase_one, restart_of, restart_state,
    BackgroundStep, CompletedMinigames, ExhaustedAction, GameState, TransitionPalette,
};
use std::collections::VecDeque;

fn queue(ids: &[u64]) -> MinigameQueue {
    MinigameQueue(ids.iter().copied().collect::<VecDeque<u64>>())
}

#[test]
fn the_queue_comes_first() {
    let mut q = queue(&[7, 8]);
    assert!(next_minigame(&mut q, &vec![1, 2], 1, 0) == NextMinigame::Run(7));
    assert_eq!(q.0, VecDeque::from(vec![8]));
    assert!(next_minigame(&mut q, &vec![1, 2], 1, 0) == NextMinigame::Run(8));
    assert!(q.0.is_empty());
}

#[test]
fn an_available_minigame_other_than_the_finished_one_comes_next() {
    let mut q = queue(&[]);
    assert!(next_minigame(&mut q, &vec![1, 2, 3], 2, 0) == NextMinigame::Run(1));
    assert!(next_minigame(&mut q, &vec![1, 2, 3], 2, 1) == NextMinigame::Run(3));
    assert!(next_minigame(&mut q, &vec![1, 2, 3], 2, 5) == NextMinigame::Run(3));
}

#[test]
fn the_phase_is_exhausted_when_nothing_else_is_available() {
    let mut q = queue(&[]);
    assert!(next_minigame(&mut q, &vec![4], 4, 0) == NextMinigame::Exhausted);
    assert!(next_minigame(&mut q, &vec![], 4, 3) == NextMinigame::Exhausted);
}

#[test]
fn candidates_leave_out_the_finished_minigame() {
    assert_eq!(candidates(&vec![5, 6, 5, 7], 5), vec![6, 7]);
    assert_eq!(candidates(&vec![], 5), Vec::<u64>::new());
}

#[test]
fn a_random_next_minigame_is_another_available_one() {
    let mut rng = rand::rng();
    for _ in 0..50 {
        let mut q = queue(&[]);
        match next_minigame_random(&mut q, &vec![10, 11, 12, 13], 11, &mut rng) {
            NextMinigame::Run(n) => assert!(n == 10 || n == 12 || n == 13),
            NextMinigame::Exhausted => panic!("a minigame was available"),
        }
    }
}

#[test]
fn a_win_counts_and_moves_on() {
    let mut rng = rand::rng();
    let mut completed = CompletedMinigames(4);
    let mut q = queue(&[3]);
    let next = won_minigame(&mut completed, &mut q, &vec![1, 2], 1, &mut rng);
    assert_eq!(completed.0, 5);
    assert!(next == NextMinigame::Run(3));
    let next = won_minigame(&mut completed, &mut q, &vec![1], 1, &mut rng);
    assert_eq!(completed.0, 6);
    assert!(next == NextMinigame::Exhausted);
}

#[test]
fn every_third_loss_restarts_the_phase() {
    let mut rng = rand::rng();
    let mut completed = CompletedMinigames(0);
    let mut losses = LossCounter::new();
    let mut q = queue(&[9]);
    let a = lost_minigame(&mut completed, &mut losses, &mut q, GameState::PhaseTwo, &vec![1, 2], 1, &mut rng);
    assert!(a == AfterLoss::Next(NextMinigame::Run(9)));
    assert_eq!(losses.count(), 1);
    let a = lost_minigame(&mut completed, &mut losses, &mut q, GameState::PhaseTwo, &vec![1, 2], 1, &mut rng);
    assert!(a == AfterLoss::Next(NextMinigame::Run(2)));
    assert_eq!(losses.count(), 2);
    q.0.push_back(5);
    let a = lost_minigame(&mut completed, &mut losses, &mut q, GameState::PhaseTwo, &vec![1, 2], 1, &mut rng);
    assert!(a == AfterLoss::Restart(GameState::Restart(&GameState::PhaseTwo)));
    assert_eq!(losses.count(), 0);
    assert!(q.0.is_empty());
    assert_eq!(completed.0, 3);
}

#[test]
fn a_restart_returns_to_its_phase() {
    for phase in [GameState::PhaseOne, GameState::PhaseTwo] {
        let r = restart_of(phase);
        assert!(r == GameState::Restart(if phase == GameState::PhaseOne {
            &GameState::PhaseOne
        } else {
            &GameState::PhaseTwo
        }));
        assert!(restart_state(r) == phase);
    }
}

#[test]
fn exhausting_a_phase() {
    assert!(exhausted_minigames(GameState::PhaseOne) == ExhaustedAction::ExitPhaseOne);
    assert!(exhausted_minigames(GameState::PhaseTwo) == ExhaustedAction::Outro);
    assert!(exhausted_minigames(GameState::Intro) == ExhaustedAction::Outro);
}

#[test]
fn exit_phase_one_resets_the_count_and_the_palette() {
    let mut c = CompletedMinigames(12);
    let mut p = TransitionPalette::Red;
    exit_phase_one(&mut c, &mut p);
    assert_eq!(c.0, 0);
    assert!(p == TransitionPalette::Blue);
}

#[test]
fn the_closing_scene_alternates() {
    let mut i = 0usize;
    assert!(background_step(&mut i) == BackgroundStep::Evolving);
    assert_eq!(i, 1);
    assert!(background_step(&mut i) == BackgroundStep::WeakeningTheStrands);
    assert_eq!(i, 0);
    assert!(background_step(&mut i) == BackgroundStep::Evolving);
    let mut j = 5usize;
    assert!(background_step(&mut j) == BackgroundStep::StarShip);
    assert_eq!(j, 6);
}

#[test]
fn defaults() {
    assert!(GameState::default() == GameState::Loading);
    assert!(TransitionPalette::default() == TransitionPalette::Blue);
    assert_eq!(CompletedMinigames::default().0, 0);
    assert!(MinigameQueue::default().0.is_empty());
}

#[test]
fn waiting_minigames_become_available_at_one() {
    assert_eq!(tick_available_after(6), (5, false));
    assert_eq!(tick_available_after(2), (1, true));
    assert_eq!(tick_available_after(1), (0, true));
    assert_eq!(tick_available_after(0), (0, true));
}

#[test]
fn the_first_sibling_that_has_not_exited_is_next() {
    assert_eq!(next_in_sequence(&vec![true, false, false]), Some(1));
    assert_eq!(next_in_sequence(&vec![true, true]), None);
    assert_eq!(next_in_sequence(&vec![]), None);
}

#[test]
fn transitions_and_palettes() {
    let kb = Some(ControlsTransition::Keyboard);
    assert!(transition_plan(kb, false, None, TransitionPalette::Red)
        == (TransitionKind::Controls(ControlsTransition::Keyboard), TransitionPalette::Blue));
    assert!(transition_plan(kb, false, Some((true, false)), TransitionPalette::Red)
        == (TransitionKind::Controls(ControlsTransition::Keyboard), TransitionPalette::Blue));
    assert!(transition_plan(kb, false, Some((false, true)), TransitionPalette::Blue)
        == (TransitionKind::Controls(ControlsTransition::Keyboard), TransitionPalette::Red));
    assert!(transition_plan(kb, true, Some((false, false)), TransitionPalette::Red)
        == (TransitionKind::Controls(ControlsTransition::Keyboard), TransitionPalette::Red));
    assert!(transition_plan(None, true, Some((true, false)), TransitionPalette::Red)
        == (TransitionKind::Cut, TransitionPalette::Red));
}

#[test]
fn noise_textures() {
    assert!(noise_texture(0) == NoiseTexture::Noise1);
    assert!(noise_texture(1) == NoiseTexture::Noise2);
    assert!(noise_texture(2) == NoiseTexture::Noise3);
    assert!(noise_texture(3) == NoiseTexture::Noise4);
    let mut rng = rand::rng();
    let mut seen = [false; 4];
    for _ in 0..400 {
        let i = match random_noise_texture(&mut rng) {
            NoiseTexture::Noise1 => 0,
            NoiseTexture::Noise2 => 1,
            NoiseTexture::Noise3 => 2,
            NoiseTexture::Noise4 => 3,
        };
        seen[i] = true;
    }
    assert!(seen.iter().all(|s| *s));
}

#[test]
fn a_minigame_waiting_for_six_becomes_available_on_the_fifth_run() {
    let mut after = 6usize;
    let mut runs = 0;
    loop {
        runs += 1;
        let (left, available) = tick_available_after(after);
        after = left;
        if available {
            break;
        }
    }
    assert_eq!(runs, 5);
    for k in [0usize, 1, 2] {
        let (_, available) = tick_available_after(k);
        assert!(available);
    }
}

#[test]
fn losses_restart_on_every_third_one() {
    let mut rng = rand::rng();
    let mut completed = CompletedMinigames(0);
    let mut losses = LossCounter::new();
    let mut q = queue(&[]);
    for n in 1..=9usize {
        let a = lost_minigame(&mut completed, &mut losses, &mut q, GameState::PhaseOne, &vec![1, 2], 1, &mut rng);
        let restarted = a == AfterLoss::Restart(GameState::Restart(&GameState::PhaseOne));
        assert_eq!(restarted, n % 3 == 0);
        assert_eq!(losses.count(), n % 3);
    }
}

#[test]
fn chained_phrases_queue_the_next_or_close_the_others() {
    let mut q = queue(&[4]);
    let close = enter_chained_phrase(&mut q, Some(7), &vec![1, 2, 3], 2);
    assert!(close.is_empty());
    assert_eq!(q.0, VecDeque::from(vec![4, 7]));
    let close = enter_chained_phrase(&mut q, None, &vec![1, 2, 3], 2);
    assert_eq!(close, vec![1, 3]);
    assert_eq!(q.0, VecDeque::from(vec![4, 7]));
}

#[test]
fn dream_sequences_queue_their_follow_up() {
    let mut q = queue(&[]);
    let tagged = vec![(10, 1), (11, 0), (12, 0)];
    assert_eq!(queue_follow_up(&mut q, &tagged, 0), Some(11));
    assert_eq!(q.0, VecDeque::from(vec![11]));
    assert_eq!(queue_follow_up(&mut q, &tagged, 5), None);
    assert_eq!(q.0, VecDeque::from(vec![11]));
}

#[test]
fn a_third_registered_loss_restarts_without_touching_the_count_of_minigames() {
    let mut rng = rand::rng();
    let mut losses = LossCounter::new();
    let mut q = queue(&[3]);
    let a = register_loss(&mut losses, &mut q, GameState::PhaseOne, &vec![1, 2], 1, &mut rng);
    assert!(a == AfterLoss::Next(NextMinigame::Run(3)));
    let a = register_loss(&mut losses, &mut q, GameState::PhaseOne, &vec![1, 2], 1, &mut rng);
    assert!(a == AfterLoss::Next(NextMinigame::Run(2)));
    q.0.push_back(8);
    let a = register_loss(&mut losses, &mut q, GameState::PhaseOne, &vec![1, 2], 1, &mut rng);
    assert!(a == AfterLoss::Restart(GameState::Restart(&GameState::PhaseOne)));
    assert_eq!(losses.count(), 0);
    assert!(q.0.is_empty());
}
