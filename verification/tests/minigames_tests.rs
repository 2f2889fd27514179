use fever::chooser::{
    choose_root, choose_root_random, choose_variation, choose_variation_random, tick_wait,
    ChooseQueue, Root,
};
use fever::countdown::{CountDown, CountDownStep};
use fever::dream::{dream_setup, last_becomes_available, scramble, scramble_char};
use fever::mash::MashCount;
use fever::path::{all_hovered, update_hover};
use fever::prompt::{await_finish, glyph_audible, AwaitInput};
use fever::tempest::{tempest_won, Spawner, SpawnerStep};
use fever::typing::{council_track, CouncilTrack, KeyPress, TypingTarget};
use std::collections::VecDeque;

fn chars(s: &str) -> Vec<char> {
    s.chars().collect()
}

#[test]
fn typing_a_phrase() {
    let mut t = TypingTarget::new("NO SEPARATION");
    assert!(t.press('x') == KeyPress::Incorrect);
    assert_eq!(t.typed(), chars(""));
    assert!(t.press('n') == KeyPress::Correct);
    assert!(t.press('O') == KeyPress::Correct);
    // the space after "NO" is skipped
    assert_eq!(t.typed(), chars("NO "));
    assert_eq!(t.rest(), chars("SEPARATION"));
    assert!(!t.is_complete());
    for c in "separation".chars() {
        assert!(t.press(c) == KeyPress::Correct);
    }
    assert!(t.is_complete());
    assert_eq!(t.rest(), chars(""));
    assert!(t.press('a') == KeyPress::Ignored);
}

#[test]
fn typing_skips_runs_of_spaces_and_trailing_spaces() {
    let mut t = TypingTarget::new("A  B ");
    assert!(t.press('a') == KeyPress::Correct);
    assert_eq!(t.typed(), chars("A  "));
    assert!(t.press('b') == KeyPress::Correct);
    assert!(t.is_complete());
}

#[test]
fn an_empty_phrase_is_complete() {
    let mut t = TypingTarget::new("");
    assert!(t.is_complete());
    assert!(t.press('a') == KeyPress::Ignored);
}

#[test]
fn council_tracks() {
    assert_eq!(council_track(0).map(|t| t == CouncilTrack::C1), Some(true));
    assert_eq!(council_track(2).map(|t| t == CouncilTrack::C1), Some(true));
    assert_eq!(council_track(3).map(|t| t == CouncilTrack::C2), Some(true));
    assert_eq!(council_track(6).map(|t| t == CouncilTrack::C5), Some(true));
    assert!(council_track(7).is_none());
    assert!(council_track(12).is_none());
}

#[test]
fn mashing_to_zero_wins() {
    let mut m = MashCount::new(3);
    assert_eq!(m.start(), 3);
    assert!(m.mash(true, false));
    assert!(!m.mash(false, false));
    assert!(m.mash(true, false));
    assert!(!m.is_won());
    assert!(m.mash(true, true));
    assert!(m.is_won());
    assert_eq!(m.count(), 0);
    // Space no longer counts at zero, Enter does but the count stays at zero
    assert!(!m.mash(true, false));
    assert!(m.mash(false, true));
    assert_eq!(m.count(), 0);
}

#[test]
fn sweeping_to_zero_wins() {
    let mut m = MashCount::new(2);
    assert!(!m.sweep(false));
    assert!(m.sweep(true));
    assert!(m.sweep(true));
    assert!(m.is_won());
    assert!(!m.sweep(true));
}

#[test]
fn hovering_targets() {
    let u = update_hover(&vec![false, true, true], &vec![true, true, false]);
    assert_eq!(u.hovered, vec![true, true, false]);
    assert!(u.entered);
    assert!(u.left);
    assert_eq!(u.unhovered_before, 1);
    let u = update_hover(&vec![true, false], &vec![true, false]);
    assert!(!u.entered && !u.left);
    assert_eq!(u.unhovered_before, 1);
    assert!(all_hovered(&vec![true, true]));
    assert!(!all_hovered(&vec![true, false]));
    assert!(all_hovered(&vec![]));
}

#[test]
fn scrambling() {
    assert_eq!(scramble(&chars("ab c")), chars("tu v"));
    assert_eq!(scramble_char('A'), 'N');
    assert_eq!(scramble_char('\n'), '\n');
    for c in ['x', '7', '!', 'é', '日', 'N', 'z'] {
        let s = scramble_char(c);
        assert!(s.is_ascii_alphabetic(), "{c:?} -> {s:?}");
        assert!(scramble_char(s).is_ascii_alphabetic());
    }
}

#[test]
fn dream_sequences() {
    assert!(last_becomes_available(0));
    assert!(last_becomes_available(1));
    assert!(!last_becomes_available(2));
    assert_eq!(dream_setup(false, 0), (Some(6), false));
    assert_eq!(dream_setup(true, 2), (None, true));
    assert_eq!(dream_setup(false, 2), (None, false));
}

#[test]
fn prompts() {
    assert!(await_finish(true));
    assert!(!await_finish(false));
    let mut a = AwaitInput::new();
    assert!(!a.step(false, true));
    assert!(!a.awaiting_input);
    assert!(!a.step(true, true));
    assert!(a.awaiting_input);
    assert!(!a.step(false, false));
    assert!(a.step(false, true));
    assert!(!glyph_audible(" "));
    assert!(glyph_audible("a"));
    assert!(glyph_audible("  "));
    assert!(glyph_audible(""));
}

#[test]
fn count_down() {
    let mut c = CountDown::new();
    assert!(c.tick() == CountDownStep::Two);
    assert!(c.tick() == CountDownStep::One);
    assert!(c.tick() == CountDownStep::Go);
    assert!(c.tick() == CountDownStep::Go);
}

#[test]
fn a_spawner_sends_three_waves() {
    let mut s = Spawner::new(8);
    assert!(s.step(false) == SpawnerStep::Wait);
    assert!(s.step(true) == SpawnerStep::Spawn { enemies: 8, wave: 0 });
    assert!(s.step(true) == SpawnerStep::Spawn { enemies: 8, wave: 1 });
    assert!(s.step(false) == SpawnerStep::Wait);
    assert!(s.step(true) == SpawnerStep::Spawn { enemies: 8, wave: 2 });
    assert!(s.step(true) == SpawnerStep::Despawn);
    assert!(s.step(false) == SpawnerStep::Despawn);
    assert_eq!(s.wave, 3);
    assert!(tempest_won(false, 0));
    assert!(!tempest_won(true, 0));
    assert!(!tempest_won(false, 2));
}

#[test]
fn choosing_roots() {
    let roots = vec![Root { entity: 100, kind: 1 }, Root { entity: 200, kind: 2 }];
    let mut q = ChooseQueue(VecDeque::from(vec![2]));
    assert_eq!(choose_root(&mut q, &roots, &vec![100], &vec![], 0), Some(200));
    assert!(q.0.is_empty());
    // a queued kind without a root is dropped, and the choice falls back
    let mut q = ChooseQueue(VecDeque::from(vec![9]));
    assert_eq!(choose_root(&mut q, &roots, &vec![100, 200], &vec![], 3), Some(200));
    assert!(q.0.is_empty());
    assert_eq!(choose_root(&mut q, &roots, &vec![], &vec![200], 7), Some(200));
    assert_eq!(choose_root(&mut q, &roots, &vec![], &vec![], 7), None);
    let mut empty = ChooseQueue::default();
    assert!(empty.0.is_empty());
    assert_eq!(choose_root(&mut empty, &roots, &vec![100], &vec![], 0), Some(100));
    let mut rng = rand::rng();
    for _ in 0..20 {
        let r = choose_root_random(&mut q, &roots, &vec![100, 200], &vec![300], &mut rng);
        assert!(r == Some(100) || r == Some(200));
    }
}

#[test]
fn choosing_variations() {
    assert_eq!(choose_variation(&vec![4, 5, 6], true, 2), 4);
    assert_eq!(choose_variation(&vec![4, 5, 6], false, 2), 6);
    assert_eq!(choose_variation(&vec![4, 5, 6], false, 4), 5);
    let mut rng = rand::rng();
    for _ in 0..20 {
        let v = choose_variation_random(&vec![4, 5, 6], false, &mut rng);
        assert!([4, 5, 6].contains(&v));
        assert_eq!(choose_variation_random(&vec![4, 5, 6], true, &mut rng), 4);
    }
    assert_eq!(tick_wait(2), (1, false));
    assert_eq!(tick_wait(1), (0, true));
    assert_eq!(tick_wait(0), (0, true));
}

#[test]
fn input_closes_only_after_the_typewriter_finished() {
    let frames = [(false, true), (false, false), (true, true), (false, false), (false, true), (true, true)];
    let mut a = AwaitInput::new();
    let answers: Vec<bool> = frames.iter().map(|&(f, c)| a.step(f, c)).collect();
    assert_eq!(answers, vec![false, false, false, false, true, true]);
}
