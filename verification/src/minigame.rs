//! What happens when a minigame is won or lost: which minigame comes next,
//! when the phase is over, and when three losses restart it.
use crate::dice::{choose_one, random_below};
use crate::state::{is_phase, restart_of, CompletedMinigames, GameState, TransitionPalette};
use std::collections::VecDeque;
use vstd::prelude::*;

verus! {

/// The minigames that must come next, in order, before any other (entity ids).
pub struct MinigameQueue(pub VecDeque<u64>);

impl Default for MinigameQueue {
    fn default() -> (q: MinigameQueue)
        ensures
            q.0@.len() == 0,
    {
        MinigameQueue(VecDeque::new())
    }
}

/// The losses since the last restart, always fewer than three.
pub struct LossCounter {
    count: usize,
}

impl LossCounter {
    #[verifier::type_invariant]
    spec fn below_three(self) -> bool {
        self.count < 3
    }

    /// The number of losses since the last restart.
    pub closed spec fn spec_count(self) -> nat {
        self.count as nat
    }

    /// No loss yet.
    pub fn new() -> (c: LossCounter)
        ensures
            c.spec_count() == 0,
    {
        LossCounter { count: 0 }
    }

    /// The number of losses since the last restart.
    pub fn count(&self) -> (n: usize)
        ensures
            n == self.spec_count(),
            n < 3,
    {
        proof {
            use_type_invariant(self);
        }
        self.count
    }
}

/// `s` without the occurrences of `x`, in order.
pub open spec fn without(s: Seq<u64>, x: u64) -> Seq<u64>
    decreases s.len(),
{
    if s.len() == 0 {
        Seq::empty()
    } else if s.last() == x {
        without(s.drop_last(), x)
    } else {
        without(s.drop_last(), x).push(s.last())
    }
}

/// The available minigames other than `finished`.
pub fn candidates(available: &Vec<u64>, finished: u64) -> (r: Vec<u64>)
    ensures
        r@ == without(available@, finished),
{
    let mut r: Vec<u64> = Vec::new();
    let mut i: usize = 0;
    while i < available.len()
        invariant
            i <= available@.len(),
            r@ == without(available@.take(i as int), finished),
        decreases available@.len() - i,
    {
        proof {
            assert(available@.take(i + 1).drop_last() =~= available@.take(i as int));
        }
        if available[i] != finished {
            r.push(available[i]);
        }
        i = i + 1;
    }
    proof {
        assert(available@.take(available@.len() as int) =~= available@);
    }
    r
}

proof fn lemma_without_contains(s: Seq<u64>, x: u64, y: u64)
    ensures
        without(s, x).contains(y) <==> (s.contains(y) && y != x),
    decreases s.len(),
{
    if s.len() > 0 {
        lemma_without_contains(s.drop_last(), x, y);
        let w = without(s.drop_last(), x);
        if s.last() != x {
            assert(w.push(s.last()).contains(y) <==> (w.contains(y) || y == s.last())) by {
                if w.push(s.last()).contains(y) {
                    let i = choose|i: int| 0 <= i < w.len() + 1 && w.push(s.last())[i] == y;
                    if i < w.len() {
                        assert(w[i] == y);
                    }
                }
                if w.contains(y) {
                    let i = choose|i: int| 0 <= i < w.len() && w[i] == y;
                    assert(w.push(s.last())[i] == y);
                }
                if y == s.last() {
                    assert(w.push(s.last())[w.len() as int] == y);
                }
            }
        }
        assert(s.contains(y) <==> (s.drop_last().contains(y) || s.last() == y)) by {
            if s.contains(y) {
                let i = choose|i: int| 0 <= i < s.len() && s[i] == y;
                if i < s.len() - 1 {
                    assert(s.drop_last()[i] == y);
                }
            }
            if s.drop_last().contains(y) {
                let i = choose|i: int| 0 <= i < s.len() - 1 && s.drop_last()[i] == y;
                assert(s[i] == y);
            }
            if s.last() == y {
                assert(s[s.len() - 1] == y);
            }
        }
    }
}

/// What comes after a finished minigame.
#[derive(Clone, Copy, PartialEq, Eq, Structural)]
pub enum NextMinigame {
    /// The transition into this minigame starts, from the finished one.
    Run(u64),
    /// No minigame is left: the phase is over.
    Exhausted,
}

/// The minigame that comes after `finished`: the front of the queue when there
/// is one, else the available minigame at `pick` (wrapped around) among those
/// other than `finished`, else none.
pub open spec fn spec_next_minigame(queue: Seq<u64>, available: Seq<u64>, finished: u64, pick: nat) -> NextMinigame {
    if queue.len() > 0 {
        NextMinigame::Run(queue[0])
    } else if without(available, finished).len() == 0 {
        NextMinigame::Exhausted
    } else {
        NextMinigame::Run(without(available, finished)[(pick % without(available, finished).len()) as int])
    }
}

/// The queue after the next minigame is chosen: its front leaves it.
pub open spec fn spec_queue_after(queue: Seq<u64>) -> Seq<u64> {
    if queue.len() > 0 {
        queue.drop_first()
    } else {
        queue
    }
}

/// The minigame that comes after `finished`, with `pick` standing for the
/// random choice among the available ones: see `spec_next_minigame`.
pub fn next_minigame(queue: &mut MinigameQueue, available: &Vec<u64>, finished: u64, pick: usize) -> (next: NextMinigame)
    ensures
        next == spec_next_minigame(old(queue).0@, available@, finished, pick as nat),
        final(queue).0@ == spec_queue_after(old(queue).0@),
{
    if let Some(front) = queue.0.pop_front() {
        return NextMinigame::Run(front);
    }
    let c = candidates(available, finished);
    if c.len() == 0 {
        NextMinigame::Exhausted
    } else {
        NextMinigame::Run(c[pick % c.len()])
    }
}

/// The minigame that comes after `finished`, with the available one drawn at
/// random: the front of the queue when there is one; else an available
/// minigame other than `finished`, when there is one; else none.
pub fn next_minigame_random(
    queue: &mut MinigameQueue,
    available: &Vec<u64>,
    finished: u64,
    rng: &mut rand::rngs::ThreadRng,
) -> (next: NextMinigame)
    ensures
        exists|pick: nat| next == spec_next_minigame(old(queue).0@, available@, finished, pick),
        final(queue).0@ == spec_queue_after(old(queue).0@),
{
    if queue.0.len() > 0 {
        return next_minigame(queue, available, finished, 0);
    }
    let c = candidates(available, finished);
    match choose_one(rng, &c) {
        Some(x) => {
            proof {
                let i = choose|i: int| 0 <= i < c@.len() && c@[i] == x;
                assert(old(queue).0@.len() == 0);
                vstd::arithmetic::div_mod::lemma_small_mod(i as nat, c@.len());
                assert(NextMinigame::Run(x) == spec_next_minigame(old(queue).0@, available@, finished, i as nat));
            }
            NextMinigame::Run(x)
        },
        None => next_minigame(queue, available, finished, 0),
    }
}

/// A minigame that comes next by chance is available and is not the one just
/// finished; the phase is over only when no such minigame is left.
pub proof fn next_minigame_is_another_available_one(queue: Seq<u64>, available: Seq<u64>, finished: u64, pick: nat)
    requires
        queue.len() == 0,
    ensures
        spec_next_minigame(queue, available, finished, pick) matches NextMinigame::Run(next) ==> available.contains(
            next,
        ) && next != finished,
        spec_next_minigame(queue, available, finished, pick) == NextMinigame::Exhausted <==> forall|
            x: u64,
        | available.contains(x) ==> x == finished,
{
    let w = without(available, finished);
    if w.len() > 0 {
        let next = w[(pick % w.len()) as int];
        lemma_without_contains(available, finished, next);
        assert(w.contains(next));
        lemma_without_contains(available, finished, w[0]);
        assert(w.contains(w[0]));
    } else {
        assert forall|x: u64| available.contains(x) implies x == finished by {
            lemma_without_contains(available, finished, x);
        }
    }
}

/// The queue is served first in, first out: while it holds minigames, the next
/// one is its front, whatever is available, and it then leaves the queue.
pub proof fn queue_is_first_in_first_out(queue: Seq<u64>, available: Seq<u64>, finished: u64, pick: nat)
    requires
        queue.len() > 0,
    ensures
        spec_next_minigame(queue, available, finished, pick) == NextMinigame::Run(queue[0]),
        spec_queue_after(queue) == queue.subrange(1, queue.len() as int),
{
}

/// A minigame was won: one more minigame is completed, and the next one comes
/// as `next_minigame_random` says.
pub fn won_minigame(
    completed: &mut CompletedMinigames,
    queue: &mut MinigameQueue,
    available: &Vec<u64>,
    finished: u64,
    rng: &mut rand::rngs::ThreadRng,
) -> (next: NextMinigame)
    requires
        old(completed).0 < usize::MAX,
    ensures
        final(completed).0 == old(completed).0 + 1,
        exists|pick: nat| next == spec_next_minigame(old(queue).0@, available@, finished, pick),
        final(queue).0@ == spec_queue_after(old(queue).0@),
{
    completed.0 = completed.0 + 1;
    next_minigame_random(queue, available, finished, rng)
}

/// What comes after a lost minigame.
#[derive(Clone, Copy, PartialEq, Eq, Structural)]
pub enum AfterLoss {
    /// The game goes on as after a win.
    Next(NextMinigame),
    /// The third loss restarts the phase: the game enters this state.
    Restart(GameState),
}

/// A minigame was lost: one more loss is counted. The third loss empties the
/// queue, starts the count of losses over and restarts the current phase;
/// before it, the next minigame comes as `next_minigame_random` says.
pub fn register_loss(
    losses: &mut LossCounter,
    queue: &mut MinigameQueue,
    state: GameState,
    available: &Vec<u64>,
    finished: u64,
    rng: &mut rand::rngs::ThreadRng,
) -> (after: AfterLoss)
    requires
        old(losses).spec_count() == 2 ==> is_phase(state),
    ensures
        final(losses).spec_count() == losses_after(old(losses).spec_count()),
        old(losses).spec_count() == 2 ==> {
            &&& final(queue).0@.len() == 0
            &&& after == AfterLoss::Restart(GameState::Restart(&state))
        },
        old(losses).spec_count() < 2 ==> {
            &&& final(queue).0@ == spec_queue_after(old(queue).0@)
            &&& exists|pick: nat|
                after == AfterLoss::Next(spec_next_minigame(old(queue).0@, available@, finished, pick))
        },
{
    proof {
        use_type_invariant(&*losses);
    }
    if losses.count + 1 >= 3 {
        losses.count = 0;
        queue.0.clear();
        return AfterLoss::Restart(restart_of(state));
    }
    losses.count = losses.count + 1;
    AfterLoss::Next(next_minigame_random(queue, available, finished, rng))
}

/// A minigame was lost: one more minigame is completed, and the loss counts
/// as `register_loss` says.
pub fn lost_minigame(
    completed: &mut CompletedMinigames,
    losses: &mut LossCounter,
    queue: &mut MinigameQueue,
    state: GameState,
    available: &Vec<u64>,
    finished: u64,
    rng: &mut rand::rngs::ThreadRng,
) -> (after: AfterLoss)
    requires
        old(completed).0 < usize::MAX,
        old(losses).spec_count() == 2 ==> is_phase(state),
    ensures
        final(completed).0 == old(completed).0 + 1,
        final(losses).spec_count() == losses_after(old(losses).spec_count()),
        old(losses).spec_count() == 2 ==> {
            &&& final(queue).0@.len() == 0
            &&& after == AfterLoss::Restart(GameState::Restart(&state))
        },
        old(losses).spec_count() < 2 ==> {
            &&& final(queue).0@ == spec_queue_after(old(queue).0@)
            &&& exists|pick: nat|
                after == AfterLoss::Next(spec_next_minigame(old(queue).0@, available@, finished, pick))
        },
{
    completed.0 = completed.0 + 1;
    register_loss(losses, queue, state, available, finished, rng)
}

/// The count of losses after one more loss: the third starts it over.
pub open spec fn losses_after(count: nat) -> nat {
    if count == 2 {
        0
    } else {
        count + 1
    }
}

/// Losses restart the phase on every third one: the count of losses goes
/// round modulo three, and it starts over exactly on the loss that restarts.
pub proof fn every_third_loss_restarts(count: nat)
    requires
        count < 3,
    ensures
        losses_after(count) == (count + 1) % 3,
        losses_after(count) == 0 <==> count == 2,
        losses_after(losses_after(losses_after(count))) == count,
{
}

/// The losses counted after `n` losses from the start.
pub open spec fn losses_from_start(n: nat) -> nat
    decreases n,
{
    if n == 0 {
        0
    } else {
        losses_after(losses_from_start((n - 1) as nat))
    }
}

/// Counted from the start, the loss count after `n` losses is `n` modulo
/// three, and loss number `n + 1` restarts the phase exactly when `n + 1` is a
/// multiple of three.
pub proof fn every_third_loss_from_the_start_restarts(n: nat)
    ensures
        losses_from_start(n) == n % 3,
        (losses_from_start(n) == 2) <==> ((n + 1) % 3 == 0),
    decreases n,
{
    if n > 0 {
        every_third_loss_from_the_start_restarts((n - 1) as nat);
    }
}

/// A minigame that waits for others before it becomes available: one more
/// finished minigame takes one off its count, and at one or less it becomes
/// available.
pub fn tick_available_after(after: usize) -> (r: (usize, bool))
    ensures
        r.0 == if after == 0 { 0 } else { after - 1 },
        r.1 == (r.0 <= 1),
        (r.0 as nat, r.1) == spec_tick_available_after(after as nat),
{
    let next = after.saturating_sub(1);
    (next, next <= 1)
}

/// One finished minigame for a minigame that waits for `after` more: the count
/// goes down by one (not below zero), and at one or less it becomes available.
pub open spec fn spec_tick_available_after(after: nat) -> (nat, bool) {
    let next: nat = if after == 0 { 0 } else { (after - 1) as nat };
    (next, next <= 1)
}

/// A minigame that waited for `k` more, after `m` finished minigames: `Some`
/// of the count while it still waits, `None` once it is available (it then
/// waits no more).
pub open spec fn waiting_after(k: nat, m: nat) -> Option<nat>
    decreases m,
{
    if m == 0 {
        Some(k)
    } else {
        match waiting_after(k, (m - 1) as nat) {
            None => None,
            Some(n) => {
                let (next, available) = spec_tick_available_after(n);
                if available {
                    None
                } else {
                    Some(next)
                }
            },
        }
    }
}

/// The finished minigame on which a minigame waiting for `k` more becomes
/// available: the `k - 1`-th, and at the latest the first.
pub open spec fn available_on(k: nat) -> nat {
    if k <= 2 {
        1
    } else {
        (k - 1) as nat
    }
}

/// A minigame that waits for `k` more becomes available exactly on finished
/// minigame `available_on(k)`, that is `max(k - 1, 1)`, and not before; until
/// then its count goes down by one each time.
pub proof fn waiting_minigame_becomes_available_on_time(k: nat, m: nat)
    ensures
        waiting_after(k, m) is None <==> m >= available_on(k),
        m < available_on(k) ==> waiting_after(k, m) == Some((k - m) as nat),
    decreases m,
{
    if m > 0 {
        waiting_minigame_becomes_available_on_time(k, (m - 1) as nat);
    }
}

/// The second phase's typing minigames come one after the other: when one is
/// entered, the phrase that follows it (if any) is queued next; the last one
/// instead closes every other available minigame. Gives the minigames to close.
pub fn enter_chained_phrase(queue: &mut MinigameQueue, next: Option<u64>, available: &Vec<u64>, entered: u64) -> (close: Vec<u64>)
    ensures
        next matches Some(n) ==> final(queue).0@ == old(queue).0@.push(n) && close@.len() == 0,
        next is None ==> final(queue).0@ == old(queue).0@ && close@ == without(available@, entered),
{
    match next {
        Some(n) => {
            queue.0.push_back(n);
            Vec::new()
        },
        None => candidates(available, entered),
    }
}

/// The first entity of `tagged` whose tag is `tag`.
pub open spec fn first_tagged(tagged: Seq<(u64, usize)>, tag: usize) -> Option<u64>
    decreases tagged.len(),
{
    if tagged.len() == 0 {
        None
    } else if tagged[0].1 == tag {
        Some(tagged[0].0)
    } else {
        first_tagged(tagged.drop_first(), tag)
    }
}

/// When a dream sequence is entered, the typing minigame that carries its
/// number (the first such, if any) is queued next. Gives the one queued.
pub fn queue_follow_up(queue: &mut MinigameQueue, tagged: &Vec<(u64, usize)>, index: usize) -> (queued: Option<u64>)
    ensures
        queued == first_tagged(tagged@, index),
        queued matches Some(n) ==> final(queue).0@ == old(queue).0@.push(n),
        queued is None ==> final(queue).0@ == old(queue).0@,
{
    let mut i: usize = 0;
    proof {
        assert(tagged@.skip(0) =~= tagged@);
    }
    while i < tagged.len()
        invariant
            i <= tagged@.len(),
            first_tagged(tagged@.skip(i as int), index) == first_tagged(tagged@, index),
            queue.0@ == old(queue).0@,
        decreases tagged@.len() - i,
    {
        proof {
            assert(tagged@.skip(i as int).drop_first() =~= tagged@.skip(i + 1));
        }
        let (entity, tag) = tagged[i];
        if tag == index {
            queue.0.push_back(entity);
            return Some(entity);
        }
        i = i + 1;
    }
    proof {
        assert(tagged@.skip(i as int) =~= Seq::<(u64, usize)>::empty());
    }
    None
}

/// When a minigame of a sequence exits, the first of its siblings that has not
/// exited becomes available: its position, if any.
pub fn next_in_sequence(exited: &Vec<bool>) -> (r: Option<usize>)
    ensures
        r matches Some(i) ==> i < exited@.len() && !exited@[i as int] && forall|j: int|
            0 <= j < i ==> exited@[j],
        r is None ==> forall|j: int| 0 <= j < exited@.len() ==> exited@[j],
{
    let mut i: usize = 0;
    while i < exited.len()
        invariant
            i <= exited@.len(),
            forall|j: int| 0 <= j < i ==> exited@[j],
        decreases exited@.len() - i,
    {
        if !exited[i] {
            return Some(i);
        }
        i = i + 1;
    }
    None
}

/// How the game moves into a minigame.
#[derive(Clone, Copy, PartialEq, Eq, Structural)]
pub enum ControlsTransition {
    Keyboard,
    Mouse,
    Wasd,
    Space,
}

/// The transition into a minigame.
#[derive(Clone, Copy, PartialEq, Eq, Structural)]
pub enum TransitionKind {
    /// The fractal dissolves and the controls of the next minigame show.
    Controls(ControlsTransition),
    /// A hard cut through a noise image.
    Cut,
}

/// The transition into a minigame, and the palette it uses: a minigame with
/// controls gets the controls transition, in blue after a win or when nothing
/// came before, in red after a loss, and in the current palette otherwise; a
/// minigame without controls gets the cut, with the palette unchanged.
pub fn transition_plan(
    controls: Option<ControlsTransition>,
    cut: bool,
    prev: Option<(bool, bool)>,
    palette: TransitionPalette,
) -> (r: (TransitionKind, TransitionPalette))
    requires
        controls is Some || cut,
    ensures
        controls matches Some(c) ==> r.0 == TransitionKind::Controls(c) && r.1 == (match prev {
            None => TransitionPalette::Blue,
            Some((won, lost)) => if won {
                TransitionPalette::Blue
            } else if lost {
                TransitionPalette::Red
            } else {
                palette
            },
        }),
        controls is None ==> r.0 == TransitionKind::Cut && r.1 == palette,
{
    match controls {
        Some(c) => {
            let p = match prev {
                Some((won, lost)) => {
                    if won {
                        TransitionPalette::Blue
                    } else if lost {
                        TransitionPalette::Red
                    } else {
                        palette
                    }
                },
                None => TransitionPalette::Blue,
            };
            (TransitionKind::Controls(c), p)
        },
        None => (TransitionKind::Cut, palette),
    }
}

/// The noise image that a cut shows.
#[derive(Clone, Copy, PartialEq, Eq, Structural)]
pub enum NoiseTexture {
    Noise1,
    Noise2,
    Noise3,
    Noise4,
}

/// The noise image number `pick`, counted from zero.
pub fn noise_texture(pick: usize) -> (t: NoiseTexture)
    requires
        pick < 4,
    ensures
        t == noise_texture_spec(pick),
{
    match pick {
        0 => NoiseTexture::Noise1,
        1 => NoiseTexture::Noise2,
        2 => NoiseTexture::Noise3,
        _ => NoiseTexture::Noise4,
    }
}

/// A noise image drawn at random.
pub fn random_noise_texture(rng: &mut rand::rngs::ThreadRng) -> (t: NoiseTexture)
    ensures
        exists|pick: usize| pick < 4 && t == noise_texture_spec(pick),
{
    let pick = random_below(rng, 4);
    let t = noise_texture(pick);
    assert(pick < 4 && t == noise_texture_spec(pick));
    t
}

/// The noise image number `pick`, counted from zero.
pub open spec fn noise_texture_spec(pick: usize) -> NoiseTexture {
    if pick == 0 {
        NoiseTexture::Noise1
    } else if pick == 1 {
        NoiseTexture::Noise2
    } else if pick == 2 {
        NoiseTexture::Noise3
    } else {
        NoiseTexture::Noise4
    }
}

} // verus!
