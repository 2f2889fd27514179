//! Choosing the next minigame and its variation, in the version of the game
//! where each minigame has variations.
use crate::dice::choose_one;
use std::collections::VecDeque;
use vstd::prelude::*;

verus! {

/// The minigames to choose next, in order, before any other (minigame kinds).
pub struct ChooseQueue(pub VecDeque<u64>);

impl Default for ChooseQueue {
    fn default() -> (q: ChooseQueue)
        ensures
            q.0@.len() == 0,
    {
        ChooseQueue(VecDeque::new())
    }
}

/// A minigame root: its entity and the minigame kind it plays.
#[derive(Clone, Copy, PartialEq, Eq, Structural)]
pub struct Root {
    pub entity: u64,
    pub kind: u64,
}

/// The first root of the kind `kind`, if any.
pub open spec fn first_of_kind(roots: Seq<Root>, kind: u64) -> Option<u64>
    decreases roots.len(),
{
    if roots.len() == 0 {
        None
    } else if roots[0].kind == kind {
        Some(roots[0].entity)
    } else {
        first_of_kind(roots.drop_first(), kind)
    }
}

/// The root chosen next: the queue's front leaves the queue, and its kind's
/// first root is chosen when there is one; otherwise a root is picked (`pick`,
/// wrapped around) among the choosable ones that were not chosen last, or, when
/// there are none, among those chosen last; no root means the game is over.
pub open spec fn spec_choose_root(
    queue: Seq<u64>,
    roots: Seq<Root>,
    available: Seq<u64>,
    last_chosen: Seq<u64>,
    pick: nat,
) -> Option<u64> {
    if queue.len() > 0 && first_of_kind(roots, queue[0]) is Some {
        first_of_kind(roots, queue[0])
    } else if available.len() == 0 && last_chosen.len() > 0 {
        Some(last_chosen[(pick % last_chosen.len()) as int])
    } else if available.len() > 0 {
        Some(available[(pick % available.len()) as int])
    } else {
        None
    }
}

/// The entity of the first root of the kind `kind`, if any.
fn find_kind(roots: &Vec<Root>, kind: u64) -> (r: Option<u64>)
    ensures
        r == first_of_kind(roots@, kind),
{
    let mut i: usize = 0;
    proof {
        assert(roots@.skip(0) =~= roots@);
    }
    while i < roots.len()
        invariant
            i <= roots@.len(),
            first_of_kind(roots@.skip(i as int), kind) == first_of_kind(roots@, kind),
        decreases roots@.len() - i,
    {
        proof {
            assert(roots@.skip(i as int).drop_first() =~= roots@.skip(i + 1));
        }
        if roots[i].kind == kind {
            return Some(roots[i].entity);
        }
        i = i + 1;
    }
    proof {
        assert(roots@.skip(i as int) =~= Seq::<Root>::empty());
    }
    None
}

/// The root chosen next, with `pick` standing for the random choice: see
/// `spec_choose_root`.
pub fn choose_root(
    queue: &mut ChooseQueue,
    roots: &Vec<Root>,
    available: &Vec<u64>,
    last_chosen: &Vec<u64>,
    pick: usize,
) -> (next: Option<u64>)
    ensures
        next == spec_choose_root(old(queue).0@, roots@, available@, last_chosen@, pick as nat),
        final(queue).0@ == if old(queue).0@.len() > 0 {
            old(queue).0@.drop_first()
        } else {
            old(queue).0@
        },
{
    if let Some(kind) = queue.0.pop_front() {
        if let Some(next) = find_kind(roots, kind) {
            return Some(next);
        }
    }
    if available.len() == 0 && last_chosen.len() > 0 {
        Some(last_chosen[pick % last_chosen.len()])
    } else if available.len() > 0 {
        Some(available[pick % available.len()])
    } else {
        None
    }
}

/// The root chosen next, with the pick drawn at random.
pub fn choose_root_random(
    queue: &mut ChooseQueue,
    roots: &Vec<Root>,
    available: &Vec<u64>,
    last_chosen: &Vec<u64>,
    rng: &mut rand::rngs::ThreadRng,
) -> (next: Option<u64>)
    ensures
        exists|pick: nat|
            next == spec_choose_root(old(queue).0@, roots@, available@, last_chosen@, pick),
        final(queue).0@ == if old(queue).0@.len() > 0 {
            old(queue).0@.drop_first()
        } else {
            old(queue).0@
        },
{
    if let Some(kind) = queue.0.pop_front() {
        if let Some(next) = find_kind(roots, kind) {
            return Some(next);
        }
    }
    let pool = if available.len() == 0 && last_chosen.len() > 0 {
        last_chosen
    } else {
        available
    };
    let r = choose_one(rng, pool);
    proof {
        if let Some(x) = r {
            let i = choose|i: int| 0 <= i < pool@.len() && pool@[i] == x;
            vstd::arithmetic::div_mod::lemma_small_mod(i as nat, pool@.len());
            assert(r == spec_choose_root(old(queue).0@, roots@, available@, last_chosen@, i as nat));
        } else {
            assert(r == spec_choose_root(old(queue).0@, roots@, available@, last_chosen@, 0));
        }
    }
    r
}

/// The variation of the chosen root: the first of its set when the set is not
/// random, the one at `pick` (wrapped around) otherwise.
pub fn choose_variation(set: &Vec<u64>, not_random: bool, pick: usize) -> (v: u64)
    requires
        set@.len() > 0,
    ensures
        not_random ==> v == set@[0],
        !not_random ==> v == set@[(pick as nat % set@.len()) as int],
{
    if not_random {
        set[0]
    } else {
        set[pick % set.len()]
    }
}

/// The variation of the chosen root, drawn at random unless the set is not
/// random.
pub fn choose_variation_random(set: &Vec<u64>, not_random: bool, rng: &mut rand::rngs::ThreadRng) -> (v: u64)
    requires
        set@.len() > 0,
    ensures
        set@.contains(v),
        not_random ==> v == set@[0],
{
    if not_random {
        return set[0];
    }
    match choose_one(rng, set) {
        Some(v) => v,
        None => set[0],
    }
}

/// A root that waits before it can be chosen again: each round takes one off,
/// and at zero it is choosable.
pub fn tick_wait(after: usize) -> (r: (usize, bool))
    ensures
        r.0 == if after == 0 { 0 } else { after - 1 },
        r.1 == (r.0 == 0),
{
    let next = after.saturating_sub(1);
    (next, next == 0)
}

/// A root is always chosen while any root is choosable or was chosen last, and
/// the root picked by chance is one of them.
pub proof fn a_root_is_chosen_while_one_is_left(
    queue: Seq<u64>,
    roots: Seq<Root>,
    available: Seq<u64>,
    last_chosen: Seq<u64>,
    pick: nat,
)
    requires
        queue.len() == 0,
    ensures
        spec_choose_root(queue, roots, available, last_chosen, pick) is None <==> (available.len()
            == 0 && last_chosen.len() == 0),
        spec_choose_root(queue, roots, available, last_chosen, pick) matches Some(r) ==> (
        available.contains(r) || (available.len() == 0 && last_chosen.contains(r))),
{
    if available.len() == 0 && last_chosen.len() > 0 {
        let i = (pick % last_chosen.len()) as int;
        assert(last_chosen[i] == last_chosen[i]);
    } else if available.len() > 0 {
        let i = (pick % available.len()) as int;
        assert(available[i] == available[i]);
    }
}

} // verus!
