//! The path minigame: the orbit of the point under the cursor must pass
//! through every target.
use vstd::prelude::*;

verus! {

/// What a frame of the path minigame changes in the targets.
pub struct HoverUpdate {
    /// Whether each target is now hovered: whether the orbit passes through it.
    pub hovered: Vec<bool>,
    /// Whether a target became hovered, which plays a sound.
    pub entered: bool,
    /// Whether a target stopped being hovered, which plays another sound.
    pub left: bool,
    /// How many targets were not hovered before the frame, which sets the
    /// low-pass filter on the music.
    pub unhovered_before: usize,
}

/// How many entries of `s` are false.
pub open spec fn count_false(s: Seq<bool>) -> nat
    decreases s.len(),
{
    if s.len() == 0 {
        0
    } else {
        count_false(s.drop_last()) + if s.last() {
            0nat
        } else {
            1nat
        }
    }
}

proof fn lemma_count_false_bound(s: Seq<bool>)
    ensures
        count_false(s) <= s.len(),
    decreases s.len(),
{
    if s.len() > 0 {
        lemma_count_false_bound(s.drop_last());
    }
}

/// A frame of the path minigame: `prev` tells which targets were hovered and
/// `inside` which ones the orbit passes through now.
pub fn update_hover(prev: &Vec<bool>, inside: &Vec<bool>) -> (u: HoverUpdate)
    requires
        prev@.len() == inside@.len(),
    ensures
        u.hovered@ == inside@,
        u.entered == exists|i: int| 0 <= i < inside@.len() && inside@[i] && !prev@[i],
        u.left == exists|i: int| 0 <= i < inside@.len() && prev@[i] && !inside@[i],
        u.unhovered_before == count_false(prev@),
{
    let mut hovered: Vec<bool> = Vec::new();
    let mut entered = false;
    let mut left = false;
    let mut unhovered: usize = 0;
    let mut i: usize = 0;
    while i < inside.len()
        invariant
            i <= inside@.len(),
            prev@.len() == inside@.len(),
            hovered@ == inside@.take(i as int),
            entered == exists|j: int| 0 <= j < i && inside@[j] && !prev@[j],
            left == exists|j: int| 0 <= j < i && prev@[j] && !inside@[j],
            unhovered == count_false(prev@.take(i as int)),
        decreases inside@.len() - i,
    {
        proof {
            assert(prev@.take(i + 1).drop_last() =~= prev@.take(i as int));
            lemma_count_false_bound(prev@.take(i as int));
        }
        if inside[i] {
            if !prev[i] {
                entered = true;
            }
        } else if prev[i] {
            left = true;
        }
        if !prev[i] {
            unhovered = unhovered + 1;
        }
        hovered.push(inside[i]);
        i = i + 1;
        proof {
            assert(hovered@ =~= inside@.take(i as int));
        }
    }
    proof {
        assert(inside@.take(i as int) =~= inside@);
        assert(prev@.take(i as int) =~= prev@);
    }
    HoverUpdate { hovered, entered, left, unhovered_before: unhovered }
}

/// Whether every target is hovered, which wins the minigame.
pub fn all_hovered(hovered: &Vec<bool>) -> (b: bool)
    ensures
        b == forall|i: int| 0 <= i < hovered@.len() ==> hovered@[i],
{
    let mut i: usize = 0;
    while i < hovered.len()
        invariant
            i <= hovered@.len(),
            forall|j: int| 0 <= j < i ==> hovered@[j],
        decreases hovered@.len() - i,
    {
        if !hovered[i] {
            return false;
        }
        i = i + 1;
    }
    true
}

/// `count_false` counts the targets that are not hovered: it is the number of
/// `false` entries, as a filter keeps them.
pub proof fn count_false_counts_the_unhovered(s: Seq<bool>)
    ensures
        count_false(s) == s.filter(|b: bool| !b).len(),
    decreases s.len(),
{
    reveal(Seq::filter);
    if s.len() > 0 {
        count_false_counts_the_unhovered(s.drop_last());
    }
}

} // verus!
