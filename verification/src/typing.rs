//! The typing minigame: the player types a phrase, key by key.
use crate::chars::{eq_ignore_ascii_case, spec_to_ascii_lowercase};
use vstd::prelude::*;

verus! {

/// What a key press did.
#[derive(Clone, Copy, PartialEq, Eq, Structural)]
pub enum KeyPress {
    /// The key matched the next character: the phrase moved on.
    Correct,
    /// The key did not match: nothing moved.
    Incorrect,
    /// The phrase was already typed: the key was ignored.
    Ignored,
}

/// The first position at or after `i` that does not hold a space (or the end).
pub open spec fn skip_spaces(text: Seq<char>, i: nat) -> nat
    decreases text.len() - i,
{
    if i < text.len() && text[i as int] == ' ' {
        skip_spaces(text, i + 1)
    } else {
        i
    }
}

/// A key press `c` at position `index` of `text`: when the character there
/// matches `c` ignoring ASCII case, the position moves past it and past the
/// spaces after it.
pub open spec fn spec_press(text: Seq<char>, index: nat, c: char) -> (nat, KeyPress) {
    if index < text.len() {
        if spec_to_ascii_lowercase(c) == spec_to_ascii_lowercase(text[index as int]) {
            (skip_spaces(text, index + 1), KeyPress::Correct)
        } else {
            (index, KeyPress::Incorrect)
        }
    } else {
        (index, KeyPress::Ignored)
    }
}

/// Whether every character of `s` is ASCII.
pub open spec fn is_ascii_text(s: Seq<char>) -> bool {
    forall|i: int| 0 <= i < s.len() ==> (#[trigger] s[i] as u32) < 128
}

/// A phrase to type, and how much of it is typed.
pub struct TypingTarget {
    text: Vec<char>,
    index: usize,
}

proof fn lemma_skip_spaces_bounds(text: Seq<char>, i: nat)
    requires
        i <= text.len(),
    ensures
        i <= skip_spaces(text, i) <= text.len(),
    decreases text.len() - i,
{
    if i < text.len() && text[i as int] == ' ' {
        lemma_skip_spaces_bounds(text, i + 1);
    }
}

impl TypingTarget {
    #[verifier::type_invariant]
    spec fn in_bounds(self) -> bool {
        self.index <= self.text@.len()
    }

    /// The phrase.
    pub closed spec fn text(self) -> Seq<char> {
        self.text@
    }

    /// How many characters of the phrase are typed.
    pub closed spec fn index(self) -> nat {
        self.index as nat
    }

    /// A phrase with nothing typed yet. Phrases are ASCII, so that characters
    /// and bytes count alike.
    pub fn new(text: &str) -> (t: TypingTarget)
        requires
            is_ascii_text(text@),
        ensures
            t.text() == text@,
            t.index() == 0,
    {
        let mut v: Vec<char> = Vec::new();
        for c in it: text.chars()
            invariant
                v@ == it.seq().take(it.index() as int),
        {
            v.push(c);
        }
        proof {
            assert(v@ =~= text@);
        }
        TypingTarget { text: v, index: 0 }
    }

    /// A key press: see `spec_press`.
    pub fn press(&mut self, c: char) -> (k: KeyPress)
        ensures
            final(self).text() == old(self).text(),
            final(self).index() <= final(self).text().len(),
            (final(self).index(), k) == spec_press(old(self).text(), old(self).index(), c),
    {
        proof {
            use_type_invariant(&*self);
        }
        if self.index >= self.text.len() {
            return KeyPress::Ignored;
        }
        let expected = self.text[self.index];
        if !eq_ignore_ascii_case(c, expected) {
            return KeyPress::Incorrect;
        }
        let mut i = self.index + 1;
        while i < self.text.len() && self.text[i] == ' '
            invariant
                old(self).index < i <= self.text@.len(),
                self.text@ == old(self).text@,
                skip_spaces(self.text@, i as nat) == skip_spaces(self.text@, (old(self).index + 1) as nat),
            decreases self.text@.len() - i,
        {
            i = i + 1;
        }
        self.index = i;
        KeyPress::Correct
    }

    /// The typed part of the phrase.
    pub fn typed(&self) -> (s: Vec<char>)
        ensures
            s@ == self.text().take(self.index() as int),
    {
        proof {
            use_type_invariant(self);
        }
        let mut s: Vec<char> = Vec::new();
        let mut i: usize = 0;
        while i < self.index
            invariant
                i <= self.index <= self.text@.len(),
                s@ == self.text@.take(i as int),
            decreases self.index - i,
        {
            s.push(self.text[i]);
            i = i + 1;
            proof {
                assert(s@ =~= self.text@.take(i as int));
            }
        }
        s
    }

    /// The part of the phrase still to type.
    pub fn rest(&self) -> (s: Vec<char>)
        ensures
            s@ == self.text().skip(self.index() as int),
    {
        proof {
            use_type_invariant(self);
        }
        let mut s: Vec<char> = Vec::new();
        let mut i: usize = self.index;
        while i < self.text.len()
            invariant
                self.index <= i <= self.text@.len(),
                s@ == self.text@.subrange(self.index as int, i as int),
            decreases self.text@.len() - i,
        {
            s.push(self.text[i]);
            i = i + 1;
            proof {
                assert(s@ =~= self.text@.subrange(self.index as int, i as int));
            }
        }
        proof {
            assert(self.text@.skip(self.index as int) =~= self.text@.subrange(
                self.index as int,
                self.text@.len() as int,
            ));
        }
        s
    }

    /// Whether the whole phrase is typed, which wins the minigame.
    pub fn is_complete(&self) -> (b: bool)
        ensures
            b == (self.index() >= self.text().len()),
    {
        self.index >= self.text.len()
    }
}

/// A key press never moves backwards nor past the end, and only a correct key
/// moves.
pub proof fn press_moves_forward(text: Seq<char>, index: nat, c: char)
    requires
        index <= text.len(),
    ensures
        index <= spec_press(text, index, c).0 <= text.len(),
        spec_press(text, index, c).0 != index ==> spec_press(text, index, c).1 == KeyPress::Correct,
        spec_press(text, index, c).1 == KeyPress::Correct ==> spec_press(text, index, c).0 > index,
{
    if index < text.len() {
        lemma_skip_spaces_bounds(text, index + 1);
    }
}

/// The characters of `text` from `i` on, without its spaces.
pub open spec fn non_spaces_from(text: Seq<char>, i: nat) -> Seq<char>
    decreases text.len() - i,
{
    if i >= text.len() {
        Seq::empty()
    } else if text[i as int] == ' ' {
        non_spaces_from(text, i + 1)
    } else {
        seq![text[i as int]] + non_spaces_from(text, i + 1)
    }
}

/// The position after pressing `keys` one after the other from `index`.
pub open spec fn press_all(text: Seq<char>, index: nat, keys: Seq<char>) -> nat
    decreases keys.len(),
{
    if keys.len() == 0 {
        index
    } else {
        press_all(text, spec_press(text, index, keys[0]).0, keys.drop_first())
    }
}

proof fn lemma_non_spaces_skip(text: Seq<char>, i: nat)
    requires
        i <= text.len(),
    ensures
        non_spaces_from(text, skip_spaces(text, i)) == non_spaces_from(text, i),
    decreases text.len() - i,
{
    if i < text.len() && text[i as int] == ' ' {
        lemma_non_spaces_skip(text, i + 1);
    }
}

/// Typing the characters of the phrase that are not spaces, in order, types
/// the whole phrase: from a position that holds no space, pressing those keys
/// reaches the end.
pub proof fn typing_the_phrase_completes_it(text: Seq<char>, index: nat)
    requires
        index <= text.len(),
        skip_spaces(text, index) == index,
    ensures
        press_all(text, index, non_spaces_from(text, index)) == text.len(),
    decreases text.len() - index,
{
    if index < text.len() {
        let keys = non_spaces_from(text, index);
        if text[index as int] == ' ' {
            lemma_skip_spaces_bounds(text, index + 1);
        }
        assert(text[index as int] != ' ');
        assert(keys[0] == text[index as int]);
        let next = skip_spaces(text, index + 1);
        lemma_skip_spaces_bounds(text, index + 1);
        lemma_non_spaces_skip(text, index + 1);
        assert(keys.drop_first() =~= non_spaces_from(text, index + 1));
        lemma_skip_idempotent(text, index + 1);
        typing_the_phrase_completes_it(text, next);
    }
}

proof fn lemma_skip_idempotent(text: Seq<char>, i: nat)
    requires
        i <= text.len(),
    ensures
        skip_spaces(text, skip_spaces(text, i)) == skip_spaces(text, i),
    decreases text.len() - i,
{
    if i < text.len() && text[i as int] == ' ' {
        lemma_skip_idempotent(text, i + 1);
    }
}

/// The music of the queued phrases of the second phase.
#[derive(Clone, Copy, PartialEq, Eq, Structural)]
pub enum CouncilTrack {
    C1,
    C2,
    C3,
    C4,
    C5,
}

/// The track that the queued phrase number `index` plays: the first three
/// share the first track, the next four have one each, and later phrases keep
/// the music that plays.
pub fn council_track(index: usize) -> (t: Option<CouncilTrack>)
    ensures
        index >= 7 <==> t is None,
        index < 3 ==> t == Some(CouncilTrack::C1),
        index == 3 ==> t == Some(CouncilTrack::C2),
        index == 4 ==> t == Some(CouncilTrack::C3),
        index == 5 ==> t == Some(CouncilTrack::C4),
        index == 6 ==> t == Some(CouncilTrack::C5),
{
    if index >= 7 {
        return None;
    }
    match index {
        0 | 1 | 2 => Some(CouncilTrack::C1),
        3 => Some(CouncilTrack::C2),
        4 => Some(CouncilTrack::C3),
        5 => Some(CouncilTrack::C4),
        _ => Some(CouncilTrack::C5),
    }
}

/// `skip_spaces` moves only over spaces, and stops at the end or at a
/// character that is not a space.
proof fn lemma_skip_spaces_spaces(text: Seq<char>, i: nat)
    requires
        i <= text.len(),
    ensures
        i <= skip_spaces(text, i) <= text.len(),
        forall|j: int| i <= j < skip_spaces(text, i) ==> text[j] == ' ',
        skip_spaces(text, i) == text.len() || text[skip_spaces(text, i) as int] != ' ',
    decreases text.len() - i,
{
    if i < text.len() && text[i as int] == ' ' {
        lemma_skip_spaces_spaces(text, i + 1);
    }
}

/// A key press checks only the character at the current position. A key
/// that differs from it, ignoring ASCII case, is incorrect and types
/// nothing. A correct key matches it, ignoring ASCII case, and moves past it
/// and past exactly the spaces right after it: the new position is the end of
/// the phrase or a character that is not a space.
pub proof fn a_key_press_types_exactly_the_expected_character(text: Seq<char>, index: nat, c: char)
    requires
        index <= text.len(),
    ensures
        index < text.len() && spec_to_ascii_lowercase(c) != spec_to_ascii_lowercase(text[index as int])
            ==> spec_press(text, index, c) == (index, KeyPress::Incorrect),
        index == text.len() ==> spec_press(text, index, c) == (index, KeyPress::Ignored),
        spec_press(text, index, c).1 == KeyPress::Correct ==> {
            let next = spec_press(text, index, c).0;
            &&& index < text.len()
            &&& spec_to_ascii_lowercase(c) == spec_to_ascii_lowercase(text[index as int])
            &&& index + 1 <= next <= text.len()
            &&& forall|j: int| index + 1 <= j < next ==> text[j] == ' '
            &&& (next == text.len() || text[next as int] != ' ')
        },
{
    if index < text.len() {
        lemma_skip_spaces_spaces(text, index + 1);
    }
}

} // verus!
