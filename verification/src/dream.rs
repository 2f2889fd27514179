//! The dream sequences: narrated scenes between the typing minigames.
use crate::chars::{is_whitespace, spec_is_whitespace};
use vstd::prelude::*;

verus! {

/// The scrambled form of `c`: whitespace stays, and any other character
/// becomes the letter at its code point modulo 52 in `A..=Z` followed by
/// `a..=z`.
pub open spec fn spec_scramble_char(c: char) -> char {
    if spec_is_whitespace(c) {
        c
    } else {
        let n = (c as u32) % 52;
        if n < 26 {
            (65 + n) as char
        } else {
            (97 + n - 26) as char
        }
    }
}

/// The scrambled form of `c`: see `spec_scramble_char`.
pub fn scramble_char(c: char) -> (r: char)
    ensures
        r == spec_scramble_char(c),
{
    if is_whitespace(c) {
        return c;
    }
    let n = (c as u32) % 52;
    if n < 26 {
        ((65 + n) as u8) as char
    } else {
        ((97 + n - 26) as u8) as char
    }
}

/// The scrambled form of a text, character by character.
pub fn scramble(text: &Vec<char>) -> (r: Vec<char>)
    ensures
        r@ == text@.map_values(|c: char| spec_scramble_char(c)),
{
    let mut r: Vec<char> = Vec::new();
    let mut i: usize = 0;
    while i < text.len()
        invariant
            i <= text@.len(),
            r@ == text@.take(i as int).map_values(|c: char| spec_scramble_char(c)),
        decreases text@.len() - i,
    {
        r.push(scramble_char(text[i]));
        i = i + 1;
        proof {
            assert(r@ =~= text@.take(i as int).map_values(|c: char| spec_scramble_char(c)));
        }
    }
    proof {
        assert(text@.take(i as int) =~= text@);
    }
    r
}

/// Scrambling keeps whitespace and turns every other character into an ASCII
/// letter.
pub proof fn scramble_yields_letters(c: char)
    ensures
        spec_is_whitespace(c) ==> spec_scramble_char(c) == c,
        !spec_is_whitespace(c) ==> ('A' <= spec_scramble_char(c) <= 'Z' || 'a'
            <= spec_scramble_char(c) <= 'z'),
{
}

/// The text is scrambled again every tenth of a second: a letter stays a
/// letter when scrambled, so the text stays one of letters and whitespace.
pub proof fn scrambled_letters_stay_letters(c: char)
    requires
        'A' <= c <= 'Z' || 'a' <= c <= 'z',
    ensures
        'A' <= spec_scramble_char(c) <= 'Z' || 'a' <= spec_scramble_char(c) <= 'z',
{
}

/// Whether the last dream sequence of the second phase becomes available: once
/// at most one other minigame is.
pub fn last_becomes_available(available: usize) -> (b: bool)
    ensures
        b == (available <= 1),
{
    available <= 1
}

/// How a dream sequence is set up: the first one waits for six minigames to
/// be done, and in the second phase the third one is held back to the end.
pub fn dream_setup(phase_two: bool, index: usize) -> (r: (Option<usize>, bool))
    ensures
        r.0 == (if index == 0 {
            Some(6usize)
        } else {
            None
        }),
        r.1 == (phase_two && index == 2),
{
    let after = if index == 0 {
        Some(6)
    } else {
        None
    };
    (after, phase_two && index == 2)
}

/// The place of an ASCII letter in `A..=Z` followed by `a..=z`.
pub open spec fn letter_place(c: char) -> int {
    if 'A' <= c <= 'Z' {
        c as int - 'A' as int
    } else {
        c as int - 'a' as int + 26
    }
}

/// A character that is not whitespace is scrambled into the letter whose
/// place among the 52 ASCII letters is its code point modulo 52.
pub proof fn scrambling_picks_the_letter_of_the_code_point(c: char)
    requires
        !spec_is_whitespace(c),
    ensures
        'A' <= spec_scramble_char(c) <= 'Z' || 'a' <= spec_scramble_char(c) <= 'z',
        letter_place(spec_scramble_char(c)) == (c as u32) % 52,
{
}

} // verus!
