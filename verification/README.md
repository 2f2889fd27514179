# fever

The rules of *fever*, a game of short minigames played inside a fever dream,
as a library verified with Verus, and the bevy game around it.

- `src/` is the verified library:
  - `markov`: the word-level Markov chain that writes the game's flavour text
    (tokenizing, counting runs of three tokens, drawing and printing text);
  - `state`: the phases of the game, restarts and the closing scene of the
    first phase;
  - `minigame`: what happens when a minigame is won or lost, which minigame
    comes next and how the transitions between them look;
  - `typing`, `mash`, `path`, `dream`, `prompt`: the rules of the minigames and
    of the narrated text boxes;
  - `chooser`, `countdown`, `tempest`: the rules of the minigame picker with
    variations, of the count down and of the tempest minigame;
  - `chars`: the character classes and case mappings the text rules use;
  - `dice`: the random draws, through the `rand` crate.
- `tests/` runs the library on concrete values.
- `app/` is the game itself: bevy systems that read input, render, play sound
  and hand the decisions to the library.
