use fever::markov::{pretty_print_tokens, token_eq, tokenize, Markov, Token};

fn word(s: &str) -> Token {
    Token::Word(s.chars().collect())
}

fn p(c: char) -> Token {
    Token::Punctuation(c)
}

fn same(a: &[Token], b: &[Token]) -> bool {
    a.len() == b.len() && a.iter().zip(b.iter()).all(|(x, y)| token_eq(x, y))
}

fn flat(ts: &[Token]) -> String {
    let mut s = String::new();
    for t in ts {
        match t {
            Token::Word(w) => s.extend(w.iter()),
            Token::Punctuation(c) => s.push(*c),
        }
    }
    s
}

#[test]
fn tokenize_splits_words_and_punctuation() {
    let ts = tokenize("Hello, World!  It's");
    let expected = [
        word("hello"),
        p(','),
        word("world"),
        p('!'),
        word("it"),
        p('\''),
        word("s"),
    ];
    assert!(same(&ts, &expected));
}

#[test]
fn tokenize_of_empty_and_blank_input_is_empty() {
    assert!(tokenize("").is_empty());
    assert!(tokenize(" \t\n\u{3000}").is_empty());
}

#[test]
fn tokenize_keeps_non_ascii_letters_in_words() {
    let ts = tokenize("Ünïcode ÀB");
    assert!(same(&ts, &[word("Ünïcode"), word("Àb")]));
}

#[test]
fn tokenize_loses_only_whitespace_and_case() {
    let input = "The Cat, (sat)  on\tthe \"mat\"... OK?";
    let ts = tokenize(input);
    let expected: String = input
        .chars()
        .filter(|c| !c.is_whitespace())
        .map(|c| c.to_ascii_lowercase())
        .collect();
    assert_eq!(flat(&ts), expected);
}

#[test]
fn tokenize_words_are_clean() {
    let ts = tokenize("Alpha-Beta GAMMA,delta  é!");
    for t in &ts {
        if let Token::Word(w) = t {
            assert!(!w.is_empty());
            assert!(w
                .iter()
                .all(|c| !c.is_whitespace() && !c.is_ascii_punctuation() && !c.is_ascii_uppercase()));
        }
    }
}

#[test]
fn token_len_counts_bytes() {
    assert_eq!(word("héllo").len(), 6);
    assert_eq!(word("a").len(), 1);
    assert_eq!(p('.').len(), 1);
    assert_eq!(word("日本").len(), 6);
}

#[test]
fn should_strip_delimiters_and_empty_words() {
    assert!(p('(').should_strip());
    assert!(p('"').should_strip());
    assert!(!p('.').should_strip());
    assert!(Token::Word(Vec::new()).should_strip());
    assert!(word("a{b").should_strip());
    assert!(!word("ab").should_strip());
}

#[test]
fn chain_counts_runs_of_three() {
    let m = Markov::from_text("a b c a b c");
    assert_eq!(m.trigram_count(), 3);
    assert_eq!(m.count(&word("a"), &word("b"), &word("c")), 2);
    assert_eq!(m.count(&word("b"), &word("c"), &word("a")), 1);
    assert_eq!(m.count(&word("c"), &word("a"), &word("b")), 1);
    assert_eq!(m.count(&word("c"), &word("b"), &word("a")), 0);
}

#[test]
fn chain_leaves_out_stripped_windows() {
    let m = Markov::from_text("x ( y z w");
    // tokens: x ( y z w; windows with '(' are left out
    assert_eq!(m.trigram_count(), 1);
    assert_eq!(m.count(&word("y"), &word("z"), &word("w")), 1);
}

#[test]
fn chain_of_short_text_is_empty() {
    assert_eq!(Markov::from_text("two words").trigram_count(), 0);
    assert_eq!(Markov::from_text("").trigram_count(), 0);
}

#[test]
fn pretty_print_capitalizes_and_spaces() {
    let mut s = String::new();
    pretty_print_tokens(&mut s, &vec![word("hello"), p(','), word("i"), p('.')]);
    assert_eq!(s, "Hello, I.");
}

#[test]
fn pretty_print_joins_after_apostrophe_and_hyphen() {
    let mut s = String::from(">");
    pretty_print_tokens(&mut s, &vec![word("it"), p('\''), word("s"), word("well"), p('-'), word("known")]);
    assert_eq!(s, ">It's well-known.");
}

#[test]
fn pretty_print_starts_sentences_after_terminators() {
    let mut s = String::new();
    pretty_print_tokens(&mut s, &vec![word("a"), p('?'), word("b"), p('!'), word("c"), p('!')]);
    assert_eq!(s, "A? B! C!");
}

#[test]
fn pretty_print_of_nothing_is_nothing() {
    let mut s = String::from("x");
    pretty_print_tokens(&mut s, &vec![]);
    assert_eq!(s, "x");
}

#[test]
fn pretty_print_keeps_non_letters_at_sentence_start() {
    let mut s = String::new();
    pretty_print_tokens(&mut s, &vec![word("1st"), word("i"), word("x")]);
    assert_eq!(s, "1st I x.");
}

const CORPUS: &str = "The cat sat on the mat. The cat ran to the hat. \
    A dog sat on the cat, and the dog ran. The mat was red!";

#[test]
fn write_text_ends_with_a_full_stop() {
    let m = Markov::from_text(CORPUS);
    for chars in [0usize, 1, 10, 40, 200] {
        let mut s = String::new();
        m.write_text(&mut s, chars);
        assert!(s.ends_with('.'), "{s:?}");
        // a text that starts with a word starts a sentence
        let first = s.chars().next().unwrap();
        assert!(!first.is_ascii_lowercase(), "{s:?}");
    }
}

#[test]
fn write_text_reaches_its_budget() {
    let m = Markov::from_text(CORPUS);
    let mut s = String::new();
    m.write_text(&mut s, 150);
    // the drawn tokens cost at least the budget; the printed text adds spaces
    // and may drop one token
    assert!(s.len() >= 100, "{s:?}");
}

#[test]
fn write_text_uses_only_words_of_the_text() {
    let m = Markov::from_text(CORPUS);
    let corpus_words: Vec<String> = CORPUS
        .split(|c: char| c.is_whitespace() || c.is_ascii_punctuation())
        .filter(|w| !w.is_empty())
        .map(|w| w.to_ascii_lowercase())
        .collect();
    let mut s = String::new();
    m.write_text(&mut s, 120);
    for w in s.split(|c: char| c.is_whitespace() || c.is_ascii_punctuation()) {
        if !w.is_empty() {
            assert!(corpus_words.contains(&w.to_ascii_lowercase()), "{w:?} in {s:?}");
        }
    }
}

#[test]
fn generate_tokens_follows_the_chain() {
    let m = Markov::from_text(CORPUS);
    let mut rng = rand::rng();
    let out = m.generate_tokens(&mut rng, 60);
    assert!(matches!(out.last(), Some(Token::Punctuation('.'))));
    assert!(out.len() >= 3);
    // the first three tokens are a run of the chain
    assert!(m.count(&out[0], &out[1], &out[2]) > 0);
}

#[test]
fn generate_tokens_with_zero_budget_draws_one_run() {
    let m = Markov::from_text("a b c");
    let mut rng = rand::rng();
    let out = m.generate_tokens(&mut rng, 0);
    assert!(same(&out, &[word("a"), word("b"), word("c"), p('.')]));
}

#[test]
fn generate_tokens_replaces_trailing_punctuation() {
    let m = Markov::from_text("a b !");
    let mut rng = rand::rng();
    let out = m.generate_tokens(&mut rng, 0);
    assert!(same(&out, &[word("a"), word("b"), p('.')]));
}

#[test]
fn generate_tokens_keeps_a_trailing_full_stop() {
    let m = Markov::from_text("a b .");
    let mut rng = rand::rng();
    let out = m.generate_tokens(&mut rng, 0);
    assert!(same(&out, &[word("a"), word("b"), p('.')]));
}

#[test]
fn generate_tokens_with_huge_budget_stops_after_one_run() {
    let m = Markov::from_text("a b c");
    let mut rng = rand::rng();
    let out = m.generate_tokens(&mut rng, usize::MAX);
    assert!(same(&out, &[word("a"), word("b"), word("c"), p('.')]));
}

#[test]
fn generate_tokens_starts_a_new_run_at_a_dead_end() {
    // the only run is "a b c"; after it the chain is stuck, so runs repeat
    let m = Markov::from_text("a b c");
    let mut rng = rand::rng();
    let out = m.generate_tokens(&mut rng, 5);
    // budget 5: first run costs 3, second run reaches it
    assert!(same(&out, &[word("a"), word("b"), word("c"), word("a"), word("b"), word("c"), p('.')]));
}

#[test]
fn written_text_never_starts_with_whitespace() {
    let m = Markov::from_text("  ( odd ) - words , and 'quotes' here ; then\tmore   text .  again !  ");
    for chars in [0usize, 3, 30] {
        let mut s = String::from("Before.");
        m.write_text(&mut s, chars);
        assert!(s.len() > "Before.".len());
        let first = s["Before.".len()..].chars().next().unwrap();
        assert!(!first.is_whitespace(), "{s:?}");
        assert!(s.ends_with('.'), "{s:?}");
        assert!(s.starts_with("Before."));
    }
}
