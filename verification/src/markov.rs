//! A word-level Markov chain: the text is cut into tokens, the chain counts
//! every run of three tokens, and new text is drawn from those counts.
use crate::chars::{
    is_ascii_alphabetic, is_ascii_punctuation, is_whitespace, len_utf8, spec_is_ascii_alphabetic,
    spec_is_ascii_punctuation, spec_is_ascii_uppercase, spec_is_whitespace, spec_len_utf8,
    spec_to_ascii_lowercase, spec_to_ascii_uppercase, to_ascii_lowercase, to_ascii_uppercase,
};
use crate::dice::{choose_weighted, random_below, thread_rng};
use vstd::prelude::*;

verus! {

/// A token of the text: a lowercased word, or one punctuation character.
pub enum Token {
    Word(Vec<char>),
    Punctuation(char),
}

/// What a [`Token`] holds, as a mathematical value.
pub enum TokenV {
    Word(Seq<char>),
    Punctuation(char),
}

impl View for Token {
    type V = TokenV;

    open spec fn view(&self) -> TokenV {
        match self {
            Token::Word(w) => TokenV::Word(w@),
            Token::Punctuation(c) => TokenV::Punctuation(*c),
        }
    }
}

/// The characters whose presence removes a token from the chain.
pub open spec fn is_delimiter(c: char) -> bool {
    c == '(' || c == ')' || c == '[' || c == ']' || c == '<' || c == '>' || c == '{' || c == '}'
        || c == '"'
}

/// Whether windows that hold this token are left out of the chain.
pub open spec fn spec_should_strip(t: TokenV) -> bool {
    match t {
        TokenV::Word(w) => w.len() == 0 || exists|i: int| 0 <= i < w.len() && is_delimiter(w[i]),
        TokenV::Punctuation(c) => is_delimiter(c),
    }
}

/// Number of bytes that `w` takes in UTF-8.
pub open spec fn utf8_len(w: Seq<char>) -> nat
    decreases w.len(),
{
    if w.len() == 0 {
        0
    } else {
        utf8_len(w.drop_last()) + spec_len_utf8(w.last())
    }
}

/// Length of a token in bytes, as `str::len` counts it for a word.
pub open spec fn spec_token_len(t: TokenV) -> nat {
    match t {
        TokenV::Word(w) => utf8_len(w),
        TokenV::Punctuation(_) => 1,
    }
}

/// `x` capped at `usize::MAX`.
pub open spec fn cap(x: nat) -> nat {
    if x <= usize::MAX {
        x
    } else {
        usize::MAX as nat
    }
}

/// ASCII lowercasing of every character of `s`.
pub open spec fn lower(s: Seq<char>) -> Seq<char> {
    s.map_values(|c: char| spec_to_ascii_lowercase(c))
}

/// Whether `c` is one of the characters of `is_delimiter`.
pub fn is_delimiter_char(c: char) -> (b: bool)
    ensures
        b == is_delimiter(c),
{
    c == '(' || c == ')' || c == '[' || c == ']' || c == '<' || c == '>' || c == '{' || c == '}'
        || c == '"'
}

impl Token {
    /// The length of the token in bytes (capped at `usize::MAX`).
    pub fn len(&self) -> (n: usize)
        ensures
            n == cap(spec_token_len(self@)),
    {
        match self {
            Token::Word(w) => {
                let mut n: usize = 0;
                let mut i: usize = 0;
                while i < w.len()
                    invariant
                        i <= w@.len(),
                        n == cap(utf8_len(w@.take(i as int))),
                    decreases w@.len() - i,
                {
                    proof {
                        assert(w@.take(i + 1).drop_last() =~= w@.take(i as int));
                    }
                    n = n.saturating_add(len_utf8(w[i]));
                    i = i + 1;
                }
                proof {
                    assert(w@.take(w@.len() as int) =~= w@);
                }
                n
            },
            Token::Punctuation(_) => 1,
        }
    }

    /// Whether windows that hold this token are left out of the chain.
    pub fn should_strip(&self) -> (b: bool)
        ensures
            b == spec_should_strip(self@),
    {
        match self {
            Token::Word(w) => {
                if w.len() == 0 {
                    return true;
                }
                let mut i: usize = 0;
                while i < w.len()
                    invariant
                        i <= w@.len(),
                        self@ == TokenV::Word(w@),
                        forall|j: int| 0 <= j < i ==> !is_delimiter(#[trigger] w@[j]),
                    decreases w@.len() - i,
                {
                    if is_delimiter_char(w[i]) {
                        proof {
                            assert(is_delimiter(w@[i as int]));
                        }
                        return true;
                    }
                    i = i + 1;
                }
                false
            },
            Token::Punctuation(c) => is_delimiter_char(*c),
        }
    }

    /// A copy of the token.
    pub fn copy(&self) -> (t: Token)
        ensures
            t@ == self@,
    {
        match self {
            Token::Word(w) => Token::Word(copy_chars(w)),
            Token::Punctuation(c) => Token::Punctuation(*c),
        }
    }
}

/// A copy of `v`.
pub fn copy_chars(v: &Vec<char>) -> (r: Vec<char>)
    ensures
        r@ == v@,
{
    let mut r: Vec<char> = Vec::new();
    let mut i: usize = 0;
    while i < v.len()
        invariant
            i <= v@.len(),
            r@ == v@.take(i as int),
        decreases v@.len() - i,
    {
        r.push(v[i]);
        i = i + 1;
        proof {
            assert(r@ =~= v@.take(i as int));
        }
    }
    proof {
        assert(v@.take(v@.len() as int) =~= v@);
    }
    r
}

/// Whether two tokens are the same.
pub fn token_eq(a: &Token, b: &Token) -> (r: bool)
    ensures
        r == (a@ == b@),
{
    match (a, b) {
        (Token::Word(x), Token::Word(y)) => {
            if x.len() != y.len() {
                proof {
                    assert(x@.len() != y@.len());
                }
                return false;
            }
            let mut i: usize = 0;
            while i < x.len()
                invariant
                    i <= x@.len(),
                    a@ == TokenV::Word(x@),
                    b@ == TokenV::Word(y@),
                    x@.len() == y@.len(),
                    forall|j: int| 0 <= j < i ==> x@[j] == y@[j],
                decreases x@.len() - i,
            {
                if x[i] != y[i] {
                    proof {
                        assert(x@[i as int] != y@[i as int]);
                    }
                    return false;
                }
                i = i + 1;
            }
            proof {
                assert(x@ =~= y@);
            }
            true
        },
        (Token::Punctuation(x), Token::Punctuation(y)) => *x == *y,
        _ => false,
    }
}

/// The ASCII-lowercased copy of `v`.
pub fn lowercase_chars(v: &Vec<char>) -> (r: Vec<char>)
    ensures
        r@ == lower(v@),
{
    let mut r: Vec<char> = Vec::new();
    let mut i: usize = 0;
    while i < v.len()
        invariant
            i <= v@.len(),
            r@ == lower(v@.take(i as int)),
        decreases v@.len() - i,
    {
        r.push(to_ascii_lowercase(v[i]));
        i = i + 1;
        proof {
            assert(r@ =~= lower(v@.take(i as int)));
        }
    }
    proof {
        assert(v@.take(v@.len() as int) =~= v@);
    }
    r
}

/// The views of a sequence of tokens.
pub open spec fn views(ts: Seq<Token>) -> Seq<TokenV> {
    ts.map_values(|t: Token| t@)
}

/// Ends the word being read, if there is one.
pub open spec fn flush(done: Seq<TokenV>, cur: Seq<char>) -> Seq<TokenV> {
    if cur.len() > 0 {
        done.push(TokenV::Word(lower(cur)))
    } else {
        done
    }
}

/// The tokenizer after reading `s`: the tokens finished so far, and the
/// characters of the word being read. ASCII punctuation ends the word and is a
/// token of its own; whitespace ends the word; any other character continues it.
pub open spec fn scan(s: Seq<char>) -> (Seq<TokenV>, Seq<char>)
    decreases s.len(),
{
    if s.len() == 0 {
        (Seq::empty(), Seq::empty())
    } else {
        let (done, cur) = scan(s.drop_last());
        let c = s.last();
        if spec_is_ascii_punctuation(c) {
            (flush(done, cur).push(TokenV::Punctuation(c)), Seq::empty())
        } else if spec_is_whitespace(c) {
            (flush(done, cur), Seq::empty())
        } else {
            (done, cur.push(c))
        }
    }
}

/// The tokens of `s`.
pub open spec fn spec_tokenize(s: Seq<char>) -> Seq<TokenV> {
    flush(scan(s).0, scan(s).1)
}

/// Ends the word being read into `current`, if there is one.
fn flush_word(result: &mut Vec<Token>, current: &mut Vec<char>)
    ensures
        views(final(result)@) == flush(views(old(result)@), old(current)@),
        final(current)@ == Seq::<char>::empty(),
{
    if current.len() > 0 {
        let w = lowercase_chars(current);
        let ghost before = result@;
        result.push(Token::Word(w));
        current.clear();
        proof {
            assert(views(result@) =~= views(before).push(TokenV::Word(lower(old(current)@))));
        }
    }
}

/// Cuts `input` into tokens: maximal runs of characters that are neither ASCII
/// punctuation nor whitespace become lowercased words, each ASCII punctuation
/// character becomes a token of its own, and whitespace only separates.
pub fn tokenize(input: &str) -> (r: Vec<Token>)
    ensures
        views(r@) == spec_tokenize(input@),
{
    let mut result: Vec<Token> = Vec::new();
    let mut current: Vec<char> = Vec::new();
    proof {
        assert(views(result@) =~= Seq::<TokenV>::empty());
    }
    let ghost mut seen: Seq<char> = Seq::empty();
    for c in it: input.chars()
        invariant
            it.seq() == input@,
            seen == input@.take(it.index() as int),
            views(result@) == scan(seen).0,
            current@ == scan(seen).1,
    {
        proof {
            assert(input@.take(it.index() + 1) =~= seen.push(c));
            assert(seen.push(c).drop_last() =~= seen);
            seen = seen.push(c);
        }
        if is_ascii_punctuation(c) {
            flush_word(&mut result, &mut current);
            let ghost before = result@;
            result.push(Token::Punctuation(c));
            proof {
                assert(views(result@) =~= views(before).push(TokenV::Punctuation(c)));
            }
        } else if is_whitespace(c) {
            flush_word(&mut result, &mut current);
        } else {
            current.push(c);
        }
    }
    flush_word(&mut result, &mut current);
    proof {
        assert(seen =~= input@);
    }
    result
}

/// The characters that a token stands for.
pub open spec fn token_chars(t: TokenV) -> Seq<char> {
    match t {
        TokenV::Word(w) => w,
        TokenV::Punctuation(c) => seq![c],
    }
}

/// The characters of all tokens, one after the other.
pub open spec fn flat(ts: Seq<TokenV>) -> Seq<char>
    decreases ts.len(),
{
    if ts.len() == 0 {
        Seq::empty()
    } else {
        flat(ts.drop_last()) + token_chars(ts.last())
    }
}

/// `s` without its whitespace.
pub open spec fn strip_whitespace(s: Seq<char>) -> Seq<char>
    decreases s.len(),
{
    if s.len() == 0 {
        Seq::empty()
    } else if spec_is_whitespace(s.last()) {
        strip_whitespace(s.drop_last())
    } else {
        strip_whitespace(s.drop_last()).push(s.last())
    }
}

/// A word as the tokenizer makes it: not empty, lowercase, and free of
/// whitespace and ASCII punctuation.
pub open spec fn clean_word(w: Seq<char>) -> bool {
    &&& w.len() > 0
    &&& forall|i: int|
        0 <= i < w.len() ==> {
            &&& !spec_is_whitespace(#[trigger] w[i])
            &&& !spec_is_ascii_punctuation(w[i])
            &&& !spec_is_ascii_uppercase(w[i])
        }
}

/// Every word token is a clean word.
pub open spec fn clean_tokens(ts: Seq<TokenV>) -> bool {
    forall|i: int| 0 <= i < ts.len() ==> clean_token(#[trigger] ts[i])
}

/// A token as the tokenizer makes it: a clean word, or one ASCII punctuation
/// character.
pub open spec fn clean_token(t: TokenV) -> bool {
    match t {
        TokenV::Word(w) => clean_word(w),
        TokenV::Punctuation(c) => spec_is_ascii_punctuation(c),
    }
}

proof fn lemma_flat_push(ts: Seq<TokenV>, t: TokenV)
    ensures
        flat(ts.push(t)) == flat(ts) + token_chars(t),
{
    assert(ts.push(t).drop_last() =~= ts);
}

proof fn lemma_lower_push(s: Seq<char>, c: char)
    ensures
        lower(s.push(c)) == lower(s).push(spec_to_ascii_lowercase(c)),
{
    assert(lower(s.push(c)) =~= lower(s).push(spec_to_ascii_lowercase(c)));
}

proof fn lemma_lower_empty()
    ensures
        lower(Seq::<char>::empty()) == Seq::<char>::empty(),
{
    assert(lower(Seq::<char>::empty()) =~= Seq::<char>::empty());
}

/// A word made of characters that are neither whitespace nor ASCII
/// punctuation is clean once lowercased.
proof fn lemma_lower_clean(cur: Seq<char>)
    requires
        cur.len() > 0,
        forall|i: int|
            0 <= i < cur.len() ==> !spec_is_whitespace(#[trigger] cur[i])
                && !spec_is_ascii_punctuation(cur[i]),
    ensures
        clean_word(lower(cur)),
{
    let w = lower(cur);
    assert forall|i: int| 0 <= i < w.len() implies {
        &&& !spec_is_whitespace(#[trigger] w[i])
        &&& !spec_is_ascii_punctuation(w[i])
        &&& !spec_is_ascii_uppercase(w[i])
    } by {
        assert(w[i] == spec_to_ascii_lowercase(cur[i]));
        assert(!spec_is_whitespace(cur[i]) && !spec_is_ascii_punctuation(cur[i]));
    }
}

proof fn lemma_clean_push(ts: Seq<TokenV>, t: TokenV)
    requires
        clean_tokens(ts),
        clean_token(t),
    ensures
        clean_tokens(ts.push(t)),
{
    let r = ts.push(t);
    assert forall|i: int| 0 <= i < r.len() implies clean_token(#[trigger] r[i]) by {
        if i < ts.len() {
            assert(r[i] == ts[i]);
        }
    }
}

/// Ending a word keeps the characters and the cleanliness of the tokens.
proof fn lemma_flush(done: Seq<TokenV>, cur: Seq<char>)
    requires
        clean_tokens(done),
        forall|i: int|
            0 <= i < cur.len() ==> !spec_is_whitespace(#[trigger] cur[i])
                && !spec_is_ascii_punctuation(cur[i]),
    ensures
        flat(flush(done, cur)) == flat(done) + lower(cur),
        clean_tokens(flush(done, cur)),
{
    if cur.len() > 0 {
        lemma_flat_push(done, TokenV::Word(lower(cur)));
        lemma_lower_clean(cur);
        lemma_clean_push(done, TokenV::Word(lower(cur)));
    } else {
        lemma_lower_empty();
        assert(flat(done) + lower(cur) =~= flat(done));
    }
}

/// What the tokenizer keeps after reading `s`.
proof fn lemma_scan(s: Seq<char>)
    ensures
        flat(scan(s).0) + lower(scan(s).1) == lower(strip_whitespace(s)),
        clean_tokens(scan(s).0),
        forall|i: int|
            0 <= i < scan(s).1.len() ==> !spec_is_whitespace(#[trigger] scan(s).1[i])
                && !spec_is_ascii_punctuation(scan(s).1[i]),
    decreases s.len(),
{
    lemma_lower_empty();
    if s.len() == 0 {
        assert(flat(Seq::<TokenV>::empty()) + lower(Seq::<char>::empty())
            =~= Seq::<char>::empty());
    } else {
        let p = s.drop_last();
        let c = s.last();
        lemma_scan(p);
        let (done, cur) = scan(p);
        let fl = flush(done, cur);
        lemma_flush(done, cur);
        if spec_is_ascii_punctuation(c) {
            lemma_flat_push(fl, TokenV::Punctuation(c));
            lemma_lower_push(strip_whitespace(p), c);
            lemma_clean_push(fl, TokenV::Punctuation(c));
            assert(flat(fl.push(TokenV::Punctuation(c))) + lower(Seq::<char>::empty())
                =~= lower(strip_whitespace(s)));
        } else if spec_is_whitespace(c) {
            assert(flat(fl) + lower(Seq::<char>::empty()) =~= lower(strip_whitespace(s)));
        } else {
            lemma_lower_push(cur, c);
            lemma_lower_push(strip_whitespace(p), c);
            assert(flat(done) + lower(cur.push(c)) =~= lower(strip_whitespace(s)));
            let n = cur.push(c);
            assert forall|i: int| 0 <= i < n.len() implies !spec_is_whitespace(#[trigger] n[i])
                && !spec_is_ascii_punctuation(n[i]) by {
                if i < cur.len() {
                    assert(n[i] == cur[i]);
                }
            }
        }
    }
}

/// Tokenizing loses nothing but whitespace and case: the characters of the
/// tokens, one after the other, are the lowercased input without its
/// whitespace.
pub proof fn tokenize_keeps_every_other_char(s: Seq<char>)
    ensures
        flat(spec_tokenize(s)) == lower(strip_whitespace(s)),
{
    lemma_scan(s);
    lemma_flush(scan(s).0, scan(s).1);
}

/// Every word that tokenizing yields is non-empty, lowercase, and free of
/// whitespace and ASCII punctuation; every other token is one ASCII
/// punctuation character.
pub proof fn tokenize_yields_clean_words(s: Seq<char>)
    ensures
        clean_tokens(spec_tokenize(s)),
{
    lemma_scan(s);
    lemma_flush(scan(s).0, scan(s).1);
}

/// Two texts that leave the tokenizer in the same state still do so after the
/// same characters are appended to both.
proof fn lemma_scan_same_suffix(s1: Seq<char>, s2: Seq<char>, t: Seq<char>)
    requires
        scan(s1) == scan(s2),
    ensures
        scan(s1 + t) == scan(s2 + t),
    decreases t.len(),
{
    if t.len() == 0 {
        assert(s1 + t =~= s1);
        assert(s2 + t =~= s2);
    } else {
        lemma_scan_same_suffix(s1, s2, t.drop_last());
        assert((s1 + t).drop_last() =~= s1 + t.drop_last());
        assert((s2 + t).drop_last() =~= s2 + t.drop_last());
        assert((s1 + t).last() == t.last());
        assert((s2 + t).last() == t.last());
    }
}

/// Every whitespace character separates words exactly as a space does: a
/// line break, a tab or any other whitespace in a text can be replaced by a
/// space without changing its tokens.
pub proof fn any_whitespace_separates_like_a_space(a: Seq<char>, w: char, b: Seq<char>)
    requires
        spec_is_whitespace(w),
    ensures
        spec_tokenize(a.push(w) + b) == spec_tokenize(a.push(' ') + b),
{
    assert(a.push(w).drop_last() =~= a);
    assert(a.push(' ').drop_last() =~= a);
    assert(!spec_is_ascii_punctuation(w));
    assert(scan(a.push(w)) == scan(a.push(' ')));
    lemma_scan_same_suffix(a.push(w), a.push(' '), b);
}

/// After a text that ends a word, the tokenizer reads the rest as a text of
/// its own.
proof fn lemma_scan_after_break(s: Seq<char>, t: Seq<char>)
    requires
        scan(s).1.len() == 0,
    ensures
        scan(s + t).0 == scan(s).0 + scan(t).0,
        scan(s + t).1 == scan(t).1,
    decreases t.len(),
{
    if t.len() == 0 {
        assert(s + t =~= s);
        assert(scan(s).0 + scan(t).0 =~= scan(s).0);
    } else {
        lemma_scan_after_break(s, t.drop_last());
        assert((s + t).drop_last() =~= s + t.drop_last());
        assert((s + t).last() == t.last());
        let d = scan(s).0;
        let (x, cur) = scan(t.drop_last());
        let c = t.last();
        if cur.len() > 0 {
            assert(flush(d + x, cur) =~= d + flush(x, cur));
        } else {
            assert(flush(d + x, cur) =~= d + flush(x, cur));
        }
        if spec_is_ascii_punctuation(c) {
            assert(flush(d + x, cur).push(TokenV::Punctuation(c)) =~= d + flush(x, cur).push(
                TokenV::Punctuation(c),
            ));
        }
    }
}

/// A whitespace character splits a text: the tokens of `a`, a whitespace
/// character and `b` are the tokens of `a` followed by those of `b`. So no word
/// spans a whitespace character, and every whitespace character (a line break,
/// a tab) separates words exactly as a space does.
pub proof fn whitespace_splits_the_tokens(a: Seq<char>, w: char, b: Seq<char>)
    requires
        spec_is_whitespace(w),
    ensures
        spec_tokenize(a.push(w) + b) == spec_tokenize(a) + spec_tokenize(b),
{
    assert(a.push(w).drop_last() =~= a);
    assert(!spec_is_ascii_punctuation(w));
    lemma_scan_after_break(a.push(w), b);
    let (x, cur) = scan(b);
    assert(flush(spec_tokenize(a) + x, cur) =~= spec_tokenize(a) + flush(x, cur));
}

/// An ASCII punctuation character splits a text and is a token of its own:
/// the tokens of `a`, `p` and `b` are the tokens of `a`, then `p`, then the
/// tokens of `b`.
pub proof fn punctuation_splits_the_tokens(a: Seq<char>, p: char, b: Seq<char>)
    requires
        spec_is_ascii_punctuation(p),
    ensures
        spec_tokenize(a.push(p) + b) == spec_tokenize(a).push(TokenV::Punctuation(p)) + spec_tokenize(
            b,
        ),
{
    assert(a.push(p).drop_last() =~= a);
    lemma_scan_after_break(a.push(p), b);
    let (x, cur) = scan(b);
    let d = spec_tokenize(a).push(TokenV::Punctuation(p));
    assert(flush(d + x, cur) =~= d + flush(x, cur));
}

/// Three tokens in a row, as a mathematical value.
pub type TrigramV = (TokenV, TokenV, TokenV);

/// The window of three tokens that starts at `i`.
pub open spec fn window(ts: Seq<TokenV>, i: int) -> TrigramV {
    (ts[i], ts[i + 1], ts[i + 2])
}

/// Whether a window enters the chain: none of its tokens is stripped.
pub open spec fn kept(k: TrigramV) -> bool {
    !spec_should_strip(k.0) && !spec_should_strip(k.1) && !spec_should_strip(k.2)
}

/// Whether the three tokens of `k` are tokens as the tokenizer makes them.
pub open spec fn clean_trigram(k: TrigramV) -> bool {
    clean_token(k.0) && clean_token(k.1) && clean_token(k.2)
}

/// How many of the first `m` windows of `ts` are kept and equal to `k`.
pub open spec fn window_count(ts: Seq<TokenV>, k: TrigramV, m: int) -> nat
    decreases m,
{
    if m <= 0 {
        0
    } else {
        window_count(ts, k, m - 1) + if kept(window(ts, m - 1)) && window(ts, m - 1) == k {
            1nat
        } else {
            0nat
        }
    }
}

/// How often `k` occurs as a kept window of `ts`.
pub open spec fn trigram_count(ts: Seq<TokenV>, k: TrigramV) -> nat {
    window_count(ts, k, ts.len() - 2)
}

/// The chain of `ts`: each kept window, with the number of times it occurs.
pub open spec fn trigram_counts(ts: Seq<TokenV>) -> Map<TrigramV, nat> {
    Map::new(|k: TrigramV| trigram_count(ts, k) > 0, |k: TrigramV| trigram_count(ts, k))
}

proof fn lemma_window_count_bound(ts: Seq<TokenV>, k: TrigramV, m: int)
    ensures
        window_count(ts, k, m) <= if m < 0 { 0 } else { m },
    decreases m,
{
    if m > 0 {
        lemma_window_count_bound(ts, k, m - 1);
    }
}

/// The sum of `s`.
pub open spec fn seq_sum(s: Seq<usize>) -> nat
    decreases s.len(),
{
    if s.len() == 0 {
        0
    } else {
        seq_sum(s.drop_last()) + s.last() as nat
    }
}

proof fn lemma_seq_sum_update(s: Seq<usize>, a: int, v: usize)
    requires
        0 <= a < s.len(),
    ensures
        seq_sum(s.update(a, v)) == seq_sum(s) - s[a] + v,
    decreases s.len(),
{
    let u = s.update(a, v);
    if a == s.len() - 1 {
        assert(u.drop_last() =~= s.drop_last());
    } else {
        lemma_seq_sum_update(s.drop_last(), a, v);
        assert(u.drop_last() =~= s.drop_last().update(a, v));
    }
}

/// Three tokens in a row.
pub struct Trigram {
    pub first: Token,
    pub second: Token,
    pub third: Token,
}

impl View for Trigram {
    type V = TrigramV;

    open spec fn view(&self) -> TrigramV {
        (self.first@, self.second@, self.third@)
    }
}

/// The index of `k` in `keys`, if it is there.
fn find_trigram(keys: &Vec<Trigram>, first: &Token, second: &Token, third: &Token) -> (r: Option<
    usize,
>)
    ensures
        r matches Some(i) ==> i < keys@.len() && keys@[i as int]@ == (first@, second@, third@),
        r is None ==> forall|i: int| 0 <= i < keys@.len() ==> keys@[i]@ != (first@, second@, third@),
{
    let mut i: usize = 0;
    while i < keys.len()
        invariant
            i <= keys@.len(),
            forall|j: int| 0 <= j < i ==> keys@[j]@ != (first@, second@, third@),
        decreases keys@.len() - i,
    {
        let k = &keys[i];
        if token_eq(&k.first, first) && token_eq(&k.second, second) && token_eq(&k.third, third) {
            return Some(i);
        }
        i = i + 1;
    }
    None
}

/// The Markov chain of a text: every run of three tokens in which no token is
/// stripped, with the number of times it occurs.
pub struct Markov {
    keys: Vec<Trigram>,
    counts: Vec<usize>,
}

impl Markov {
    /// The runs and their counts, with no run twice, every count positive and
    /// no stripped token in any run.
    #[verifier::type_invariant]
    spec fn well_formed(self) -> bool {
        &&& self.keys@.len() == self.counts@.len()
        &&& forall|a: int, b: int|
            0 <= a < b < self.keys@.len() ==> self.keys@[a]@ != self.keys@[b]@
        &&& forall|a: int| 0 <= a < self.counts@.len() ==> self.counts@[a] > 0
        &&& forall|a: int| 0 <= a < self.keys@.len() ==> kept(#[trigger] self.keys@[a]@)
        &&& forall|a: int| 0 <= a < self.keys@.len() ==> clean_trigram(#[trigger] self.keys@[a]@)
        &&& seq_sum(self.counts@) <= usize::MAX
    }

    /// The number of distinct runs.
    pub fn trigram_count(&self) -> (n: usize)
        ensures
            n == self@.dom().len(),
    {
        proof {
            use_type_invariant(self);
            self.lemma_dom_len();
        }
        self.keys.len()
    }

    proof fn lemma_dom_len(&self)
        requires
            self.keys@.len() == self.counts@.len(),
            forall|a: int, b: int|
                0 <= a < b < self.keys@.len() ==> self.keys@[a]@ != self.keys@[b]@,
        ensures
            self@.dom().len() == self.keys@.len(),
            self@.dom().finite(),
    {
        let ks = Seq::new(self.keys@.len(), |a: int| self.keys@[a]@);
        assert(ks.no_duplicates()) by {
            assert forall|a: int, b: int| 0 <= a < ks.len() && 0 <= b < ks.len() && a != b implies ks[a]
                != ks[b] by {
                if a < b {
                } else {
                }
            }
        }
        assert(self@.dom() =~= ks.to_set()) by {
            assert forall|k: TrigramV| self@.dom().contains(k) implies ks.to_set().contains(k) by {
                let a = choose|a: int| 0 <= a < self.keys@.len() && self.keys@[a]@ == k;
                assert(ks[a] == k);
            }
            assert forall|k: TrigramV| ks.to_set().contains(k) implies self@.dom().contains(k) by {
                let a = choose|a: int| 0 <= a < ks.len() && ks[a] == k;
                assert(self.keys@[a]@ == k);
            }
        }
        ks.unique_seq_to_set();
    }

    /// How often the run `first, second, third` occurs in the chain (zero when
    /// it does not).
    pub fn count(&self, first: &Token, second: &Token, third: &Token) -> (n: usize)
        ensures
            n == (if self@.contains_key((first@, second@, third@)) {
                self@[(first@, second@, third@)]
            } else {
                0
            }),
    {
        proof {
            use_type_invariant(self);
        }
        match find_trigram(&self.keys, first, second, third) {
            Some(a) => {
                proof {
                    self.lemma_view(a as int);
                }
                self.counts[a]
            },
            None => 0,
        }
    }

    /// The chain of `input`: each kept run of three tokens of
    /// `tokenize(input)`, with the number of times it occurs.
    pub fn from_text(input: &str) -> (m: Markov)
        ensures
            m@ == trigram_counts(spec_tokenize(input@)),
    {
        let tokens = tokenize(input);
        let ghost ts = views(tokens@);
        proof {
            tokenize_yields_clean_words(input@);
        }
        let mut keys: Vec<Trigram> = Vec::new();
        let mut counts: Vec<usize> = Vec::new();
        let n = tokens.len();
        let end: usize = if n >= 2 { n - 2 } else { 0 };
        let mut i: usize = 0;
        while i < end
            invariant
                ts == views(tokens@),
                clean_tokens(ts),
                n == tokens@.len(),
                end == if n >= 2 { n - 2 } else { 0 },
                i <= end,
                keys@.len() == counts@.len(),
                seq_sum(counts@) <= i,
                forall|a: int, b: int| 0 <= a < b < keys@.len() ==> keys@[a]@ != keys@[b]@,
                forall|a: int|
                    0 <= a < keys@.len() ==> counts@[a] == window_count(ts, #[trigger] keys@[a]@, i as int)
                        && counts@[a] > 0 && kept(keys@[a]@) && clean_trigram(keys@[a]@),
                forall|k: TrigramV|
                    #[trigger] window_count(ts, k, i as int) > 0 ==> exists|a: int|
                        0 <= a < keys@.len() && keys@[a]@ == k,
            decreases end - i,
        {
            let ghost old_keys = keys@;
            let t0 = &tokens[i];
            let t1 = &tokens[i + 1];
            let t2 = &tokens[i + 2];
            let ghost w = window(ts, i as int);
            assert(w == (t0@, t1@, t2@));
            assert(clean_token(ts[i as int]) && clean_token(ts[i + 1]) && clean_token(ts[i + 2]));
            if !t0.should_strip() && !t1.should_strip() && !t2.should_strip() {
                match find_trigram(&keys, t0, t1, t2) {
                    Some(a) => {
                        proof {
                            lemma_window_count_bound(ts, w, i as int);
                        }
                        let c = counts[a];
                        proof {
                            lemma_seq_sum_update(counts@, a as int, (c + 1) as usize);
                        }
                        counts.set(a, c + 1);
                    },
                    None => {
                        keys.push(Trigram { first: t0.copy(), second: t1.copy(), third: t2.copy() });
                        let ghost before = counts@;
                        counts.push(1);
                        assert(counts@.drop_last() =~= before);
                        assert(keys@[keys@.len() - 1]@ == w);
                    },
                }
            }
            i = i + 1;
            proof {
                assert forall|k: TrigramV| #[trigger] window_count(ts, k, i as int) > 0 implies exists|
                    a: int,
                | 0 <= a < keys@.len() && keys@[a]@ == k by {
                    if window_count(ts, k, i - 1) > 0 {
                        let a = choose|a: int| 0 <= a < old_keys.len() && old_keys[a]@ == k;
                        assert(keys@[a] == old_keys[a]);
                    } else {
                        assert(k == w);
                        if exists|a: int| 0 <= a < keys@.len() && keys@[a]@ == k {
                        } else {
                            assert(false);
                        }
                    }
                }
            }
        }
        proof {
            assert forall|a: int| 0 <= a < counts@.len() implies counts@[a] > 0 && kept(
                keys@[a]@,
            ) && clean_trigram(keys@[a]@) by {
                assert(window_count(ts, keys@[a]@, i as int) > 0);
            }
        }
        let m = Markov { keys, counts };
        proof {
            assert forall|k: TrigramV| #[trigger] window_count(ts, k, i as int) == trigram_count(ts, k) by {
                if n >= 2 {
                } else {
                    assert(window_count(ts, k, i as int) == 0);
                    assert(trigram_count(ts, k) == 0);
                }
            }
            assert(m@ =~= trigram_counts(ts)) by {
                assert forall|k: TrigramV| m@.dom().contains(k) <==> trigram_counts(ts).dom().contains(k) by {
                    if m@.dom().contains(k) {
                        let a = choose|a: int| 0 <= a < m.keys@.len() && m.keys@[a]@ == k;
                        assert(m.counts@[a] > 0);
                    }
                }
                assert forall|k: TrigramV| m@.dom().contains(k) implies m@[k] == trigram_counts(ts)[k] by {
                    let a = choose|a: int| 0 <= a < m.keys@.len() && m.keys@[a]@ == k;
                    assert(m.counts@[a] == window_count(ts, k, i as int));
                }
            }
        }
        m
    }
}

impl View for Markov {
    type V = Map<TrigramV, nat>;

    /// Each run of three tokens in the chain, with its count.
    closed spec fn view(&self) -> Map<TrigramV, nat> {
        Map::new(
            |k: TrigramV| exists|a: int| 0 <= a < self.keys@.len() && self.keys@[a]@ == k,
            |k: TrigramV|
                {
                    let a = choose|a: int| 0 <= a < self.keys@.len() && self.keys@[a]@ == k;
                    self.counts@[a] as nat
                },
        )
    }
}

/// One possible next token of the chain, with the number of times it
/// followed the two tokens before it.
pub struct Continuation {
    pub token: Token,
    pub count: usize,
}

/// The sum of the counts of `items`.
pub open spec fn count_sum(items: Seq<Continuation>) -> nat
    decreases items.len(),
{
    if items.len() == 0 {
        0
    } else {
        count_sum(items.drop_last()) + items.last().count as nat
    }
}

/// Two tokens in a row, with every token that followed them in the text.
struct Bigram {
    first: Token,
    second: Token,
    ends: Vec<Continuation>,
}

/// The index of the bigram `(first, second)` in `bs`, if it is there.
fn find_bigram(bs: &Vec<Bigram>, first: &Token, second: &Token) -> (r: Option<usize>)
    ensures
        r matches Some(j) ==> j < bs@.len() && bs@[j as int].first@ == first@ && bs@[j as int].second@
            == second@,
        r is None ==> forall|j: int|
            0 <= j < bs@.len() ==> !(bs@[j].first@ == first@ && bs@[j].second@ == second@),
{
    let mut j: usize = 0;
    while j < bs.len()
        invariant
            j <= bs@.len(),
            forall|i: int| 0 <= i < j ==> !(bs@[i].first@ == first@ && bs@[i].second@ == second@),
        decreases bs@.len() - j,
    {
        if token_eq(&bs[j].first, first) && token_eq(&bs[j].second, second) {
            return Some(j);
        }
        j = j + 1;
    }
    None
}

/// The cost of a token against the length budget: its length in bytes, as
/// `Token::len` gives it.
pub open spec fn cost(t: TokenV) -> nat {
    cap(spec_token_len(t))
}

/// The cost of all tokens of `s`.
pub open spec fn total_cost(s: Seq<TokenV>) -> nat
    decreases s.len(),
{
    if s.len() == 0 {
        0
    } else {
        total_cost(s.drop_last()) + cost(s.last())
    }
}

/// The runs one after the other.
pub open spec fn concat(runs: Seq<Seq<TokenV>>) -> Seq<TokenV>
    decreases runs.len(),
{
    if runs.len() == 0 {
        Seq::empty()
    } else {
        concat(runs.drop_last()) + runs.last()
    }
}

/// A run of the chain: it starts with a run of three tokens that the chain
/// holds, and each further token follows the two before it somewhere in the
/// chain.
pub open spec fn valid_run(m: Map<TrigramV, nat>, r: Seq<TokenV>) -> bool {
    &&& r.len() >= 3
    &&& forall|j: int| 2 <= j < r.len() ==> #[trigger] m.contains_key((r[j - 2], r[j - 1], r[j]))
}

/// No token follows the last two tokens of `r` in the chain.
pub open spec fn stuck(m: Map<TrigramV, nat>, r: Seq<TokenV>) -> bool {
    forall|z: TokenV| !#[trigger] m.contains_key((r[r.len() - 2], r[r.len() - 1], z))
}

/// A walk through the chain: runs, each of which goes on until the chain
/// offers no next token, but for the last one.
pub open spec fn walk(m: Map<TrigramV, nat>, runs: Seq<Seq<TokenV>>) -> bool {
    &&& runs.len() >= 1
    &&& forall|i: int| 0 <= i < runs.len() ==> valid_run(m, #[trigger] runs[i])
    &&& forall|i: int| 0 <= i < runs.len() - 1 ==> stuck(m, #[trigger] runs[i])
}

/// The length budget of a text of `chars` bytes. A budget above `isize::MAX`
/// wraps to a negative number, which ends the text after its first run of
/// three tokens.
pub open spec fn budget(chars: usize) -> nat {
    if chars <= isize::MAX {
        chars as nat
    } else {
        0
    }
}

/// Ends a text with a full stop: a trailing full stop stays, another trailing
/// punctuation character is replaced by one, and otherwise one is added.
pub open spec fn finish(s: Seq<TokenV>) -> Seq<TokenV> {
    if s.len() > 0 && s.last() == TokenV::Punctuation('.') {
        s
    } else if s.len() > 0 && s.last() is Punctuation {
        s.drop_last().push(TokenV::Punctuation('.'))
    } else {
        s.push(TokenV::Punctuation('.'))
    }
}

/// The number of tokens of the last draw of a walk: its first run of three
/// tokens, or a single next token.
pub open spec fn last_draw(runs: Seq<Seq<TokenV>>) -> int {
    if runs.last().len() == 3 {
        3
    } else {
        1
    }
}

/// `out` is a text that `m` generates for `chars` bytes: tokens are drawn along
/// a walk through the chain until their cost reaches the budget; the draw that
/// reaches it ends the walk. A first run of three tokens stays in the text; a
/// single next token does not. The text then ends with a full stop.
pub open spec fn generated(m: Map<TrigramV, nat>, chars: usize, out: Seq<TokenV>) -> bool {
    exists|runs: Seq<Seq<TokenV>>|
        #[trigger] walk(m, runs) && {
            let d = concat(runs);
            let before = d.subrange(0, d.len() - last_draw(runs));
            &&& total_cost(d) >= budget(chars)
            &&& before.len() == 0 || total_cost(before) < budget(chars)
            &&& out == finish(
                if last_draw(runs) == 3 {
                    d
                } else {
                    d.drop_last()
                },
            )
        }
}

proof fn lemma_utf8_len_at_least(w: Seq<char>)
    ensures
        utf8_len(w) >= w.len(),
    decreases w.len(),
{
    if w.len() > 0 {
        lemma_utf8_len_at_least(w.drop_last());
    }
}

proof fn lemma_kept_cost(t: TokenV)
    requires
        !spec_should_strip(t),
    ensures
        cost(t) >= 1,
{
    if let TokenV::Word(w) = t {
        lemma_utf8_len_at_least(w);
    }
}

proof fn lemma_total_cost_append(a: Seq<TokenV>, b: Seq<TokenV>)
    ensures
        total_cost(a + b) == total_cost(a) + total_cost(b),
    decreases b.len(),
{
    if b.len() == 0 {
        assert(a + b =~= a);
    } else {
        lemma_total_cost_append(a, b.drop_last());
        assert((a + b).drop_last() =~= a + b.drop_last());
    }
}

proof fn lemma_concat_push(runs: Seq<Seq<TokenV>>, r: Seq<TokenV>)
    ensures
        concat(runs.push(r)) == concat(runs) + r,
{
    assert(runs.push(r).drop_last() =~= runs);
}

/// Ends the text in `out` with a full stop, as `finish` says.
fn finish_text(out: &mut Vec<Token>)
    ensures
        views(final(out)@) == finish(views(old(out)@)),
{
    let n = out.len();
    if n > 0 {
        let last_is_punct = match &out[n - 1] {
            Token::Punctuation(c) => {
                if *c == '.' {
                    proof {
                        assert(views(out@).last() == TokenV::Punctuation('.'));
                    }
                    return;
                }
                true
            },
            Token::Word(_) => false,
        };
        if last_is_punct {
            let ghost before = out@;
            out.pop();
            out.push(Token::Punctuation('.'));
            proof {
                assert(views(out@) =~= views(before).drop_last().push(TokenV::Punctuation('.')));
            }
            return;
        }
    }
    let ghost before = out@;
    out.push(Token::Punctuation('.'));
    proof {
        assert(views(out@) =~= views(before).push(TokenV::Punctuation('.')));
    }
}

/// `bs` lists the pairs of tokens that start a run of three in `m`, each once,
/// with every token that follows the pair in `m` and its count.
spec fn bigrams_match(bs: Seq<Bigram>, m: Map<TrigramV, nat>) -> bool {
    &&& forall|j1: int, j2: int|
        0 <= j1 < j2 < bs.len() ==> !(bs[j1].first@ == bs[j2].first@ && bs[j1].second@
            == bs[j2].second@)
    &&& forall|j: int, e: int|
        0 <= j < bs.len() && 0 <= e < bs[j].ends@.len() ==> m.contains_key(
            (bs[j].first@, bs[j].second@, #[trigger] bs[j].ends@[e].token@),
        ) && bs[j].ends@[e].count > 0
    &&& forall|j: int|
        0 <= j < bs.len() ==> (#[trigger] bs[j]).ends@.len() > 0 && count_sum(bs[j].ends@)
            <= usize::MAX
    &&& forall|k: TrigramV|
        #[trigger] m.contains_key(k) ==> exists|j: int|
            0 <= j < bs.len() && bs[j].first@ == k.0 && bs[j].second@ == k.1
}

impl Markov {
    proof fn lemma_view(&self, a: int)
        requires
            0 <= a < self.keys@.len(),
            forall|a1: int, a2: int|
                0 <= a1 < a2 < self.keys@.len() ==> self.keys@[a1]@ != self.keys@[a2]@,
        ensures
            self@.contains_key(self.keys@[a]@),
            self@[self.keys@[a]@] == self.counts@[a],
    {
        let k = self.keys@[a]@;
        let b = choose|b: int| 0 <= b < self.keys@.len() && self.keys@[b]@ == k;
        if b < a {
        } else if a < b {
        }
    }

    /// Every run in the chain keeps all of its tokens.
    proof fn lemma_kept(&self, k: TrigramV)
        requires
            self@.contains_key(k),
            forall|a: int| 0 <= a < self.keys@.len() ==> kept(#[trigger] self.keys@[a]@),
        ensures
            kept(k),
    {
        let a = choose|a: int| 0 <= a < self.keys@.len() && self.keys@[a]@ == k;
    }

    /// Every run in the chain is made of tokens as the tokenizer makes them.
    proof fn lemma_clean(&self)
        requires
            forall|a: int| 0 <= a < self.keys@.len() ==> clean_trigram(#[trigger] self.keys@[a]@),
        ensures
            forall|k: TrigramV| #[trigger] self@.contains_key(k) ==> clean_trigram(k),
    {
        assert forall|k: TrigramV| #[trigger] self@.contains_key(k) implies clean_trigram(k) by {
            let a = choose|a: int| 0 <= a < self.keys@.len() && self.keys@[a]@ == k;
            assert(clean_trigram(self.keys@[a]@));
        }
    }

    /// The pairs that start a run of three, each with its possible next tokens.
    fn bigrams(&self) -> (bs: Vec<Bigram>)
        ensures
            bigrams_match(bs@, self@),
    {
        proof {
            use_type_invariant(self);
        }
        let mut bs: Vec<Bigram> = Vec::new();
        let mut a: usize = 0;
        while a < self.keys.len()
            invariant
                a <= self.keys@.len(),
                self.keys@.len() == self.counts@.len(),
                forall|a1: int, a2: int|
                    0 <= a1 < a2 < self.keys@.len() ==> self.keys@[a1]@ != self.keys@[a2]@,
                forall|a1: int| 0 <= a1 < self.counts@.len() ==> self.counts@[a1] > 0,
                seq_sum(self.counts@) <= usize::MAX,
                forall|j1: int, j2: int|
                    0 <= j1 < j2 < bs@.len() ==> !(bs@[j1].first@ == bs@[j2].first@
                        && bs@[j1].second@ == bs@[j2].second@),
                forall|j: int, e: int|
                    0 <= j < bs@.len() && 0 <= e < bs@[j].ends@.len() ==> self@.contains_key(
                        (bs@[j].first@, bs@[j].second@, #[trigger] bs@[j].ends@[e].token@),
                    ) && bs@[j].ends@[e].count > 0,
                forall|j: int|
                    0 <= j < bs@.len() ==> (#[trigger] bs@[j]).ends@.len() > 0 && count_sum(
                        bs@[j].ends@,
                    ) <= seq_sum(self.counts@.take(a as int)),
                forall|a1: int|
                    0 <= a1 < a ==> exists|j: int|
                        0 <= j < bs@.len() && bs@[j].first@ == (#[trigger] self.keys@[a1]@).0
                            && bs@[j].second@ == self.keys@[a1]@.1,
            decreases self.keys@.len() - a,
        {
            let key = &self.keys[a];
            let count = self.counts[a];
            proof {
                self.lemma_view(a as int);
                assert(self.counts@.take(a + 1).drop_last() =~= self.counts@.take(a as int));
                lemma_seq_sum_prefix(self.counts@, a + 1);
            }
            let ghost old_bs = bs@;
            let ghost bound = seq_sum(self.counts@.take(a + 1));
            let c = Continuation { token: key.third.copy(), count };
            let ghost jw: int;
            match find_bigram(&bs, &key.first, &key.second) {
                Some(j) => {
                    let ghost old_ends = bs@[j as int].ends@;
                    bs[j].ends.push(c);
                    proof {
                        jw = j as int;
                        assert(bs@[j as int].ends@ == old_ends.push(c));
                        assert(bs@[j as int].ends@.drop_last() =~= old_ends);
                        assert forall|i: int| 0 <= i < bs@.len() && i != j implies bs@[i]
                            == old_bs[i] by {}
                        assert forall|i: int| 0 <= i < bs@.len() implies (#[trigger] bs@[i]).ends@.len()
                            > 0 && count_sum(bs@[i].ends@) <= bound by {
                            if i != j {
                                assert(bs@[i] == old_bs[i]);
                            }
                        }
                    }
                },
                None => {
                    let mut ends: Vec<Continuation> = Vec::new();
                    ends.push(c);
                    let ghost e = ends@;
                    proof {
                        assert(ends@.drop_last() =~= Seq::<Continuation>::empty());
                        assert(count_sum(Seq::<Continuation>::empty()) == 0);
                        assert(e.last() == c);
                        assert(count_sum(e) == count);
                        assert(seq_sum(self.counts@.take(a + 1)) == seq_sum(self.counts@.take(a as int))
                            + count);
                    }
                    bs.push(Bigram { first: key.first.copy(), second: key.second.copy(), ends });
                    proof {
                        jw = bs@.len() - 1;
                        assert forall|i: int| 0 <= i < old_bs.len() implies bs@[i] == old_bs[i] by {}
                        assert forall|i: int| 0 <= i < bs@.len() implies (#[trigger] bs@[i]).ends@.len()
                            > 0 && count_sum(bs@[i].ends@) <= bound by {
                            if i < old_bs.len() {
                                assert(bs@[i] == old_bs[i]);
                            } else {
                                assert(bs@[i].ends@ == e);
                            }
                        }
                    }
                },
            }
            proof {
                assert(0 <= jw < bs@.len() && bs@[jw].first@ == self.keys@[a as int]@.0
                    && bs@[jw].second@ == self.keys@[a as int]@.1);
                assert forall|a1: int| 0 <= a1 < a + 1 implies exists|j: int|
                    0 <= j < bs@.len() && bs@[j].first@ == (#[trigger] self.keys@[a1]@).0
                        && bs@[j].second@ == self.keys@[a1]@.1 by {
                    if a1 < a {
                        let j = choose|j: int|
                            0 <= j < old_bs.len() && old_bs[j].first@ == self.keys@[a1]@.0
                                && old_bs[j].second@ == self.keys@[a1]@.1;
                        assert(bs@[j].first@ == old_bs[j].first@);
                    } else {
                        assert(a1 == a);
                        assert(bs@[jw].first@ == self.keys@[a1]@.0);
                    }
                }
            }
            a = a + 1;
        }
        proof {
            assert(self.counts@.take(a as int) =~= self.counts@);
            assert forall|k: TrigramV| #[trigger] self@.contains_key(k) implies exists|j: int|
                0 <= j < bs@.len() && bs@[j].first@ == k.0 && bs@[j].second@ == k.1 by {
                let a1 = choose|a1: int| 0 <= a1 < self.keys@.len() && self.keys@[a1]@ == k;
                assert(self.keys@[a1]@ == k);
            }
        }
        bs
    }
}

proof fn lemma_seq_sum_prefix(s: Seq<usize>, n: int)
    requires
        0 <= n <= s.len(),
    ensures
        seq_sum(s.take(n)) <= seq_sum(s),
    decreases s.len() - n,
{
    if n < s.len() {
        lemma_seq_sum_prefix(s, n + 1);
        assert(s.take(n + 1).drop_last() =~= s.take(n));
    } else {
        assert(s.take(n) =~= s);
    }
}

impl Markov {
    /// Draws a text from the chain, in tokens, with a length budget of `chars`
    /// bytes: see `generated`. The chain must not be empty.
    pub fn generate_tokens(&self, rng: &mut rand::rngs::ThreadRng, chars: usize) -> (out: Vec<
        Token,
    >)
        requires
            self@.dom().len() > 0,
        ensures
            generated(self@, chars, views(out@)),
    {
        proof {
            use_type_invariant(self);
        }
        let ghost m = self@;
        let bs = self.bigrams();
        proof {
            if !exists|k: TrigramV| m.contains_key(k) {
                assert(m.dom() =~= Set::<TrigramV>::empty());
            }
            let k = choose|k: TrigramV| m.contains_key(k);
            assert(m.contains_key(k));
            assert forall|k: TrigramV| m.contains_key(k) implies kept(k) by {
                self.lemma_kept(k);
            }
        }
        let mut remaining: usize = if chars <= isize::MAX as usize {
            chars
        } else {
            0
        };
        let mut output: Vec<Token> = Vec::new();
        let ghost mut runs: Seq<Seq<TokenV>> = Seq::empty();
        proof {
            assert(views(output@) =~= concat(runs));
        }
        loop
            invariant
                m == self@,
                bigrams_match(bs@, m),
                bs@.len() > 0,
                forall|k: TrigramV| #[trigger] m.contains_key(k) ==> kept(k),
                views(output@) == concat(runs),
                forall|i: int|
                    0 <= i < runs.len() ==> valid_run(m, #[trigger] runs[i]) && stuck(m, runs[i]),
                total_cost(concat(runs)) + remaining == budget(chars),
                runs.len() > 0 ==> remaining > 0,
            decreases remaining,
        {
            let ghost r_start = remaining;
            let j = random_below(rng, bs.len());
            let b = &bs[j];
            proof {
                assert(b.ends@.len() > 0);
                assert forall|i: int| 0 <= i < b.ends@.len() implies b.ends@[i].count > 0 by {
                    let _ = b.ends@[i].token@;
                }
            }
            let chosen = choose_weighted(rng, &b.ends);
            let e = chosen.unwrap();
            proof {
                assert(b.ends@.contains(*e));
            }
            let t0 = b.first.copy();
            let t1 = b.second.copy();
            let t2 = e.token.copy();
            let ghost run = seq![t0@, t1@, t2@];
            proof {
                let idx = choose|idx: int| 0 <= idx < b.ends@.len() && b.ends@[idx] == *e;
                assert(m.contains_key((b.first@, b.second@, b.ends@[idx].token@)));
                assert(m.contains_key((run[0], run[1], run[2])));
                assert(kept((run[0], run[1], run[2])));
                lemma_kept_cost(t0@);
                lemma_kept_cost(t1@);
                lemma_kept_cost(t2@);
                assert(valid_run(m, run));
                let r1 = seq![t0@];
                let r2 = seq![t0@, t1@];
                assert(r1.drop_last() =~= Seq::<TokenV>::empty());
                assert(total_cost(Seq::<TokenV>::empty()) == 0);
                assert(total_cost(r1) == cost(t0@));
                assert(r2.drop_last() =~= r1);
                assert(total_cost(r2) == cost(t0@) + cost(t1@));
                assert(run.drop_last() =~= r2);
                assert(total_cost(run) == cost(t0@) + cost(t1@) + cost(t2@));
                lemma_total_cost_append(concat(runs), run);
            }
            let c = t0.len().saturating_add(t1.len()).saturating_add(t2.len());
            let mut first = t1.copy();
            let mut second = t2.copy();
            let ghost before = output@;
            output.push(t0);
            output.push(t1);
            output.push(t2);
            proof {
                assert(views(output@) =~= concat(runs) + run);
            }
            if c >= remaining {
                finish_text(&mut output);
                proof {
                    let runs2 = runs.push(run);
                    lemma_concat_push(runs, run);
                    let d = concat(runs2);
                    assert(d.subrange(0, d.len() - 3) =~= concat(runs));
                    assert forall|i: int| 0 <= i < runs2.len() implies valid_run(m, #[trigger] runs2[i]) by {
                        if i < runs.len() {
                            assert(runs2[i] == runs[i]);
                        }
                    }
                    assert forall|i: int| 0 <= i < runs2.len() - 1 implies stuck(m, #[trigger] runs2[i]) by {
                        assert(runs2[i] == runs[i]);
                    }
                    assert(walk(m, runs2));
                    assert(runs2.last() == run);
                    assert(last_draw(runs2) == 3);
                    assert(total_cost(d) >= budget(chars));
                    assert(views(output@) == finish(d));
                    assert(generated(m, chars, views(output@)));
                }
                return output;
            }
            remaining = remaining - c;
            loop
                invariant
                    m == self@,
                    bigrams_match(bs@, m),
                    forall|k: TrigramV| #[trigger] m.contains_key(k) ==> kept(k),
                    valid_run(m, run),
                    run[run.len() - 2] == first@,
                    run[run.len() - 1] == second@,
                    views(output@) == concat(runs) + run,
                    forall|i: int|
                        0 <= i < runs.len() ==> valid_run(m, #[trigger] runs[i]) && stuck(m, runs[i]),
                    total_cost(concat(runs) + run) + remaining == budget(chars),
                    remaining > 0,
                    remaining < r_start,
                ensures
                    remaining < r_start,
                    bigrams_match(bs@, m),
                    valid_run(m, run),
                    stuck(m, run),
                    views(output@) == concat(runs) + run,
                    forall|i: int|
                        0 <= i < runs.len() ==> valid_run(m, #[trigger] runs[i]) && stuck(m, runs[i]),
                    total_cost(concat(runs) + run) + remaining == budget(chars),
                    remaining > 0,
                decreases remaining,
            {
                match find_bigram(&bs, &first, &second) {
                    None => {
                        proof {
                            assert forall|z: TokenV| !#[trigger] m.contains_key(
                                (run[run.len() - 2], run[run.len() - 1], z),
                            ) by {
                                if m.contains_key((run[run.len() - 2], run[run.len() - 1], z)) {
                                    let k = (run[run.len() - 2], run[run.len() - 1], z);
                                    let jj = choose|jj: int|
                                        0 <= jj < bs@.len() && bs@[jj].first@ == k.0 && bs@[jj].second@
                                            == k.1;
                                }
                            }
                        }
                        break ;
                    },
                    Some(k) => {
                        proof {
                            assert(bs@[k as int].ends@.len() > 0);
                            assert forall|i: int| 0 <= i < bs@[k as int].ends@.len() implies bs@[k as int].ends@[i].count
                                > 0 by {
                                let _ = bs@[k as int].ends@[i].token@;
                            }
                        }
                        let chosen = choose_weighted(rng, &bs[k].ends);
                        let e = chosen.unwrap();
                        proof {
                            assert(bs@[k as int].ends@.contains(*e));
                        }
                        let t = e.token.copy();
                        let ghost next = run.push(t@);
                        proof {
                            let idx = choose|idx: int|
                                0 <= idx < bs@[k as int].ends@.len() && bs@[k as int].ends@[idx] == *e;
                            assert(m.contains_key(
                                (bs@[k as int].first@, bs@[k as int].second@, bs@[k as int].ends@[idx].token@),
                            ));
                            assert(m.contains_key((first@, second@, t@)));
                            assert(kept((first@, second@, t@)));
                            lemma_kept_cost(t@);
                            assert forall|jj: int| 2 <= jj < next.len() implies #[trigger] m.contains_key(
                                (next[jj - 2], next[jj - 1], next[jj]),
                            ) by {
                                if jj < run.len() {
                                    assert(next[jj - 2] == run[jj - 2] && next[jj - 1] == run[jj - 1]
                                        && next[jj] == run[jj]);
                                }
                            }
                            assert(valid_run(m, next));
                            assert((concat(runs) + next).drop_last() =~= concat(runs) + run);
                        }
                        let ct = t.len();
                        if ct >= remaining {
                            finish_text(&mut output);
                            proof {
                                let runs2 = runs.push(next);
                                lemma_concat_push(runs, next);
                                let d = concat(runs2);
                                assert(d.subrange(0, d.len() - 1) =~= concat(runs) + run);
                                assert(d.drop_last() =~= concat(runs) + run);
                                assert forall|i: int| 0 <= i < runs2.len() implies valid_run(
                                    m,
                                    #[trigger] runs2[i],
                                ) by {
                                    if i < runs.len() {
                                        assert(runs2[i] == runs[i]);
                                    }
                                }
                                assert forall|i: int| 0 <= i < runs2.len() - 1 implies stuck(
                                    m,
                                    #[trigger] runs2[i],
                                ) by {
                                    assert(runs2[i] == runs[i]);
                                }
                                assert(walk(m, runs2));
                                assert(runs2.last() == next);
                                assert(last_draw(runs2) == 1);
                                lemma_total_cost_append(concat(runs), next);
                                lemma_total_cost_append(concat(runs), run);
                                assert(next.drop_last() =~= run);
                                assert(total_cost(d) >= budget(chars));
                                assert(views(output@) == finish(d.drop_last()));
                                assert(generated(m, chars, views(output@)));
                            }
                            return output;
                        }
                        remaining = remaining - ct;
                        let ghost before_push = output@;
                        output.push(t.copy());
                        proof {
                            assert(views(output@) =~= views(before_push).push(t@));
                            assert(views(output@) =~= concat(runs) + next);
                            lemma_total_cost_append(concat(runs), run);
                            lemma_total_cost_append(concat(runs), next);
                            assert(next.drop_last() =~= run);
                        }
                        first = second;
                        second = t;
                        proof {
                            run = next;
                        }
                    },
                }
            }
            proof {
                lemma_concat_push(runs, run);
                let runs2 = runs.push(run);
                assert forall|i: int| 0 <= i < runs2.len() implies valid_run(m, #[trigger] runs2[i])
                    && stuck(m, runs2[i]) by {
                    if i < runs.len() {
                        assert(runs2[i] == runs[i]);
                    }
                }
                runs = runs2;
            }
        }
    }
}

/// The printer between two tokens: the text so far, whether no word was
/// printed yet, whether the next word follows without a space, and whether the
/// next word starts a sentence.
pub struct PrettyState {
    pub text: Seq<char>,
    pub first: bool,
    pub skip_pad: bool,
    pub capitalize: bool,
}

/// How a word is printed: with its first letter in uppercase at the start of a
/// sentence, as `I` when it is the word `i`, and as it is otherwise.
pub open spec fn render_word(w: Seq<char>, capitalize: bool) -> Seq<char> {
    if capitalize && w.len() > 0 && spec_is_ascii_alphabetic(w[0]) {
        seq![spec_to_ascii_uppercase(w[0])] + w.drop_first()
    } else if w == seq!['i'] {
        seq!['I']
    } else {
        w
    }
}

/// Whether a punctuation character ends a sentence.
pub open spec fn ends_sentence(c: char) -> bool {
    c == '.' || c == '!' || c == '?'
}

/// The printer after one more token. A word is preceded by a space unless it
/// is the first word or follows an apostrophe or a hyphen; punctuation is
/// printed as it is.
pub open spec fn pretty_step(st: PrettyState, t: TokenV) -> PrettyState {
    match t {
        TokenV::Word(w) => PrettyState {
            text: st.text + (if !st.first && !st.skip_pad {
                seq![' ']
            } else {
                Seq::empty()
            }) + render_word(w, st.capitalize),
            first: false,
            skip_pad: false,
            capitalize: false,
        },
        TokenV::Punctuation(c) => PrettyState {
            text: st.text.push(c),
            first: st.first,
            skip_pad: c == '\'' || c == '-',
            capitalize: ends_sentence(c),
        },
    }
}

/// The printer after all of `ts`.
pub open spec fn pretty_state(ts: Seq<TokenV>) -> PrettyState
    decreases ts.len(),
{
    if ts.len() == 0 {
        PrettyState { text: Seq::empty(), first: true, skip_pad: false, capitalize: true }
    } else {
        pretty_step(pretty_state(ts.drop_last()), ts.last())
    }
}

/// The text that `ts` prints as: a full stop is added when the last sentence
/// is not ended.
pub open spec fn pretty(ts: Seq<TokenV>) -> Seq<char> {
    let st = pretty_state(ts);
    if !st.capitalize {
        st.text.push('.')
    } else {
        st.text
    }
}

/// `String::extend` with characters: appends `chars` to `s`.
#[verifier::external_body]
fn extend_string(s: &mut String, chars: &Vec<char>)
    ensures
        final(s)@ == old(s)@ + chars@,
{
    s.extend(chars);
}

/// Appends `w` to `text`.
fn push_all(text: &mut Vec<char>, w: &Vec<char>, from: usize)
    requires
        from <= w@.len(),
    ensures
        final(text)@ == old(text)@ + w@.subrange(from as int, w@.len() as int),
{
    let mut i = from;
    while i < w.len()
        invariant
            from <= i <= w@.len(),
            text@ == old(text)@ + w@.subrange(from as int, i as int),
        decreases w@.len() - i,
    {
        text.push(w[i]);
        i = i + 1;
        proof {
            assert(text@ =~= old(text)@ + w@.subrange(from as int, i as int));
        }
    }
}

/// Prints `output` as sentences into `w`: see `pretty`.
pub fn pretty_print_tokens(w: &mut String, output: &Vec<Token>)
    ensures
        final(w)@ == old(w)@ + pretty(views(output@)),
{
    let mut text: Vec<char> = Vec::new();
    let mut first = true;
    let mut skip_pad = false;
    let mut capitalize = true;
    let mut i: usize = 0;
    while i < output.len()
        invariant
            i <= output@.len(),
            pretty_state(views(output@.take(i as int))) == (PrettyState {
                text: text@,
                first,
                skip_pad,
                capitalize,
            }),
        decreases output@.len() - i,
    {
        let ghost ts = views(output@.take(i + 1));
        proof {
            assert(ts.drop_last() =~= views(output@.take(i as int)));
            assert(ts.last() == output@[i as int]@);
        }
        let ghost st = PrettyState { text: text@, first, skip_pad, capitalize };
        match &output[i] {
            Token::Word(word) => {
                if !first && !skip_pad {
                    text.push(' ');
                }
                let ghost pad = text@;
                first = false;
                skip_pad = false;
                if capitalize && word.len() > 0 && is_ascii_alphabetic(word[0]) {
                    text.push(to_ascii_uppercase(word[0]));
                    push_all(&mut text, word, 1);
                    proof {
                        assert(text@ =~= pad + render_word(word@, st.capitalize));
                    }
                } else if word.len() == 1 && word[0] == 'i' {
                    text.push('I');
                    proof {
                        assert(word@ =~= seq!['i']);
                        assert(text@ =~= pad + render_word(word@, st.capitalize));
                    }
                } else {
                    push_all(&mut text, word, 0);
                    proof {
                        if word@ == seq!['i'] {
                            assert(word@.len() == 1 && word@[0] == 'i');
                        }
                        assert(word@.subrange(0, word@.len() as int) =~= word@);
                        assert(text@ =~= pad + render_word(word@, st.capitalize));
                    }
                }
                capitalize = false;
                proof {
                    assert(text@ =~= st.text + (if !st.first && !st.skip_pad {
                        seq![' ']
                    } else {
                        Seq::empty()
                    }) + render_word(word@, st.capitalize));
                }
            },
            Token::Punctuation(c) => {
                capitalize = *c == '.' || *c == '!' || *c == '?';
                skip_pad = *c == '\'' || *c == '-';
                text.push(*c);
            },
        }
        i = i + 1;
    }
    if !capitalize {
        text.push('.');
    }
    proof {
        assert(output@.take(output@.len() as int) =~= output@);
    }
    extend_string(w, &text);
}

/// A printed text that is not empty ends a sentence: with a full stop, an
/// exclamation mark or a question mark.
pub proof fn pretty_ends_a_sentence(ts: Seq<TokenV>)
    requires
        ts.len() > 0,
    ensures
        pretty(ts).len() > 0,
        ends_sentence(pretty(ts).last()),
{
    let st = pretty_state(ts);
    if st.capitalize {
        match ts.last() {
            TokenV::Word(_) => {},
            TokenV::Punctuation(c) => {
                assert(st.text == pretty_state(ts.drop_last()).text.push(c));
            },
        }
    }
}

impl Markov {
    /// Writes to `w` a text of about `chars` bytes drawn from the chain,
    /// printed as sentences. The chain must not be empty.
    pub fn write_text(&self, w: &mut String, chars: usize)
        requires
            self@.dom().len() > 0,
        ensures
            exists|out: Seq<TokenV>|
                generated(self@, chars, out) && final(w)@ == old(w)@ + pretty(out),
            final(w)@.len() > old(w)@.len(),
            !spec_is_whitespace(final(w)@[old(w)@.len() as int]),
            final(w)@.last() == '.',
    {
        let mut rng = thread_rng();
        let output = self.generate_tokens(&mut rng, chars);
        pretty_print_tokens(w, &output);
        proof {
            use_type_invariant(self);
            self.lemma_clean();
            let out = views(output@);
            generated_tokens_are_clean(self@, chars, out);
            pretty_starts_without_whitespace(out);
            generated_text_ends_with_full_stop(self@, chars, out);
            assert(final(w)@[old(w)@.len() as int] == pretty(out)[0]);
        }
    }
}

/// The text that `write_text` writes ends with a full stop.
pub proof fn generated_text_ends_with_full_stop(m: Map<TrigramV, nat>, chars: usize, out: Seq<TokenV>)
    requires
        generated(m, chars, out),
    ensures
        pretty(out).len() > 0,
        pretty(out).last() == '.',
{
    let runs = choose|runs: Seq<Seq<TokenV>>| #[trigger] walk(m, runs) && {
        let d = concat(runs);
        let before = d.subrange(0, d.len() - last_draw(runs));
        &&& total_cost(d) >= budget(chars)
        &&& before.len() == 0 || total_cost(before) < budget(chars)
        &&& out == finish(
            if last_draw(runs) == 3 {
                d
            } else {
                d.drop_last()
            },
        )
    };
    assert(out.len() > 0 && out.last() == TokenV::Punctuation('.'));
    let st = pretty_state(out);
    assert(st == pretty_step(pretty_state(out.drop_last()), TokenV::Punctuation('.')));
}

/// A run of three tokens counted among the first `m` windows of `ts` is one of
/// those windows.
proof fn lemma_counted_is_window(ts: Seq<TokenV>, k: TrigramV, m: int)
    requires
        window_count(ts, k, m) > 0,
    ensures
        exists|i: int| 0 <= i < m && window(ts, i) == k,
    decreases m,
{
    if m > 0 {
        if kept(window(ts, m - 1)) && window(ts, m - 1) == k {
            assert(window(ts, m - 1) == k);
        } else {
            lemma_counted_is_window(ts, k, m - 1);
            let i = choose|i: int| 0 <= i < m - 1 && window(ts, i) == k;
            assert(window(ts, i) == k);
        }
    }
}

/// Every token of a run of the chain of `ts` is a token of `ts`.
proof fn lemma_run_tokens_in_text(ts: Seq<TokenV>, r: Seq<TokenV>, j: int)
    requires
        valid_run(trigram_counts(ts), r),
        0 <= j < r.len(),
    ensures
        ts.contains(r[j]),
{
    let m = trigram_counts(ts);
    let at = if j >= 2 { j } else { 2 };
    let k = (r[at - 2], r[at - 1], r[at]);
    assert(m.contains_key(k));
    lemma_counted_is_window(ts, k, ts.len() - 2);
    let i = choose|i: int| 0 <= i < ts.len() - 2 && window(ts, i) == k;
    assert(ts[i] == k.0 && ts[i + 1] == k.1 && ts[i + 2] == k.2);
    if j == at {
        assert(ts[i + 2] == r[j]);
    } else if j == at - 1 {
        assert(ts[i + 1] == r[j]);
    } else {
        assert(ts[i] == r[j]);
    }
}

/// Every token of the runs one after the other is a token of one of them.
proof fn lemma_concat_index(runs: Seq<Seq<TokenV>>, x: int)
    requires
        0 <= x < concat(runs).len(),
    ensures
        exists|i: int, j: int|
            0 <= i < runs.len() && 0 <= j < runs[i].len() && runs[i][j] == concat(runs)[x],
    decreases runs.len(),
{
    if runs.len() > 0 {
        let front = concat(runs.drop_last());
        if x < front.len() {
            lemma_concat_index(runs.drop_last(), x);
            let (i, j) = choose|i: int, j: int|
                0 <= i < runs.drop_last().len() && 0 <= j < runs.drop_last()[i].len()
                    && runs.drop_last()[i][j] == front[x];
            assert(runs[i] == runs.drop_last()[i]);
        } else {
            let j = x - front.len();
            assert(runs[runs.len() - 1][j] == concat(runs)[x]);
        }
    }
}

/// The chain writes only what it has read: every token of a text generated
/// from the chain of `input` is a token of `input`, but for the full stop
/// that ends the text.
pub proof fn generated_tokens_come_from_the_text(input: Seq<char>, chars: usize, out: Seq<TokenV>)
    requires
        generated(trigram_counts(spec_tokenize(input)), chars, out),
    ensures
        forall|i: int|
            0 <= i < out.len() ==> #[trigger] out[i] == TokenV::Punctuation('.') || spec_tokenize(
                input,
            ).contains(out[i]),
{
    let ts = spec_tokenize(input);
    let m = trigram_counts(ts);
    let runs = choose|runs: Seq<Seq<TokenV>>| #[trigger] walk(m, runs) && {
        let d = concat(runs);
        let before = d.subrange(0, d.len() - last_draw(runs));
        &&& total_cost(d) >= budget(chars)
        &&& before.len() == 0 || total_cost(before) < budget(chars)
        &&& out == finish(
            if last_draw(runs) == 3 {
                d
            } else {
                d.drop_last()
            },
        )
    };
    let d = concat(runs);
    let e = if last_draw(runs) == 3 {
        d
    } else {
        d.drop_last()
    };
    assert forall|x: int| 0 <= x < e.len() implies ts.contains(#[trigger] e[x]) by {
        assert(e[x] == d[x]);
        lemma_concat_index(runs, x);
        let (i, j) = choose|i: int, j: int|
            0 <= i < runs.len() && 0 <= j < runs[i].len() && runs[i][j] == d[x];
        assert(valid_run(m, runs[i]));
        lemma_run_tokens_in_text(ts, runs[i], j);
    }
    assert forall|i: int| 0 <= i < out.len() implies #[trigger] out[i] == TokenV::Punctuation('.')
        || ts.contains(out[i]) by {
        if i < e.len() && out[i] != TokenV::Punctuation('.') {
            assert(out[i] == e[i]);
        }
    }
}

/// Every token of a run of a chain whose runs are made of clean tokens is
/// clean.
proof fn lemma_run_tokens_clean(m: Map<TrigramV, nat>, r: Seq<TokenV>, j: int)
    requires
        valid_run(m, r),
        forall|k: TrigramV| #[trigger] m.contains_key(k) ==> clean_trigram(k),
        0 <= j < r.len(),
    ensures
        clean_token(r[j]),
{
    let at = if j >= 2 { j } else { 2 };
    let k = (r[at - 2], r[at - 1], r[at]);
    assert(m.contains_key(k));
    assert(clean_trigram(k));
}

/// A chain whose runs are made of tokens as the tokenizer makes them
/// generates only such tokens: every token of a generated text is a clean
/// word or one ASCII punctuation character, and the text is not empty.
pub proof fn generated_tokens_are_clean(m: Map<TrigramV, nat>, chars: usize, out: Seq<TokenV>)
    requires
        generated(m, chars, out),
        forall|k: TrigramV| #[trigger] m.contains_key(k) ==> clean_trigram(k),
    ensures
        out.len() > 0,
        clean_tokens(out),
{
    let runs = choose|runs: Seq<Seq<TokenV>>| #[trigger] walk(m, runs) && {
        let d = concat(runs);
        let before = d.subrange(0, d.len() - last_draw(runs));
        &&& total_cost(d) >= budget(chars)
        &&& before.len() == 0 || total_cost(before) < budget(chars)
        &&& out == finish(
            if last_draw(runs) == 3 {
                d
            } else {
                d.drop_last()
            },
        )
    };
    let d = concat(runs);
    let e = if last_draw(runs) == 3 {
        d
    } else {
        d.drop_last()
    };
    assert forall|x: int| 0 <= x < e.len() implies clean_token(#[trigger] e[x]) by {
        assert(e[x] == d[x]);
        lemma_concat_index(runs, x);
        let (i, j) = choose|i: int, j: int|
            0 <= i < runs.len() && 0 <= j < runs[i].len() && runs[i][j] == d[x];
        assert(valid_run(m, runs[i]));
        lemma_run_tokens_clean(m, runs[i], j);
    }
    assert forall|i: int| 0 <= i < out.len() implies clean_token(#[trigger] out[i]) by {
        if i < e.len() && out[i] != TokenV::Punctuation('.') {
            assert(out[i] == e[i]);
        }
    }
}

/// The printer's text after the tokens `ts`, whose first token is clean,
/// starts with a character that is not whitespace.
proof fn lemma_pretty_state_first(ts: Seq<TokenV>)
    requires
        ts.len() > 0,
        clean_token(ts[0]),
    ensures
        pretty_state(ts).text.len() > 0,
        !spec_is_whitespace(pretty_state(ts).text[0]),
    decreases ts.len(),
{
    if ts.len() == 1 {
        let init = pretty_state(ts.drop_last());
        assert(ts.drop_last().len() == 0);
        assert(init.text.len() == 0 && init.first && init.capitalize);
        match ts[0] {
            TokenV::Word(w) => {
                let r = render_word(w, true);
                assert(pretty_state(ts).text =~= r);
                assert(clean_word(w));
                assert(!spec_is_whitespace(w[0]));
                if spec_is_ascii_alphabetic(w[0]) {
                    assert(r[0] == spec_to_ascii_uppercase(w[0]));
                } else if w == seq!['i'] {
                    assert(r[0] == 'I');
                } else {
                    assert(r[0] == w[0]);
                }
            },
            TokenV::Punctuation(c) => {
                assert(pretty_state(ts).text =~= seq![c]);
            },
        }
    } else {
        let p = ts.drop_last();
        assert(p[0] == ts[0]);
        lemma_pretty_state_first(p);
        let st = pretty_state(p);
        match ts.last() {
            TokenV::Word(w) => {
                assert(pretty_state(ts).text[0] == st.text[0]);
            },
            TokenV::Punctuation(c) => {
                assert(pretty_state(ts).text == st.text.push(c));
                assert(pretty_state(ts).text[0] == st.text[0]);
            },
        }
    }
}

/// A printed text whose first token is clean starts with a character that is
/// not whitespace: a sentence never starts with a space.
pub proof fn pretty_starts_without_whitespace(ts: Seq<TokenV>)
    requires
        ts.len() > 0,
        clean_token(ts[0]),
    ensures
        pretty(ts).len() > 0,
        !spec_is_whitespace(pretty(ts)[0]),
{
    lemma_pretty_state_first(ts);
}

/// Whether a token can enter the chain: it is not an empty word, and none of
/// its characters is a bracket, a brace, an angle bracket or a double quote.
pub open spec fn free_of_delimiters(t: TokenV) -> bool {
    &&& token_chars(t).len() > 0
    &&& forall|i: int| 0 <= i < token_chars(t).len() ==> !is_delimiter(#[trigger] token_chars(t)[i])
}

proof fn lemma_free_of_delimiters(t: TokenV)
    ensures
        free_of_delimiters(t) <==> !spec_should_strip(t),
{
    match t {
        TokenV::Word(w) => {
            if spec_should_strip(t) && w.len() > 0 {
                let i = choose|i: int| 0 <= i < w.len() && is_delimiter(w[i]);
                assert(is_delimiter(token_chars(t)[i]));
            }
        },
        TokenV::Punctuation(c) => {
            assert(token_chars(t)[0] == c);
        },
    }
}

/// A run counted among the first `m` windows is kept.
proof fn lemma_counted_is_kept(ts: Seq<TokenV>, k: TrigramV, m: int)
    requires
        window_count(ts, k, m) > 0,
    ensures
        kept(k),
    decreases m,
{
    if !(kept(window(ts, m - 1)) && window(ts, m - 1) == k) {
        lemma_counted_is_kept(ts, k, m - 1);
    }
}

/// A kept window among the first `m` is counted there.
proof fn lemma_kept_window_is_counted(ts: Seq<TokenV>, i: int, m: int)
    requires
        0 <= i < m,
        kept(window(ts, i)),
    ensures
        window_count(ts, window(ts, i), m) > 0,
    decreases m,
{
    if i < m - 1 {
        lemma_kept_window_is_counted(ts, i, m - 1);
    }
}

/// The chain of a text holds only runs of three tokens of the text in which
/// no token holds a delimiter (nor is an empty word).
pub proof fn chain_runs_are_free_of_delimiters(ts: Seq<TokenV>, k: TrigramV)
    requires
        trigram_counts(ts).contains_key(k),
    ensures
        free_of_delimiters(k.0),
        free_of_delimiters(k.1),
        free_of_delimiters(k.2),
        exists|i: int| 0 <= i < ts.len() - 2 && window(ts, i) == k,
{
    lemma_counted_is_kept(ts, k, ts.len() - 2);
    lemma_counted_is_window(ts, k, ts.len() - 2);
    lemma_free_of_delimiters(k.0);
    lemma_free_of_delimiters(k.1);
    lemma_free_of_delimiters(k.2);
}

/// Every run of three tokens of a text in which no token holds a delimiter
/// (nor is an empty word) is in the chain, counted at least once.
pub proof fn chain_holds_every_run_free_of_delimiters(ts: Seq<TokenV>, i: int)
    requires
        0 <= i < ts.len() - 2,
        free_of_delimiters(ts[i]),
        free_of_delimiters(ts[i + 1]),
        free_of_delimiters(ts[i + 2]),
    ensures
        trigram_counts(ts).contains_key((ts[i], ts[i + 1], ts[i + 2])),
        trigram_counts(ts)[(ts[i], ts[i + 1], ts[i + 2])] >= 1,
{
    lemma_free_of_delimiters(ts[i]);
    lemma_free_of_delimiters(ts[i + 1]);
    lemma_free_of_delimiters(ts[i + 2]);
    lemma_kept_window_is_counted(ts, i, ts.len() - 2);
}

/// A run of characters that are neither whitespace nor ASCII punctuation is
/// one word: the run, lowercased.
pub proof fn a_run_of_word_characters_is_one_word(s: Seq<char>)
    requires
        s.len() > 0,
        forall|i: int|
            0 <= i < s.len() ==> !spec_is_whitespace(#[trigger] s[i]) && !spec_is_ascii_punctuation(s[i]),
    ensures
        spec_tokenize(s) == seq![TokenV::Word(lower(s))],
{
    lemma_scan_word(s);
    assert(Seq::<TokenV>::empty().push(TokenV::Word(lower(s))) =~= seq![TokenV::Word(lower(s))]);
}

proof fn lemma_scan_word(s: Seq<char>)
    requires
        forall|i: int|
            0 <= i < s.len() ==> !spec_is_whitespace(#[trigger] s[i]) && !spec_is_ascii_punctuation(s[i]),
    ensures
        scan(s) == (Seq::<TokenV>::empty(), s),
    decreases s.len(),
{
    if s.len() > 0 {
        let p = s.drop_last();
        assert forall|i: int| 0 <= i < p.len() implies !spec_is_whitespace(#[trigger] p[i])
            && !spec_is_ascii_punctuation(p[i]) by {
            assert(p[i] == s[i]);
        }
        lemma_scan_word(p);
        assert(!spec_is_whitespace(s[s.len() - 1]) && !spec_is_ascii_punctuation(s[s.len() - 1]));
        assert(p.push(s.last()) =~= s);
    }
}

/// The printer's text after a prefix of the tokens is the start of its text
/// after all of them, and of the printed text.
proof fn lemma_pretty_prefix(ts: Seq<TokenV>, j: int)
    requires
        0 <= j <= ts.len(),
    ensures
        pretty_state(ts.take(j)).text.len() <= pretty_state(ts).text.len(),
        pretty_state(ts).text.subrange(0, pretty_state(ts.take(j)).text.len() as int)
            == pretty_state(ts.take(j)).text,
        pretty_state(ts).text.len() <= pretty(ts).len(),
        pretty(ts).subrange(0, pretty_state(ts).text.len() as int) == pretty_state(ts).text,
    decreases ts.len(),
{
    let full = pretty_state(ts).text;
    if j == ts.len() {
        assert(ts.take(j) =~= ts);
        assert(full.subrange(0, full.len() as int) =~= full);
    } else {
        let p = ts.drop_last();
        lemma_pretty_prefix(p, j);
        assert(p.take(j) =~= ts.take(j));
        let pt = pretty_state(p).text;
        let pre = pretty_state(ts.take(j)).text;
        assert(full.subrange(0, pt.len() as int) =~= pt) by {
            match ts.last() {
                TokenV::Word(w) => {},
                TokenV::Punctuation(c) => {},
            }
        }
        assert(full.subrange(0, pre.len() as int) =~= pt.subrange(0, pre.len() as int));
    }
    assert(pretty(ts).subrange(0, full.len() as int) =~= full);
}

/// A word that follows a full stop, an exclamation mark or a question mark
/// starts a sentence: when it starts with an ASCII letter, that letter is
/// printed in uppercase, whatever was printed before. The printed text holds
/// the word so, right after what the tokens before it print.
pub proof fn words_after_a_sentence_end_are_capitalized(ts: Seq<TokenV>, i: int, w: Seq<char>)
    requires
        0 <= i,
        i + 1 < ts.len(),
        ts[i] == TokenV::Punctuation('.') || ts[i] == TokenV::Punctuation('!') || ts[i]
            == TokenV::Punctuation('?'),
        ts[i + 1] == TokenV::Word(w),
        w.len() > 0,
        'a' <= w[0] <= 'z' || 'A' <= w[0] <= 'Z',
    ensures
        ({
            let t = pretty_state(ts.take(i + 2)).text;
            &&& t.len() >= w.len()
            &&& t.subrange(t.len() - w.len(), t.len() as int) == seq![spec_to_ascii_uppercase(w[0])]
                + w.drop_first()
            &&& t.len() <= pretty(ts).len()
            &&& pretty(ts).subrange(0, t.len() as int) == t
        }),
{
    let a = ts.take(i + 2);
    assert(a.drop_last() =~= ts.take(i + 1));
    assert(ts.take(i + 1).drop_last() =~= ts.take(i));
    assert(a.last() == ts[i + 1]);
    assert(ts.take(i + 1).last() == ts[i]);
    let st = pretty_state(ts.take(i + 1));
    assert(st.capitalize);
    let t = pretty_state(a).text;
    let r = seq![spec_to_ascii_uppercase(w[0])] + w.drop_first();
    assert(render_word(w, true) == r);
    assert(t.subrange(t.len() - w.len(), t.len() as int) =~= r);
    lemma_pretty_prefix(ts, i + 2);
    lemma_pretty_prefix(ts, ts.len() as int);
    assert(ts.take(ts.len() as int) =~= ts);
    let full = pretty_state(ts).text;
    assert(pretty(ts).subrange(0, t.len() as int) =~= full.subrange(0, t.len() as int));
}

/// The first word of a text starts its first sentence: when it is the first
/// token and starts with an ASCII letter, the printed text starts with that
/// word, its first letter in uppercase.
pub proof fn the_first_word_is_capitalized(ts: Seq<TokenV>, w: Seq<char>)
    requires
        ts.len() > 0,
        ts[0] == TokenV::Word(w),
        w.len() > 0,
        'a' <= w[0] <= 'z' || 'A' <= w[0] <= 'Z',
    ensures
        pretty(ts).len() >= w.len(),
        pretty(ts).subrange(0, w.len() as int) == seq![spec_to_ascii_uppercase(w[0])] + w.drop_first(),
{
    let a = ts.take(1);
    assert(a.drop_last() =~= Seq::<TokenV>::empty());
    assert(a.last() == ts[0]);
    let init = pretty_state(a.drop_last());
    assert(init.text.len() == 0 && init.first && init.capitalize);
    assert(render_word(w, true) == seq![spec_to_ascii_uppercase(w[0])] + w.drop_first());
    let t = pretty_state(a).text;
    assert(t =~= seq![spec_to_ascii_uppercase(w[0])] + w.drop_first());
    lemma_pretty_prefix(ts, 1);
    lemma_pretty_prefix(ts, ts.len() as int);
    assert(ts.take(ts.len() as int) =~= ts);
    let full = pretty_state(ts).text;
    assert(pretty(ts).subrange(0, w.len() as int) =~= full.subrange(0, w.len() as int));
}

/// How the printer joins tokens. A punctuation token is printed right after
/// what comes before it, with no space. A word that follows another word is
/// printed after exactly one space, as it is (but for the word `i`, printed
/// `I`). A word that follows an apostrophe or a hyphen is printed as it is
/// (but for `i`), with no space before it.
pub proof fn how_tokens_are_joined(ts: Seq<TokenV>, i: int)
    requires
        0 <= i,
        i + 1 < ts.len(),
    ensures
        ({
            let before = pretty_state(ts.take(i + 1)).text;
            let after = pretty_state(ts.take(i + 2)).text;
            &&& ts[i + 1] matches TokenV::Punctuation(c) ==> after == before.push(c)
            &&& ts[i + 1] matches TokenV::Word(v) ==> (ts[i] is Word ==> after == before + seq![' ']
                + (if v == seq!['i'] {
                seq!['I']
            } else {
                v
            }))
            &&& ts[i + 1] matches TokenV::Word(v) ==> ((ts[i] == TokenV::Punctuation('\'')
                || ts[i] == TokenV::Punctuation('-')) && v != seq!['i'] ==> after == before + v)
        }),
{
    let a = ts.take(i + 2);
    assert(a.drop_last() =~= ts.take(i + 1));
    assert(ts.take(i + 1).drop_last() =~= ts.take(i));
    assert(a.last() == ts[i + 1]);
    assert(ts.take(i + 1).last() == ts[i]);
    let st = pretty_state(ts.take(i + 1));
    if ts[i] is Word {
        assert(!st.first && !st.skip_pad && !st.capitalize);
    }
}

/// A printed text ends with a full stop that the printer adds exactly when
/// its tokens do not already end a sentence: the text of the tokens, followed
/// by a full stop when the last token is not `.`, `!` or `?` (and nothing is
/// added to no tokens at all).
pub proof fn a_full_stop_is_added_unless_the_text_ends_a_sentence(ts: Seq<TokenV>)
    ensures
        ts.len() == 0 ==> pretty(ts) == Seq::<char>::empty(),
        ts.len() > 0 ==> {
            let ended = ts.last() == TokenV::Punctuation('.') || ts.last() == TokenV::Punctuation('!')
                || ts.last() == TokenV::Punctuation('?');
            &&& ended ==> pretty(ts) == pretty_state(ts).text
            &&& !ended ==> pretty(ts) == pretty_state(ts).text.push('.')
        },
{
}

/// Adding tokens at the end of a text leaves the counts of its first windows
/// as they were.
proof fn lemma_window_count_push(ts: Seq<TokenV>, t: TokenV, k: TrigramV, m: int)
    requires
        m <= ts.len() - 2,
    ensures
        window_count(ts.push(t), k, m) == window_count(ts, k, m),
    decreases m,
{
    if m > 0 {
        lemma_window_count_push(ts, t, k, m - 1);
        assert(window(ts.push(t), m - 1) == window(ts, m - 1));
    }
}

/// One more token adds one more run of three to the chain: the count of a run
/// grows by one exactly when it is the new last run and none of its tokens is
/// stripped, and stays as it was otherwise. A text of fewer than three tokens
/// holds no run.
pub proof fn one_more_token_counts_one_more_run(ts: Seq<TokenV>, t: TokenV, k: TrigramV)
    ensures
        ts.len() < 2 ==> trigram_count(ts.push(t), k) == 0,
        ts.len() >= 2 ==> trigram_count(ts.push(t), k) == trigram_count(ts, k) + if k == (
            ts[ts.len() - 2],
            ts[ts.len() - 1],
            t,
        ) && !spec_should_strip(k.0) && !spec_should_strip(k.1) && !spec_should_strip(k.2) {
            1nat
        } else {
            0nat
        },
{
    let n = ts.len() as int;
    if n >= 2 {
        lemma_window_count_push(ts, t, k, n - 2);
        let u = ts.push(t);
        assert(window(u, n - 2) == (ts[n - 2], ts[n - 1], t));
    }
}

/// The UTF-8 length of two texts one after the other is the sum of theirs.
pub proof fn utf8_len_adds_up(a: Seq<char>, b: Seq<char>)
    ensures
        utf8_len(a + b) == utf8_len(a) + utf8_len(b),
    decreases b.len(),
{
    if b.len() == 0 {
        assert(a + b =~= a);
    } else {
        utf8_len_adds_up(a, b.drop_last());
        assert((a + b).drop_last() =~= a + b.drop_last());
    }
}

/// An ASCII word takes one byte per character.
pub proof fn an_ascii_word_takes_a_byte_per_character(w: Seq<char>)
    requires
        forall|i: int| 0 <= i < w.len() ==> (#[trigger] w[i] as u32) < 0x80,
    ensures
        utf8_len(w) == w.len(),
    decreases w.len(),
{
    if w.len() > 0 {
        assert forall|i: int| 0 <= i < w.drop_last().len() implies (#[trigger] w.drop_last()[i]
            as u32) < 0x80 by {
            assert(w.drop_last()[i] == w[i]);
        }
        an_ascii_word_takes_a_byte_per_character(w.drop_last());
        assert((w.last() as u32) < 0x80);
    }
}

} // verus!
