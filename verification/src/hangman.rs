//! The rules of a word-guessing game: the player has five tries to guess
//! the letters of a hidden word, one letter per turn.
use vstd::prelude::*;
use crate::text::{lemma_trim_line_ending, trim, trim_bounds, trim_start, trim_end};
use rand::RngExt;

verus! {

/// The number of wrong letters a player may enter before losing.
pub const MAX_TRIES: i32 = 5;

/// The number of lines of the word list that a word is picked from.
pub const WORD_LINE_CHOICES: usize = 20;

/// What a turn did.
#[derive(Debug, Clone, Copy, PartialEq, Eq, Structural)]
pub enum GuessOutcome {
    /// The input, without surrounding whitespace, was not a single character:
    /// nothing changes.
    InvalidInput,
    /// The letter was entered before and is not in the word: nothing changes.
    AlreadyEntered,
    /// The letter is not in the word: it is remembered and one try is used.
    NotFound,
    /// The letter is in the word: every place where it stands is revealed.
    Revealed,
}

/// The state of a game.
pub struct Hangman {
    word: Vec<char>,
    guess: Vec<char>,
    entered: Vec<char>,
    tries: i32,
    won: bool,
}

/// The guess after revealing every place of `word` where `ch` stands.
pub open spec fn revealed_guess(guess: Seq<char>, word: Seq<char>, ch: char) -> Seq<char> {
    Seq::new(guess.len(), |k: int| if word[k] == ch { ch } else { guess[k] })
}

/// Whether the turn's input is valid: one character once surrounding
/// whitespace is removed.
pub open spec fn valid_input(input: Seq<char>) -> bool {
    trim(input).len() == 1
}

/// A line ending, `\r\n` as a Windows console gives it or `\n`, changes
/// nothing of a turn: the line is valid exactly when it is without the
/// ending, and its first character is the same.
pub proof fn lemma_turn_ignores_line_ending(line: Seq<char>)
    ensures
        valid_input(line + seq!['\r', '\n']) == valid_input(line),
        valid_input(line + seq!['\n']) == valid_input(line),
        line.len() > 0 ==> (line + seq!['\r', '\n'])[0] == line[0] && (line + seq!['\n'])[0]
            == line[0],
        valid_input(seq!['c', '\r', '\n']),
{
    lemma_trim_line_ending(line);
    lemma_trim_line_ending(seq!['c']);
    assert(seq!['c'] + seq!['\r', '\n'] =~= seq!['c', '\r', '\n']);
    assert(trim_start(seq!['c']) =~= seq!['c']) by {
        reveal_with_fuel(trim_start, 2);
    }
    assert(trim_end(seq!['c']) =~= seq!['c']) by {
        reveal_with_fuel(trim_end, 2);
    }
}

fn contains_char(v: &Vec<char>, c: char) -> (b: bool)
    ensures
        b == v@.contains(c),
{
    let mut i: usize = 0;
    while i < v.len()
        invariant
            i <= v@.len(),
            forall|k: int| 0 <= k < i ==> v@[k] != c,
        decreases v@.len() - i,
    {
        if v[i] == c {
            return true;
        }
        i = i + 1;
    }
    false
}

impl Hangman {
    /// The hidden word.
    pub closed spec fn word(&self) -> Seq<char> {
        self.word@
    }

    /// The word as guessed so far: `_` where a letter is still hidden.
    pub closed spec fn guess(&self) -> Seq<char> {
        self.guess@
    }

    /// The wrong letters entered so far, in order.
    pub closed spec fn entered(&self) -> Seq<char> {
        self.entered@
    }

    /// The tries left.
    pub closed spec fn tries(&self) -> int {
        self.tries as int
    }

    /// Whether every letter was revealed.
    pub closed spec fn won(&self) -> bool {
        self.won
    }

    /// The game's internal consistency, kept by every turn.
    #[verifier::type_invariant]
    pub closed spec fn wf(&self) -> bool {
        &&& self.guess@.len() == self.word@.len()
        &&& 0 <= self.tries <= MAX_TRIES
        &&& self.consistent()
    }

    /// What every turn keeps: the guess shows only letters of the word in
    /// their places, the wrong letters are distinct and none is in the word,
    /// and one try is used per wrong letter.
    pub open spec fn consistent(&self) -> bool {
        &&& self.guess().len() == self.word().len()
        &&& forall|k: int|
            0 <= k < self.guess().len() ==> #[trigger] self.guess()[k] == '_' || self.guess()[k]
                == self.word()[k]
        &&& forall|k: int|
            0 <= k < self.entered().len() ==> !self.word().contains(#[trigger] self.entered()[k])
        &&& self.entered().no_duplicates()
        &&& self.tries() == MAX_TRIES - self.entered().len()
        &&& self.won() ==> !self.guess().contains('_')
    }

    /// Across any number of turns from a new game: the tries left are five
    /// less the distinct wrong letters entered, repeated and correct letters
    /// cost nothing, and the game is over exactly when it is won or five
    /// distinct wrong letters were entered. A won game shows the whole word,
    /// when the word itself holds no `_`.
    pub proof fn lemma_game_state(g: &Self)
        requires
            g.consistent(),
        ensures
            g.tries() == MAX_TRIES - g.entered().len(),
            g.entered().no_duplicates(),
            forall|k: int|
                0 <= k < g.entered().len() ==> !g.word().contains(#[trigger] g.entered()[k]),
            g.over() <==> (g.won() || g.entered().len() >= MAX_TRIES),
            g.won() && !g.word().contains('_') ==> g.guess() == g.word(),
    {
        if g.won() && !g.word().contains('_') {
            assert forall|k: int| 0 <= k < g.guess().len() implies #[trigger] g.guess()[k]
                == g.word()[k] by {
                if g.guess()[k] == '_' {
                    assert(g.guess().contains('_'));
                }
            }
            assert(g.guess() =~= g.word());
        }
    }

    /// Whether the game is over: won, or no tries are left.
    pub open spec fn over(&self) -> bool {
        self.won() || self.tries() <= 0
    }

    /// A new game with the hidden word `word`: every letter hidden, five
    /// tries, no letter entered.
    pub fn new(word: &str) -> (g: Self)
        ensures
            g.consistent(),
            g.word() == word@,
            g.guess() == Seq::new(word@.len(), |k: int| '_'),
            g.entered() == Seq::<char>::empty(),
            g.tries() == MAX_TRIES,
            !g.won(),
    {
        let len = word.unicode_len();
        let mut w: Vec<char> = Vec::new();
        let mut g: Vec<char> = Vec::new();
        let mut i: usize = 0;
        while i < len
            invariant
                len == word@.len(),
                i <= len,
                w@ == word@.take(i as int),
                g@ == Seq::new(i as nat, |k: int| '_'),
            decreases len - i,
        {
            w.push(word.get_char(i));
            g.push('_');
            assert(w@ =~= word@.take(i + 1));
            assert(g@ =~= Seq::new((i + 1) as nat, |k: int| '_'));
            i = i + 1;
        }
        assert(w@ =~= word@);
        Hangman { word: w, guess: g, entered: Vec::new(), tries: MAX_TRIES, won: false }
    }

    /// The tries left.
    pub fn tries_left(&self) -> (n: i32)
        ensures
            n == self.tries(),
    {
        self.tries
    }

    /// Whether every letter was revealed.
    pub fn is_won(&self) -> (b: bool)
        ensures
            b == self.won(),
    {
        self.won
    }

    /// Whether the game is over: won, or no tries are left.
    pub fn is_over(&self) -> (b: bool)
        ensures
            b == self.over(),
    {
        self.won || self.tries <= 0
    }

    /// The word as guessed so far, `_` where a letter is still hidden.
    pub fn guess_chars(&self) -> (v: Vec<char>)
        ensures
            v@ == self.guess(),
    {
        self.guess.clone()
    }

    /// Plays one turn with the line the player typed. The line counts only
    /// when it is one character once surrounding whitespace is removed; the
    /// letter played is then the line's first character. A letter entered
    /// before and not in the word is ignored; one not in the word costs a
    /// try and is remembered; one in the word is revealed everywhere it
    /// stands, and the game is won when no `_` is left.
    pub fn play(&mut self, input: &str) -> (outcome: GuessOutcome)
        requires
            !old(self).over(),
        ensures
            final(self).consistent(),
            !valid_input(input@) ==> outcome == GuessOutcome::InvalidInput && *final(self) == *old(
                self,
            ),
            valid_input(input@) && old(self).entered().contains(input@[0]) ==> outcome
                == GuessOutcome::AlreadyEntered && *final(self) == *old(self),
            valid_input(input@) && !old(self).entered().contains(input@[0]) && !old(
                self,
            ).word().contains(input@[0]) ==> {
                &&& outcome == GuessOutcome::NotFound
                &&& final(self).entered() == old(self).entered().push(input@[0])
                &&& final(self).tries() == old(self).tries() - 1
                &&& final(self).word() == old(self).word()
                &&& final(self).guess() == old(self).guess()
                &&& final(self).won() == old(self).won()
            },
            valid_input(input@) && !old(self).entered().contains(input@[0]) && old(
                self,
            ).word().contains(input@[0]) ==> {
                &&& outcome == GuessOutcome::Revealed
                &&& final(self).guess() == revealed_guess(old(self).guess(), old(self).word(), input@[0])
                &&& final(self).won() == !final(self).guess().contains('_')
                &&& final(self).entered() == old(self).entered()
                &&& final(self).tries() == old(self).tries()
                &&& final(self).word() == old(self).word()
            },
    {
        proof {
            use_type_invariant(&*self);
        }
        let (from, to) = trim_bounds(input);
        if to - from != 1 {
            return GuessOutcome::InvalidInput;
        }
        let ch = input.get_char(0);
        if contains_char(&self.entered, ch) {
            return GuessOutcome::AlreadyEntered;
        }
        let found = contains_char(&self.word, ch);
        let mut taken = Hangman {
            word: Vec::new(),
            guess: Vec::new(),
            entered: Vec::new(),
            tries: MAX_TRIES,
            won: false,
        };
        std::mem::swap(self, &mut taken);
        let Hangman { word, mut guess, mut entered, tries, won } = taken;
        if !found {
            let ghost old_entered = entered@;
            entered.push(ch);
            assert forall|k: int| 0 <= k < entered@.len() implies !word@.contains(
                #[trigger] entered@[k],
            ) by {
                if k < old_entered.len() {
                    assert(entered@[k] == old_entered[k]);
                }
            }
            assert(entered@.no_duplicates()) by {
                assert forall|a: int, b: int|
                    0 <= a < entered@.len() && 0 <= b < entered@.len() && a != b implies entered@[a]
                    != entered@[b] by {
                    if a == old_entered.len() as int {
                        assert(!old_entered.contains(ch));
                        assert(entered@[b] == old_entered[b]);
                    } else if b == old_entered.len() as int {
                        assert(!old_entered.contains(ch));
                        assert(entered@[a] == old_entered[a]);
                    } else {
                        assert(entered@[a] == old_entered[a]);
                        assert(entered@[b] == old_entered[b]);
                    }
                }
            }
            *self = Hangman { word, guess, entered, tries: tries - 1, won };
            return GuessOutcome::NotFound;
        }
        let len = word.len();
        let ghost old_guess = guess@;
        let mut k: usize = 0;
        while k < len
            invariant
                len == word@.len(),
                guess@.len() == len,
                old_guess == old(self).guess@,
                old_guess.len() == len,
                k <= len,
                forall|m: int|
                    0 <= m < len ==> #[trigger] guess@[m] == if m < k {
                        revealed_guess(old_guess, word@, ch)[m]
                    } else {
                        old_guess[m]
                    },
            decreases len - k,
        {
            if word[k] == ch {
                guess.set(k, ch);
            }
            assert(revealed_guess(old_guess, word@, ch)[k as int] == guess@[k as int]);
            k = k + 1;
        }
        assert(guess@ =~= revealed_guess(old_guess, word@, ch));
        assert forall|m: int| 0 <= m < guess@.len() implies #[trigger] guess@[m] == '_' || guess@[m]
            == word@[m] by {
            assert(old(self).guess()[m] == old_guess[m]);
        }
        let hidden_left = contains_char(&guess, '_');
        *self = Hangman { word, guess, entered, tries, won: !hidden_left };
        GuessOutcome::Revealed
    }
}

/// Calls `rand::rng().random_range(0..bound)`: a number drawn from the
/// thread-local generator, which rand documents as lying in `0..bound`
/// (an empty range panics, so `bound` must be positive). Which number comes
/// is chance; nothing more is stated.
#[verifier::external_body]
fn random_below(bound: usize) -> (r: usize)
    requires
        bound > 0,
    ensures
        r < bound,
{
    rand::rng().random_range(0..bound)
}

/// Picks at random which line of the word list holds the hidden word.
pub fn pick_word_line() -> (line: usize)
    ensures
        line < WORD_LINE_CHOICES,
{
    random_below(WORD_LINE_CHOICES)
}

} // verus!
