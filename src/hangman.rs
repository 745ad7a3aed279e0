//! State of a game of hangman: the secret word, the letters revealed so
//! far, and the wrong guesses left.
use vstd::prelude::*;
use crate::text::push_char;

verus! {

/// Number of wrong guesses a player may make.
pub const NUM_INCORRECT_GUESSES: u32 = 5;

/// Marker for a letter not yet revealed.
pub const HIDDEN: char = '-';

/// The characters of `v` as a string.
pub fn vec2str(v: &Vec<char>) -> (r: String)
    ensures
        r@ == v@,
{
    let mut s = String::new();
    let mut i: usize = 0;
    while i < v.len()
        invariant
            i <= v@.len(),
            s@ == v@.take(i as int),
        decreases v@.len() - i,
    {
        push_char(&mut s, v[i]);
        assert(v@.take(i as int + 1) =~= v@.take(i as int).push(v@[i as int]));
        i += 1;
    }
    assert(v@.take(v@.len() as int) =~= v@);
    s
}

/// Index of the first position where `guess` is in `secret` and still
/// hidden in `shown`.
pub open spec fn is_first_hit(secret: Seq<char>, shown: Seq<char>, guess: char, i: int) -> bool {
    &&& 0 <= i < secret.len()
    &&& secret[i] == guess
    &&& shown[i] == HIDDEN
    &&& forall|j: int| 0 <= j < i ==> !(secret[j] == guess && #[trigger] shown[j] == HIDDEN)
}

pub open spec fn has_hit(secret: Seq<char>, shown: Seq<char>, guess: char) -> bool {
    exists|i: int| 0 <= i < secret.len() && secret[i] == guess && #[trigger] shown[i] == HIDDEN
}

/// Reveals the first hidden occurrence of `guess` in `secret`; returns
/// whether there was one.
pub fn reveal_letter(secret: &Vec<char>, shown: &mut Vec<char>, guess: char) -> (r: bool)
    requires
        old(shown)@.len() == secret@.len(),
    ensures
        r == has_hit(secret@, old(shown)@, guess),
        r ==> exists|i: int| is_first_hit(secret@, old(shown)@, guess, i) && final(shown)@
            == old(shown)@.update(i, guess),
        !r ==> final(shown)@ == old(shown)@,
{
    let mut i: usize = 0;
    while i < secret.len()
        invariant
            i <= secret@.len(),
            shown@ == old(shown)@,
            shown@.len() == secret@.len(),
            forall|j: int| 0 <= j < i ==> !(secret@[j] == guess && #[trigger] shown@[j] == HIDDEN),
        decreases secret@.len() - i,
    {
        if secret[i] == guess && shown[i] == HIDDEN {
            shown.set(i, guess);
            assert(is_first_hit(secret@, old(shown)@, guess, i as int));
            return true;
        }
        i += 1;
    }
    false
}

/// A game in progress.
pub struct Game {
    secret: Vec<char>,
    shown: Vec<char>,
    guessed: String,
    wrong: u32,
    revealed: usize,
}

impl Game {
    /// Hidden letters are exactly those not yet revealed, and the count of
    /// wrong guesses stays within the allowance.
    pub closed spec fn wf(&self) -> bool {
        &&& self.shown@.len() == self.secret@.len()
        &&& self.wrong <= NUM_INCORRECT_GUESSES
        &&& self.revealed <= self.secret@.len()
    }

    pub closed spec fn wrong_guesses(&self) -> nat {
        self.wrong as nat
    }

    pub closed spec fn revealed_count(&self) -> nat {
        self.revealed as nat
    }

    pub closed spec fn secret_view(&self) -> Seq<char> {
        self.secret@
    }

    pub closed spec fn shown_view(&self) -> Seq<char> {
        self.shown@
    }

    pub closed spec fn guessed_view(&self) -> Seq<char> {
        self.guessed@
    }

    /// Starts a game on `secret` with every letter hidden.
    pub fn new(secret: Vec<char>) -> (r: Game)
        ensures
            r.wf(),
            r.secret_view() == secret@,
            r.shown_view() == Seq::new(secret@.len(), |i: int| HIDDEN),
            r.wrong_guesses() == 0,
            r.revealed_count() == 0,
            r.guessed_view() == Seq::<char>::empty(),
    {
        let mut shown: Vec<char> = Vec::new();
        let mut i: usize = 0;
        while i < secret.len()
            invariant
                i <= secret@.len(),
                shown@ == Seq::new(i as nat, |j: int| HIDDEN),
            decreases secret@.len() - i,
        {
            shown.push(HIDDEN);
            assert(shown@ =~= Seq::new((i + 1) as nat, |j: int| HIDDEN));
            i += 1;
        }
        Game { secret, shown, guessed: String::new(), wrong: 0, revealed: 0 }
    }

    /// Whether the player has run out of wrong guesses.
    pub fn is_lost(&self) -> (r: bool)
        requires
            self.wf(),
        ensures
            r == (self.wrong_guesses() == NUM_INCORRECT_GUESSES),
    {
        self.wrong == NUM_INCORRECT_GUESSES
    }

    /// Whether every letter has been revealed.
    pub fn is_won(&self) -> (r: bool)
        requires
            self.wf(),
        ensures
            r == (self.revealed_count() == self.secret_view().len()),
    {
        self.revealed == self.secret.len()
    }

    pub fn guesses_left(&self) -> (r: u32)
        requires
            self.wf(),
        ensures
            r == NUM_INCORRECT_GUESSES - self.wrong_guesses(),
    {
        NUM_INCORRECT_GUESSES - self.wrong
    }

    /// The word with unrevealed letters hidden.
    pub fn word_so_far(&self) -> (r: String)
        ensures
            r@ == self.shown_view(),
    {
        vec2str(&self.shown)
    }

    /// The letters guessed so far, in order.
    pub fn guessed_letters(&self) -> (r: &String)
        ensures
            r@ == self.guessed_view(),
    {
        &self.guessed
    }

    /// Plays one guess: reveals its first hidden occurrence, or counts a
    /// wrong guess. Returns whether the guess revealed a letter.
    pub fn guess(&mut self, c: char) -> (r: bool)
        requires
            old(self).wf(),
            !(old(self).wrong_guesses() == NUM_INCORRECT_GUESSES),
            !(old(self).revealed_count() == old(self).secret_view().len()),
        ensures
            final(self).wf(),
            final(self).secret_view() == old(self).secret_view(),
            final(self).guessed_view() == old(self).guessed_view().push(c),
            r == has_hit(old(self).secret_view(), old(self).shown_view(), c),
            r ==> final(self).revealed_count() == old(self).revealed_count() + 1
                && final(self).wrong_guesses() == old(self).wrong_guesses()
                && exists|i: int| is_first_hit(old(self).secret_view(), old(self).shown_view(), c, i)
                && final(self).shown_view() == old(self).shown_view().update(i, c),
            !r ==> final(self).revealed_count() == old(self).revealed_count()
                && final(self).wrong_guesses() == old(self).wrong_guesses() + 1
                && final(self).shown_view() == old(self).shown_view(),
    {
        let ghost old_shown = self.shown@;
        push_char(&mut self.guessed, c);
        let ghost before = *self;
        let hit = reveal_letter(&self.secret, &mut self.shown, c);
        assert(self.revealed == before.revealed);
        assert(self.secret@ == before.secret@);
        proof {
            if hit {
                let i = choose|i: int| is_first_hit(self.secret@, old_shown, c, i) && self.shown@ == old_shown.update(i, c);
                assert(is_first_hit(old(self).secret_view(), old(self).shown_view(), c, i));
            }
        }
        let n = self.secret.len();
        assert(self.revealed < n);
        if hit {
            self.revealed = self.revealed + 1;
        } else {
            self.wrong = self.wrong + 1;
        }
        hit
    }
}

} // verus!
