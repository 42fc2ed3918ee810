//! The peer-side game mirror: rebuilds a partially revealed word and
//! a guess history from the index lists the authoritative side sends,
//! never holding the secret word itself.

use vstd::prelude::*;
use crate::engine::spec_dec_lives;
use crate::engine::spec_lost;

verus! {

/// What one applied guess result does to the reveal buffer: every
/// in-range position named by the index list now shows the guessed
/// letter, every other position keeps what it had.
pub open spec fn spec_apply_revealed(
    revealed: Seq<Option<u8>>,
    indexes: Seq<u8>,
    letter: u8,
) -> Seq<Option<u8>> {
    Seq::new(
        revealed.len(),
        |p: int|
            if indexes.contains(p as u8) {
                Some(letter)
            } else {
                revealed[p]
            },
    )
}

/// The mirror declares the game won once every position is revealed.
pub open spec fn spec_all_revealed(revealed: Seq<Option<u8>>) -> bool {
    forall|p: int| 0 <= p < revealed.len() ==> (#[trigger] revealed[p]) is Some
}

pub open spec fn spec_display_char(slot: Option<u8>) -> char {
    match slot {
        Some(b) => b as char,
        None => '_',
    }
}

/// The displayed word: revealed positions show their letter, all
/// others a placeholder glyph.
pub open spec fn spec_display(revealed: Seq<Option<u8>>) -> Seq<char> {
    revealed.map_values(|slot: Option<u8>| spec_display_char(slot))
}

/// The guess history rendered as a comma-joined log.
pub open spec fn spec_guess_log(hist: Seq<u8>) -> Seq<char>
    decreases hist.len(),
{
    if hist.len() == 0 {
        Seq::empty()
    } else if hist.len() == 1 {
        seq![hist[0] as char]
    } else {
        spec_guess_log(hist.drop_last()) + seq![',', ' ', hist.last() as char]
    }
}

/// Relies on String::push: it appends exactly the one character to
/// the end of the string.
#[verifier::external_body]
fn push_char(s: &mut String, c: char)
    ensures
        final(s)@ == old(s)@.push(c),
{
    s.push(c);
}

pub struct GameState {
    pub word_len: u8,
    pub lives_left: u8,
    pub revealed: Vec<Option<u8>>,
    pub guesses: Vec<u8>,
}

impl GameState {
    /// The reveal buffer: one slot per word position.
    pub open spec fn revealed_map(self) -> Seq<Option<u8>> {
        self.revealed@
    }

    /// Every guess attempted so far, in order, successful or not.
    pub open spec fn history(self) -> Seq<u8> {
        self.guesses@
    }

    pub open spec fn wf(self) -> bool {
        &&& self.word_len >= 1
        &&& self.revealed@.len() == self.word_len as int
    }

    pub fn with_word_len(word_len: u8) -> (st: GameState)
        requires
            word_len >= 1,
        ensures
            st.wf(),
            st.word_len == word_len,
            st.lives_left == 5,
            st.history() == Seq::<u8>::empty(),
            st.revealed_map() == Seq::new(word_len as nat, |p: int| None::<u8>),
    {
        let mut revealed: Vec<Option<u8>> = Vec::new();
        let mut i: usize = 0;
        while i < word_len as usize
            invariant
                i <= word_len as int,
                revealed@.len() == i,
                forall|p: int| 0 <= p < i ==> (#[trigger] revealed@[p]) is None,
            decreases word_len as int - i,
        {
            revealed.push(None);
            i = i + 1;
        }
        let st = GameState { word_len, lives_left: 5, revealed, guesses: Vec::new() };
        proof {
            assert(st.revealed@ =~= Seq::new(word_len as nat, |p: int| None::<u8>));
        }
        st
    }

    /// Applies one guess response: logs the guess, reveals the letter
    /// at every in-range index received, and takes a life iff the
    /// index list is empty. Returns whether the guess was correct.
    pub fn handle_guess_result(&mut self, guessed_char: u8, found_indexes: &[u8]) -> (correct:
        bool)
        requires
            old(self).wf(),
        ensures
            final(self).wf(),
            final(self).word_len == old(self).word_len,
            final(self).history() == old(self).history().push(guessed_char),
            correct == (found_indexes@.len() > 0),
            final(self).lives_left == if correct {
                old(self).lives_left
            } else {
                spec_dec_lives(old(self).lives_left)
            },
            final(self).revealed_map() == spec_apply_revealed(
                old(self).revealed_map(),
                found_indexes@,
                guessed_char,
            ),
    {
        self.guesses.push(guessed_char);
        let ghost orig = old(self).revealed@;
        let mut j: usize = 0;
        while j < found_indexes.len()
            invariant
                j <= found_indexes@.len(),
                self.word_len == old(self).word_len,
                self.lives_left == old(self).lives_left,
                self.guesses@ == old(self).guesses@.push(guessed_char),
                self.revealed@.len() == orig.len(),
                orig.len() <= 255,
                orig == old(self).revealed@,
                forall|p: int|
                    0 <= p < orig.len() ==> #[trigger] self.revealed@[p] == (if found_indexes@.take(
                        j as int,
                    ).contains(p as u8) {
                        Some(guessed_char)
                    } else {
                        orig[p]
                    }),
            decreases found_indexes@.len() - j,
        {
            let ix = found_indexes[j] as usize;
            if ix < self.revealed.len() {
                self.revealed.set(ix, Some(guessed_char));
            }
            proof {
                let taken = found_indexes@.take(j as int);
                let x = found_indexes@[j as int];
                assert(found_indexes@.take(j + 1) =~= taken.push(x));
                assert forall|a: u8| #[trigger]
                    taken.push(x).contains(a) <==> (taken.contains(a) || a == x) by {
                    lemma_contains_push(taken, x, a);
                }
            }
            j = j + 1;
        }
        proof {
            assert(found_indexes@.take(found_indexes@.len() as int) =~= found_indexes@);
            assert(self.revealed@ =~= spec_apply_revealed(orig, found_indexes@, guessed_char));
        }
        let correct = found_indexes.len() > 0;
        if !correct {
            self.lives_left = if self.lives_left == 0 {
                255
            } else {
                self.lives_left - 1
            };
        }
        correct
    }

    pub fn display_word(&self) -> (r: String)
        requires
            self.wf(),
        ensures
            r@ == spec_display(self.revealed_map()),
    {
        let mut r = String::new();
        let mut i: usize = 0;
        while i < self.revealed.len()
            invariant
                i <= self.revealed@.len(),
                r@ == spec_display(self.revealed@.take(i as int)),
            decreases self.revealed@.len() - i,
        {
            let c = match self.revealed[i] {
                Some(b) => b as char,
                None => '_',
            };
            push_char(&mut r, c);
            proof {
                assert(self.revealed@.take(i + 1) =~= self.revealed@.take(i as int).push(
                    self.revealed@[i as int],
                ));
                assert(spec_display(self.revealed@.take(i + 1)) =~= spec_display(
                    self.revealed@.take(i as int),
                ).push(spec_display_char(self.revealed@[i as int])));
            }
            i = i + 1;
        }
        proof {
            assert(self.revealed@.take(self.revealed@.len() as int) =~= self.revealed@);
        }
        r
    }

    /// The comma-joined log of every guess attempted so far.
    pub fn all_guesses(&self) -> (r: String)
        ensures
            r@ == spec_guess_log(self.history()),
    {
        let mut r = String::new();
        let mut i: usize = 0;
        while i < self.guesses.len()
            invariant
                i <= self.guesses@.len(),
                r@ == spec_guess_log(self.guesses@.take(i as int)),
            decreases self.guesses@.len() - i,
        {
            if i > 0 {
                push_char(&mut r, ',');
                push_char(&mut r, ' ');
            }
            push_char(&mut r, self.guesses[i] as char);
            proof {
                let taken = self.guesses@.take(i + 1);
                assert(taken.drop_last() =~= self.guesses@.take(i as int));
                assert(taken.last() == self.guesses@[i as int]);
                if i == 0 {
                    assert(r@ =~= seq![self.guesses@[0] as char]);
                }
            }
            i = i + 1;
        }
        proof {
            assert(self.guesses@.take(self.guesses@.len() as int) =~= self.guesses@);
        }
        r
    }

    pub fn player_won(&self) -> (r: bool)
        requires
            self.wf(),
        ensures
            r == spec_all_revealed(self.revealed_map()),
    {
        let mut i: usize = 0;
        while i < self.revealed.len()
            invariant
                i <= self.revealed@.len(),
                forall|p: int| 0 <= p < i ==> (#[trigger] self.revealed@[p]) is Some,
            decreases self.revealed@.len() - i,
        {
            if self.revealed[i].is_none() {
                return false;
            }
            i = i + 1;
        }
        true
    }

    pub fn player_lost(&self) -> (r: bool)
        ensures
            r == spec_lost(self.lives_left),
    {
        self.lives_left == 255
    }

    pub fn is_running(&self) -> (r: bool)
        requires
            self.wf(),
        ensures
            r == (!spec_all_revealed(self.revealed_map()) && !spec_lost(self.lives_left)),
    {
        !self.player_won() && !self.player_lost()
    }
}

/// Law: applied from a running mirror state, one guess result never
/// leaves the state both won and lost: a correct result keeps the
/// lives counter off the sentinel, an incorrect one reveals nothing.
pub proof fn lemma_mirror_terminal_exclusive(
    revealed: Seq<Option<u8>>,
    lives: u8,
    indexes: Seq<u8>,
    letter: u8,
)
    requires
        !spec_all_revealed(revealed),
        !spec_lost(lives),
    ensures
        !(spec_all_revealed(spec_apply_revealed(revealed, indexes, letter)) && spec_lost(
            if indexes.len() > 0 {
                lives
            } else {
                spec_dec_lives(lives)
            },
        )),
{
    if indexes.len() == 0 {
        assert(spec_apply_revealed(revealed, indexes, letter) =~= revealed);
    }
}

proof fn lemma_contains_push(s: Seq<u8>, x: u8, a: u8)
    ensures
        s.push(x).contains(a) <==> (s.contains(a) || a == x),
{
    if s.push(x).contains(a) {
        let k = choose|k: int| 0 <= k < s.push(x).len() && s.push(x)[k] == a;
        if k < s.len() {
            assert(s[k] == a);
        }
    }
    if s.contains(a) {
        let k = choose|k: int| 0 <= k < s.len() && s[k] == a;
        assert(s.push(x)[k] == a);
    }
    assert(s.push(x)[s.len() as int] == x);
}

} // verus!
