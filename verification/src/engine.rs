//! The authoritative game engine: owns the secret word, the set of
//! successfully guessed letters and the lives counter, and scores one
//! incoming guess byte at a time.

use vstd::prelude::*;

verus! {

/// ASCII case folding as the engine applies it to a guess before
/// matching: upper-case letters map to lower case, every other byte
/// is unchanged.
pub open spec fn spec_fold(b: u8) -> u8 {
    if 65 <= b && b <= 90 {
        (b + 32) as u8
    } else {
        b
    }
}

pub fn fold_guess(b: u8) -> (r: u8)
    ensures
        r == spec_fold(b),
{
    if b >= 65 && b <= 90 {
        b + 32
    } else {
        b
    }
}

/// The 0-based positions of `letter` in `word`, in ascending order:
/// exactly what the engine answers to a guess of `letter`.
pub open spec fn match_indexes(word: Seq<u8>, letter: u8) -> Seq<u8>
    decreases word.len(),
{
    if word.len() == 0 {
        Seq::empty()
    } else if word.last() == letter {
        match_indexes(word.drop_last(), letter).push((word.len() - 1) as u8)
    } else {
        match_indexes(word.drop_last(), letter)
    }
}

/// The index list for `letter` holds exactly the positions of `letter`
/// in `word`, each position at most once, in ascending order.
pub proof fn lemma_match_indexes_spec(word: Seq<u8>, letter: u8)
    requires
        word.len() <= 255,
    ensures
        match_indexes(word, letter).len() <= word.len(),
        forall|j: int|
            0 <= j < match_indexes(word, letter).len() ==> (#[trigger] match_indexes(
                word,
                letter,
            )[j]) < word.len() && word[match_indexes(word, letter)[j] as int] == letter,
        forall|p: int|
            0 <= p < word.len() && word[p] == letter ==> match_indexes(word, letter).contains(
                p as u8,
            ),
        forall|j1: int, j2: int|
            0 <= j1 < j2 < match_indexes(word, letter).len() ==> match_indexes(word, letter)[j1]
                < match_indexes(word, letter)[j2],
    decreases word.len(),
{
    if word.len() > 0 {
        lemma_match_indexes_spec(word.drop_last(), letter);
        assert forall|p: int|
            0 <= p < word.len() && word[p] == letter implies match_indexes(word, letter).contains(
            p as u8,
        ) by {
            if p < word.len() - 1 {
                assert(word.drop_last()[p] == letter);
                let j = choose|j: int|
                    0 <= j < match_indexes(word.drop_last(), letter).len() && match_indexes(
                        word.drop_last(),
                        letter,
                    )[j] == p as u8;
                assert(match_indexes(word, letter)[j] == p as u8);
            } else {
                assert(word.last() == letter);
                let m = match_indexes(word, letter);
                assert(m[m.len() - 1] == (word.len() - 1) as u8);
            }
        }
    }
}

/// A guess that matches nowhere leaves an empty index list, and one
/// that matches somewhere a non-empty one.
pub proof fn lemma_match_indexes_empty(word: Seq<u8>, letter: u8)
    requires
        word.len() <= 255,
    ensures
        match_indexes(word, letter).len() == 0 <==> (forall|p: int|
            0 <= p < word.len() ==> word[p] != letter),
{
    lemma_match_indexes_spec(word, letter);
    if match_indexes(word, letter).len() > 0 {
        let q = match_indexes(word, letter)[0];
        assert(word[q as int] == letter);
    }
}

/// The lives counter after a failed guess: it counts down from its
/// starting value and wraps from 0 to the loss sentinel.
pub open spec fn spec_dec_lives(l: u8) -> u8 {
    if l == 0 {
        255u8
    } else {
        (l - 1) as u8
    }
}

/// The guessed set after one guess: the folded letter joins it iff
/// the guess matched at least one position.
pub open spec fn step_guessed(word: Seq<u8>, guessed: Set<u8>, g: u8) -> Set<u8> {
    if match_indexes(word, spec_fold(g)).len() > 0 {
        guessed.insert(spec_fold(g))
    } else {
        guessed
    }
}

/// The lives counter after one guess: it decrements iff the guess
/// matched nothing.
pub open spec fn step_lives(word: Seq<u8>, lives: u8, g: u8) -> u8 {
    if match_indexes(word, spec_fold(g)).len() > 0 {
        lives
    } else {
        spec_dec_lives(lives)
    }
}

/// Every letter of the guessed set matched at least one word position.
pub open spec fn guessed_inv(word: Seq<u8>, guessed: Set<u8>) -> bool {
    forall|l: u8| #[trigger] guessed.contains(l) ==> match_indexes(word, l).len() > 0
}

pub open spec fn spec_won(word: Seq<u8>, guessed: Set<u8>) -> bool {
    forall|p: int| 0 <= p < word.len() ==> guessed.contains(#[trigger] word[p])
}

pub open spec fn spec_lost(lives: u8) -> bool {
    lives == 255
}

pub open spec fn spec_running(word: Seq<u8>, guessed: Set<u8>, lives: u8) -> bool {
    !spec_won(word, guessed) && !spec_lost(lives)
}

pub struct GameState {
    word: Vec<u8>,
    correct_guesses: Vec<u8>,
    lives_left: u8,
}

impl GameState {
    pub closed spec fn word(self) -> Seq<u8> {
        self.word@
    }

    pub closed spec fn guessed(self) -> Set<u8> {
        self.correct_guesses@.to_set()
    }

    pub closed spec fn lives(self) -> u8 {
        self.lives_left
    }

    pub closed spec fn wf(self) -> bool {
        &&& 1 <= self.word@.len() <= 255
        &&& self.correct_guesses@.no_duplicates()
        &&& forall|j: int|
            0 <= j < self.correct_guesses@.len() ==> spec_fold(
                #[trigger] self.correct_guesses@[j],
            ) == self.correct_guesses@[j] && match_indexes(
                self.word@,
                self.correct_guesses@[j],
            ).len() > 0
    }

    /// A well-formed engine keeps a word of transmissible length and a
    /// guessed set of folded letters that each matched somewhere.
    pub proof fn lemma_wf_properties(self)
        requires
            self.wf(),
        ensures
            1 <= self.word().len() <= 255,
            guessed_inv(self.word(), self.guessed()),
    {
        assert forall|l: u8| self.guessed().contains(l) implies match_indexes(
            self.word(),
            l,
        ).len() > 0 by {
            let j = choose|j: int|
                0 <= j < self.correct_guesses@.len() && self.correct_guesses@[j] == l;
            assert(match_indexes(self.word@, self.correct_guesses@[j]).len() > 0);
        }
    }

    pub fn new(word: Vec<u8>) -> (st: GameState)
        requires
            1 <= word@.len() <= 255,
        ensures
            st.wf(),
            st.word() == word@,
            st.guessed() == Set::<u8>::empty(),
            st.lives() == 5,
    {
        let st = GameState { word, correct_guesses: Vec::new(), lives_left: 5 };
        proof {
            assert(st.correct_guesses@.to_set() =~= Set::<u8>::empty());
        }
        st
    }

    pub fn word_len(&self) -> (r: u8)
        requires
            self.wf(),
        ensures
            r as int == self.word().len(),
    {
        self.word.len() as u8
    }

    /// Scores one guess: returns the ascending positions of the folded
    /// guess in the word, records the letter when it matched, and takes
    /// a life when it did not.
    pub fn handle_guess(&mut self, guess: u8) -> (indexes: Vec<u8>)
        requires
            old(self).wf(),
        ensures
            final(self).wf(),
            final(self).word() == old(self).word(),
            indexes@ == match_indexes(old(self).word(), spec_fold(guess)),
            final(self).guessed() == step_guessed(old(self).word(), old(self).guessed(), guess),
            final(self).lives() == step_lives(old(self).word(), old(self).lives(), guess),
    {
        let g = fold_guess(guess);
        let ghost w = self.word@;
        let mut indexes: Vec<u8> = Vec::new();
        let mut i: usize = 0;
        while i < self.word.len()
            invariant
                self == old(self),
                i <= w.len() <= 255,
                w == self.word@,
                indexes@ == match_indexes(w.take(i as int), g),
            decreases w.len() - i,
        {
            proof {
                assert(w.take(i + 1).drop_last() =~= w.take(i as int));
                assert(w.take(i + 1).last() == w[i as int]);
            }
            if self.word[i] == g {
                indexes.push(i as u8);
            }
            i = i + 1;
        }
        proof {
            assert(w.take(w.len() as int) =~= w);
        }
        if indexes.len() == 0 {
            self.lives_left = if self.lives_left == 0 {
                255
            } else {
                self.lives_left - 1
            };
        } else {
            if !contains_byte(&self.correct_guesses, g) {
                self.correct_guesses.push(g);
                proof {
                    let s_new = self.correct_guesses@;
                    let s_old = old(self).correct_guesses@;
                    assert forall|a: u8| s_new.contains(a) <==> (s_old.contains(a) || a
                        == g) by {
                        if s_new.contains(a) {
                            let k = choose|k: int| 0 <= k < s_new.len() && s_new[k] == a;
                            if k < s_old.len() {
                                assert(s_old[k] == a);
                            }
                        }
                        if s_old.contains(a) {
                            let k = choose|k: int| 0 <= k < s_old.len() && s_old[k] == a;
                            assert(s_new[k] == a);
                        }
                        assert(s_new[s_new.len() - 1] == g);
                    }
                    assert(s_new.to_set() =~= s_old.to_set().insert(g));
                    assert(spec_fold(g) == g);
                }
            } else {
                proof {
                    assert(self.correct_guesses@.to_set() =~= self.correct_guesses@.to_set().insert(
                        g,
                    ));
                }
            }
        }
        indexes
    }

    pub fn player_won(&self) -> (r: bool)
        requires
            self.wf(),
        ensures
            r == spec_won(self.word(), self.guessed()),
    {
        let mut i: usize = 0;
        while i < self.word.len()
            invariant
                self.wf(),
                i <= self.word@.len(),
                forall|p: int| 0 <= p < i ==> self.guessed().contains(#[trigger] self.word@[p]),
            decreases self.word@.len() - i,
        {
            if !contains_byte(&self.correct_guesses, self.word[i]) {
                return false;
            }
            i = i + 1;
        }
        true
    }

    pub fn player_lost(&self) -> (r: bool)
        ensures
            r == spec_lost(self.lives()),
    {
        self.lives_left == 255
    }

    pub fn is_running(&self) -> (r: bool)
        requires
            self.wf(),
        ensures
            r == spec_running(self.word(), self.guessed(), self.lives()),
    {
        !self.player_won() && !self.player_lost()
    }
}

/// The guessed set after a whole guess sequence, from a starting set.
pub open spec fn guessed_after(word: Seq<u8>, start: Set<u8>, guesses: Seq<u8>) -> Set<u8>
    decreases guesses.len(),
{
    if guesses.len() == 0 {
        start
    } else {
        step_guessed(word, guessed_after(word, start, guesses.drop_last()), guesses.last())
    }
}

/// The positions revealed over a whole guess sequence: the union of
/// the index lists the engine answered.
pub open spec fn revealed_after(word: Seq<u8>, guesses: Seq<u8>) -> Set<u8>
    decreases guesses.len(),
{
    if guesses.len() == 0 {
        Set::empty()
    } else {
        revealed_after(word, guesses.drop_last()).union(
            match_indexes(word, spec_fold(guesses.last())).to_set(),
        )
    }
}

/// The lives counter after a whole guess sequence, from a starting
/// value.
pub open spec fn lives_after(word: Seq<u8>, start: u8, guesses: Seq<u8>) -> u8
    decreases guesses.len(),
{
    if guesses.len() == 0 {
        start
    } else {
        step_lives(word, lives_after(word, start, guesses.drop_last()), guesses.last())
    }
}

/// Law: for any case-folded word of transmissible length and any
/// guess sequence played from a fresh engine, the revealed positions
/// are exactly the positions whose letter lies in the cumulative
/// guessed set.
pub proof fn lemma_revealed_positions(word: Seq<u8>, guesses: Seq<u8>)
    requires
        1 <= word.len() <= 255,
        forall|i: int| 0 <= i < word.len() ==> spec_fold(#[trigger] word[i]) == word[i],
    ensures
        forall|p: int|
            0 <= p < word.len() ==> (revealed_after(word, guesses).contains(p as u8)
                <==> guessed_after(word, Set::empty(), guesses).contains(#[trigger] word[p])),
    decreases guesses.len(),
{
    if guesses.len() > 0 {
        lemma_revealed_positions(word, guesses.drop_last());
        let l = spec_fold(guesses.last());
        lemma_match_indexes_spec(word, l);
        lemma_match_indexes_empty(word, l);
        let rev0 = revealed_after(word, guesses.drop_last());
        let gs0 = guessed_after(word, Set::empty(), guesses.drop_last());
        assert forall|p: int| 0 <= p < word.len() implies (revealed_after(word, guesses).contains(
            p as u8,
        ) <==> guessed_after(word, Set::empty(), guesses).contains(word[p])) by {
            assert(match_indexes(word, l).to_set().contains(p as u8) <==> word[p] == l) by {
                if match_indexes(word, l).contains(p as u8) {
                    let j = choose|j: int|
                        0 <= j < match_indexes(word, l).len() && match_indexes(word, l)[j] == (
                        p as u8);
                    assert(word[match_indexes(word, l)[j] as int] == l);
                }
            }
            if match_indexes(word, l).len() > 0 {
                assert(guessed_after(word, Set::empty(), guesses) == gs0.insert(l));
            } else {
                assert(word[p] != l);
            }
        }
    }
}

/// Law: a guess whose folded letter is already in the guessed set is
/// idempotent: the engine answers the same non-empty index list it
/// answered before, and neither the guessed set nor the lives counter
/// changes.
pub proof fn lemma_reguess_idempotent(word: Seq<u8>, guessed: Set<u8>, lives: u8, g: u8)
    requires
        guessed_inv(word, guessed),
        guessed.contains(spec_fold(g)),
    ensures
        match_indexes(word, spec_fold(g)).len() > 0,
        step_guessed(word, guessed, g) == guessed,
        step_lives(word, lives, g) == lives,
{
    assert(step_guessed(word, guessed, g) =~= guessed);
}

/// Law: from five lives, guesses that reveal nothing count the lives
/// down one by one; after five of them the game is not yet lost, and
/// the sixth reaches the loss sentinel. The guessed set never changes
/// on such guesses, so a game that was running stays running through
/// the fifth.
pub proof fn lemma_six_misses_lose(word: Seq<u8>, start: Set<u8>, guesses: Seq<u8>)
    requires
        forall|i: int|
            0 <= i < guesses.len() ==> match_indexes(
                word,
                spec_fold(#[trigger] guesses[i]),
            ).len() == 0,
        guesses.len() <= 6,
    ensures
        guessed_after(word, start, guesses) == start,
        guesses.len() <= 5 ==> lives_after(word, 5, guesses) == 5 - guesses.len(),
        guesses.len() <= 5 ==> !spec_lost(lives_after(word, 5, guesses)),
        guesses.len() <= 5 && !spec_won(word, start) ==> spec_running(
            word,
            guessed_after(word, start, guesses),
            lives_after(word, 5, guesses),
        ),
        guesses.len() == 6 ==> spec_lost(lives_after(word, 5, guesses)),
    decreases guesses.len(),
{
    if guesses.len() > 0 {
        lemma_six_misses_lose(word, start, guesses.drop_last());
    }
}

/// Law: one guess taken from a running state never produces a state
/// that is both won and lost: a matching guess leaves the lives
/// counter alone, a missing one leaves the guessed set alone.
pub proof fn lemma_terminal_exclusive_step(word: Seq<u8>, guessed: Set<u8>, lives: u8, g: u8)
    requires
        spec_running(word, guessed, lives),
    ensures
        !(spec_won(word, step_guessed(word, guessed, g)) && spec_lost(
            step_lives(word, lives, g),
        )),
{
}

fn contains_byte(v: &Vec<u8>, b: u8) -> (r: bool)
    ensures
        r == v@.contains(b),
{
    let mut i: usize = 0;
    while i < v.len()
        invariant
            i <= v@.len(),
            forall|k: int| 0 <= k < i ==> v@[k] != b,
        decreases v@.len() - i,
    {
        if v[i] == b {
            return true;
        }
        i = i + 1;
    }
    false
}

} // verus!
