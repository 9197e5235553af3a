//! The guessing state machine: target word, candidate words, used words,
//! remaining attempts and the win/exit flags.
//!
//! Words are byte strings (the puzzle is ASCII-only).  The candidate and
//! used-word sets are kept as vectors of pairwise-distinct words.

use vstd::prelude::*;
use crate::rng::{random_below, random_bool};

verus! {

/// Default attempt budget of one session.
pub const TOTAL_TRIES: u16 = 4;

/// Outcome of one guessing attempt.
#[derive(Clone, Copy, Debug, PartialEq, Eq, Structural)]
pub enum AttemptResult {
    Correct,
    Invalid,
    Incorrect,
}

/// Reward granted by activating a clickable bracket token.
#[derive(Clone, Copy, Debug, PartialEq, Eq, Structural)]
pub enum ClickableReward {
    ResetAttempts,
    RemoveWord,
}

/// Checked failures of the puzzle engine.  Both are fatal to the session:
/// the caller aborts with a visible message rather than swallowing them.
#[derive(Clone, Copy, Debug, PartialEq, Eq, Structural)]
pub enum GameError {
    /// An elimination was requested but every non-target candidate is
    /// already used.
    EmptyChoice,
    /// A guess was scored against a target of a different length.
    IndexOutOfRange,
    /// The board cannot take another word with the required spacing: the
    /// requested words do not fit the configured buffer.
    PreconditionViolation,
}

/// Does the word list `ws` hold a word whose bytes are `w`?
pub open spec fn has_word(ws: Seq<Vec<u8>>, w: Seq<u8>) -> bool {
    exists|i: int| 0 <= i < ws.len() && ws[i]@ == w
}

/// No two words of `ws` have the same bytes.
pub open spec fn distinct_words(ws: Seq<Vec<u8>>) -> bool {
    forall|i: int, j: int| 0 <= i < j < ws.len() ==> ws[i]@ != ws[j]@
}

pub struct GameState {
    pub won: bool,
    pub exit: bool,
    pub tries: u16,
    pub max_attempts: u16,
    pub word_list: Vec<Vec<u8>>,
    pub target_word: Vec<u8>,
    pub used_words: Vec<Vec<u8>>,
}

/// The state after an unconditional attempt reset.
pub open spec fn spec_reset(s: GameState) -> GameState {
    GameState { tries: s.max_attempts, ..s }
}

/// One attempt consumed: the counter goes down by one but never below zero.
pub open spec fn spec_consume_try(t: u16) -> u16 {
    if t > 0 { (t - 1) as u16 } else { 0 }
}

/// Can `w` still be eliminated in state `s`?  It must be a candidate, not
/// the target, and not used yet.
pub open spec fn eliminable(s: GameState, w: Seq<u8>) -> bool {
    &&& has_word(s.word_list@, w)
    &&& w != s.target_word@
    &&& !has_word(s.used_words@, w)
}

/// The state transition of one guess of `w`: the target sets `won` and
/// consumes an attempt, an unused non-target candidate consumes an attempt,
/// and anything else restores the full attempt budget.
pub open spec fn attempt_transition(g0: GameState, g1: GameState, w: Seq<u8>) -> bool {
    if w == g0.target_word@ {
        g1 == (GameState { won: true, tries: spec_consume_try(g0.tries), ..g0 })
    } else if has_word(g0.word_list@, w) && !has_word(g0.used_words@, w) {
        g1 == (GameState { tries: spec_consume_try(g0.tries), ..g0 })
    } else {
        g1 == spec_reset(g0)
    }
}

/// The state transition of one elimination: `w` was eliminable and is now
/// appended to the used words; everything else is untouched.
pub open spec fn removed_word_transition(g0: GameState, g1: GameState, w: Seq<u8>) -> bool {
    &&& eliminable(g0, w)
    &&& g1.used_words@.len() == g0.used_words@.len() + 1
    &&& g1.used_words@[g0.used_words@.len() as int]@ == w
    &&& forall|k: int| 0 <= k < g0.used_words@.len() ==> g1.used_words@[k] == g0.used_words@[k]
    &&& g1 == (GameState { used_words: g1.used_words, ..g0 })
}

impl GameState {
    /// Session invariant: the target is a candidate and is never used up
    /// while the game runs; the used words are distinct candidates; the
    /// attempt counter stays within its budget.  The bound on the target's
    /// length keeps attempt scores inside `u32`.
    pub open spec fn wf(self) -> bool {
        &&& has_word(self.word_list@, self.target_word@)
        &&& distinct_words(self.word_list@)
        &&& distinct_words(self.used_words@)
        &&& forall|i: int|
            0 <= i < self.used_words@.len() ==> has_word(
                self.word_list@,
                self.used_words@[i]@,
            )
        &&& !has_word(self.used_words@, self.target_word@)
        &&& self.tries <= self.max_attempts
        &&& self.target_word@.len() <= u32::MAX
    }

    /// A fresh session over `word_list` whose target is the word at
    /// `target_index`, with a full attempt budget.
    pub fn new(word_list: Vec<Vec<u8>>, target_index: usize, max_attempts: u16) -> (s: GameState)
        requires
            target_index < word_list@.len(),
            distinct_words(word_list@),
            word_list@[target_index as int]@.len() <= u32::MAX,
        ensures
            s.wf(),
            s.word_list@ == word_list@,
            s.target_word@ == word_list@[target_index as int]@,
            s.used_words@.len() == 0,
            s.tries == max_attempts,
            s.max_attempts == max_attempts,
            !s.won,
            !s.exit,
    {
        let target_word = word_list[target_index].clone();
        GameState {
            won: false,
            exit: false,
            tries: max_attempts,
            max_attempts,
            word_list,
            target_word,
            used_words: Vec::new(),
        }
    }

    /// A fresh session over `word_list` whose target is drawn uniformly
    /// from the list.
    pub fn new_with_random_target(word_list: Vec<Vec<u8>>, max_attempts: u16) -> (s: GameState)
        requires
            word_list@.len() >= 1,
            distinct_words(word_list@),
            forall|i: int| 0 <= i < word_list@.len() ==> (#[trigger] word_list@[i])@.len()
                <= u32::MAX,
        ensures
            s.wf(),
            s.word_list@ == word_list@,
            exists|i: int|
                0 <= i < word_list@.len() && (#[trigger] word_list@[i])@ == s.target_word@,
            s.used_words@.len() == 0,
            s.tries == max_attempts,
            s.max_attempts == max_attempts,
            !s.won,
            !s.exit,
    {
        let target_index = random_below(word_list.len());
        GameState::new(word_list, target_index, max_attempts)
    }

    /// The session is still running: attempts remain and nothing was won.
    pub fn game_on(&self) -> (r: bool)
        ensures
            r == (self.tries > 0 && !self.won),
    {
        return self.tries > 0 && !self.won;
    }

    /// Restores the full attempt budget, touching nothing else.  Done twice
    /// in a row it leaves the same state as done once (see
    /// `lemma_reset_attempts_idempotent`).
    pub fn reset_attempts(&mut self)
        ensures
            *final(self) == spec_reset(*old(self)),
    {
        self.tries = self.max_attempts;
    }

    /// One guess.  The target wins (and still consumes an attempt); an
    /// unused non-target candidate is merely incorrect and consumes an
    /// attempt; anything else — an unknown word or a used-up candidate — is
    /// invalid and restores the full attempt budget instead.
    pub fn do_try(&mut self, attempt: Vec<u8>) -> (r: AttemptResult)
        requires
            old(self).wf(),
        ensures
            final(self).wf(),
            (r == AttemptResult::Correct) <==> attempt@ == old(self).target_word@,
            (r == AttemptResult::Incorrect) <==> (attempt@ != old(self).target_word@
                && has_word(old(self).word_list@, attempt@) && !has_word(
                old(self).used_words@,
                attempt@,
            )),
            r == AttemptResult::Correct ==> *final(self) == (GameState {
                won: true,
                tries: spec_consume_try(old(self).tries),
                ..*old(self)
            }),
            r == AttemptResult::Incorrect ==> *final(self) == (GameState {
                tries: spec_consume_try(old(self).tries),
                ..*old(self)
            }),
            r == AttemptResult::Invalid ==> *final(self) == spec_reset(*old(self)),
            attempt_transition(*old(self), *final(self), attempt@),
    {
        let resp = if self.target_word == attempt {
            proof {
                assert(attempt@ =~= self.target_word@);
            }
            self.won = true;
            AttemptResult::Correct
        } else if list_contains(&self.word_list, &attempt) && !list_contains(
            &self.used_words,
            &attempt,
        ) {
            AttemptResult::Incorrect
        } else {
            self.reset_attempts();
            AttemptResult::Invalid
        };
        match resp {
            AttemptResult::Invalid => (),
            _ => {
                if self.tries > 0 {
                    self.tries = self.tries - 1;
                }
            },
        }
        resp
    }

    /// Count of positions where the guess and the target hold the same
    /// character.  A guess of another length than the target is refused
    /// with `IndexOutOfRange` instead of being truncated.
    pub fn get_attempt_score(&self, attempt: &Vec<u8>) -> (r: Result<u32, GameError>)
        requires
            self.target_word@.len() <= u32::MAX,
        ensures
            r is Ok <==> attempt@.len() == self.target_word@.len(),
            r is Ok ==> r->Ok_0 == spec_score(attempt@, self.target_word@, attempt@.len() as int),
            r is Err ==> r == Err::<u32, GameError>(GameError::IndexOutOfRange),
    {
        if attempt.len() != self.target_word.len() {
            return Err(GameError::IndexOutOfRange);
        }
        let mut score: u32 = 0;
        let mut i: usize = 0;
        while i < attempt.len()
            invariant
                i <= attempt@.len(),
                attempt@.len() == self.target_word@.len() <= u32::MAX,
                score == spec_score(attempt@, self.target_word@, i as int),
                score <= i,
            decreases attempt@.len() - i,
        {
            if attempt[i] == self.target_word[i] {
                score = score + 1;
            }
            i = i + 1;
        }
        Ok(score)
    }

    /// The candidates that are still in play: every word of the candidate
    /// list that is not used yet, each exactly once.
    pub fn get_available_choices(&self) -> (r: Vec<Vec<u8>>)
        requires
            self.wf(),
        ensures
            forall|k: int|
                0 <= k < r@.len() ==> has_word(self.word_list@, r@[k]@) && !has_word(
                    self.used_words@,
                    r@[k]@,
                ),
            forall|w: Seq<u8>|
                has_word(self.word_list@, w) && !has_word(self.used_words@, w) ==> has_word(r@, w),
            distinct_words(r@),
    {
        let mut r: Vec<Vec<u8>> = Vec::new();
        let mut i: usize = 0;
        while i < self.word_list.len()
            invariant
                i <= self.word_list@.len(),
                distinct_words(self.word_list@),
                forall|k: int|
                    #![trigger r@[k]]
                    0 <= k < r@.len() ==> exists|j: int|
                        0 <= j < i && (#[trigger] self.word_list@[j])@ == r@[k]@,
                forall|k: int| 0 <= k < r@.len() ==> !has_word(self.used_words@, #[trigger] r@[k]@),
                forall|j: int|
                    0 <= j < i && !has_word(self.used_words@, #[trigger] self.word_list@[j]@)
                        ==> has_word(r@, self.word_list@[j]@),
                distinct_words(r@),
            decreases self.word_list@.len() - i,
        {
            if !list_contains(&self.used_words, &self.word_list[i]) {
                let ghost r_old = r@;
                let w = self.word_list[i].clone();
                proof {
                    assert(w@ =~= self.word_list@[i as int]@);
                }
                r.push(w);
                proof {
                    assert(r@[r_old.len() as int]@ == self.word_list@[i as int]@);
                    assert forall|k: int|
                        #![trigger r@[k]]
                        0 <= k < r@.len() implies exists|j: int|
                        0 <= j < i + 1 && (#[trigger] self.word_list@[j])@ == r@[k]@ by {
                        if k < r_old.len() {
                            let j = choose|j: int|
                                0 <= j < i && (#[trigger] self.word_list@[j])@ == r_old[k]@;
                            assert((self.word_list@[j])@ == r@[k]@);
                        } else {
                            assert((self.word_list@[i as int])@ == r@[k]@);
                        }
                    }
                    assert forall|j: int|
                        0 <= j < i + 1 && !has_word(
                            self.used_words@,
                            #[trigger] self.word_list@[j]@,
                        ) implies has_word(r@, self.word_list@[j]@) by {
                        if j < i {
                            let k = choose|k: int|
                                0 <= k < r_old.len() && r_old[k]@ == self.word_list@[j]@;
                            assert(r@[k]@ == self.word_list@[j]@);
                        } else {
                            assert(r@[r_old.len() as int]@ == self.word_list@[j]@);
                        }
                    }
                    assert forall|a: int, b: int|
                        0 <= a < b < r@.len() implies r@[a]@ != r@[b]@ by {
                        if b == r_old.len() as int {
                            let j = choose|j: int|
                                0 <= j < i && (#[trigger] self.word_list@[j])@ == r_old[a]@;
                            assert(self.word_list@[j]@ != self.word_list@[i as int]@);
                        }
                    }
                }
            }
            i = i + 1;
        }
        r
    }

    /// Eliminates one randomly chosen word that is neither the target nor
    /// already used, adds it to the used words, and returns it.  When no
    /// such word is left the session state is untouched and `EmptyChoice`
    /// is reported.
    pub fn remove_choice(&mut self) -> (r: Result<Vec<u8>, GameError>)
        requires
            old(self).wf(),
        ensures
            final(self).wf(),
            (r is Ok) <==> exists|w: Seq<u8>| eliminable(*old(self), w),
            r is Err ==> r == Err::<Vec<u8>, GameError>(GameError::EmptyChoice) && *final(self)
                == *old(self),
            r is Ok ==> removed_word_transition(*old(self), *final(self), r->Ok_0@),
    {
        let choices = self.get_available_choices();
        let mut removable: Vec<Vec<u8>> = Vec::new();
        let mut i: usize = 0;
        while i < choices.len()
            invariant
                i <= choices@.len(),
                forall|k: int|
                    0 <= k < choices@.len() ==> has_word(self.word_list@, #[trigger] choices@[k]@)
                        && !has_word(self.used_words@, choices@[k]@),
                forall|k: int|
                    0 <= k < removable@.len() ==> has_word(
                        self.word_list@,
                        #[trigger] removable@[k]@,
                    ) && !has_word(self.used_words@, removable@[k]@) && removable@[k]@
                        != self.target_word@,
                forall|j: int|
                    0 <= j < i && choices@[j]@ != self.target_word@ ==> has_word(
                        removable@,
                        #[trigger] choices@[j]@,
                    ),
            decreases choices@.len() - i,
        {
            if !(choices[i] == self.target_word) {
                let ghost rem_old = removable@;
                let w = choices[i].clone();
                proof {
                    assert(w@ =~= choices@[i as int]@);
                }
                removable.push(w);
                proof {
                    assert(removable@[rem_old.len() as int]@ == choices@[i as int]@);
                    assert forall|j: int|
                        0 <= j < i + 1 && choices@[j]@ != self.target_word@ implies has_word(
                        removable@,
                        #[trigger] choices@[j]@,
                    ) by {
                        if j < i {
                            let k = choose|k: int|
                                0 <= k < rem_old.len() && rem_old[k]@ == choices@[j]@;
                            assert(removable@[k]@ == choices@[j]@);
                        } else {
                            assert(removable@[rem_old.len() as int]@ == choices@[j]@);
                        }
                    }
                }
            } else {
                proof {
                    assert(choices@[i as int]@ =~= self.target_word@);
                }
            }
            i = i + 1;
        }
        if removable.len() == 0 {
            proof {
                assert forall|w: Seq<u8>| !eliminable(*old(self), w) by {
                    if eliminable(*old(self), w) {
                        assert(has_word(choices@, w));
                        let j = choose|j: int| 0 <= j < choices@.len() && choices@[j]@ == w;
                        assert(has_word(removable@, choices@[j]@));
                    }
                }
            }
            return Err(GameError::EmptyChoice);
        }
        let k = random_below(removable.len());
        let to_remove = removable[k].clone();
        proof {
            assert(to_remove@ =~= removable@[k as int]@);
        }
        let returned = to_remove.clone();
        proof {
            assert(returned@ =~= to_remove@);
            assert(eliminable(*old(self), returned@));
        }
        self.used_words.push(to_remove);
        proof {
            let s = *self;
            let olds = *old(self);
            assert forall|a: int, b: int|
                0 <= a < b < s.used_words@.len() implies s.used_words@[a]@ != s.used_words@[b]@ by {
                if b < olds.used_words@.len() as int {
                } else {
                    assert(s.used_words@[b]@ == returned@);
                    assert(!has_word(olds.used_words@, returned@));
                }
            }
        }
        Ok(returned)
    }

    /// The random bonus for a clickable token: a coin flip between a full
    /// attempt reset and the elimination of one wrong candidate.
    pub fn random_clickable_reward() -> (r: ClickableReward)
        ensures
            r == ClickableReward::ResetAttempts || r == ClickableReward::RemoveWord,
    {
        let b = random_bool();
        if b {
            ClickableReward::ResetAttempts
        } else {
            ClickableReward::RemoveWord
        }
    }
}

/// How many of the first `n` positions of `a` and `t` hold the same byte.
pub open spec fn spec_score(a: Seq<u8>, t: Seq<u8>, n: int) -> int
    decreases n,
{
    if n <= 0 {
        0
    } else {
        spec_score(a, t, n - 1) + if a[n - 1] == t[n - 1] {
            1int
        } else {
            0int
        }
    }
}

/// Does the word list `ws` hold a word whose bytes are `w`?
fn list_contains(ws: &Vec<Vec<u8>>, w: &Vec<u8>) -> (r: bool)
    ensures
        r == has_word(ws@, w@),
{
    let mut i: usize = 0;
    while i < ws.len()
        invariant
            i <= ws@.len(),
            forall|j: int| 0 <= j < i ==> ws@[j]@ != w@,
        decreases ws@.len() - i,
    {
        if ws[i] == *w {
            proof {
                assert(ws@[i as int]@ =~= w@);
            }
            return true;
        }
        i = i + 1;
    }
    false
}

/// Law: resetting the attempt counter is idempotent — a second reset leaves
/// exactly the state the first one produced, with no accumulation.
pub proof fn lemma_reset_attempts_idempotent(s: GameState)
    ensures
        spec_reset(spec_reset(s)) == spec_reset(s),
{
}

} // verus!
