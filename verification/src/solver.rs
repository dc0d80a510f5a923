//! One session of the game: the word list, what is known, and the next
//! suggestions.

use vstd::prelude::*;
use vstd::string::StrSliceExecFns;
use crate::analysis::LetterStats;
use crate::feedback::{mark_at, verdict, WORD_LEN};
use crate::filter::{filtered, Filter};
use crate::game::{ingest, is_mark, is_pattern, line_records, GameData, Knowledge, LineError};
use crate::stats::MAX_GUESSES;
use crate::ranking::{
    arranged, plain_scores, rank_words, ranking_of, weighted_rank, weighted_scores, WeightTable,
    Weights,
};
use crate::text::{lines_in, lines_of_text, normal_form, normalize, same_text};

verus! {

/// Where a session stands.
#[derive(Debug, Clone, Copy, PartialEq, Eq, Structural)]
pub enum Phase {
    /// Guesses are accepted.
    Active,
    /// Every place of the word is confirmed.
    Solved,
    /// No word of the list agrees with the feedback.
    Exhausted,
}

/// Why a solver could not be made.
#[derive(Debug, Clone, Copy, PartialEq, Eq, Structural)]
pub enum SolverError {
    /// The word list holds no word of five characters.
    EmptyWordList,
}

/// Why a guess was turned down.
#[derive(Debug, Clone, Copy, PartialEq, Eq, Structural)]
pub enum GuessError {
    /// The session is over: the word is solved or no candidate is left.
    Finished,
    /// The guess has not exactly five characters.
    WordLength,
    /// The guess is not in the word list.
    UnknownWord,
    /// The pattern has not exactly five characters.
    PatternLength,
    /// The pattern holds a character that is no mark.
    UnknownMark,
}

/// What an accepted guess led to.
#[derive(Debug)]
pub enum Turn {
    /// Every place is confirmed; the word is this.
    Solved(String),
    /// No word of the list agrees with the feedback.
    Exhausted,
    /// The candidates left, ranked, with their scores.
    Suggestions(Vec<(String, i128)>),
}

/// Whether one of `words` reads `word`.
pub open spec fn lists_word(words: Seq<String>, word: Seq<char>) -> bool {
    exists|i: int| 0 <= i < words.len() && (#[trigger] words[i])@ == word
}

/// The words of `words` that have five characters, in their order.
pub open spec fn five_letter_words(words: Seq<String>) -> Seq<String> {
    words.filter(|w: String| w@.len() == WORD_LEN)
}

/// What each of `words` reads.
pub open spec fn texts(words: Seq<String>) -> Seq<Seq<char>> {
    Seq::new(words.len(), |i: int| words[i]@)
}

/// The words of a word list given as text: its lines, each without the white
/// space at its ends and in lower case.
pub open spec fn listed_words(content: Seq<char>) -> Seq<Seq<char>> {
    Seq::new(
        lines_of_text(content).len(),
        |i: int| normal_form(lines_of_text(content)[i]),
    )
}

/// Those of `texts` that have five characters, in their order.
pub open spec fn five_letter_texts(texts: Seq<Seq<char>>) -> Seq<Seq<char>> {
    texts.filter(|t: Seq<char>| t.len() == WORD_LEN)
}

/// The five-letter words of a list read what the five-letter texts among
/// the texts of the list read.
pub proof fn lemma_texts_of_five_letter_words(words: Seq<String>)
    ensures
        texts(five_letter_words(words)) == five_letter_texts(texts(words)),
    decreases words.len(),
{
    reveal(Seq::filter);
    if words.len() == 0 {
        assert(texts(five_letter_words(words)) =~= five_letter_texts(texts(words)));
    } else {
        lemma_texts_of_five_letter_words(words.drop_last());
        assert(texts(words).drop_last() =~= texts(words.drop_last()));
        assert(texts(words).last() == words.last()@);
        assert(texts(five_letter_words(words)) =~= five_letter_texts(texts(words)));
    }
}

/// The number of guesses that a game of self-play takes from a state in
/// which `made` guesses are made, `k` is known and `candidates` are left;
/// one more than the most allowed where the game is lost.
///
/// The first guess is the best candidate by positional frequency. Every
/// later guess is the best by weighted score among the candidates that agree
/// with what is known. A guess that is the target wins. Any other guess is
/// scored against the target and its feedback is taken in. The game is lost
/// when no candidate is left, when a guess is not a five-letter word of the
/// list, or when the guesses are used up.
pub open spec fn play_on(
    corpus: Seq<String>,
    stats: LetterStats,
    weights: WeightTable,
    target: Seq<char>,
    k: Knowledge,
    candidates: Seq<String>,
    made: nat,
) -> nat
    decreases MAX_GUESSES - made,
{
    if made >= MAX_GUESSES {
        (MAX_GUESSES + 1) as nat
    } else {
        let left = if made == 0 {
            candidates
        } else {
            filtered(candidates, k)
        };
        let scores = if made == 0 {
            plain_scores(left, stats)
        } else {
            weighted_scores(left, stats, weights.at(made as int))
        };
        if left.len() == 0 {
            (MAX_GUESSES + 1) as nat
        } else {
            let guess = left[ranking_of(scores)[0]]@;
            if guess == target {
                made + 1
            } else if guess.len() != WORD_LEN || !lists_word(corpus, guess) {
                (MAX_GUESSES + 1) as nat
            } else {
                play_on(
                    corpus,
                    stats,
                    weights,
                    target,
                    ingest(k, guess, verdict(guess, target)),
                    left,
                    made + 1,
                )
            }
        }
    }
}

/// The number of guesses that self-play on `corpus` takes to find `target`;
/// one more than the most allowed where it does not find it.
pub open spec fn simulated(
    corpus: Seq<String>,
    stats: LetterStats,
    weights: WeightTable,
    target: Seq<char>,
) -> nat {
    play_on(corpus, stats, weights, target, GameData::new_view(), corpus, 0)
}

/// A game of self-play in which no candidate is left for the next guess is
/// lost: it counts one more than the guesses allowed.
pub proof fn lemma_lost_without_candidates(
    corpus: Seq<String>,
    stats: LetterStats,
    weights: WeightTable,
    target: Seq<char>,
    k: Knowledge,
    candidates: Seq<String>,
    made: nat,
)
    requires
        (if made == 0 {
            candidates
        } else {
            filtered(candidates, k)
        }).len() == 0,
    ensures
        play_on(corpus, stats, weights, target, k, candidates, made) == MAX_GUESSES + 1,
{
}

/// A game of self-play takes at least one guess, and counts at most one more
/// than the guesses allowed.
pub proof fn lemma_play_on_bounds(
    corpus: Seq<String>,
    stats: LetterStats,
    weights: WeightTable,
    target: Seq<char>,
    k: Knowledge,
    candidates: Seq<String>,
    made: nat,
)
    ensures
        made < play_on(corpus, stats, weights, target, k, candidates, made) || play_on(
            corpus,
            stats,
            weights,
            target,
            k,
            candidates,
            made,
        ) == MAX_GUESSES + 1,
        play_on(corpus, stats, weights, target, k, candidates, made) <= MAX_GUESSES + 1,
    decreases MAX_GUESSES - made,
{
    if made < MAX_GUESSES {
        let left = if made == 0 {
            candidates
        } else {
            filtered(candidates, k)
        };
        let scores = if made == 0 {
            plain_scores(left, stats)
        } else {
            weighted_scores(left, stats, weights.at(made as int))
        };
        if left.len() > 0 {
            let guess = left[ranking_of(scores)[0]]@;
            if guess != target && guess.len() == WORD_LEN && lists_word(corpus, guess) {
                lemma_play_on_bounds(
                    corpus,
                    stats,
                    weights,
                    target,
                    ingest(k, guess, verdict(guess, target)),
                    left,
                    made + 1,
                );
            }
        }
    }
}

/// The solver of one session.
pub struct Solver {
    game: GameData,
    current_words: Vec<String>,
    all_words: Vec<String>,
    phase: Phase,
    pending: Option<String>,
}

/// What the session answers to a line of input.
#[derive(Debug)]
pub enum Reply {
    /// The player leaves.
    Quit,
    /// The session was started anew.
    Restarted,
    /// The session is over and takes no guess.
    Finished,
    /// The guess has not five characters.
    BadLength,
    /// The guess is not in the word list.
    UnknownWord(String),
    /// The guess is taken; its pattern is asked for next.
    AskPattern,
    /// The pattern is not five marks; the guess is dropped.
    BadPattern,
    /// The guess and its pattern were taken in, and every place is
    /// confirmed; the word is this.
    Solved(String),
    /// The guess and its pattern were taken in; the candidates are to be
    /// ranked next.
    Accepted,
}

/// Whether one of `words` reads as `word` does.
fn has_word(words: &Vec<String>, word: &str) -> (found: bool)
    ensures
        found == lists_word(words@, word@),
{
    let mut i: usize = 0;
    while i < words.len()
        invariant
            i <= words@.len(),
            forall|j: int| 0 <= j < i ==> (#[trigger] words@[j])@ != word@,
        decreases words@.len() - i,
    {
        if crate::text::same_text(words[i].as_str(), word) {
            return true;
        }
        i += 1;
    }
    false
}

/// A copy of `words`.
fn copy_words(words: &Vec<String>) -> (copy: Vec<String>)
    ensures
        copy@ == words@,
{
    let mut copy: Vec<String> = Vec::new();
    let mut i: usize = 0;
    while i < words.len()
        invariant
            i <= words@.len(),
            copy@ == words@.take(i as int),
        decreases words@.len() - i,
    {
        copy.push(words[i].clone());
        assert(words@.take(i as int).push(words@[i as int]) =~= words@.take(i + 1));
        i += 1;
    }
    assert(words@.take(words@.len() as int) =~= words@);
    copy
}

impl Solver {
    /// The state of the game.
    pub closed spec fn game(&self) -> GameData {
        self.game
    }

    /// The words that still agree with the feedback taken in.
    pub closed spec fn candidates(&self) -> Seq<String> {
        self.current_words@
    }

    /// The whole word list.
    pub closed spec fn corpus(&self) -> Seq<String> {
        self.all_words@
    }

    /// Where the session stands.
    pub closed spec fn phase(&self) -> Phase {
        self.phase
    }

    /// The guess that waits for its pattern, if there is one.
    pub closed spec fn pending(&self) -> Option<String> {
        self.pending
    }

    /// Why the guess `word` with the marks `pattern` is turned down, if it
    /// is: the first of these that holds. The session is over; the guess has
    /// not five characters; it is not in the word list; the pattern has not
    /// five characters; the pattern holds a character that is no mark.
    pub open spec fn refusal(&self, word: Seq<char>, pattern: Seq<char>) -> Option<GuessError> {
        if self.phase() != Phase::Active {
            Some(GuessError::Finished)
        } else if word.len() != WORD_LEN {
            Some(GuessError::WordLength)
        } else if !lists_word(self.corpus(), word) {
            Some(GuessError::UnknownWord)
        } else if pattern.len() != WORD_LEN {
            Some(GuessError::PatternLength)
        } else if !is_pattern(pattern) {
            Some(GuessError::UnknownMark)
        } else {
            None
        }
    }

    /// Whether the session has taken `word` and `pattern` in, with the
    /// candidates as they were, and `found` is the word where every place is
    /// now confirmed, which ends the session, and nothing where not.
    pub open spec fn accepted(
        &self,
        before: Solver,
        word: Seq<char>,
        pattern: Seq<char>,
        found: Option<String>,
    ) -> bool {
        &&& self.corpus() == before.corpus()
        &&& self.pending() == before.pending()
        &&& self.candidates() == before.candidates()
        &&& self.game()@ == ingest(before.game()@, word, pattern)
        &&& self.game().lines@.len() == before.game().lines@.len() + 1
        &&& self.game().lines@.drop_last() == before.game().lines@
        &&& line_records(self.game().lines@.last(), word, pattern)
        &&& found is Some <==> self.game().solved()
        &&& found is Some ==> self.phase() == Phase::Solved && found->0@ == Seq::new(
            WORD_LEN as nat,
            |i: int| self.game()@.correct[i]->0,
        )
        &&& found is None ==> self.phase() == before.phase()
    }

    /// Whether the session has taken `word` and `pattern` in and stands
    /// where `turn` says: solved, with the candidates as they were; or with
    /// the candidates narrowed to those that agree with what is now known,
    /// exhausted where none is left, and else with these ranked by weighted
    /// score, under the weights of the attempt whose number is the number of
    /// guesses made.
    pub open spec fn played(
        &self,
        before: Solver,
        word: Seq<char>,
        pattern: Seq<char>,
        stats: LetterStats,
        weights: WeightTable,
        turn: Turn,
    ) -> bool {
        &&& self.corpus() == before.corpus()
        &&& self.pending() == before.pending()
        &&& self.game()@ == ingest(before.game()@, word, pattern)
        &&& self.game().lines@.len() == before.game().lines@.len() + 1
        &&& self.game().lines@.drop_last() == before.game().lines@
        &&& line_records(self.game().lines@.last(), word, pattern)
        &&& match turn {
            Turn::Solved(found) => {
                &&& self.game().solved()
                &&& self.phase() == Phase::Solved
                &&& self.candidates() == before.candidates()
                &&& found@ == Seq::new(WORD_LEN as nat, |i: int| self.game()@.correct[i]->0)
            },
            Turn::Exhausted => {
                &&& !self.game().solved()
                &&& self.phase() == Phase::Exhausted
                &&& self.candidates() == filtered(before.candidates(), self.game()@)
                &&& self.candidates().len() == 0
            },
            Turn::Suggestions(ranked) => {
                &&& !self.game().solved()
                &&& self.phase() == Phase::Active
                &&& self.candidates() == filtered(before.candidates(), self.game()@)
                &&& self.candidates().len() > 0
                &&& arranged(
                    ranked@,
                    self.candidates(),
                    weighted_scores(
                        self.candidates(),
                        stats,
                        weights.at(self.game().lines@.len() as int),
                    ),
                    ranking_of(
                        weighted_scores(
                            self.candidates(),
                            stats,
                            weights.at(self.game().lines@.len() as int),
                        ),
                    ),
                )
            },
        }
    }

    /// The word list is not empty, every word in it has five characters, and
    /// the state of the game is well formed.
    pub open spec fn wf(&self) -> bool {
        &&& self.game().wf()
        &&& self.corpus().len() > 0
        &&& forall|i: int| 0 <= i < self.corpus().len() ==> (#[trigger] self.corpus()[i])@.len() == WORD_LEN
        &&& forall|i: int|
            0 <= i < self.candidates().len() ==> (#[trigger] self.candidates()[i])@.len() == WORD_LEN
    }

    /// The words of a word list given as text: each line without the white
    /// space at its ends, in lower case.
    pub fn read_words(content: &str) -> (words: Vec<String>)
        ensures
            words@.len() == lines_of_text(content@).len(),
            forall|i: int|
                0 <= i < words@.len() ==> (#[trigger] words@[i])@ == normal_form(
                    lines_of_text(content@)[i],
                ),
    {
        let lines = lines_in(content);
        let mut words: Vec<String> = Vec::new();
        let mut i: usize = 0;
        while i < lines.len()
            invariant
                i <= lines@.len(),
                words@.len() == i,
                forall|j: int| 0 <= j < i ==> (#[trigger] words@[j])@ == normal_form(lines@[j]@),
            decreases lines@.len() - i,
        {
            words.push(normalize(lines[i].as_str()));
            i += 1;
        }
        words
    }

    /// A solver for the word list in `content`, one word on each line. The
    /// lines are read as [`Self::read_words`] says, and handed to
    /// [`Self::from_words`].
    pub fn new(content: &str) -> (outcome: Result<Solver, SolverError>)
        ensures
            outcome is Ok <==> five_letter_texts(listed_words(content@)).len() > 0,
            outcome is Err ==> outcome->Err_0 == SolverError::EmptyWordList,
            outcome is Ok ==> outcome->Ok_0.wf() && outcome->Ok_0.phase() == Phase::Active,
            outcome is Ok ==> texts(outcome->Ok_0.corpus()) == five_letter_texts(
                listed_words(content@),
            ),
            outcome is Ok ==> outcome->Ok_0.candidates() == outcome->Ok_0.corpus(),
            outcome is Ok ==> outcome->Ok_0.game().lines@.len() == 0,
            outcome is Ok ==> outcome->Ok_0.game()@ == GameData::new_view(),
            outcome is Ok ==> outcome->Ok_0.pending() is None,
    {
        let words = Solver::read_words(content);
        proof {
            assert(texts(words@) =~= listed_words(content@));
            lemma_texts_of_five_letter_words(words@);
        }
        Solver::from_words(words)
    }

    /// A solver for `words`. Only the words of five characters are kept; the
    /// solver cannot be made where there is none.
    pub fn from_words(words: Vec<String>) -> (outcome: Result<Solver, SolverError>)
        ensures
            outcome is Ok <==> five_letter_words(words@).len() > 0,
            outcome is Err ==> outcome->Err_0 == SolverError::EmptyWordList,
            outcome is Ok ==> outcome->Ok_0.wf() && outcome->Ok_0.phase() == Phase::Active,
            outcome is Ok ==> outcome->Ok_0.corpus() == five_letter_words(words@),
            outcome is Ok ==> outcome->Ok_0.candidates() == five_letter_words(words@),
            outcome is Ok ==> outcome->Ok_0.game().lines@.len() == 0,
            outcome is Ok ==> outcome->Ok_0.game()@ == GameData::new_view(),
            outcome is Ok ==> outcome->Ok_0.pending() is None,
    {
        let ghost p = |w: String| w@.len() == WORD_LEN;
        let mut kept: Vec<String> = Vec::new();
        let mut i: usize = 0;
        proof {
            reveal(Seq::filter);
            assert(words@.take(0) =~= Seq::<String>::empty());
        }
        while i < words.len()
            invariant
                i <= words@.len(),
                p == (|w: String| w@.len() == WORD_LEN),
                kept@ == words@.take(i as int).filter(p),
                forall|j: int| 0 <= j < kept@.len() ==> (#[trigger] kept@[j])@.len() == WORD_LEN,
            decreases words@.len() - i,
        {
            proof {
                reveal(Seq::filter);
                assert(words@.take(i + 1).drop_last() =~= words@.take(i as int));
            }
            if words[i].as_str().unicode_len() == WORD_LEN {
                kept.push(words[i].clone());
            }
            i += 1;
        }
        assert(words@.take(words@.len() as int) =~= words@);
        if kept.len() == 0 {
            return Err(SolverError::EmptyWordList);
        }
        let all_words = copy_words(&kept);
        Ok(Solver { game: GameData::new(), current_words: kept, all_words, phase: Phase::Active, pending: None })
    }

    /// The whole word list.
    pub fn all_words(&self) -> (words: &Vec<String>)
        ensures
            words@ == self.corpus(),
    {
        &self.all_words
    }

    /// The words that still agree with the feedback taken in.
    pub fn current_words(&self) -> (words: &Vec<String>)
        ensures
            words@ == self.candidates(),
    {
        &self.current_words
    }

    /// The state of the game.
    pub fn game_data(&self) -> (game: &GameData)
        ensures
            *game == self.game(),
    {
        &self.game
    }

    /// Where the session stands.
    pub fn current_phase(&self) -> (phase: Phase)
        ensures
            phase == self.phase(),
    {
        self.phase
    }

    /// The candidates that agree with the state of the game, in their order.
    pub fn update_wordlist(&self) -> (kept: Vec<String>)
        ensures
            kept@ == filtered(self.candidates(), self.game()@),
    {
        let filter = Filter::new(&self.game, &self.current_words);
        filter.filter_words()
    }

    /// Whether every place of the word is confirmed.
    pub fn is_game_won(&self) -> (won: bool)
        ensures
            won == self.game().solved(),
    {
        self.game.is_solved()
    }

    /// The word, once every place of it is confirmed.
    pub fn get_solved_word(&self) -> (word: Option<String>)
        ensures
            word is Some <==> self.game().solved(),
            word is Some ==> word->0@ == Seq::new(
                WORD_LEN as nat,
                |i: int| self.game()@.correct[i]->0,
            ),
    {
        self.game.solved_word()
    }

    /// Starts the session anew: nothing is known, and every word of the list
    /// is a candidate again.
    pub fn reset(&mut self)
        ensures
            old(self).wf() ==> final(self).wf(),
            final(self).phase() == Phase::Active,
            final(self).corpus() == old(self).corpus(),
            final(self).candidates() == old(self).corpus(),
            final(self).game().lines@.len() == 0,
            final(self).game()@ == GameData::new_view(),
            final(self).pending() is None,
    {
        self.game.reset();
        self.current_words = copy_words(&self.all_words);
        self.phase = Phase::Active;
        self.pending = None;
    }

    /// The candidates ranked by positional frequency alone: the suggestions
    /// for the first guess.
    pub fn initial_suggestions(&self, stats: &LetterStats) -> (ranked: Vec<(String, i128)>)
        ensures
            arranged(
                ranked@,
                self.candidates(),
                plain_scores(self.candidates(), *stats),
                ranking_of(plain_scores(self.candidates(), *stats)),
            ),
    {
        rank_words(&self.current_words, stats)
    }

    /// Narrows the candidates to those that agree with the state of the
    /// game, and ranks them by weighted score. The weights are those of the
    /// attempt whose number is the number of guesses made. A session that
    /// accepts guesses is exhausted where no candidate is left.
    pub fn rank_words(&mut self, stats: &LetterStats, weights: &WeightTable) -> (ranked: Vec<
        (String, i128),
    >)
        ensures
            final(self).game() == old(self).game(),
            final(self).corpus() == old(self).corpus(),
            final(self).phase() == if old(self).phase() == Phase::Active && final(self).candidates().len() == 0 {
                Phase::Exhausted
            } else {
                old(self).phase()
            },
            final(self).pending() == old(self).pending(),
            final(self).candidates() == filtered(old(self).candidates(), old(self).game()@),
            forall|w: String| #[trigger]
                final(self).candidates().contains(w) ==> old(self).candidates().contains(w),
            arranged(
                ranked@,
                final(self).candidates(),
                weighted_scores(
                    final(self).candidates(),
                    *stats,
                    weights.at(old(self).game().lines@.len() as int),
                ),
                ranking_of(
                    weighted_scores(
                        final(self).candidates(),
                        *stats,
                        weights.at(old(self).game().lines@.len() as int),
                    ),
                ),
            ),
            old(self).wf() ==> final(self).wf(),
    {
        let weight_tuple = weights.pick(self.game.lines.len());
        self.current_words = self.update_wordlist();
        if self.current_words.len() == 0 {
            match self.phase {
                Phase::Active => {
                    self.phase = Phase::Exhausted;
                },
                _ => {},
            }
        }
        proof {
            assert(self.corpus() == old(self).corpus());
            assert(self.game() == old(self).game());
            lemma_filtered_words_keep_length(old(self).candidates(), old(self).game()@);
            assert forall|w: String| #[trigger]
                self.candidates().contains(w) implies old(self).candidates().contains(w) by {
                crate::filter::lemma_filter_keeps_only(
                    old(self).candidates(),
                    old(self).game()@,
                    w,
                );
            }
        }
        weighted_rank(&self.current_words, stats, weight_tuple)
    }
}

impl Solver {
    /// The best candidate: by weighted score where `weights` are given, by
    /// positional frequency alone where not. `None` where no candidate is
    /// left.
    pub fn get_top_suggestion_silent(&self, stats: &LetterStats, weights: Option<Weights>) -> (top:
        Option<String>)
        ensures
            top is None <==> self.candidates().len() == 0,
            top is Some ==> top->0 == self.candidates()[ranking_of(
                match weights {
                    Some(w) => weighted_scores(self.candidates(), *stats, w),
                    None => plain_scores(self.candidates(), *stats),
                },
            )[0]],
    {
        let ranked = match weights {
            Some(weight_tuple) => weighted_rank(&self.current_words, stats, weight_tuple),
            None => rank_words(&self.current_words, stats),
        };
        if ranked.len() == 0 {
            None
        } else {
            Some(ranked[0].0.clone())
        }
    }

    /// Plays a game against `target_word` on the whole word list, from the
    /// first guess on, and returns the number of guesses it took; one more
    /// than the most allowed where the game is lost. The session itself is
    /// left as it is.
    pub fn simulate(&self, target_word: String, stats: &LetterStats, weights: &WeightTable) -> (guesses:
        usize)
        requires
            target_word@.len() == WORD_LEN,
        ensures
            guesses == simulated(self.corpus(), *stats, *weights, target_word@),
            1 <= guesses <= MAX_GUESSES + 1,
    {
        let mut temp_solver = Solver {
            game: GameData::new(),
            current_words: copy_words(&self.all_words),
            all_words: copy_words(&self.all_words),
            phase: Phase::Active,
            pending: None,
        };
        let mut guesses: usize = 0;
        let ghost corpus = self.corpus();
        let ghost target = target_word@;
        proof {
            lemma_play_on_bounds(corpus, *stats, *weights, target, GameData::new_view(), corpus, 0);
        }

        while guesses < MAX_GUESSES
            invariant
                guesses <= MAX_GUESSES,
                corpus == self.corpus(),
                target == target_word@,
                target.len() == WORD_LEN,
                temp_solver.all_words@ == corpus,
                temp_solver.game.lines@.len() == guesses,
                play_on(
                    corpus,
                    *stats,
                    *weights,
                    target,
                    temp_solver.game@,
                    temp_solver.current_words@,
                    guesses as nat,
                ) == simulated(corpus, *stats, *weights, target),
                1 <= simulated(corpus, *stats, *weights, target) <= MAX_GUESSES + 1,
            decreases MAX_GUESSES - guesses,
        {
            let weight_tuple = weights.pick(temp_solver.game.lines.len());
            let top = if guesses == 0 {
                temp_solver.get_top_suggestion_silent(stats, None)
            } else {
                temp_solver.current_words = temp_solver.update_wordlist();
                temp_solver.get_top_suggestion_silent(stats, Some(weight_tuple))
            };
            let guess_word = match top {
                Some(word) => word,
                None => {
                    return MAX_GUESSES + 1;
                },
            };
            guesses += 1;

            if guess_word == target_word {
                return guesses;
            }
            if guess_word.as_str().unicode_len() != WORD_LEN || !has_word(
                &temp_solver.all_words,
                guess_word.as_str(),
            ) {
                return MAX_GUESSES + 1;
            }
            let line = Self::evaluate_word(guess_word.as_str(), target_word.as_str());
            let pattern = Self::get_pattern(&line);
            proof {
                assert(pattern@ =~= verdict(guess_word@, target));
                assert forall|i: int| 0 <= i < pattern@.len() implies is_mark(#[trigger] pattern@[i]) by {
                    assert(pattern@[i] == mark_at(guess_word@, target, i));
                }
            }
            let taken = temp_solver.game.add_line(guess_word.as_str(), pattern.as_str());
            assert(taken is Ok);
        }
        MAX_GUESSES + 1
    }
}

impl Solver {
    /// Takes in the guess `word` with its feedback `pattern`, without
    /// touching the candidates.
    ///
    /// The guess is turned down, and nothing changes, for the reason that
    /// [`Self::refusal`] gives. Otherwise the feedback is taken in as
    /// [`Self::accepted`] says; the result is the word where every place is
    /// now confirmed.
    pub fn accept(&mut self, word: &str, pattern: &str) -> (outcome: Result<
        Option<String>,
        GuessError,
    >)
        ensures
            outcome is Err <==> old(self).refusal(word@, pattern@) is Some,
            outcome is Err ==> outcome->Err_0 == old(self).refusal(word@, pattern@)->0,
            outcome is Err ==> *final(self) == *old(self),
            outcome is Ok ==> final(self).accepted(*old(self), word@, pattern@, outcome->Ok_0),
            old(self).wf() ==> final(self).wf(),
    {
        match self.phase {
            Phase::Active => {},
            _ => {
                return Err(GuessError::Finished);
            },
        }
        if word.unicode_len() != WORD_LEN {
            return Err(GuessError::WordLength);
        }
        if !has_word(&self.all_words, word) {
            return Err(GuessError::UnknownWord);
        }
        match self.game.add_line(word, pattern) {
            Err(LineError::WordLength) => {
                return Err(GuessError::WordLength);
            },
            Err(LineError::PatternLength) => {
                return Err(GuessError::PatternLength);
            },
            Err(LineError::UnknownMark) => {
                return Err(GuessError::UnknownMark);
            },
            Ok(()) => {},
        }
        assert(self.corpus() == old(self).corpus());
        assert(self.candidates() == old(self).candidates());
        assert(old(self).game().wf() ==> self.game().wf());
        assert(old(self).wf() ==> self.wf());
        let found = self.game.solved_word();
        if found.is_some() {
            self.phase = Phase::Solved;
            assert(self.corpus() == old(self).corpus());
            assert(self.candidates() == old(self).candidates());
            assert(old(self).wf() ==> self.wf());
        }
        Ok(found)
    }

    /// Takes in the guess `word` with its feedback `pattern`, and narrows
    /// and ranks the candidates unless the word is solved.
    ///
    /// The guess is turned down, and nothing changes, for the reason that
    /// [`Self::refusal`] gives. Otherwise the feedback is taken in and the
    /// session goes on as [`Self::played`] says.
    pub fn submit(
        &mut self,
        word: &str,
        pattern: &str,
        stats: &LetterStats,
        weights: &WeightTable,
    ) -> (outcome: Result<Turn, GuessError>)
        ensures
            outcome is Err <==> old(self).refusal(word@, pattern@) is Some,
            outcome is Err ==> outcome->Err_0 == old(self).refusal(word@, pattern@)->0,
            outcome is Err ==> *final(self) == *old(self),
            outcome is Ok ==> final(self).played(
                *old(self),
                word@,
                pattern@,
                *stats,
                *weights,
                outcome->Ok_0,
            ),
            forall|w: String| #[trigger]
                final(self).candidates().contains(w) ==> old(self).candidates().contains(w),
            old(self).wf() ==> final(self).wf(),
    {
        match self.accept(word, pattern) {
            Err(error) => Err(error),
            Ok(Some(found)) => Ok(Turn::Solved(found)),
            Ok(None) => {
                let ranked = self.rank_words(stats, weights);
                if self.current_words.len() == 0 {
                    Ok(Turn::Exhausted)
                } else {
                    Ok(Turn::Suggestions(ranked))
                }
            },
        }
    }

    /// Answers one line of input of an interactive session.
    ///
    /// The line is read without the white space at its ends and in lower
    /// case. While no guess waits for its pattern: `exit` ends the dialogue;
    /// `-r` starts the session anew; any other line is a guess, which is
    /// kept to wait for its pattern unless the session is over, the guess
    /// has not five characters, or it is not in the word list. While a guess
    /// waits: the line is its pattern, and both are handed to
    /// [`Self::accept`]; whatever comes of it, no guess waits afterwards.
    /// The candidates are left as they are: they are narrowed and ranked by
    /// [`Self::rank_words`], which is due after [`Reply::Accepted`].
    pub fn step(&mut self, line: &str) -> (reply: Reply)
        ensures
            final(self).corpus() == old(self).corpus(),
            old(self).wf() ==> final(self).wf(),
            old(self).pending() is None && normal_form(line@) == "exit"@ ==> reply is Quit
                && *final(self) == *old(self),
            old(self).pending() is None && normal_form(line@) != "exit"@ && normal_form(line@)
                == "-r"@ ==> {
                &&& reply is Restarted
                &&& final(self).pending() is None
                &&& final(self).phase() == Phase::Active
                &&& final(self).candidates() == old(self).corpus()
                &&& final(self).game().lines@.len() == 0
                &&& final(self).game()@ == GameData::new_view()
            },
            old(self).pending() is None && normal_form(line@) != "exit"@ && normal_form(line@)
                != "-r"@ ==> {
                &&& final(self).game() == old(self).game()
                &&& final(self).candidates() == old(self).candidates()
                &&& final(self).phase() == old(self).phase()
                &&& match reply {
                    Reply::Finished => old(self).phase() != Phase::Active && final(self).pending() is None,
                    Reply::BadLength => old(self).phase() == Phase::Active && normal_form(
                        line@,
                    ).len() != WORD_LEN && final(self).pending() is None,
                    Reply::UnknownWord(word) => old(self).phase() == Phase::Active && normal_form(
                        line@,
                    ).len() == WORD_LEN && !lists_word(old(self).corpus(), normal_form(line@))
                        && word@ == normal_form(line@) && final(self).pending() is None,
                    Reply::AskPattern => old(self).phase() == Phase::Active && normal_form(
                        line@,
                    ).len() == WORD_LEN && lists_word(old(self).corpus(), normal_form(line@))
                        && final(self).pending() is Some && final(self).pending()->0@
                        == normal_form(line@),
                    _ => false,
                }
            },
            old(self).pending() is Some ==> {
                &&& final(self).pending() is None
                &&& final(self).candidates() == old(self).candidates()
                &&& match old(self).refusal(old(self).pending()->0@, normal_form(line@)) {
                    Some(GuessError::Finished) => reply is Finished,
                    Some(GuessError::WordLength) => reply is BadLength,
                    Some(GuessError::UnknownWord) => reply is UnknownWord && reply->UnknownWord_0
                        == old(self).pending()->0,
                    Some(_) => reply is BadPattern,
                    None => reply is Solved || reply is Accepted,
                }
            },
            old(self).pending() is Some && old(self).refusal(
                old(self).pending()->0@,
                normal_form(line@),
            ) is Some ==> final(self).game() == old(self).game() && final(self).phase() == old(self).phase(),
            old(self).pending() is Some && old(self).refusal(
                old(self).pending()->0@,
                normal_form(line@),
            ) is None ==> {
                &&& final(self).game()@ == ingest(
                    old(self).game()@,
                    old(self).pending()->0@,
                    normal_form(line@),
                )
                &&& final(self).game().lines@.len() == old(self).game().lines@.len() + 1
                &&& final(self).game().lines@.drop_last() == old(self).game().lines@
                &&& line_records(
                    final(self).game().lines@.last(),
                    old(self).pending()->0@,
                    normal_form(line@),
                )
                &&& reply is Solved <==> final(self).game().solved()
                &&& reply is Solved ==> final(self).phase() == Phase::Solved && reply->Solved_0@
                    == Seq::new(WORD_LEN as nat, |i: int| final(self).game()@.correct[i]->0)
                &&& reply is Accepted ==> final(self).phase() == Phase::Active
            },
    {
        let text = normalize(line);
        let waiting = self.pending.take();
        assert(self.corpus() == old(self).corpus());
        assert(self.candidates() == old(self).candidates());
        assert(self.game() == old(self).game());
        assert(self.phase() == old(self).phase());
        assert(old(self).wf() ==> self.wf());
        let ghost mid = *self;
        assert(mid.refusal(old(self).pending()->0@, text@) == old(self).refusal(
            old(self).pending()->0@,
            text@,
        ));
        match waiting {
            None => {
                if same_text(text.as_str(), "exit") {
                    return Reply::Quit;
                }
                if same_text(text.as_str(), "-r") {
                    self.reset();
                    return Reply::Restarted;
                }
                match self.phase {
                    Phase::Active => {},
                    _ => {
                        return Reply::Finished;
                    },
                }
                if text.as_str().unicode_len() != WORD_LEN {
                    return Reply::BadLength;
                }
                if !has_word(&self.all_words, text.as_str()) {
                    return Reply::UnknownWord(text);
                }
                self.pending = Some(text);
                assert(self.corpus() == old(self).corpus());
                assert(self.candidates() == old(self).candidates());
                assert(self.game() == old(self).game());
                Reply::AskPattern
            },
            Some(guess) => {
                match self.accept(guess.as_str(), text.as_str()) {
                    Ok(Some(found)) => Reply::Solved(found),
                    Ok(None) => Reply::Accepted,
                    Err(GuessError::Finished) => Reply::Finished,
                    Err(GuessError::WordLength) => Reply::BadLength,
                    Err(GuessError::UnknownWord) => Reply::UnknownWord(guess),
                    Err(_) => Reply::BadPattern,
                }
            },
        }
    }
}

/// Filtering a list of five-letter words leaves five-letter words.
proof fn lemma_filtered_words_keep_length(words: Seq<String>, k: crate::game::Knowledge)
    ensures
        (forall|i: int| 0 <= i < words.len() ==> (#[trigger] words[i])@.len() == WORD_LEN) ==> (
        forall|i: int|
            0 <= i < filtered(words, k).len() ==> (#[trigger] filtered(words, k)[i])@.len()
                == WORD_LEN),
{
    if forall|i: int| 0 <= i < words.len() ==> (#[trigger] words[i])@.len() == WORD_LEN {
        assert forall|i: int| 0 <= i < filtered(words, k).len() implies (#[trigger] filtered(
            words,
            k,
        )[i])@.len() == WORD_LEN by {
            let w = filtered(words, k)[i];
            assert(filtered(words, k).contains(w));
            crate::filter::lemma_filter_keeps_only(words, k, w);
            let j = choose|j: int| 0 <= j < words.len() && words[j] == w;
            assert(words[j]@.len() == WORD_LEN);
        }
    }
}

} // verus!
