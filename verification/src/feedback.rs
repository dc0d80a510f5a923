//! Scoring a guess against a known target.
//!
//! Every letter of the guess gets one of three marks. A letter that stands
//! where the target has it is [`CORRECT`]. The other letters of the guess are
//! served from left to right: a letter is [`MISPLACED`] as long as the target
//! still has an occurrence of it that no guess letter has claimed, and
//! [`ABSENT`] after that.

use vstd::prelude::*;
use vstd::std_specs::hash::*;
use std::collections::HashMap;
use crate::game::{CellData, LineData};
use crate::solver::Solver;
use crate::text::{lemma_codes_differ, letters_of};

verus! {

/// The mark of a letter that stands at its place.
pub const CORRECT: char = 'c';

/// The mark of a letter that the word holds at another place.
pub const MISPLACED: char = 'm';

/// The mark of a letter that the word does not hold (any more).
pub const ABSENT: char = 'w';

/// The length of every word of the game.
pub const WORD_LEN: usize = 5;

/// How often `c` occurs among the first `n` letters of `word`.
pub open spec fn occurrences(word: Seq<char>, c: char, n: int) -> int
    decreases n,
{
    if n <= 0 {
        0
    } else {
        occurrences(word, c, n - 1) + if word[n - 1] == c { 1int } else { 0int }
    }
}

/// How many of the first `n` places hold `c` in both words.
pub open spec fn matched(guess: Seq<char>, target: Seq<char>, c: char, n: int) -> int
    decreases n,
{
    if n <= 0 {
        0
    } else {
        matched(guess, target, c, n - 1) + if guess[n - 1] == c && target[n - 1] == c {
            1int
        } else {
            0int
        }
    }
}

/// How many of the first `n` places of the target hold `c` while the guess
/// holds another letter there: the occurrences left for misplaced letters.
pub open spec fn unmatched(guess: Seq<char>, target: Seq<char>, c: char, n: int) -> int
    decreases n,
{
    if n <= 0 {
        0
    } else {
        unmatched(guess, target, c, n - 1) + if target[n - 1] == c && guess[n - 1] != c {
            1int
        } else {
            0int
        }
    }
}

/// How many of the first `n` places of the guess hold `c` while the target
/// holds another letter there: the letters that ask for an occurrence.
pub open spec fn loose(guess: Seq<char>, target: Seq<char>, c: char, n: int) -> int
    decreases n,
{
    if n <= 0 {
        0
    } else {
        loose(guess, target, c, n - 1) + if guess[n - 1] == c && target[n - 1] != c {
            1int
        } else {
            0int
        }
    }
}

/// The mark of the letter at place `i` of `guess` when the word is `target`.
pub open spec fn mark_at(guess: Seq<char>, target: Seq<char>, i: int) -> char {
    if guess[i] == target[i] {
        CORRECT
    } else if loose(guess, target, guess[i], i) < unmatched(
        guess,
        target,
        guess[i],
        target.len() as int,
    ) {
        MISPLACED
    } else {
        ABSENT
    }
}

/// The marks of all letters of `guess` when the word is `target`.
pub open spec fn verdict(guess: Seq<char>, target: Seq<char>) -> Seq<char> {
    Seq::new(guess.len(), |i: int| mark_at(guess, target, i))
}

/// Every occurrence of a letter in the target is either matched in place or
/// left for a misplaced letter.
pub proof fn lemma_occurrences_split(guess: Seq<char>, target: Seq<char>, c: char, n: int)
    ensures
        occurrences(target, c, n) == matched(guess, target, c, n) + unmatched(guess, target, c, n),
    decreases n,
{
    if n > 0 {
        lemma_occurrences_split(guess, target, c, n - 1);
    }
}

/// How many of the first `n` letters of `guess` are `c` and are marked
/// [`CORRECT`] or [`MISPLACED`].
pub open spec fn credited(guess: Seq<char>, target: Seq<char>, c: char, n: int) -> int
    decreases n,
{
    if n <= 0 {
        0
    } else {
        credited(guess, target, c, n - 1) + if guess[n - 1] == c && mark_at(guess, target, n - 1)
            != ABSENT {
            1int
        } else {
            0int
        }
    }
}

/// The smaller of two numbers.
pub open spec fn smaller(a: int, b: int) -> int {
    if a <= b {
        a
    } else {
        b
    }
}

/// Among the first `n` letters of the guess, the credited occurrences of `c`
/// are those matched in place, and as many of the others as the target has
/// occurrences left for them.
pub proof fn lemma_credited_count(guess: Seq<char>, target: Seq<char>, c: char, n: int)
    requires
        0 <= n <= guess.len(),
    ensures
        credited(guess, target, c, n) == matched(guess, target, c, n) + smaller(
            loose(guess, target, c, n),
            unmatched(guess, target, c, target.len() as int),
        ),
    decreases n,
{
    lemma_unmatched_nonnegative(guess, target, c, target.len() as int);
    if n > 0 {
        lemma_credited_count(guess, target, c, n - 1);
    }
}

/// Conservation of letters: a guess never has more occurrences of a letter
/// marked [`CORRECT`] or [`MISPLACED`] than the target holds of that letter.
pub proof fn lemma_marks_conserve_letters(guess: Seq<char>, target: Seq<char>, c: char)
    requires
        guess.len() == target.len(),
    ensures
        credited(guess, target, c, guess.len() as int) <= occurrences(
            target,
            c,
            target.len() as int,
        ),
{
    lemma_credited_count(guess, target, c, guess.len() as int);
    lemma_occurrences_split(guess, target, c, target.len() as int);
}

/// A word scored against itself has every letter marked [`CORRECT`].
pub proof fn lemma_self_verdict_all_correct(target: Seq<char>)
    ensures
        verdict(target, target) == Seq::new(target.len(), |i: int| CORRECT),
        forall|i: int| 0 <= i < target.len() ==> mark_at(target, target, i) == CORRECT,
{
    assert(verdict(target, target) =~= Seq::new(target.len(), |i: int| CORRECT));
}

/// The places counted by [`matched`] only grow in number.
proof fn lemma_matched_monotone(guess: Seq<char>, target: Seq<char>, c: char, i: int, n: int)
    requires
        i <= n,
    ensures
        matched(guess, target, c, i) <= matched(guess, target, c, n),
    decreases n - i,
{
    if i < n {
        lemma_matched_monotone(guess, target, c, i, n - 1);
    }
}

/// The count that `counts` holds for `c`; a letter without an entry counts 0.
spec fn count_of(counts: Map<u32, usize>, c: char) -> int {
    if counts.contains_key(c as u32) {
        counts[c as u32] as int
    } else {
        0
    }
}

/// The occurrences of `c` that are still free for a misplaced letter when the
/// first `i` letters of the guess have been served.
spec fn left_over(guess: Seq<char>, target: Seq<char>, c: char, i: int) -> int {
    let d = unmatched(guess, target, c, target.len() as int) - loose(guess, target, c, i);
    if d > 0 {
        d
    } else {
        0
    }
}

impl Solver {
    /// Scores `guessed_word` against `target_word`: the result holds the guess
    /// and, for each of its letters, the mark that [`mark_at`] gives it.
    pub fn evaluate_word(guessed_word: &str, target_word: &str) -> (line: LineData)
        requires
            guessed_word@.len() == WORD_LEN,
            target_word@.len() == WORD_LEN,
        ensures
            line.word@ == guessed_word@,
            forall|i: int|
                0 <= i < WORD_LEN ==> (#[trigger] line.cells[i]).letter == guessed_word@[i]
                    && line.cells[i].state == mark_at(guessed_word@, target_word@, i),
            guessed_word@ == target_word@ ==> forall|i: int|
                0 <= i < WORD_LEN ==> (#[trigger] line.cells[i]).state == CORRECT,
            forall|c: char| #[trigger]
                credited(guessed_word@, target_word@, c, WORD_LEN as int) <= occurrences(
                    target_word@,
                    c,
                    WORD_LEN as int,
                ),
    {
        broadcast use group_hash_axioms;

        proof {
            assert forall|c: char| #[trigger]
                credited(guessed_word@, target_word@, c, WORD_LEN as int) <= occurrences(
                    target_word@,
                    c,
                    WORD_LEN as int,
                ) by {
                lemma_marks_conserve_letters(guessed_word@, target_word@, c);
            }
        }

        let guessed_chars = letters_of(guessed_word);
        let target_chars = letters_of(target_word);
        let ghost guess = guessed_word@;
        let ghost target = target_word@;

        let mut remaining_counts: HashMap<u32, usize> = HashMap::new();
        let mut k: usize = 0;
        while k < WORD_LEN
            invariant
                k <= WORD_LEN,
                target_chars@ == target,
                target.len() == WORD_LEN,
                forall|c: char| #[trigger] count_of(remaining_counts@, c) == occurrences(target, c, k as int),
                forall|c: char| 0 <= #[trigger] occurrences(target, c, k as int) <= k,
            decreases WORD_LEN - k,
        {
            let t = target_chars[k];
            let count: usize = match remaining_counts.get(&(t as u32)) {
                Some(n) => *n,
                None => 0,
            };
            assert(count == count_of(remaining_counts@, t));
            let ghost before = remaining_counts@;
            remaining_counts.insert(t as u32, count + 1);
            assert forall|c: char| #[trigger] count_of(remaining_counts@, c) == occurrences(target, c, k + 1) by {
                assert(count_of(before, c) == occurrences(target, c, k as int));
                if c != t {
                    lemma_codes_differ(c, t);
                }
            }
            assert forall|c: char| 0 <= #[trigger] occurrences(target, c, k + 1) <= k + 1 by {
                assert(0 <= occurrences(target, c, k as int) <= k);
            }
            k += 1;
        }

        let mut states: Vec<char> = Vec::new();
        let mut i: usize = 0;
        while i < WORD_LEN
            invariant
                i <= WORD_LEN,
                guessed_chars@ == guess,
                target_chars@ == target,
                guess.len() == WORD_LEN,
                target.len() == WORD_LEN,
                states@.len() == i,
                forall|j: int| 0 <= j < i ==> #[trigger] states@[j] == if guess[j] == target[j] { CORRECT } else { ABSENT },
                forall|c: char| #[trigger] count_of(remaining_counts@, c) == occurrences(target, c, WORD_LEN as int) - matched(guess, target, c, i as int),
            decreases WORD_LEN - i,
        {
            let g = guessed_chars[i];
            let t = target_chars[i];
            let ghost before = remaining_counts@;
            if g == t {
                states.push(CORRECT);
                let count: usize = match remaining_counts.get(&(g as u32)) {
                    Some(n) => *n,
                    None => 0,
                };
                proof {
                    assert(count == count_of(before, g));
                    lemma_matched_monotone(guess, target, g, i + 1, WORD_LEN as int);
                    lemma_occurrences_split(guess, target, g, WORD_LEN as int);
                    lemma_unmatched_nonnegative(guess, target, g, WORD_LEN as int);
                }
                remaining_counts.insert(g as u32, count - 1);
            } else {
                states.push(ABSENT);
            }
            assert forall|c: char| #[trigger] count_of(remaining_counts@, c) == occurrences(target, c, WORD_LEN as int) - matched(guess, target, c, i + 1) by {
                assert(count_of(before, c) == occurrences(target, c, WORD_LEN as int) - matched(guess, target, c, i as int));
                if c != g {
                    lemma_codes_differ(c, g);
                }
            }
            i += 1;
        }

        proof {
            assert forall|c: char| #[trigger] count_of(remaining_counts@, c) == left_over(guess, target, c, 0) by {
                lemma_occurrences_split(guess, target, c, WORD_LEN as int);
                lemma_unmatched_nonnegative(guess, target, c, WORD_LEN as int);
            }
        }

        let mut i: usize = 0;
        while i < WORD_LEN
            invariant
                i <= WORD_LEN,
                guessed_chars@ == guess,
                target_chars@ == target,
                guess.len() == WORD_LEN,
                target.len() == WORD_LEN,
                states@.len() == WORD_LEN,
                forall|j: int| 0 <= j < i ==> #[trigger] states@[j] == mark_at(guess, target, j),
                forall|j: int| i <= j < WORD_LEN ==> #[trigger] states@[j] == if guess[j] == target[j] { CORRECT } else { ABSENT },
                forall|c: char| #[trigger] count_of(remaining_counts@, c) == left_over(guess, target, c, i as int),
            decreases WORD_LEN - i,
        {
            let ghost before = remaining_counts@;
            if states[i] != CORRECT {
                let g = guessed_chars[i];
                assert(guess[i as int] != target[i as int]);
                assert(count_of(before, g) == left_over(guess, target, g, i as int));
                match remaining_counts.get(&(g as u32)) {
                    Some(n) => {
                        let count: usize = *n;
                        if count > 0 {
                            states.set(i, MISPLACED);
                            remaining_counts.insert(g as u32, count - 1);
                        } else {
                            states.set(i, ABSENT);
                        }
                    },
                    None => {
                        states.set(i, ABSENT);
                    },
                }
                assert(states@[i as int] == mark_at(guess, target, i as int));
                assert forall|c: char| #[trigger] count_of(remaining_counts@, c) == left_over(guess, target, c, i + 1) by {
                    assert(count_of(before, c) == left_over(guess, target, c, i as int));
                    if c != g {
                        lemma_codes_differ(c, g);
                    }
                }
            } else {
                assert(guess[i as int] == target[i as int]);
                assert forall|c: char| #[trigger] count_of(remaining_counts@, c) == left_over(guess, target, c, i + 1) by {
                    assert(count_of(before, c) == left_over(guess, target, c, i as int));
                }
            }
            i += 1;
        }

        let c0 = CellData::new(guessed_chars[0], states[0]);
        let c1 = CellData::new(guessed_chars[1], states[1]);
        let c2 = CellData::new(guessed_chars[2], states[2]);
        let c3 = CellData::new(guessed_chars[3], states[3]);
        let c4 = CellData::new(guessed_chars[4], states[4]);
        let cells: [CellData; 5] = [c0, c1, c2, c3, c4];
        assert forall|i: int| 0 <= i < WORD_LEN implies (#[trigger] cells[i]).letter == guess[i]
            && cells[i].state == mark_at(guess, target, i) by {
            assert(states@[i] == mark_at(guess, target, i));
        }
        LineData { word: guessed_word.to_owned(), cells }
    }

    /// The marks of `line`, one character for each cell.
    pub fn get_pattern(line: &LineData) -> (pattern: String)
        ensures
            pattern@ == Seq::new(WORD_LEN as nat, |i: int| line.cells[i].state),
    {
        let mut pattern = String::new();
        let mut i: usize = 0;
        while i < WORD_LEN
            invariant
                i <= WORD_LEN,
                pattern@ == Seq::new(i as nat, |j: int| line.cells[j].state),
            decreases WORD_LEN - i,
        {
            pattern.push(line.cells[i].state);
            assert(Seq::new(i as nat, |j: int| line.cells[j].state).push(line.cells[i as int].state)
                =~= Seq::new((i + 1) as nat, |j: int| line.cells[j].state));
            i += 1;
        }
        pattern
    }
}

/// The count of [`unmatched`] is never negative.
proof fn lemma_unmatched_nonnegative(guess: Seq<char>, target: Seq<char>, c: char, n: int)
    ensures
        0 <= unmatched(guess, target, c, n),
    decreases n,
{
    if n > 0 {
        lemma_unmatched_nonnegative(guess, target, c, n - 1);
    }
}

} // verus!
