//! What the feedback of the guesses made so far has revealed.

use vstd::prelude::*;
use crate::feedback::{ABSENT, CORRECT, MISPLACED, WORD_LEN};
use crate::letters::LetterSet;
use crate::text::{append_part, joined, letters_of, upper_of, upper_parts};
use vstd::string::StringExecFns;

verus! {

/// One letter of a guess with the mark it received.
#[derive(Debug, Clone, Copy, PartialEq, Eq, Structural)]
pub struct CellData {
    pub letter: char,
    pub state: char,
}

impl CellData {
    /// The cell of `letter` with the mark `state`.
    pub fn new(letter: char, state: char) -> (cell: CellData)
        ensures
            cell.letter == letter,
            cell.state == state,
    {
        CellData { letter, state }
    }
}

/// One guess with the marks of its five letters.
#[derive(Debug, Clone)]
pub struct LineData {
    pub word: String,
    pub cells: [CellData; 5],
}

/// Why a line of feedback was turned down.
#[derive(Debug, Clone, Copy, PartialEq, Eq, Structural)]
pub enum LineError {
    /// The guess has not exactly five characters.
    WordLength,
    /// The pattern has not exactly five characters.
    PatternLength,
    /// The pattern holds a character that is no mark.
    UnknownMark,
}

/// The constraints that the feedback so far puts on the hidden word.
pub struct Knowledge {
    /// For each place, the letter confirmed there, if any.
    pub correct: Seq<Option<char>>,
    /// For each place, the letters known to be in the word but not there.
    pub misplaced: Seq<Set<char>>,
    /// The letters known to be in the word.
    pub must_contain: Set<char>,
    /// The letters known not to be in the word.
    pub excluded: Set<char>,
}

/// Whether `mark` is one of the three marks.
pub open spec fn is_mark(mark: char) -> bool {
    mark == CORRECT || mark == MISPLACED || mark == ABSENT
}

/// Whether `pattern` is made of marks only.
pub open spec fn is_pattern(pattern: Seq<char>) -> bool {
    forall|i: int| 0 <= i < pattern.len() ==> is_mark(#[trigger] pattern[i])
}

/// What is known after the letter `letter` at place `i` received `mark`.
///
/// A correct letter is confirmed at its place and must be in the word. A
/// misplaced letter is ruled out at its place and must be in the word. An
/// absent letter is ruled out of the word, unless it is already known to be
/// in it.
pub open spec fn ingest_cell(k: Knowledge, i: int, letter: char, mark: char) -> Knowledge {
    if mark == CORRECT {
        Knowledge {
            correct: k.correct.update(i, Some(letter)),
            must_contain: k.must_contain.insert(letter),
            ..k
        }
    } else if mark == MISPLACED {
        Knowledge {
            misplaced: k.misplaced.update(i, k.misplaced[i].insert(letter)),
            must_contain: k.must_contain.insert(letter),
            ..k
        }
    } else if mark == ABSENT && !k.must_contain.contains(letter) {
        Knowledge { excluded: k.excluded.insert(letter), ..k }
    } else {
        k
    }
}

/// What is known after the first `n` letters of `word` received their marks,
/// taken from left to right.
pub open spec fn ingest_prefix(k: Knowledge, word: Seq<char>, pattern: Seq<char>, n: int) -> Knowledge
    decreases n,
{
    if n <= 0 {
        k
    } else {
        ingest_cell(ingest_prefix(k, word, pattern, n - 1), n - 1, word[n - 1], pattern[n - 1])
    }
}

/// What is known after the whole of `word` received the marks of `pattern`.
pub open spec fn ingest(k: Knowledge, word: Seq<char>, pattern: Seq<char>) -> Knowledge {
    ingest_prefix(k, word, pattern, WORD_LEN as int)
}

/// What is known after each of `guesses`, a guess with its pattern, was taken
/// in, the first one first.
pub open spec fn ingest_all(k: Knowledge, guesses: Seq<(Seq<char>, Seq<char>)>) -> Knowledge
    decreases guesses.len(),
{
    if guesses.len() == 0 {
        k
    } else {
        ingest(ingest_all(k, guesses.drop_last()), guesses.last().0, guesses.last().1)
    }
}

/// Whether `k` speaks of the five places of a word.
pub open spec fn has_five_places(k: Knowledge) -> bool {
    k.correct.len() == WORD_LEN && k.misplaced.len() == WORD_LEN
}

/// Whether `later` keeps what `earlier` holds: every confirmed place is
/// still confirmed, and no letter has left any of the sets.
pub open spec fn keeps(earlier: Knowledge, later: Knowledge) -> bool {
    &&& has_five_places(earlier)
    &&& has_five_places(later)
    &&& forall|i: int|
        0 <= i < WORD_LEN && (#[trigger] earlier.correct[i]) is Some ==> later.correct[i] is Some
    &&& forall|i: int|
        0 <= i < WORD_LEN ==> (#[trigger] earlier.misplaced[i]).subset_of(later.misplaced[i])
    &&& earlier.must_contain.subset_of(later.must_contain)
    &&& earlier.excluded.subset_of(later.excluded)
}

/// Taking in letters never gives up what was known, and a confirmed place
/// changes its letter only where a later letter is marked correct there.
pub proof fn lemma_ingest_prefix_keeps(k: Knowledge, word: Seq<char>, pattern: Seq<char>, n: int)
    requires
        has_five_places(k),
        0 <= n <= WORD_LEN,
    ensures
        keeps(k, ingest_prefix(k, word, pattern, n)),
        forall|i: int|
            0 <= i < WORD_LEN ==> #[trigger] ingest_prefix(k, word, pattern, n).correct[i] == if i
                < n && pattern[i] == CORRECT {
                Some(word[i])
            } else {
                k.correct[i]
            },
    decreases n,
{
    if n > 0 {
        lemma_ingest_prefix_keeps(k, word, pattern, n - 1);
    }
}

/// Feedback never takes back a constraint: after a line is taken in, every
/// place that was confirmed is still confirmed, and every letter that was
/// required, ruled out, or ruled out at a place still is. The confirmed
/// letter of a place changes only where the line marks that place correct.
pub proof fn lemma_ingest_keeps(k: Knowledge, word: Seq<char>, pattern: Seq<char>)
    requires
        has_five_places(k),
    ensures
        keeps(k, ingest(k, word, pattern)),
        forall|i: int|
            0 <= i < WORD_LEN ==> #[trigger] ingest(k, word, pattern).correct[i] == if pattern[i]
                == CORRECT {
                Some(word[i])
            } else {
                k.correct[i]
            },
{
    lemma_ingest_prefix_keeps(k, word, pattern, WORD_LEN as int);
}

/// However many lines follow, a place that is confirmed stays confirmed, and
/// no letter leaves the sets.
pub proof fn lemma_ingest_all_keeps(k: Knowledge, guesses: Seq<(Seq<char>, Seq<char>)>)
    requires
        has_five_places(k),
    ensures
        keeps(k, ingest_all(k, guesses)),
    decreases guesses.len(),
{
    if guesses.len() > 0 {
        lemma_ingest_all_keeps(k, guesses.drop_last());
        let mid = ingest_all(k, guesses.drop_last());
        lemma_ingest_keeps(mid, guesses.last().0, guesses.last().1);
        let end = ingest_all(k, guesses);
        assert forall|i: int| 0 <= i < WORD_LEN implies (#[trigger] k.misplaced[i]).subset_of(
            end.misplaced[i],
        ) by {
            assert(k.misplaced[i].subset_of(mid.misplaced[i]));
            assert(mid.misplaced[i].subset_of(end.misplaced[i]));
        }
        assert forall|i: int| 0 <= i < WORD_LEN && (#[trigger] k.correct[i]) is Some implies end.correct[i] is Some by {
            assert(mid.correct[i] is Some);
        }
    }
}

/// Whether the line never marks a letter as being in the word that is ruled
/// out already, be it by `k` or by an absent mark further left in the line.
pub open spec fn agrees_with_excluded(k: Knowledge, word: Seq<char>, pattern: Seq<char>) -> bool {
    forall|n: int|
        0 <= n < WORD_LEN && (#[trigger] pattern[n] == CORRECT || pattern[n] == MISPLACED) ==> {
            &&& !k.excluded.contains(word[n])
            &&& forall|m: int| 0 <= m < n && word[m] == word[n] ==> #[trigger] pattern[m] != ABSENT
        }
}

/// No letter is both required and ruled out after a line, provided none was
/// before and the line agrees with what is ruled out.
pub proof fn lemma_ingest_keeps_apart(k: Knowledge, word: Seq<char>, pattern: Seq<char>)
    requires
        has_five_places(k),
        k.must_contain.disjoint(k.excluded),
        agrees_with_excluded(k, word, pattern),
    ensures
        ingest(k, word, pattern).must_contain.disjoint(ingest(k, word, pattern).excluded),
{
    lemma_ingest_prefix_apart(k, word, pattern, WORD_LEN as int);
}

proof fn lemma_ingest_prefix_apart(k: Knowledge, word: Seq<char>, pattern: Seq<char>, n: int)
    requires
        has_five_places(k),
        k.must_contain.disjoint(k.excluded),
        agrees_with_excluded(k, word, pattern),
        0 <= n <= WORD_LEN,
    ensures
        ingest_prefix(k, word, pattern, n).must_contain.disjoint(
            ingest_prefix(k, word, pattern, n).excluded,
        ),
        forall|c: char| #[trigger]
            ingest_prefix(k, word, pattern, n).excluded.contains(c) ==> k.excluded.contains(c) || (
            exists|m: int| 0 <= m < n && word[m] == c && #[trigger] pattern[m] == ABSENT),
    decreases n,
{
    if n > 0 {
        lemma_ingest_prefix_apart(k, word, pattern, n - 1);
        let mid = ingest_prefix(k, word, pattern, n - 1);
        let end = ingest_prefix(k, word, pattern, n);
        assert forall|c: char| #[trigger] end.excluded.contains(c) implies k.excluded.contains(c) || (
        exists|m: int| 0 <= m < n && word[m] == c && #[trigger] pattern[m] == ABSENT) by {
            if mid.excluded.contains(c) {
                if !k.excluded.contains(c) {
                    let m = choose|m: int| 0 <= m < n - 1 && word[m] == c && #[trigger] pattern[m] == ABSENT;
                    assert(0 <= m < n && word[m] == c && pattern[m] == ABSENT);
                }
            } else {
                assert(word[n - 1] == c && pattern[n - 1] == ABSENT);
            }
        }
        assert forall|c: char| end.must_contain.contains(c) implies !end.excluded.contains(c) by {
            if end.excluded.contains(c) {
                if !mid.must_contain.contains(c) {
                    assert(word[n - 1] == c);
                    assert(pattern[n - 1] == CORRECT || pattern[n - 1] == MISPLACED);
                    assert(mid.excluded.contains(c));
                    if !k.excluded.contains(c) {
                        let m = choose|m: int| 0 <= m < n - 1 && word[m] == c && #[trigger] pattern[m] == ABSENT;
                        assert(pattern[m] != ABSENT);
                    }
                }
            }
        }
    }
}

/// The state of one game: the guesses made and what their feedback revealed.
#[derive(Debug, Clone)]
pub struct GameData {
    pub lines: Vec<LineData>,
    pub contains_not: LetterSet,
    pub correct_positions: [Option<char>; 5],
    pub misplaced_letters: [LetterSet; 5],
    pub must_contain: LetterSet,
}

impl View for GameData {
    type V = Knowledge;

    open spec fn view(&self) -> Knowledge {
        Knowledge {
            correct: self.correct_positions@,
            misplaced: Seq::new(WORD_LEN as nat, |i: int| self.misplaced_letters[i]@),
            must_contain: self.must_contain@,
            excluded: self.contains_not@,
        }
    }
}

/// Whether `line` records `word` with the marks of `pattern`.
pub open spec fn line_records(line: LineData, word: Seq<char>, pattern: Seq<char>) -> bool {
    &&& line.word@ == word
    &&& forall|i: int|
        0 <= i < WORD_LEN ==> (#[trigger] line.cells[i]).letter == word[i] && line.cells[i].state
            == pattern[i]
}

impl GameData {
    /// The letter sets list no letter twice, and every letter that is
    /// confirmed at a place or ruled out at a place is known to be in the word.
    pub open spec fn wf(&self) -> bool {
        &&& self.contains_not.wf()
        &&& self.must_contain.wf()
        &&& forall|i: int| 0 <= i < WORD_LEN ==> (#[trigger] self.misplaced_letters[i]).wf()
        &&& forall|i: int, c: char|
            0 <= i < WORD_LEN && self@.correct[i] == Some(c) ==> self@.must_contain.contains(c)
        &&& forall|i: int, c: char|
            0 <= i < WORD_LEN && #[trigger] self@.misplaced[i].contains(c)
                ==> self@.must_contain.contains(c)
    }

    /// What is known before the first guess: nothing.
    pub open spec fn new_view() -> Knowledge {
        Knowledge {
            correct: Seq::new(WORD_LEN as nat, |i: int| None::<char>),
            misplaced: Seq::new(WORD_LEN as nat, |i: int| Set::<char>::empty()),
            must_contain: Set::<char>::empty(),
            excluded: Set::<char>::empty(),
        }
    }

    /// The state before the first guess: nothing is known.
    pub fn new() -> (game: GameData)
        ensures
            game.wf(),
            game.lines@.len() == 0,
            game@ == GameData::new_view(),
    {
        let game = GameData {
            lines: Vec::new(),
            contains_not: LetterSet::new(),
            correct_positions: [None, None, None, None, None],
            misplaced_letters: [
                LetterSet::new(),
                LetterSet::new(),
                LetterSet::new(),
                LetterSet::new(),
                LetterSet::new(),
            ],
            must_contain: LetterSet::new(),
        };
        assert(game@.correct =~= Seq::new(WORD_LEN as nat, |i: int| None::<char>));
        assert(game@.misplaced =~= Seq::new(WORD_LEN as nat, |i: int| Set::<char>::empty()));
        game
    }

    /// Takes in the feedback for one guess: `pattern` holds the mark of each
    /// letter of `word`.
    ///
    /// The line is turned down, and nothing changes, unless both have five
    /// characters and `pattern` is made of marks. Otherwise the letters are
    /// taken in from left to right as [`ingest`] says, and the line is added
    /// to the record of guesses.
    pub fn add_line(&mut self, word: &str, pattern: &str) -> (outcome: Result<(), LineError>)
        ensures
            word@.len() != WORD_LEN ==> outcome == Err::<(), LineError>(LineError::WordLength),
            word@.len() == WORD_LEN && pattern@.len() != WORD_LEN ==> outcome == Err::<
                (),
                LineError,
            >(LineError::PatternLength),
            word@.len() == WORD_LEN && pattern@.len() == WORD_LEN && !is_pattern(pattern@)
                ==> outcome == Err::<(), LineError>(LineError::UnknownMark),
            word@.len() == WORD_LEN && pattern@.len() == WORD_LEN && is_pattern(pattern@)
                ==> outcome is Ok,
            outcome is Err ==> *final(self) == *old(self),
            outcome is Ok ==> final(self)@ == ingest(old(self)@, word@, pattern@),
            outcome is Ok ==> final(self).lines@.len() == old(self).lines@.len() + 1,
            outcome is Ok ==> final(self).lines@.drop_last() == old(self).lines@,
            outcome is Ok ==> line_records(final(self).lines@.last(), word@, pattern@),
            keeps(old(self)@, final(self)@),
            old(self).wf() ==> final(self).wf(),
    {
        proof {
            lemma_ingest_keeps(old(self)@, word@, pattern@);
        }
        let letters = letters_of(word);
        if letters.len() != WORD_LEN {
            return Err(LineError::WordLength);
        }
        let marks = letters_of(pattern);
        if marks.len() != WORD_LEN {
            return Err(LineError::PatternLength);
        }
        let mut j: usize = 0;
        while j < WORD_LEN
            invariant
                j <= WORD_LEN,
                letters@ == word@,
                marks@ == pattern@,
                letters@.len() == WORD_LEN,
                marks@.len() == WORD_LEN,
                forall|k: int| 0 <= k < j ==> is_mark(#[trigger] marks@[k]),
            decreases WORD_LEN - j,
        {
            let mark = marks[j];
            if mark != CORRECT && mark != MISPLACED && mark != ABSENT {
                assert(!is_mark(pattern@[j as int]));
                return Err(LineError::UnknownMark);
            }
            j += 1;
        }
        assert(is_pattern(pattern@));

        let mut i: usize = 0;
        while i < WORD_LEN
            invariant
                i <= WORD_LEN,
                letters@ == word@,
                marks@ == pattern@,
                letters@.len() == WORD_LEN,
                marks@.len() == WORD_LEN,
                is_pattern(pattern@),
                self.lines == old(self).lines,
                self@ == ingest_prefix(old(self)@, word@, pattern@, i as int),
                old(self).wf() ==> self.wf(),
            decreases WORD_LEN - i,
        {
            let ch = letters[i];
            let mark = marks[i];
            let ghost before = self@;
            assert(is_mark(pattern@[i as int]));
            if mark == CORRECT {
                self.correct_positions[i] = Some(ch);
                self.must_contain.insert(ch);
            } else if mark == MISPLACED {
                self.misplaced_letters[i].insert(ch);
                self.must_contain.insert(ch);
            } else {
                if !self.must_contain.contains(ch) {
                    self.contains_not.insert(ch);
                }
            }
            proof {
                let after = ingest_cell(before, i as int, ch, mark);
                assert(self@.correct =~= after.correct);
                assert(self@.misplaced =~= after.misplaced);
                assert(self@.must_contain =~= after.must_contain);
                assert(self@.excluded =~= after.excluded);
            }
            i += 1;
        }

        let c0 = CellData::new(letters[0], marks[0]);
        let c1 = CellData::new(letters[1], marks[1]);
        let c2 = CellData::new(letters[2], marks[2]);
        let c3 = CellData::new(letters[3], marks[3]);
        let c4 = CellData::new(letters[4], marks[4]);
        let line = LineData { word: word.to_owned(), cells: [c0, c1, c2, c3, c4] };
        assert(line_records(line, word@, pattern@));
        self.lines.push(line);
        assert(self.lines@.drop_last() =~= old(self).lines@);
        Ok(())
    }

    /// Forgets every guess and all that was known.
    pub fn reset(&mut self)
        ensures
            final(self).wf(),
            final(self).lines@.len() == 0,
            final(self)@ == GameData::new_view(),
    {
        self.lines.clear();
        self.contains_not.clear();
        self.correct_positions = [None, None, None, None, None];
        let mut i: usize = 0;
        while i < WORD_LEN
            invariant
                i <= WORD_LEN,
                self.lines@.len() == 0,
                self.contains_not@ == Set::<char>::empty(),
                self.contains_not.wf(),
                self.correct_positions@ == Seq::new(WORD_LEN as nat, |i: int| None::<char>),
                forall|j: int|
                    0 <= j < i ==> (#[trigger] self.misplaced_letters[j])@ == Set::<char>::empty()
                        && self.misplaced_letters[j].wf(),
            decreases WORD_LEN - i,
        {
            self.misplaced_letters[i].clear();
            i += 1;
        }
        self.must_contain.clear();
        assert(self@.misplaced =~= Seq::new(WORD_LEN as nat, |i: int| Set::<char>::empty()));
    }

    /// Whether every place of the word is confirmed.
    pub open spec fn solved(&self) -> bool {
        forall|i: int| 0 <= i < WORD_LEN ==> (#[trigger] self@.correct[i]) is Some
    }

    /// Whether every place of the word is confirmed.
    pub fn is_solved(&self) -> (won: bool)
        ensures
            won == self.solved(),
    {
        let mut i: usize = 0;
        while i < WORD_LEN
            invariant
                i <= WORD_LEN,
                forall|j: int| 0 <= j < i ==> (#[trigger] self@.correct[j]) is Some,
            decreases WORD_LEN - i,
        {
            if self.correct_positions[i].is_none() {
                assert(!(self@.correct[i as int] is Some));
                return false;
            }
            i += 1;
        }
        true
    }

    /// The confirmed letters as one word, once every place is confirmed.
    pub fn solved_word(&self) -> (word: Option<String>)
        ensures
            word is Some <==> self.solved(),
            word is Some ==> word->0@ == Seq::new(
                WORD_LEN as nat,
                |i: int| self@.correct[i]->0,
            ),
    {
        let mut text = String::new();
        let mut i: usize = 0;
        while i < WORD_LEN
            invariant
                i <= WORD_LEN,
                forall|j: int| 0 <= j < i ==> (#[trigger] self@.correct[j]) is Some,
                text@ == Seq::new(i as nat, |j: int| self@.correct[j]->0),
            decreases WORD_LEN - i,
        {
            match self.correct_positions[i] {
                Some(c) => {
                    text.push(c);
                    assert(Seq::new(i as nat, |j: int| self@.correct[j]->0).push(c) =~= Seq::new(
                        (i + 1) as nat,
                        |j: int| self@.correct[j]->0,
                    ));
                },
                None => {
                    assert(!(self@.correct[i as int] is Some));
                    return None;
                },
            }
            i += 1;
        }
        Some(text)
    }
}

/// The letters of `set` in upper case, in order of insertion, one blank
/// between neighbours.
pub fn fmt_hashset(set: &LetterSet) -> (text: String)
    ensures
        text@ == joined(upper_parts(set.ordered()), " "@),
{
    let mut text = String::new();
    let n = set.len();
    let mut i: usize = 0;
    while i < n
        invariant
            i <= n,
            n == set.ordered().len(),
            text@ == joined(upper_parts(set.ordered().take(i as int)), " "@),
        decreases n - i,
    {
        let upper = upper_of(set.letter(i));
        append_part(
            &mut text,
            upper.as_str(),
            " ",
            i == 0,
            Ghost(upper_parts(set.ordered().take(i as int))),
        );
        assert(upper_parts(set.ordered().take(i as int)).push(upper@) =~= upper_parts(
            set.ordered().take(i + 1),
        ));
        i += 1;
    }
    assert(set.ordered().take(n as int) =~= set.ordered());
    text
}

/// How a place shows: its confirmed letter in upper case, or an underscore.
pub open spec fn place_text(place: Option<char>) -> Seq<char> {
    match place {
        Some(c) => crate::text::uppercase_of(c),
        None => "_"@,
    }
}

/// The five places, each as [`place_text`] shows it, one blank between
/// neighbours.
pub fn fmt_correct_positions(positions: &[Option<char>; 5]) -> (text: String)
    ensures
        text@ == joined(Seq::new(WORD_LEN as nat, |i: int| place_text(positions[i])), " "@),
{
    let mut text = String::new();
    let mut i: usize = 0;
    while i < WORD_LEN
        invariant
            i <= WORD_LEN,
            text@ == joined(Seq::new(i as nat, |j: int| place_text(positions[j])), " "@),
        decreases WORD_LEN - i,
    {
        let ghost done = Seq::new(i as nat, |j: int| place_text(positions[j]));
        match positions[i] {
            Some(c) => {
                let upper = upper_of(c);
                append_part(&mut text, upper.as_str(), " ", i == 0, Ghost(done));
            },
            None => {
                append_part(&mut text, "_", " ", i == 0, Ghost(done));
            },
        }
        assert(done.push(place_text(positions[i as int])) =~= Seq::new(
            (i + 1) as nat,
            |j: int| place_text(positions[j]),
        ));
        i += 1;
    }
    text
}

/// The digit that names place `i`.
pub open spec fn place_digit(i: int) -> char {
    if i == 0 {
        '0'
    } else if i == 1 {
        '1'
    } else if i == 2 {
        '2'
    } else if i == 3 {
        '3'
    } else {
        '4'
    }
}

/// How the letters ruled out at place `i` show: the digit of the place, a
/// colon, a blank, and the letters in upper case with nothing between them.
pub open spec fn misplaced_part(i: int, letters: Seq<char>) -> Seq<char> {
    seq![place_digit(i)] + ": "@ + joined(upper_parts(letters), Seq::empty())
}

/// The parts of the first `n` places that have letters ruled out.
pub open spec fn misplaced_parts(sets: Seq<Seq<char>>, n: int) -> Seq<Seq<char>>
    decreases n,
{
    if n <= 0 {
        Seq::empty()
    } else if sets[n - 1].len() == 0 {
        misplaced_parts(sets, n - 1)
    } else {
        misplaced_parts(sets, n - 1).push(misplaced_part(n - 1, sets[n - 1]))
    }
}

/// The letters ruled out at each place, for the places that have any, as
/// [`misplaced_part`] shows them, with a comma and a blank between neighbours.
pub fn fmt_misplaced_letters(map: &[LetterSet; 5]) -> (text: String)
    ensures
        text@ == joined(
            misplaced_parts(Seq::new(WORD_LEN as nat, |i: int| map[i].ordered()), WORD_LEN as int),
            ", "@,
        ),
{
    let ghost sets = Seq::new(WORD_LEN as nat, |i: int| map[i].ordered());
    let mut text = String::new();
    let mut first = true;
    let mut i: usize = 0;
    while i < WORD_LEN
        invariant
            i <= WORD_LEN,
            sets == Seq::new(WORD_LEN as nat, |i: int| map[i].ordered()),
            first == (misplaced_parts(sets, i as int).len() == 0),
            text@ == joined(misplaced_parts(sets, i as int), ", "@),
        decreases WORD_LEN - i,
    {
        let set = &map[i];
        if !set.is_empty() {
            let mut part = String::new();
            part.push(digit_of(i));
            part.append(": ");
            let n = set.len();
            let mut j: usize = 0;
            while j < n
                invariant
                    j <= n,
                    n == set.ordered().len(),
                    part@ == seq![place_digit(i as int)] + ": "@ + joined(
                        upper_parts(set.ordered().take(j as int)),
                        Seq::empty(),
                    ),
                decreases n - j,
            {
                let upper = upper_of(set.letter(j));
                let ghost done = upper_parts(set.ordered().take(j as int));
                assert(done.push(upper@).drop_last() =~= done);
                assert(done.push(upper@) =~= upper_parts(set.ordered().take(j + 1)));
                part.append(upper.as_str());
                assert(part@ =~= seq![place_digit(i as int)] + ": "@ + joined(
                    upper_parts(set.ordered().take(j + 1)),
                    Seq::empty(),
                ));
                j += 1;
            }
            assert(set.ordered().take(n as int) =~= set.ordered());
            append_part(
                &mut text,
                part.as_str(),
                ", ",
                first,
                Ghost(misplaced_parts(sets, i as int)),
            );
            first = false;
        }
        i += 1;
    }
    text
}

/// The digit that names place `i`.
fn digit_of(i: usize) -> (d: char)
    requires
        i < WORD_LEN,
    ensures
        d == place_digit(i as int),
{
    if i == 0 {
        '0'
    } else if i == 1 {
        '1'
    } else if i == 2 {
        '2'
    } else if i == 3 {
        '3'
    } else {
        '4'
    }
}

} // verus!
