//! Narrowing a word list to the words that agree with what is known.

use vstd::prelude::*;
use crate::feedback::WORD_LEN;
use crate::game::{GameData, Knowledge};
use crate::letters::LetterSet;
use crate::text::letters_of;

verus! {

/// Whether `word` has the letter `c` at place `i`.
pub open spec fn has_at(word: Seq<char>, i: int, c: char) -> bool {
    0 <= i < word.len() && word[i] == c
}

/// Whether `word` agrees with all that `k` holds:
/// it has every confirmed letter at its place;
/// it has no letter at a place where that letter is ruled out, and holds each
/// such letter somewhere;
/// it holds every required letter;
/// it holds no letter that is ruled out of the word.
pub open spec fn consistent(k: Knowledge, word: Seq<char>) -> bool {
    &&& forall|i: int|
        0 <= i < WORD_LEN && (#[trigger] k.correct[i]) is Some ==> has_at(word, i, k.correct[i]->0)
    &&& forall|i: int, c: char|
        0 <= i < WORD_LEN && #[trigger] k.misplaced[i].contains(c) ==> !has_at(word, i, c)
            && word.contains(c)
    &&& forall|c: char| #[trigger] k.must_contain.contains(c) ==> word.contains(c)
    &&& forall|c: char| #[trigger] k.excluded.contains(c) ==> !word.contains(c)
}

/// The words of `words` that agree with `k`, in their order.
pub open spec fn filtered(words: Seq<String>, k: Knowledge) -> Seq<String> {
    words.filter(|w: String| consistent(k, w@))
}

/// Filtering twice with the same knowledge changes nothing more.
pub proof fn lemma_filter_idempotent(words: Seq<String>, k: Knowledge)
    ensures
        filtered(filtered(words, k), k) == filtered(words, k),
    decreases words.len(),
{
    let p = |w: String| consistent(k, w@);
    reveal(Seq::filter);
    if words.len() > 0 {
        let front = words.drop_last();
        let last = words.last();
        lemma_filter_idempotent(front, k);
        if p(last) {
            Seq::filter_distributes_over_add(front.filter(p), seq![last], p);
            assert(seq![last].filter(p) =~= seq![last]) by {
                assert(seq![last].drop_last() =~= Seq::<String>::empty());
                assert(Seq::<String>::empty().filter(p) =~= Seq::<String>::empty());
            }
            assert(words.filter(p) =~= front.filter(p) + seq![last]);
        }
    }
}

/// Every word that a filter lets through stood in the list it was given, and
/// agrees with the knowledge.
pub proof fn lemma_filter_keeps_only(words: Seq<String>, k: Knowledge, w: String)
    requires
        filtered(words, k).contains(w),
    ensures
        words.contains(w),
        consistent(k, w@),
    decreases words.len(),
{
    let p = |w: String| consistent(k, w@);
    reveal(Seq::filter);
    if words.len() > 0 {
        let front = words.drop_last();
        if front.filter(p).contains(w) {
            lemma_filter_keeps_only(front, k, w);
            let i = choose|i: int| 0 <= i < front.len() && front[i] == w;
            assert(words[i] == w);
        } else {
            assert(p(words.last()));
            let j = choose|j: int| 0 <= j < words.filter(p).len() && words.filter(p)[j] == w;
            if j < front.filter(p).len() {
                assert(front.filter(p)[j] == w);
            }
            assert(words.last() == w);
            assert(words[words.len() - 1] == w);
        }
    }
}

/// A word that one filter has removed does not come back when the result is
/// filtered again, whatever is known by then.
pub proof fn lemma_filter_never_readmits(
    words: Seq<String>,
    earlier: Knowledge,
    later: Knowledge,
    w: String,
)
    requires
        !filtered(words, earlier).contains(w),
    ensures
        !filtered(filtered(words, earlier), later).contains(w),
{
    if filtered(filtered(words, earlier), later).contains(w) {
        lemma_filter_keeps_only(filtered(words, earlier), later, w);
    }
}

/// Whether `c` is among `letters`.
fn has_letter(letters: &Vec<char>, c: char) -> (found: bool)
    ensures
        found == letters@.contains(c),
{
    let mut i: usize = 0;
    while i < letters.len()
        invariant
            i <= letters@.len(),
            forall|j: int| 0 <= j < i ==> letters@[j] != c,
        decreases letters@.len() - i,
    {
        if letters[i] == c {
            return true;
        }
        i += 1;
    }
    false
}

/// Whether the word made of `letters` holds every letter of `set`.
fn holds_all(letters: &Vec<char>, set: &LetterSet) -> (ok: bool)
    ensures
        ok == (forall|c: char| #[trigger] set@.contains(c) ==> letters@.contains(c)),
{
    let n = set.len();
    let mut i: usize = 0;
    while i < n
        invariant
            i <= n,
            n == set.ordered().len(),
            forall|j: int| 0 <= j < i ==> letters@.contains(#[trigger] set.ordered()[j]),
        decreases n - i,
    {
        let c = set.letter(i);
        if !has_letter(letters, c) {
            return false;
        }
        i += 1;
    }
    assert forall|c: char| #[trigger] set@.contains(c) implies letters@.contains(c) by {
        let j = choose|j: int| 0 <= j < set.ordered().len() && set.ordered()[j] == c;
        assert(letters@.contains(set.ordered()[j]));
    }
    true
}

/// Whether the word made of `letters` holds no letter of `set`.
fn holds_none(letters: &Vec<char>, set: &LetterSet) -> (ok: bool)
    ensures
        ok == (forall|c: char| #[trigger] set@.contains(c) ==> !letters@.contains(c)),
{
    let n = set.len();
    let mut i: usize = 0;
    while i < n
        invariant
            i <= n,
            n == set.ordered().len(),
            forall|j: int| 0 <= j < i ==> !letters@.contains(#[trigger] set.ordered()[j]),
        decreases n - i,
    {
        let c = set.letter(i);
        if has_letter(letters, c) {
            return false;
        }
        i += 1;
    }
    assert forall|c: char| #[trigger] set@.contains(c) implies !letters@.contains(c) by {
        let j = choose|j: int| 0 <= j < set.ordered().len() && set.ordered()[j] == c;
        assert(!letters@.contains(set.ordered()[j]));
    }
    true
}

/// A word list together with the state of the game to hold it against.
pub struct Filter<'a> {
    game: &'a GameData,
    words: &'a Vec<String>,
}

impl<'a> Filter<'a> {
    /// The state of the game that the filter goes by.
    pub closed spec fn game(&self) -> GameData {
        *self.game
    }

    /// The words that the filter is to narrow.
    pub closed spec fn words(&self) -> Seq<String> {
        self.words@
    }

    /// A filter for `words` under the state `game`.
    pub fn new(game: &'a GameData, words: &'a Vec<String>) -> (filter: Filter<'a>)
        ensures
            filter.game() == *game,
            filter.words() == words@,
    {
        Filter { game, words }
    }

    /// Whether `word` agrees with the state of the game.
    pub fn matches(&self, word: &str) -> (ok: bool)
        ensures
            ok == consistent(self.game()@, word@),
    {
        let game = self.game;
        let ghost k = game@;
        assert(self.game()@ == k);
        let letters = letters_of(word);
        let mut i: usize = 0;
        while i < WORD_LEN
            invariant
                i <= WORD_LEN,
                letters@ == word@,
                k == game@,
                k == self.game()@,
                forall|j: int|
                    0 <= j < i && (#[trigger] k.correct[j]) is Some ==> has_at(
                        word@,
                        j,
                        k.correct[j]->0,
                    ),
                forall|j: int, c: char|
                    0 <= j < i && #[trigger] k.misplaced[j].contains(c) ==> !has_at(word@, j, c)
                        && word@.contains(c),
            decreases WORD_LEN - i,
        {
            match game.correct_positions[i] {
                Some(c) => {
                    if !(i < letters.len() && letters[i] == c) {
                        assert(k.correct[i as int] is Some);
                        assert(!has_at(word@, i as int, k.correct[i as int]->0));
                        assert(!consistent(k, word@));
                        return false;
                    }
                },
                None => {},
            }
            let set = &game.misplaced_letters[i];
            assert(set@ == k.misplaced[i as int]);
            if i < letters.len() && set.contains(letters[i]) {
                assert(has_at(word@, i as int, letters@[i as int]));
                return false;
            }
            if !holds_all(&letters, set) {
                return false;
            }
            i += 1;
        }
        assert(game.must_contain@ == k.must_contain);
        assert(game.contains_not@ == k.excluded);
        if !holds_all(&letters, &game.must_contain) {
            assert(!consistent(k, word@));
            return false;
        }
        let ok = holds_none(&letters, &game.contains_not);
        assert(ok == consistent(k, word@));
        ok
    }

    /// The words that agree with the state of the game, in their order.
    pub fn filter_words(&self) -> (kept: Vec<String>)
        ensures
            kept@ == filtered(self.words(), self.game()@),
            filtered(kept@, self.game()@) == kept@,
            forall|w: String| #[trigger] kept@.contains(w) ==> self.words().contains(w),
    {
        proof {
            lemma_filter_idempotent(self.words(), self.game()@);
            assert forall|w: String| #[trigger]
                filtered(self.words(), self.game()@).contains(w) implies self.words().contains(
                w,
            ) by {
                lemma_filter_keeps_only(self.words(), self.game()@, w);
            }
        }
        let ghost p = |w: String| consistent(self.game()@, w@);
        let mut kept: Vec<String> = Vec::new();
        let mut i: usize = 0;
        proof {
            reveal(Seq::filter);
            assert(self.words@.take(0) =~= Seq::<String>::empty());
        }
        while i < self.words.len()
            invariant
                i <= self.words@.len(),
                p == (|w: String| consistent(self.game()@, w@)),
                kept@ == self.words@.take(i as int).filter(p),
            decreases self.words@.len() - i,
        {
            let word = &self.words[i];
            proof {
                reveal(Seq::filter);
                assert(self.words@.take(i + 1).drop_last() =~= self.words@.take(i as int));
            }
            if self.matches(word.as_str()) {
                kept.push(word.clone());
            }
            i += 1;
        }
        assert(self.words@.take(self.words@.len() as int) =~= self.words@);
        kept
    }
}

} // verus!
