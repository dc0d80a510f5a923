//! Ranking the candidate words.
//!
//! Every word gets a score; the words are then listed by falling score, and
//! words of equal score keep the order in which they were given.

use vstd::prelude::*;
use vstd::std_specs::hash::*;
use std::collections::HashMap;
use crate::analysis::LetterStats;
use crate::feedback::WORD_LEN;
use crate::text::{lemma_codes_differ, letters_of};

verus! {

/// The three coefficients of the weighted score. They are whole numbers: to
/// use fractions, scale all three by one factor, which leaves the ranking as
/// it is.
#[derive(Debug, Clone, Copy, PartialEq, Eq, Structural)]
pub struct Weights {
    /// The weight of the positional frequency.
    pub positional: i32,
    /// The weight of the bonus for distinct letters.
    pub distinct: i32,
    /// The weight of the bonus for splitting the candidates evenly.
    pub elimination: i32,
}

/// Why a table of weights could not be made.
#[derive(Debug, Clone, Copy, PartialEq, Eq, Structural)]
pub enum ConfigError {
    /// The table would hold no weights at all.
    NoWeights,
}

/// The weights of a session, one triple for each attempt. The table is never
/// empty; attempts beyond its end use its last triple.
#[derive(Debug)]
pub struct WeightTable {
    rows: Vec<Weights>,
}

impl WeightTable {
    #[verifier::type_invariant]
    spec fn nonempty(self) -> bool {
        self.rows@.len() > 0
    }

    /// The triples of the table, in order.
    pub closed spec fn rows(&self) -> Seq<Weights> {
        self.rows@
    }

    /// The triple for attempt number `attempt`, counted from 0.
    pub open spec fn at(&self, attempt: int) -> Weights {
        if attempt < self.rows().len() {
            self.rows()[attempt]
        } else {
            self.rows()[self.rows().len() - 1]
        }
    }

    /// The table of `rows`; an error where `rows` is empty.
    pub fn new(rows: Vec<Weights>) -> (outcome: Result<WeightTable, ConfigError>)
        ensures
            rows@.len() == 0 <==> outcome is Err,
            outcome is Err ==> outcome->Err_0 == ConfigError::NoWeights,
            outcome is Ok ==> outcome->Ok_0.rows() == rows@ && rows@.len() > 0,
    {
        if rows.len() == 0 {
            Err(ConfigError::NoWeights)
        } else {
            Ok(WeightTable { rows })
        }
    }

    /// The number of triples, which is at least one.
    pub fn len(&self) -> (n: usize)
        ensures
            n == self.rows().len(),
            n > 0,
    {
        proof {
            use_type_invariant(self);
        }
        self.rows.len()
    }

    /// The triple for attempt number `attempt`, counted from 0.
    pub fn pick(&self, attempt: usize) -> (weights: Weights)
        ensures
            weights == self.at(attempt as int),
    {
        proof {
            use_type_invariant(self);
        }
        if attempt < self.rows.len() {
            self.rows[attempt]
        } else {
            self.rows[self.rows.len() - 1]
        }
    }
}

/// The letters of a word that count for its score: the first five.
pub open spec fn head(word: Seq<char>) -> Seq<char> {
    if word.len() <= WORD_LEN {
        word
    } else {
        word.take(WORD_LEN as int)
    }
}

/// The sum, over the first `n` of `letters`, of the count that `stats` holds
/// for the letter at its place.
pub open spec fn positional_sum(stats: LetterStats, letters: Seq<char>, n: int) -> nat
    decreases n,
{
    if n <= 0 {
        0
    } else {
        positional_sum(stats, letters, n - 1) + stats.freq(letters[n - 1], n - 1)
    }
}

/// The positional frequency of `word`: for each of its letters, how often the
/// corpus has that letter at that place, summed. A letter that occurs twice
/// counts at both places.
pub open spec fn positional_frequency(stats: LetterStats, word: Seq<char>) -> nat {
    positional_sum(stats, head(word), head(word).len() as int)
}

/// Whether the letter at place `p` does not occur further left.
pub open spec fn is_first(letters: Seq<char>, p: int) -> bool {
    forall|q: int| 0 <= q < p ==> letters[q] != letters[p]
}

/// How many of the first `n` places hold a letter for the first time.
pub open spec fn distinct_sum(letters: Seq<char>, n: int) -> nat
    decreases n,
{
    if n <= 0 {
        0
    } else {
        distinct_sum(letters, n - 1) + if is_first(letters, n - 1) {
            1nat
        } else {
            0nat
        }
    }
}

/// The bonus for distinct letters: the number of different letters of `word`.
pub open spec fn distinct_letter_bonus(word: Seq<char>) -> nat {
    distinct_sum(head(word), head(word).len() as int)
}

/// The places that hold a letter for the first time are as many as there are
/// different letters.
pub proof fn lemma_distinct_sum_counts_letters(letters: Seq<char>, n: int)
    requires
        0 <= n <= letters.len(),
    ensures
        letters.take(n).to_set().finite(),
        distinct_sum(letters, n) == letters.take(n).to_set().len(),
    decreases n,
{
    vstd::seq_lib::seq_to_set_is_finite(letters.take(n));
    if n == 0 {
        assert(letters.take(0).to_set() =~= Set::<char>::empty());
    } else {
        lemma_distinct_sum_counts_letters(letters, n - 1);
        let before = letters.take(n - 1);
        let x = letters[n - 1];
        assert(letters.take(n) =~= before.push(x));
        assert(before.push(x).to_set() =~= before.to_set().insert(x)) by {
            assert forall|c: char| before.push(x).to_set().contains(c) implies before.to_set().insert(
                x,
            ).contains(c) by {
                let j = choose|j: int| 0 <= j < before.push(x).len() && before.push(x)[j] == c;
                if j < before.len() {
                    assert(before[j] == c);
                }
            }
            assert forall|c: char| before.to_set().insert(x).contains(c) implies before.push(
                x,
            ).to_set().contains(c) by {
                if c == x {
                    assert(before.push(x)[before.len() as int] == c);
                } else {
                    let j = choose|j: int| 0 <= j < before.len() && before[j] == c;
                    assert(before.push(x)[j] == c);
                }
            }
        }
        if is_first(letters, n - 1) {
            if before.to_set().contains(x) {
                let q = choose|q: int| 0 <= q < before.len() && before[q] == x;
                assert(letters[q] == x);
            }
        } else {
            let q = choose|q: int| 0 <= q < n - 1 && #[trigger] letters[q] == letters[n - 1];
            assert(before[q] == x);
            assert(before.to_set().contains(x));
        }
    }
}

/// The bonus for distinct letters is the number of different letters among
/// the first five of the word.
pub proof fn lemma_distinct_letter_bonus(word: Seq<char>)
    ensures
        head(word).to_set().finite(),
        distinct_letter_bonus(word) == head(word).to_set().len(),
        distinct_letter_bonus(word) <= WORD_LEN,
{
    lemma_distinct_sum_counts_letters(head(word), head(word).len() as int);
    assert(head(word).take(head(word).len() as int) =~= head(word));
    lemma_distinct_sum_bound(head(word), head(word).len() as int);
}

proof fn lemma_distinct_sum_bound(letters: Seq<char>, n: int)
    requires
        0 <= n,
    ensures
        distinct_sum(letters, n) <= n,
    decreases n,
{
    if n > 0 {
        lemma_distinct_sum_bound(letters, n - 1);
    }
}

/// How many of the first `n` words hold the letter `c`.
pub open spec fn presence(words: Seq<String>, c: char, n: int) -> nat
    decreases n,
{
    if n <= 0 {
        0
    } else {
        presence(words, c, n - 1) + if head(words[n - 1]@).contains(c) {
            1nat
        } else {
            0nat
        }
    }
}

/// How evenly a letter splits `n` words of which `k` hold it: the size of the
/// smaller part.
pub open spec fn even_split(k: nat, n: nat) -> nat {
    if k <= n - k {
        k
    } else {
        (n - k) as nat
    }
}

/// The sum, over the first `n` places that hold a letter for the first time,
/// of how evenly that letter splits `words`.
pub open spec fn elimination_sum(letters: Seq<char>, words: Seq<String>, n: int) -> nat
    decreases n,
{
    if n <= 0 {
        0
    } else {
        elimination_sum(letters, words, n - 1) + if is_first(letters, n - 1) {
            even_split(presence(words, letters[n - 1], words.len() as int), words.len())
        } else {
            0nat
        }
    }
}

/// The bonus for elimination: for each different letter of `word`, the size
/// of the smaller of the two parts into which it splits `words`, those that
/// hold the letter and those that do not; summed.
pub open spec fn elimination_bonus(word: Seq<char>, words: Seq<String>) -> nat {
    elimination_sum(head(word), words, head(word).len() as int)
}

/// The weighted score of `word` among the candidates `words`.
pub open spec fn weighted_score(
    stats: LetterStats,
    weights: Weights,
    word: Seq<char>,
    words: Seq<String>,
) -> int {
    weights.positional * positional_frequency(stats, word) + weights.distinct
        * distinct_letter_bonus(word) + weights.elimination * elimination_bonus(word, words)
}

/// The positional frequency of each of `words`.
pub open spec fn plain_scores(words: Seq<String>, stats: LetterStats) -> Seq<int> {
    Seq::new(words.len(), |i: int| positional_frequency(stats, words[i]@) as int)
}

/// The weighted score of each of `words` among all of them.
pub open spec fn weighted_scores(words: Seq<String>, stats: LetterStats, weights: Weights) -> Seq<
    int,
> {
    Seq::new(words.len(), |i: int| weighted_score(stats, weights, words[i]@, words))
}

/// Whether `ranked` lists the words with their scores in the order `order`.
pub open spec fn arranged(
    ranked: Seq<(String, i128)>,
    words: Seq<String>,
    scores: Seq<int>,
    order: Seq<int>,
) -> bool {
    &&& ranked.len() == order.len()
    &&& forall|i: int|
        0 <= i < ranked.len() ==> (#[trigger] ranked[i]).0 == words[order[i]] && ranked[i].1
            == scores[order[i]]
}

/// Whether the word at place `a` of the input is listed before the word at
/// place `b`: it scores higher, or equally and stands further left.
pub open spec fn comes_before(scores: Seq<int>, a: int, b: int) -> bool {
    scores[a] > scores[b] || (scores[a] == scores[b] && a < b)
}

/// Whether `order` lists the places `0..k` of the input, each once, so that
/// every place [`comes_before`] all that follow it.
pub open spec fn ranks_first(order: Seq<int>, scores: Seq<int>, k: int) -> bool {
    &&& order.len() == k
    &&& forall|i: int| 0 <= i < order.len() ==> 0 <= #[trigger] order[i] < k
    &&& forall|i: int, j: int|
        0 <= i < j < order.len() ==> comes_before(scores, #[trigger] order[i], #[trigger] order[j])
    &&& forall|a: int| 0 <= a < k ==> #[trigger] order.contains(a)
}

/// Whether `order` is the ranking of the input with these scores: a listing
/// of all its places by falling score, ties in the order of the input.
pub open spec fn is_ranking(order: Seq<int>, scores: Seq<int>) -> bool {
    ranks_first(order, scores, scores.len() as int)
}

/// The ranking of an input with these scores.
pub open spec fn ranking_of(scores: Seq<int>) -> Seq<int> {
    choose|order: Seq<int>| is_ranking(order, scores)
}

/// Two rankings of the same scores list the same places up to place `i`.
proof fn lemma_rankings_agree(first: Seq<int>, second: Seq<int>, scores: Seq<int>, i: int)
    requires
        is_ranking(first, scores),
        is_ranking(second, scores),
        0 <= i < scores.len(),
    ensures
        forall|j: int| 0 <= j <= i ==> first[j] == second[j],
    decreases i,
{
    if i > 0 {
        lemma_rankings_agree(first, second, scores, i - 1);
    }
    let a = first[i];
    let b = second[i];
    assert(second.contains(a));
    let m = choose|m: int| 0 <= m < second.len() && second[m] == a;
    assert(first.contains(b));
    let l = choose|l: int| 0 <= l < first.len() && first[l] == b;
    if m < i {
        assert(first[m] == a);
        assert(comes_before(scores, first[m], first[i]));
    } else if m > i {
        assert(comes_before(scores, second[i], second[m]));
        if l < i {
            assert(second[l] == b);
            assert(comes_before(scores, second[l], second[i]));
        } else if l > i {
            assert(comes_before(scores, first[i], first[l]));
        }
    }
}

/// A listing of the places `0..k` stays one, of the places `0..k + 1`, when
/// place `k` enters it behind the words that score as much or more and
/// before those that score less.
proof fn lemma_insert_keeps_ranking(before: Seq<int>, scores: Seq<int>, k: int, p: int)
    requires
        ranks_first(before, scores, k),
        0 <= p <= k,
        forall|j: int| p <= j < before.len() ==> scores[#[trigger] before[j]] < scores[k],
        p > 0 ==> scores[before[p - 1]] >= scores[k],
    ensures
        ranks_first(before.insert(p, k), scores, k + 1),
{
    let after = before.insert(p, k);
    assert forall|i: int, j: int| 0 <= i < j < after.len() implies comes_before(
        scores,
        #[trigger] after[i],
        #[trigger] after[j],
    ) by {
        if j < p {
            assert(after[i] == before[i] && after[j] == before[j]);
        } else if j == p {
            assert(after[i] == before[i]);
            if i < p - 1 {
                assert(comes_before(scores, before[i], before[p - 1]));
            }
        } else if i < p {
            assert(after[i] == before[i] && after[j] == before[j - 1]);
        } else if i == p {
            assert(after[j] == before[j - 1]);
        } else {
            assert(after[i] == before[i - 1] && after[j] == before[j - 1]);
        }
    }
    assert forall|a: int| 0 <= a < k + 1 implies #[trigger] after.contains(a) by {
        if a == k {
            assert(after[p] == a);
        } else {
            assert(before.contains(a));
            let i = choose|i: int| 0 <= i < before.len() && before[i] == a;
            if i < p {
                assert(after[i] == a);
            } else {
                assert(after[i + 1] == a);
            }
        }
    }
    assert forall|i: int| 0 <= i < after.len() implies 0 <= #[trigger] after[i] < k + 1 by {
        if i < p {
            assert(after[i] == before[i]);
        } else if i > p {
            assert(after[i] == before[i - 1]);
        }
    }
}

/// Where a word of score `score` enters the listing `order`: behind the
/// words that score as much or more.
spec fn entry_place(order: Seq<int>, scores: Seq<int>, score: int) -> int
    decreases order.len(),
{
    if order.len() == 0 {
        0
    } else if scores[order.last()] >= score {
        order.len() as int
    } else {
        entry_place(order.drop_last(), scores, score)
    }
}

/// The listing of the places `0..k` that arises when they enter one by one.
spec fn built_ranking(scores: Seq<int>, k: int) -> Seq<int>
    decreases k,
{
    if k <= 0 {
        Seq::empty()
    } else {
        let before = built_ranking(scores, k - 1);
        before.insert(entry_place(before, scores, scores[k - 1]), k - 1)
    }
}

proof fn lemma_entry_place(order: Seq<int>, scores: Seq<int>, score: int)
    ensures
        0 <= entry_place(order, scores, score) <= order.len(),
        forall|j: int|
            entry_place(order, scores, score) <= j < order.len() ==> scores[#[trigger] order[j]]
                < score,
        entry_place(order, scores, score) > 0 ==> scores[order[entry_place(order, scores, score)
            - 1]] >= score,
    decreases order.len(),
{
    if order.len() > 0 && scores[order.last()] < score {
        lemma_entry_place(order.drop_last(), scores, score);
        let p = entry_place(order, scores, score);
        assert forall|j: int| p <= j < order.len() implies scores[#[trigger] order[j]] < score by {
            if j < order.len() - 1 {
                assert(order.drop_last()[j] == order[j]);
            }
        }
        if p > 0 {
            assert(order.drop_last()[p - 1] == order[p - 1]);
        }
    }
}

proof fn lemma_built_ranks(scores: Seq<int>, k: int)
    requires
        0 <= k <= scores.len(),
    ensures
        ranks_first(built_ranking(scores, k), scores, k),
    decreases k,
{
    if k > 0 {
        lemma_built_ranks(scores, k - 1);
        let before = built_ranking(scores, k - 1);
        lemma_entry_place(before, scores, scores[k - 1]);
        lemma_insert_keeps_ranking(
            before,
            scores,
            k - 1,
            entry_place(before, scores, scores[k - 1]),
        );
    }
}

/// Every input has a ranking: whatever the scores, [`ranking_of`] lists all
/// the places, by falling score, ties in the order of the input.
pub proof fn lemma_ranking_exists(scores: Seq<int>)
    ensures
        is_ranking(ranking_of(scores), scores),
{
    lemma_built_ranks(scores, scores.len() as int);
    assert(is_ranking(built_ranking(scores, scores.len() as int), scores));
}

/// The ranking is determined by the scores alone: no two listings of the
/// same scores differ, so ranking the same input again gives the same list.
pub proof fn lemma_ranking_unique(first: Seq<int>, second: Seq<int>, scores: Seq<int>)
    requires
        is_ranking(first, scores),
        is_ranking(second, scores),
    ensures
        first == second,
        first == ranking_of(scores),
{
    if scores.len() > 0 {
        lemma_rankings_agree(first, second, scores, scores.len() - 1);
        lemma_rankings_agree(first, ranking_of(scores), scores, scores.len() - 1);
    }
    assert(first =~= second);
    assert(first =~= ranking_of(scores));
}

/// The ranking lists every pair of words in one order, by score first and by
/// place second: of two different places, exactly one comes before the other.
pub proof fn lemma_order_total(scores: Seq<int>, a: int, b: int)
    ensures
        a != b ==> (comes_before(scores, a, b) <==> !comes_before(scores, b, a)),
        !comes_before(scores, a, a),
{
}

/// The scores as mathematical integers.
pub open spec fn as_ints(scores: Seq<i128>) -> Seq<int> {
    Seq::new(scores.len(), |i: int| scores[i] as int)
}

/// The places as mathematical integers.
pub open spec fn as_places(order: Seq<usize>) -> Seq<int> {
    Seq::new(order.len(), |i: int| order[i] as int)
}

/// The ranking of an input with the scores `scores`: the places of the input
/// by falling score, ties in the order of the input.
pub fn rank_places(scores: &Vec<i128>) -> (order: Vec<usize>)
    ensures
        as_places(order@) == ranking_of(as_ints(scores@)),
        is_ranking(as_places(order@), as_ints(scores@)),
{
    let ghost marks = as_ints(scores@);
    let n: usize = scores.len();
    let mut order: Vec<usize> = Vec::new();
    let mut k: usize = 0;
    while k < n
        invariant
            k <= n,
            n == scores@.len(),
            marks == as_ints(scores@),
            ranks_first(as_places(order@), marks, k as int),
            forall|i: int| 0 <= i < order@.len() ==> #[trigger] order@[i] < k,
        decreases n - k,
    {
        let score = scores[k];
        let mut p: usize = order.len();
        while p > 0 && scores[order[p - 1]] < score
            invariant
                p <= order@.len(),
                k < n,
                n == scores@.len(),
                score == scores@[k as int],
                marks == as_ints(scores@),
                ranks_first(as_places(order@), marks, k as int),
                forall|i: int| 0 <= i < order@.len() ==> #[trigger] order@[i] < k,
                forall|j: int| p <= j < order@.len() ==> marks[#[trigger] order@[j] as int] < score,
            decreases p,
        {
            assert(as_places(order@)[p - 1] == order@[p - 1]);
            p -= 1;
        }
        let ghost before = as_places(order@);
        let ghost places = order@;
        order.insert(p, k);
        assert forall|i: int| 0 <= i < order@.len() implies #[trigger] order@[i] < k + 1 by {
            if i < p {
                assert(order@[i] == places[i]);
            } else if i > p {
                assert(order@[i] == places[i - 1]);
            }
        }
        proof {
            assert(as_places(order@) =~= before.insert(p as int, k as int));
            assert forall|j: int| p <= j < before.len() implies marks[#[trigger] before[j]]
                < marks[k as int] by {
                assert(before[j] == places[j]);
            }
            if p > 0 {
                assert(before[p - 1] == places[p - 1]);
            }
            lemma_insert_keeps_ranking(before, marks, k as int, p as int);
        }
        k += 1;
    }
    proof {
        lemma_ranking_unique(as_places(order@), as_places(order@), marks);
    }
    order
}

/// The first five letters of `word`.
fn head_of(word: &str) -> (letters: Vec<char>)
    ensures
        letters@ == head(word@),
        letters@.len() <= WORD_LEN,
{
    let mut letters = letters_of(word);
    if letters.len() > WORD_LEN {
        letters.truncate(WORD_LEN);
    }
    letters
}

/// The positional frequency of the word made of `letters`.
fn positional_of(stats: &LetterStats, letters: &Vec<char>) -> (sum: u128)
    requires
        letters@.len() <= WORD_LEN,
    ensures
        sum == positional_sum(*stats, letters@, letters@.len() as int),
        sum <= 5 * 0xffff_ffff_ffff_ffff,
{
    let mut sum: u128 = 0;
    let mut i: usize = 0;
    while i < letters.len()
        invariant
            i <= letters@.len() <= WORD_LEN,
            sum == positional_sum(*stats, letters@, i as int),
            sum <= i * 0xffff_ffff_ffff_ffff,
        decreases letters@.len() - i,
    {
        let count: u64 = stats.frequency(letters[i], i);
        sum = sum + count as u128;
        i += 1;
    }
    sum
}

/// Whether the letter at place `p` does not occur further left.
fn first_at(letters: &Vec<char>, p: usize) -> (first: bool)
    requires
        p < letters@.len(),
    ensures
        first == is_first(letters@, p as int),
{
    let mut q: usize = 0;
    while q < p
        invariant
            q <= p < letters@.len(),
            forall|j: int| 0 <= j < q ==> letters@[j] != letters@[p as int],
        decreases p - q,
    {
        if letters[q] == letters[p] {
            return false;
        }
        q += 1;
    }
    true
}

/// The number of different letters among `letters`.
fn distinct_of(letters: &Vec<char>) -> (sum: u128)
    requires
        letters@.len() <= WORD_LEN,
    ensures
        sum == distinct_sum(letters@, letters@.len() as int),
        sum <= 5,
{
    let mut sum: u128 = 0;
    let mut i: usize = 0;
    while i < letters.len()
        invariant
            i <= letters@.len() <= WORD_LEN,
            sum == distinct_sum(letters@, i as int),
            sum <= i,
        decreases letters@.len() - i,
    {
        if first_at(letters, i) {
            sum = sum + 1;
        }
        i += 1;
    }
    sum
}

/// The count that `table` holds for the letter `c`; 0 without an entry.
spec fn tally(table: Map<u32, usize>, c: char) -> nat {
    if table.contains_key(c as u32) {
        table[c as u32] as nat
    } else {
        0
    }
}

/// At most `n` of the first `n` words hold a letter.
proof fn lemma_presence_bound(words: Seq<String>, c: char, n: int)
    requires
        0 <= n,
    ensures
        presence(words, c, n) <= n,
    decreases n,
{
    if n > 0 {
        lemma_presence_bound(words, c, n - 1);
    }
}

/// For each letter, the number of words that hold it.
fn presence_table(words: &Vec<String>) -> (table: HashMap<u32, usize>)
    ensures
        forall|c: char| #[trigger] tally(table@, c) == presence(words@, c, words@.len() as int),
{
    broadcast use group_hash_axioms;

    let mut table: HashMap<u32, usize> = HashMap::new();
    let n: usize = words.len();
    let mut k: usize = 0;
    while k < n
        invariant
            k <= n,
            n == words@.len(),
            forall|c: char| #[trigger] tally(table@, c) == presence(words@, c, k as int),
        decreases n - k,
    {
        let letters = head_of(words[k].as_str());
        let mut p: usize = 0;
        assert(letters@.take(0) =~= Seq::<char>::empty());
        while p < letters.len()
            invariant
                p <= letters@.len(),
                k < n,
                n == words@.len(),
                letters@ == head(words@[k as int]@),
                forall|c: char| #[trigger]
                    tally(table@, c) == presence(words@, c, k as int) + if letters@.take(
                        p as int,
                    ).contains(c) {
                        1nat
                    } else {
                        0nat
                    },
            decreases letters@.len() - p,
        {
            let c = letters[p];
            let ghost before = table@;
            let ghost seen = letters@.take(p as int);
            let ghost next = letters@.take(p + 1);
            let first = first_at(&letters, p);
            proof {
                assert(next =~= seen.push(c));
                if first {
                    if seen.contains(c) {
                        let q = choose|q: int| 0 <= q < seen.len() && seen[q] == c;
                        assert(letters@[q] == c);
                    }
                } else {
                    let q = choose|q: int| 0 <= q < p && letters@[q] == letters@[p as int];
                    assert(seen[q] == c);
                }
                assert(first == !seen.contains(c));
                assert(tally(before, c) == presence(words@, c, k as int) + if seen.contains(c) {
                    1nat
                } else {
                    0nat
                });
                lemma_presence_bound(words@, c, k as int);
            }
            if first {
                let count: usize = match table.get(&(c as u32)) {
                    Some(n) => *n,
                    None => 0,
                };
                table.insert(c as u32, count + 1);
            }
            assert forall|d: char| #[trigger]
                tally(table@, d) == presence(words@, d, k as int) + if next.contains(d) {
                    1nat
                } else {
                    0nat
                } by {
                assert(tally(before, d) == presence(words@, d, k as int) + if seen.contains(d) {
                    1nat
                } else {
                    0nat
                });
                if d != c {
                    lemma_codes_differ(d, c);
                    if next.contains(d) {
                        let q = choose|q: int| 0 <= q < next.len() && next[q] == d;
                        assert(seen[q] == d);
                    }
                    if seen.contains(d) {
                        let q = choose|q: int| 0 <= q < seen.len() && seen[q] == d;
                        assert(next[q] == d);
                    }
                } else {
                    assert(next[p as int] == c);
                }
            }
            p += 1;
        }
        assert(letters@.take(letters@.len() as int) =~= letters@);
        k += 1;
    }
    table
}

/// The elimination bonus of the word made of `letters`, from the table of
/// [`presence_table`] for `words`.
fn elimination_of(letters: &Vec<char>, table: &HashMap<u32, usize>, Ghost(words): Ghost<Seq<String>>, n: usize) -> (sum: u128)
    requires
        letters@.len() <= WORD_LEN,
        n == words.len(),
        forall|c: char| #[trigger] tally(table@, c) == presence(words, c, words.len() as int),
    ensures
        sum == elimination_sum(letters@, words, letters@.len() as int),
        sum <= 5 * 0xffff_ffff_ffff_ffff,
{
    broadcast use group_hash_axioms;

    let mut sum: u128 = 0;
    let mut i: usize = 0;
    while i < letters.len()
        invariant
            i <= letters@.len() <= WORD_LEN,
            n == words.len(),
            forall|c: char| #[trigger] tally(table@, c) == presence(words, c, words.len() as int),
            sum == elimination_sum(letters@, words, i as int),
            sum <= i * 0xffff_ffff_ffff_ffff,
        decreases letters@.len() - i,
    {
        if first_at(letters, i) {
            let c = letters[i];
            let held: usize = match table.get(&(c as u32)) {
                Some(k) => *k,
                None => 0,
            };
            proof {
                assert(held == tally(table@, c));
                lemma_presence_bound(words, c, words.len() as int);
            }
            let rest: usize = n - held;
            let part: usize = if held <= rest {
                held
            } else {
                rest
            };
            assert(part == even_split(presence(words, c, words.len() as int), words.len()));
            sum = sum + part as u128;
        }
        i += 1;
    }
    sum
}

/// The words with their scores, listed in the order `order`.
fn arrange(words: &Vec<String>, scores: &Vec<i128>, order: &Vec<usize>) -> (ranked: Vec<
    (String, i128),
>)
    requires
        scores@.len() == words@.len(),
        forall|i: int| 0 <= i < order@.len() ==> #[trigger] order@[i] < words@.len(),
    ensures
        arranged(ranked@, words@, as_ints(scores@), as_places(order@)),
{
    let mut ranked: Vec<(String, i128)> = Vec::new();
    let mut i: usize = 0;
    while i < order.len()
        invariant
            i <= order@.len(),
            scores@.len() == words@.len(),
            forall|i: int| 0 <= i < order@.len() ==> #[trigger] order@[i] < words@.len(),
            ranked@.len() == i,
            forall|j: int|
                0 <= j < i ==> (#[trigger] ranked@[j]).0 == words@[order@[j] as int] && ranked@[j].1
                    == scores@[order@[j] as int],
        decreases order@.len() - i,
    {
        let place = order[i];
        ranked.push((words[place].clone(), scores[place]));
        i += 1;
    }
    ranked
}

/// Ranks `words` by positional frequency alone: the words with their scores,
/// by falling score, words of equal score in the order of `words`.
pub fn rank_words(words: &Vec<String>, stats: &LetterStats) -> (ranked: Vec<(String, i128)>)
    ensures
        arranged(
            ranked@,
            words@,
            plain_scores(words@, *stats),
            ranking_of(plain_scores(words@, *stats)),
        ),
        is_ranking(ranking_of(plain_scores(words@, *stats)), plain_scores(words@, *stats)),
{
    let mut scores: Vec<i128> = Vec::new();
    let mut k: usize = 0;
    while k < words.len()
        invariant
            k <= words@.len(),
            scores@.len() == k,
            forall|j: int|
                0 <= j < k ==> #[trigger] scores@[j] == positional_frequency(*stats, words@[j]@),
        decreases words@.len() - k,
    {
        let letters = head_of(words[k].as_str());
        let sum = positional_of(stats, &letters);
        scores.push(sum as i128);
        k += 1;
    }
    assert(as_ints(scores@) =~= plain_scores(words@, *stats));
    let order = rank_places(&scores);
    assert forall|i: int| 0 <= i < order@.len() implies #[trigger] order@[i] < words@.len() by {
        assert(as_places(order@)[i] == order@[i]);
    }
    arrange(words, &scores, &order)
}

/// Ranks `words` by weighted score: the words with their scores, by falling
/// score, words of equal score in the order of `words`. The score of a word
/// is the sum of its positional frequency, its bonus for distinct letters and
/// its bonus for elimination among `words`, each times its weight.
pub fn weighted_rank(words: &Vec<String>, stats: &LetterStats, weights: Weights) -> (ranked: Vec<
    (String, i128),
>)
    ensures
        arranged(
            ranked@,
            words@,
            weighted_scores(words@, *stats, weights),
            ranking_of(weighted_scores(words@, *stats, weights)),
        ),
        is_ranking(
            ranking_of(weighted_scores(words@, *stats, weights)),
            weighted_scores(words@, *stats, weights),
        ),
{
    let table = presence_table(words);
    let n: usize = words.len();
    let mut scores: Vec<i128> = Vec::new();
    let mut k: usize = 0;
    while k < n
        invariant
            k <= n,
            n == words@.len(),
            scores@.len() == k,
            forall|c: char| #[trigger] tally(table@, c) == presence(words@, c, words@.len() as int),
            forall|j: int|
                0 <= j < k ==> #[trigger] scores@[j] == weighted_score(
                    *stats,
                    weights,
                    words@[j]@,
                    words@,
                ),
        decreases n - k,
    {
        let letters = head_of(words[k].as_str());
        let frequency = positional_of(stats, &letters);
        let distinct = distinct_of(&letters);
        let elimination = elimination_of(&letters, &table, Ghost(words@), n);
        let score = weigh(weights, frequency, distinct, elimination);
        scores.push(score);
        k += 1;
    }
    assert(as_ints(scores@) =~= weighted_scores(words@, *stats, weights));
    let order = rank_places(&scores);
    assert forall|i: int| 0 <= i < order@.len() implies #[trigger] order@[i] < words@.len() by {
        assert(as_places(order@)[i] == order@[i]);
    }
    arrange(words, &scores, &order)
}

/// The three parts of a score, each times its weight, summed.
fn weigh(weights: Weights, frequency: u128, distinct: u128, elimination: u128) -> (score: i128)
    requires
        frequency <= 5 * 0xffff_ffff_ffff_ffff,
        distinct <= 5,
        elimination <= 5 * 0xffff_ffff_ffff_ffff,
    ensures
        score == weights.positional * frequency + weights.distinct * distinct + weights.elimination
            * elimination,
{
    let a: i128 = weights.positional as i128;
    let b: i128 = weights.distinct as i128;
    let c: i128 = weights.elimination as i128;
    let f: i128 = frequency as i128;
    let d: i128 = distinct as i128;
    let e: i128 = elimination as i128;
    assert(-0x8000_0000 * 5 * 0xffff_ffff_ffff_ffff <= a * f <= 0x8000_0000 * 5
        * 0xffff_ffff_ffff_ffff) by (nonlinear_arith)
        requires
            -0x8000_0000 <= a <= 0x8000_0000,
            0 <= f <= 5 * 0xffff_ffff_ffff_ffff,
    ;
    assert(-0x8000_0000 * 5 <= b * d <= 0x8000_0000 * 5) by (nonlinear_arith)
        requires
            -0x8000_0000 <= b <= 0x8000_0000,
            0 <= d <= 5,
    ;
    assert(-0x8000_0000 * 5 * 0xffff_ffff_ffff_ffff <= c * e <= 0x8000_0000 * 5
        * 0xffff_ffff_ffff_ffff) by (nonlinear_arith)
        requires
            -0x8000_0000 <= c <= 0x8000_0000,
            0 <= e <= 5 * 0xffff_ffff_ffff_ffff,
    ;
    a * f + b * d + c * e
}

} // verus!
