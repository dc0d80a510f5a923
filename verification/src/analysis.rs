//! How often each letter stands at each place of the words of a corpus.

use vstd::prelude::*;
use vstd::std_specs::hash::*;
use std::collections::BTreeMap;
use std::collections::HashMap;
use crate::feedback::WORD_LEN;
use crate::letters::LetterSet;
use crate::text::{append_part, joined, lemma_codes_differ, letters_of, words_in, words_of_text};
use vstd::string::StringExecFns;

verus! {

/// The error type of `serde_json`, carried through unread.
#[verifier::external_type_specification]
#[verifier::external_body]
pub struct ExJsonError(serde_json::Error);

/// The rows that `serde_json` reads from `text` when it is asked for a map
/// from letters to arrays of five counts, in the order of the letters; `None`
/// where it rejects the text.
pub uninterp spec fn json_letter_rows(text: Seq<char>) -> Option<Seq<(char, [u64; 5])>>;

/// `serde_json::from_str`, asked for a `BTreeMap<char, [u64; 5]>`, either reads
/// such a map from the JSON text or returns its error. The contract names the
/// rows of the map that it reads and claims nothing else of them.
#[verifier::external_body]
fn parse_letter_rows(text: &str) -> (rows: Result<Vec<(char, [u64; 5])>, serde_json::Error>)
    ensures
        rows is Ok <==> json_letter_rows(text@) is Some,
        rows is Ok ==> rows->Ok_0@ == json_letter_rows(text@)->0,
{
    let table: BTreeMap<char, [u64; 5]> = serde_json::from_str(text)?;
    Ok(table.into_iter().collect())
}

/// The text that `serde_json` writes, in its indented layout, for the map
/// that gives each letter of `rows` its counts; `None` where it fails.
pub uninterp spec fn pretty_json_of_rows(rows: Seq<(char, [u64; 5])>) -> Option<Seq<char>>;

/// Whether the letters of `rows` rise strictly from row to row, by their code
/// points; no letter then has two rows.
pub open spec fn rising(rows: Seq<(char, [u64; 5])>) -> bool {
    forall|i: int, j: int|
        0 <= i < j < rows.len() ==> ((#[trigger] rows[i]).0 as u32) < ((#[trigger] rows[j]).0
            as u32)
}

/// `serde_json::to_string_pretty`, given a `BTreeMap<char, [u64; 5]>`, writes
/// the map as indented JSON or returns its error. The rows come with rising
/// letters, so the map holds them as they are and in their order. The
/// contract names the text that is written for them.
#[verifier::external_body]
fn rows_to_json(rows: &Vec<(char, [u64; 5])>) -> (text: Result<String, serde_json::Error>)
    requires
        rising(rows@),
    ensures
        text is Ok <==> pretty_json_of_rows(rows@) is Some,
        text is Ok ==> text->Ok_0@ == pretty_json_of_rows(rows@)->0,
{
    let table: BTreeMap<char, [u64; 5]> = rows.iter().cloned().collect();
    serde_json::to_string_pretty(&table)
}

/// The text that arises from `text` when each match of `pattern` in it, from
/// left to right and without overlap, gives way to what [`on_one_line`] makes
/// of the first group of the match; `None` where `regex` does not take the
/// pattern.
pub uninterp spec fn arrays_on_one_line(pattern: Seq<char>, text: Seq<char>) -> Option<Seq<char>>;

/// `Regex::new` of `regex` compiles `pattern` or reports an error, and
/// `Regex::replace_all` replaces each match in `text`, from left to right and
/// without overlap, by what the closure returns, which is what [`one_line`]
/// makes of the first group of the match. The contract names the result.
#[verifier::external_body]
fn rewrite_arrays(pattern: &str, text: &str) -> (out: Option<String>)
    ensures
        out is Some <==> arrays_on_one_line(pattern@, text@) is Some,
        out is Some ==> out->0@ == arrays_on_one_line(pattern@, text@)->0,
{
    let compiled = regex::Regex::new(pattern).ok()?;
    let out = compiled.replace_all(
        text,
        |caps: &regex::Captures| one_line(caps.get(1).map_or("", |group| group.as_str())),
    );
    Some(out.into_owned())
}

/// The words of `inner` with one blank between neighbours, in square
/// brackets.
pub open spec fn on_one_line(inner: Seq<char>) -> Seq<char> {
    "["@ + joined(words_of_text(inner), " "@) + "]"@
}

/// The numbers of an array that is spread over several lines, on one line:
/// the words of `inner` with one blank between neighbours, in square
/// brackets.
pub fn one_line(inner: &str) -> (text: String)
    ensures
        text@ == on_one_line(inner@),
{
    let words = words_in(inner);
    let ghost parts = words_of_text(inner@);
    let mut body = String::new();
    let mut i: usize = 0;
    while i < words.len()
        invariant
            i <= words@.len(),
            parts == words_of_text(inner@),
            words@.len() == parts.len(),
            forall|j: int| 0 <= j < words@.len() ==> (#[trigger] words@[j])@ == parts[j],
            body@ == joined(parts.take(i as int), " "@),
        decreases words@.len() - i,
    {
        append_part(&mut body, words[i].as_str(), " ", i == 0, Ghost(parts.take(i as int)));
        assert(parts.take(i as int).push(words@[i as int]@) =~= parts.take(i + 1));
        i += 1;
    }
    assert(parts.take(parts.len() as int) =~= parts);
    let mut text = String::new();
    text.append("[");
    text.append(body.as_str());
    text.append("]");
    assert(text@ =~= on_one_line(inner@));
    text
}

/// The message of an error of `serde_json`, as its `Display` writes it.
/// Nothing is claimed of the text.
#[verifier::external_body]
fn json_error_text(error: &serde_json::Error) -> (text: String) {
    error.to_string()
}

/// Why a table of letter statistics could not be had.
#[derive(Debug)]
pub enum StatsError {
    /// The text is no JSON map from letters to five counts each; the message
    /// is the parser's.
    Malformed(String),
    /// The table could not be written as JSON; the message is the writer's.
    Unwritable(String),
    /// The pattern by which the arrays are found was not taken.
    Pattern,
}

/// Whether `word` counts for the letter `c` at place `i`: it has five
/// characters and `c` stands at place `i`.
pub open spec fn counts_for(word: Seq<char>, c: char, i: int) -> bool {
    word.len() == WORD_LEN && word[i] == c
}

/// How many of the first `n` words count for `c` at place `i`.
pub open spec fn position_count(words: Seq<String>, c: char, i: int, n: int) -> nat
    decreases n,
{
    if n <= 0 {
        0
    } else {
        position_count(words, c, i, n - 1) + if counts_for(words[n - 1]@, c, i) {
            1nat
        } else {
            0nat
        }
    }
}

/// The count that the last row for `c` among `rows` gives to place `i`; 0
/// where no row is for `c`.
pub open spec fn row_count(rows: Seq<(char, [u64; 5])>, c: char, i: int) -> nat
    decreases rows.len(),
{
    if rows.len() == 0 {
        0
    } else if rows.last().0 == c {
        rows.last().1[i] as nat
    } else {
        row_count(rows.drop_last(), c, i)
    }
}

/// The letters of `letters` in order, each where it first occurs only.
pub open spec fn first_occurrences(letters: Seq<char>) -> Seq<char>
    decreases letters.len(),
{
    if letters.len() == 0 {
        letters
    } else {
        let before = first_occurrences(letters.drop_last());
        if before.contains(letters.last()) {
            before
        } else {
            before.push(letters.last())
        }
    }
}

/// The letters of those of the first `n` words that have five characters,
/// word after word.
pub open spec fn counted_letters(words: Seq<String>, n: int) -> Seq<char>
    decreases n,
{
    if n <= 0 {
        Seq::empty()
    } else {
        counted_letters(words, n - 1) + if words[n - 1]@.len() == WORD_LEN {
            words[n - 1]@
        } else {
            Seq::empty()
        }
    }
}

/// The letters of `rows`, row after row.
pub open spec fn row_letters(rows: Seq<(char, [u64; 5])>) -> Seq<char> {
    Seq::new(rows.len(), |j: int| rows[j].0)
}

/// No count is larger than the number of words counted.
proof fn lemma_position_count_bound(words: Seq<String>, c: char, i: int, n: int)
    requires
        0 <= n,
    ensures
        position_count(words, c, i, n) <= n,
    decreases n,
{
    if n > 0 {
        lemma_position_count_bound(words, c, i, n - 1);
    }
}

/// The count for the letter with code `code` at place `i` in `table`.
spec fn table_count(table: Map<u32, [u64; 5]>, code: u32, i: int) -> nat {
    if table.contains_key(code) {
        table[code][i] as nat
    } else {
        0
    }
}

/// A table that gives, for each letter and each of the five places of a word,
/// a count. Letters without a row count 0 everywhere.
pub struct LetterStats {
    table: HashMap<u32, [u64; 5]>,
    letters: LetterSet,
}

/// The pattern of a JSON array of numbers, with white space allowed around
/// each of them; its first group holds the numbers.
pub const ARRAY_PATTERN: &'static str = "\\[\\s*((?:\\d+,\\s*)*\\d+)\\s*\\]";

impl LetterStats {
    /// The count of the letter `c` at place `i`.
    pub closed spec fn freq(&self, c: char, i: int) -> nat {
        table_count(self.table@, c as u32, i)
    }

    /// The letters that were given a row, in the order in which they first
    /// were.
    pub closed spec fn listed(&self) -> Seq<char> {
        self.letters.ordered()
    }

    /// Every letter that has a row is listed, and none is listed twice.
    pub closed spec fn wf(&self) -> bool {
        &&& self.letters.wf()
        &&& forall|c: char| self.table@.contains_key(c as u32) ==> #[trigger] self.letters@.contains(c)
    }

    /// A letter with a count that is not 0 is listed.
    pub proof fn lemma_counted_is_listed(&self, c: char, i: int)
        requires
            self.wf(),
            self.freq(c, i) != 0,
        ensures
            self.listed().contains(c),
            self.listed().no_duplicates(),
    {
        assert(self.letters@.contains(c));
    }

    /// The table in which every count is 0.
    pub fn new() -> (stats: LetterStats)
        ensures
            stats.wf(),
            stats.listed() == Seq::<char>::empty(),
            forall|c: char, i: int| #[trigger] stats.freq(c, i) == 0,
    {
        broadcast use group_hash_axioms;

        LetterStats { table: HashMap::new(), letters: LetterSet::new() }
    }

    /// The five counts of the letter `c`, one for each place.
    pub fn row(&self, c: char) -> (row: [u64; 5])
        ensures
            forall|i: int| 0 <= i < WORD_LEN ==> #[trigger] row[i] == self.freq(c, i),
    {
        broadcast use group_hash_axioms;

        match self.table.get(&(c as u32)) {
            Some(row) => *row,
            None => [0, 0, 0, 0, 0],
        }
    }

    /// The count of the letter `c` at place `i`.
    pub fn frequency(&self, c: char, i: usize) -> (n: u64)
        requires
            i < WORD_LEN,
        ensures
            n == self.freq(c, i as int),
    {
        let row = self.row(c);
        row[i]
    }

    /// Gives the letter `c` the counts of `row`.
    pub fn set_row(&mut self, c: char, row: [u64; 5])
        ensures
            forall|i: int| 0 <= i < WORD_LEN ==> #[trigger] final(self).freq(c, i) == row[i],
            forall|d: char, i: int| d != c ==> #[trigger] final(self).freq(d, i) == old(self).freq(d, i),
            final(self).listed() == if old(self).listed().contains(c) {
                old(self).listed()
            } else {
                old(self).listed().push(c)
            },
            old(self).wf() ==> final(self).wf(),
    {
        broadcast use group_hash_axioms;

        self.table.insert(c as u32, row);
        self.letters.insert(c);
        assert(old(self).wf() ==> self.wf()) by {
            if old(self).wf() {
                assert forall|d: char| self.table@.contains_key(d as u32) implies #[trigger] self.letters@.contains(d) by {
                    if d != c {
                        lemma_codes_differ(d, c);
                        assert(old(self).letters@.contains(d));
                    }
                }
            }
        }
        assert forall|d: char, i: int| d != c implies #[trigger] self.freq(d, i) == old(self).freq(
            d,
            i,
        ) by {
            lemma_codes_differ(d, c);
        }
    }

    /// Counts the letters of the words of `words` place by place. Only words
    /// of five characters are counted.
    pub fn from_words(words: &Vec<String>) -> (stats: LetterStats)
        ensures
            stats.wf(),
            stats.listed() == first_occurrences(counted_letters(words@, words@.len() as int)),
            forall|c: char, i: int|
                0 <= i < WORD_LEN ==> #[trigger] stats.freq(c, i) == position_count(
                    words@,
                    c,
                    i,
                    words@.len() as int,
                ),
    {
        let mut stats = LetterStats::new();
        let n: usize = words.len();
        let mut k: usize = 0;
        while k < n
            invariant
                k <= n,
                n == words@.len(),
                stats.wf(),
                stats.listed() == first_occurrences(counted_letters(words@, k as int)),
                forall|c: char, i: int|
                    0 <= i < WORD_LEN ==> #[trigger] stats.freq(c, i) == position_count(
                        words@,
                        c,
                        i,
                        k as int,
                    ),
            decreases n - k,
        {
            let letters = letters_of(words[k].as_str());
            let ghost counted = counted_letters(words@, k as int);
            if letters.len() == WORD_LEN {
                let mut p: usize = 0;
                assert(counted + letters@.take(0) =~= counted);
                while p < WORD_LEN
                    invariant
                        p <= WORD_LEN,
                        k < n,
                        n == words@.len(),
                        letters@ == words@[k as int]@,
                        letters@.len() == WORD_LEN,
                        stats.wf(),
                        counted == counted_letters(words@, k as int),
                        stats.listed() == first_occurrences(counted + letters@.take(p as int)),
                        forall|c: char, i: int|
                            0 <= i < WORD_LEN ==> #[trigger] stats.freq(c, i) == position_count(
                                words@,
                                c,
                                i,
                                k as int,
                            ) + if i < p && letters@[i] == c {
                                1nat
                            } else {
                                0nat
                            },
                    decreases WORD_LEN - p,
                {
                    let c = letters[p];
                    let mut row = stats.row(c);
                    proof {
                        lemma_position_count_bound(words@, c, p as int, k as int);
                        assert(row[p as int] == stats.freq(c, p as int));
                        assert(stats.freq(c, p as int) == position_count(words@, c, p as int, k as int));
                    }
                    let ghost before = stats;
                    let ghost old_row = row;
                    row[p] = row[p] + 1;
                    stats.set_row(c, row);
                    proof {
                        let seen = counted + letters@.take(p as int);
                        assert(seen.push(c) =~= counted + letters@.take(p + 1));
                        assert(seen.push(c).drop_last() =~= seen);
                    }
                    assert forall|d: char, i: int| 0 <= i < WORD_LEN implies #[trigger] stats.freq(
                        d,
                        i,
                    ) == position_count(words@, d, i, k as int) + if i < p + 1 && letters@[i] == d {
                        1nat
                    } else {
                        0nat
                    } by {
                        if d == c {
                            assert(stats.freq(c, i) == row[i]);
                            assert(old_row[i] == before.freq(c, i));
                        } else {
                            assert(stats.freq(d, i) == before.freq(d, i));
                        }
                    }
                    p += 1;
                }
                assert(letters@.take(WORD_LEN as int) =~= letters@);
            } else {
                assert(counted + Seq::<char>::empty() =~= counted);
            }
            k += 1;
        }
        stats
    }

    /// The rows of the table: each listed letter with its five counts.
    pub fn rows(&self) -> (rows: Vec<(char, [u64; 5])>)
        ensures
            rows@.len() == self.listed().len(),
            forall|j: int|
                0 <= j < rows@.len() ==> (#[trigger] rows@[j]).0 == self.listed()[j] && (forall|
                    i: int,
                |
                    0 <= i < WORD_LEN ==> rows@[j].1[i] == self.freq(self.listed()[j], i)),
    {
        let mut rows: Vec<(char, [u64; 5])> = Vec::new();
        let n = self.letters.len();
        let mut j: usize = 0;
        while j < n
            invariant
                j <= n,
                n == self.listed().len(),
                rows@.len() == j,
                forall|k: int|
                    0 <= k < j ==> (#[trigger] rows@[k]).0 == self.listed()[k] && (forall|i: int|
                        0 <= i < WORD_LEN ==> rows@[k].1[i] == self.freq(self.listed()[k], i)),
            decreases n - j,
        {
            let c = self.letters.letter(j);
            let row = self.row(c);
            rows.push((c, row));
            j += 1;
        }
        rows
    }

    /// Whether `rows` holds the listed letters, each once and with its five
    /// counts, in the rising order of the letters.
    pub open spec fn has_sorted_rows(&self, rows: Seq<(char, [u64; 5])>) -> bool {
        &&& rising(rows)
        &&& forall|j: int|
            0 <= j < rows.len() ==> self.listed().contains((#[trigger] rows[j]).0) && (forall|
                i: int,
            |
                0 <= i < WORD_LEN ==> rows[j].1[i] == self.freq(rows[j].0, i))
        &&& forall|c: char| #[trigger]
            self.listed().contains(c) ==> exists|j: int|
                0 <= j < rows.len() && (#[trigger] rows[j]).0 == c
    }

    /// The rows of the table in the rising order of their letters.
    pub open spec fn sorted_rows_of(&self) -> Seq<(char, [u64; 5])> {
        choose|rows: Seq<(char, [u64; 5])>| self.has_sorted_rows(rows)
    }

    /// Two listings of the table by rising letters agree up to row `i`.
    proof fn lemma_sorted_rows_agree(
        &self,
        first: Seq<(char, [u64; 5])>,
        second: Seq<(char, [u64; 5])>,
        i: int,
    )
        requires
            self.has_sorted_rows(first),
            self.has_sorted_rows(second),
            0 <= i < first.len(),
        ensures
            forall|j: int| 0 <= j <= i ==> j < second.len() && first[j].0 == second[j].0,
        decreases i,
    {
        if i > 0 {
            self.lemma_sorted_rows_agree(first, second, i - 1);
        }
        let x = first[i].0;
        assert(self.listed().contains(x));
        let m = choose|m: int| 0 <= m < second.len() && (#[trigger] second[m]).0 == x;
        if m < i {
            assert(first[m].0 == x);
            assert((first[m].0 as u32) < (first[i].0 as u32));
        } else if m > i {
            let y = second[i].0;
            assert((second[i].0 as u32) < (second[m].0 as u32));
            assert(self.listed().contains(y));
            let l = choose|l: int| 0 <= l < first.len() && (#[trigger] first[l]).0 == y;
            if l < i {
                assert(second[l].0 == y);
                assert((second[l].0 as u32) < (second[i].0 as u32));
            } else if l > i {
                assert((first[i].0 as u32) < (first[l].0 as u32));
            }
        }
    }

    /// The table has one listing by rising letters only.
    pub proof fn lemma_sorted_rows_unique(
        &self,
        first: Seq<(char, [u64; 5])>,
        second: Seq<(char, [u64; 5])>,
    )
        requires
            self.has_sorted_rows(first),
            self.has_sorted_rows(second),
        ensures
            first == second,
    {
        if first.len() > 0 {
            self.lemma_sorted_rows_agree(first, second, first.len() - 1);
            assert(first[first.len() - 1].0 == second[first.len() - 1].0);
        }
        if second.len() > 0 {
            self.lemma_sorted_rows_agree(second, first, second.len() - 1);
            assert(second[second.len() - 1].0 == first[second.len() - 1].0);
        }
        assert(first.len() == second.len());
        assert forall|j: int| 0 <= j < first.len() implies first[j] == second[j] by {
            assert(first[j].0 == second[j].0);
            assert(first[j].1@ =~= second[j].1@);
        }
        assert(first =~= second);
    }

    /// The rows of the table in the rising order of their letters: each
    /// listed letter once, with its five counts.
    pub fn sorted_rows(&self) -> (rows: Vec<(char, [u64; 5])>)
        ensures
            self.has_sorted_rows(rows@),
            rows@ == self.sorted_rows_of(),
    {
        let mut rows: Vec<(char, [u64; 5])> = Vec::new();
        let n = self.letters.len();
        let mut j: usize = 0;
        while j < n
            invariant
                j <= n,
                n == self.listed().len(),
                rising(rows@),
                forall|k: int|
                    0 <= k < rows@.len() ==> self.listed().take(j as int).contains(
                        (#[trigger] rows@[k]).0,
                    ) && (forall|i: int|
                        0 <= i < WORD_LEN ==> rows@[k].1[i] == self.freq(rows@[k].0, i)),
                forall|m: int|
                    0 <= m < j ==> exists|k: int|
                        0 <= k < rows@.len() && (#[trigger] rows@[k]).0 == #[trigger] self.listed()[m],
            decreases n - j,
        {
            let c = self.letters.letter(j);
            let mut p: usize = 0;
            while p < rows.len() && (rows[p].0 as u32) < (c as u32)
                invariant
                    p <= rows@.len(),
                    forall|k: int| 0 <= k < p ==> ((#[trigger] rows@[k]).0 as u32) < (c as u32),
                decreases rows@.len() - p,
            {
                p += 1;
            }
            let ghost before = rows@;
            let ghost seen = self.listed().take(j as int);
            let ghost next = self.listed().take(j + 1);
            assert(next =~= seen.push(c));
            assert forall|x: char| seen.contains(x) implies next.contains(x) by {
                let q = choose|q: int| 0 <= q < seen.len() && seen[q] == x;
                assert(next[q] == x);
            }
            assert(next[j as int] == c);
            if p < rows.len() && rows[p].0 == c {
            } else {
                let row = self.row(c);
                rows.insert(p, (c, row));
                proof {
                    assert forall|a: int, b: int| 0 <= a < b < rows@.len() implies ((
                    #[trigger] rows@[a]).0 as u32) < ((#[trigger] rows@[b]).0 as u32) by {
                        if b < p {
                            assert(rows@[a] == before[a] && rows@[b] == before[b]);
                        } else if b == p {
                            assert(rows@[a] == before[a]);
                        } else {
                            assert(rows@[b] == before[b - 1]);
                            if p < before.len() {
                                if before[p as int].0 != c {
                                    lemma_codes_differ(before[p as int].0, c);
                                }
                                if b - 1 > p {
                                    assert((before[p as int].0 as u32) < (before[b - 1].0 as u32));
                                }
                            }
                            if a < p {
                                assert(rows@[a] == before[a]);
                            } else if a > p {
                                assert(rows@[a] == before[a - 1]);
                            }
                        }
                    }
                    assert forall|k: int| 0 <= k < rows@.len() implies next.contains(
                        (#[trigger] rows@[k]).0,
                    ) && (forall|i: int|
                        0 <= i < WORD_LEN ==> rows@[k].1[i] == self.freq(rows@[k].0, i)) by {
                        if k < p {
                            assert(rows@[k] == before[k]);
                        } else if k > p {
                            assert(rows@[k] == before[k - 1]);
                        }
                    }
                }
            }
            proof {
                assert forall|m: int| 0 <= m < j + 1 implies exists|k: int|
                    0 <= k < rows@.len() && (#[trigger] rows@[k]).0 == #[trigger] self.listed()[m] by {
                    if m == j {
                        assert(rows@[p as int].0 == c);
                    } else {
                        let k = choose|k: int|
                            0 <= k < before.len() && (#[trigger] before[k]).0 == self.listed()[m];
                        if rows@.len() == before.len() {
                            assert(rows@[k].0 == self.listed()[m]);
                        } else if k < p {
                            assert(rows@[k] == before[k]);
                        } else {
                            assert(rows@[k + 1] == before[k]);
                        }
                    }
                }
            }
            j += 1;
        }
        proof {
            assert(self.listed().take(n as int) =~= self.listed());
            assert forall|c: char| #[trigger] self.listed().contains(c) implies exists|k: int|
                0 <= k < rows@.len() && (#[trigger] rows@[k]).0 == c by {
                let m = choose|m: int| 0 <= m < self.listed().len() && self.listed()[m] == c;
                assert(exists|k: int|
                    0 <= k < rows@.len() && (#[trigger] rows@[k]).0 == self.listed()[m]);
            }
            assert(self.has_sorted_rows(rows@));
            self.lemma_sorted_rows_unique(rows@, self.sorted_rows_of());
        }
        rows
    }

    /// What [`Self::to_json`] returns for a table with the rows `rows`: the
    /// text that `serde_json` writes for them in its indented layout, with
    /// each array of counts drawn together on one line; `None` where one of
    /// the two fails.
    pub open spec fn json_of_rows(rows: Seq<(char, [u64; 5])>) -> Option<Seq<char>> {
        match pretty_json_of_rows(rows) {
            None => None,
            Some(pretty) => arrays_on_one_line(ARRAY_PATTERN@, pretty),
        }
    }

    /// Writes the table as JSON text: a map from the listed letters, in
    /// rising order, to their counts, in the indented layout of
    /// `serde_json`, but with each array of counts drawn together on one
    /// line. It fails where `serde_json` cannot write the rows, with its
    /// message, and where `regex` does not take [`ARRAY_PATTERN`].
    pub fn to_json(&self) -> (outcome: Result<String, StatsError>)
        ensures
            outcome is Ok <==> Self::json_of_rows(self.sorted_rows_of()) is Some,
            outcome is Ok ==> outcome->Ok_0@ == Self::json_of_rows(self.sorted_rows_of())->0,
            outcome is Err ==> (outcome->Err_0 is Unwritable <==> pretty_json_of_rows(
                self.sorted_rows_of(),
            ) is None),
            outcome is Err ==> (outcome->Err_0 is Pattern <==> pretty_json_of_rows(
                self.sorted_rows_of(),
            ) is Some),
    {
        let rows = self.sorted_rows();
        match rows_to_json(&rows) {
            Err(error) => Err(StatsError::Unwritable(json_error_text(&error))),
            Ok(pretty) => match rewrite_arrays(ARRAY_PATTERN, pretty.as_str()) {
                Some(text) => Ok(text),
                None => Err(StatsError::Pattern),
            },
        }
    }

    /// Reads a table from JSON text: a map from letters to arrays of five
    /// counts. The text is handed to `serde_json`; where that rejects it, the
    /// error carries its message. Otherwise each letter gets the counts of
    /// its row.
    pub fn from_json(text: &str) -> (outcome: Result<LetterStats, StatsError>)
        ensures
            outcome is Ok <==> json_letter_rows(text@) is Some,
            outcome is Err ==> outcome->Err_0 is Malformed,
            outcome is Ok ==> outcome->Ok_0.wf(),
            outcome is Ok ==> outcome->Ok_0.listed() == first_occurrences(
                row_letters(json_letter_rows(text@)->0),
            ),
            outcome is Ok ==> forall|c: char, i: int|
                0 <= i < WORD_LEN ==> #[trigger] outcome->Ok_0.freq(c, i) == row_count(
                    json_letter_rows(text@)->0,
                    c,
                    i,
                ),
    {
        match parse_letter_rows(text) {
            Err(error) => Err(StatsError::Malformed(json_error_text(&error))),
            Ok(rows) => Ok(LetterStats::from_rows(&rows)),
        }
    }

    /// The table that gives each letter the counts of its last row in `rows`.
    pub fn from_rows(rows: &Vec<(char, [u64; 5])>) -> (stats: LetterStats)
        ensures
            stats.wf(),
            stats.listed() == first_occurrences(row_letters(rows@)),
            forall|c: char, i: int|
                0 <= i < WORD_LEN ==> #[trigger] stats.freq(c, i) == row_count(rows@, c, i),
    {
        let mut stats = LetterStats::new();
        let mut k: usize = 0;
        while k < rows.len()
            invariant
                k <= rows@.len(),
                stats.wf(),
                stats.listed() == first_occurrences(row_letters(rows@.take(k as int))),
                forall|c: char, i: int|
                    0 <= i < WORD_LEN ==> #[trigger] stats.freq(c, i) == row_count(
                        rows@.take(k as int),
                        c,
                        i,
                    ),
            decreases rows@.len() - k,
        {
            let ghost before = stats;
            let (c, row) = rows[k];
            stats.set_row(c, row);
            assert(rows@.take(k + 1).drop_last() =~= rows@.take(k as int));
            assert(row_letters(rows@.take(k + 1)).drop_last() =~= row_letters(
                rows@.take(k as int),
            ));
            assert(row_letters(rows@.take(k + 1)).last() == c);
            assert forall|d: char, i: int| 0 <= i < WORD_LEN implies #[trigger] stats.freq(d, i)
                == row_count(rows@.take(k + 1), d, i) by {
                if d != c {
                    assert(stats.freq(d, i) == before.freq(d, i));
                }
            }
            k += 1;
        }
        assert(rows@.take(rows@.len() as int) =~= rows@);
        stats
    }
}

} // verus!
