use wordle_bot::analysis::{one_line, LetterStats, StatsError};
use wordle_bot::ranking::{
    rank_places, rank_words, weighted_rank, ConfigError, WeightTable, Weights,
};

fn words(list: &[&str]) -> Vec<String> {
    list.iter().map(|w| w.to_string()).collect()
}

fn ranked(list: &[(&str, i128)]) -> Vec<(String, i128)> {
    list.iter().map(|(w, s)| (w.to_string(), *s)).collect()
}

#[test]
fn counts_letters_place_by_place() {
    let stats = LetterStats::from_words(&words(&["crane", "trace", "slate"]));
    assert_eq!(stats.frequency('c', 0), 1);
    assert_eq!(stats.frequency('c', 3), 1);
    assert_eq!(stats.frequency('r', 1), 2);
    assert_eq!(stats.frequency('a', 2), 3);
    assert_eq!(stats.frequency('e', 4), 3);
    assert_eq!(stats.frequency('a', 0), 0);
    assert_eq!(stats.frequency('z', 2), 0);
    assert_eq!(stats.row('t'), [1, 0, 0, 1, 0]);
    assert_eq!(stats.row('q'), [0, 0, 0, 0, 0]);
}

#[test]
fn counts_only_words_of_five_letters() {
    let stats = LetterStats::from_words(&words(&["crane", "cat", "cranes", "", "cello"]));
    assert_eq!(stats.row('c'), [2, 0, 0, 0, 0]);
    assert_eq!(stats.row('s'), [0, 0, 0, 0, 0]);
    assert_eq!(stats.row('l'), [0, 0, 1, 1, 0]);
}

#[test]
fn empty_corpus_gives_the_zero_table() {
    let stats = LetterStats::from_words(&Vec::new());
    assert_eq!(stats.row('a'), [0, 0, 0, 0, 0]);
    assert_eq!(LetterStats::new().frequency('e', 4), 0);
}

#[test]
fn reads_a_table_from_json() {
    let stats =
        LetterStats::from_json(r#"{"a": [1, 2, 3, 4, 5], "b": [0, 0, 0, 0, 7], "é": [9,0,0,0,0]}"#)
            .unwrap();
    assert_eq!(stats.row('a'), [1, 2, 3, 4, 5]);
    assert_eq!(stats.frequency('b', 4), 7);
    assert_eq!(stats.frequency('é', 0), 9);
    assert_eq!(stats.row('c'), [0, 0, 0, 0, 0]);
    let empty = LetterStats::from_json("{}").unwrap();
    assert_eq!(empty.row('a'), [0, 0, 0, 0, 0]);
}

#[test]
fn rejects_malformed_tables() {
    for text in [
        "",
        "not json",
        "[1, 2, 3]",
        r#"{"a": [1, 2, 3]}"#,
        r#"{"a": [1, 2, 3, 4, 5, 6]}"#,
        r#"{"ab": [1, 2, 3, 4, 5]}"#,
        r#"{"a": [1, 2, 3, 4, -5]}"#,
        r#"{"a": [1, 2, 3, 4, 5.5]}"#,
        r#"{"a": [1, 2, 3, 4, 5]"#,
    ] {
        match LetterStats::from_json(text) {
            Err(StatsError::Malformed(message)) => assert!(!message.is_empty()),
            Err(other) => panic!("unexpected {:?}", other),
            Ok(_) => panic!("accepted {}", text),
        }
    }
}

#[test]
fn set_row_replaces_one_letter() {
    let mut stats = LetterStats::from_rows(&vec![('a', [1, 1, 1, 1, 1]), ('b', [2, 2, 2, 2, 2])]);
    stats.set_row('a', [5, 4, 3, 2, 1]);
    assert_eq!(stats.row('a'), [5, 4, 3, 2, 1]);
    assert_eq!(stats.row('b'), [2, 2, 2, 2, 2]);
    let later = LetterStats::from_rows(&vec![('a', [1, 1, 1, 1, 1]), ('a', [7, 7, 7, 7, 7])]);
    assert_eq!(later.row('a'), [7, 7, 7, 7, 7]);
}

#[test]
fn ranks_by_positional_frequency() {
    let list = words(&["slate", "crane", "trace"]);
    let stats = LetterStats::from_words(&list);
    // slate 1+1+3+1+3, crane 1+2+3+1+3, trace 1+2+3+1+3
    assert_eq!(rank_words(&list, &stats), ranked(&[("crane", 10), ("trace", 10), ("slate", 9)]));
}

#[test]
fn equal_scores_keep_the_order_of_the_input() {
    let stats = LetterStats::from_words(&words(&["crane", "trace", "slate"]));
    let forward = rank_words(&words(&["crane", "trace"]), &stats);
    let backward = rank_words(&words(&["trace", "crane"]), &stats);
    assert_eq!(forward, ranked(&[("crane", 10), ("trace", 10)]));
    assert_eq!(backward, ranked(&[("trace", 10), ("crane", 10)]));
    let again = rank_words(&words(&["crane", "trace"]), &stats);
    assert_eq!(again, forward);
}

#[test]
fn repeated_letters_count_at_each_place() {
    let stats = LetterStats::from_rows(&vec![('e', [1, 2, 4, 8, 16]), ('r', [0, 0, 100, 0, 0])]);
    assert_eq!(rank_words(&words(&["eerie"]), &stats), ranked(&[("eerie", 1 + 2 + 100 + 16)]));
}

#[test]
fn empty_list_ranks_to_empty() {
    let stats = LetterStats::new();
    assert!(rank_words(&Vec::new(), &stats).is_empty());
    let weights = Weights { positional: 1, distinct: 1, elimination: 1 };
    assert!(weighted_rank(&Vec::new(), &stats, weights).is_empty());
}

#[test]
fn weighted_score_adds_the_three_parts() {
    let list = words(&["crane", "trace", "slate"]);
    let stats = LetterStats::from_words(&list);
    // five distinct letters each; every word has three letters that split the list 1 : 2
    let weights = Weights { positional: 2, distinct: 3, elimination: 5 };
    assert_eq!(
        weighted_rank(&list, &stats, weights),
        ranked(&[("crane", 50), ("trace", 50), ("slate", 48)])
    );
    let only_frequency = Weights { positional: 1, distinct: 0, elimination: 0 };
    assert_eq!(weighted_rank(&list, &stats, only_frequency), rank_words(&list, &stats));
}

#[test]
fn distinct_letters_and_even_splits_are_rewarded() {
    let list = words(&["eerie", "crane", "mamma", "burst"]);
    let stats = LetterStats::new();
    let distinct = Weights { positional: 0, distinct: 1, elimination: 0 };
    assert_eq!(
        weighted_rank(&list, &stats, distinct),
        ranked(&[("crane", 5), ("burst", 5), ("eerie", 3), ("mamma", 2)])
    );
    // held by: e 2, r 3, i 1, c 1, a 2, n 1, m 1, b 1, u 1, s 1, t 1  of 4 words
    let elimination = Weights { positional: 0, distinct: 0, elimination: 1 };
    assert_eq!(
        weighted_rank(&list, &stats, elimination),
        ranked(&[("crane", 7), ("burst", 5), ("eerie", 4), ("mamma", 3)])
    );
    let negative = Weights { positional: 0, distinct: -1, elimination: 0 };
    assert_eq!(
        weighted_rank(&list, &stats, negative),
        ranked(&[("mamma", -2), ("eerie", -3), ("crane", -5), ("burst", -5)])
    );
}

#[test]
fn large_counts_and_weights_do_not_overflow() {
    let stats = LetterStats::from_rows(&vec![('a', [u64::MAX; 5])]);
    let list = words(&["aaaaa"]);
    let top = 5 * (u64::MAX as i128);
    assert_eq!(rank_words(&list, &stats), ranked(&[("aaaaa", top)]));
    let weights = Weights { positional: i32::MIN, distinct: i32::MAX, elimination: i32::MAX };
    let score = (i32::MIN as i128) * top + (i32::MAX as i128);
    assert_eq!(weighted_rank(&list, &stats, weights), ranked(&[("aaaaa", score)]));
}

#[test]
fn places_are_listed_by_falling_score() {
    assert_eq!(rank_places(&vec![3, 9, 3, 10, 9, -1]), vec![3, 1, 4, 0, 2, 5]);
    assert_eq!(rank_places(&vec![]), Vec::<usize>::new());
    assert_eq!(rank_places(&vec![7, 7, 7]), vec![0, 1, 2]);
}

#[test]
fn weight_table_clamps_the_attempt() {
    let first = Weights { positional: 1, distinct: 2, elimination: 3 };
    let last = Weights { positional: 4, distinct: 5, elimination: 6 };
    let table = WeightTable::new(vec![first, last]).unwrap();
    assert_eq!(table.len(), 2);
    assert_eq!(table.pick(0), first);
    assert_eq!(table.pick(1), last);
    assert_eq!(table.pick(2), last);
    assert_eq!(table.pick(usize::MAX), last);
    assert_eq!(WeightTable::new(Vec::new()).err(), Some(ConfigError::NoWeights));
}

#[test]
fn arrays_are_drawn_together_on_one_line() {
    assert_eq!(one_line("1,\n    2,\n    3"), "[1, 2, 3]");
    assert_eq!(one_line("  42 "), "[42]");
    assert_eq!(one_line(""), "[]");
}

#[test]
fn writes_the_table_as_json() {
    let stats = LetterStats::from_words(&words(&["crane", "cargo"]));
    let json = stats.to_json().unwrap();
    let expected = "{\n  \"a\": [0, 1, 1, 0, 0],\n  \"c\": [2, 0, 0, 0, 0],\n  \"e\": [0, 0, 0, 0, 1],\n  \"g\": [0, 0, 0, 1, 0],\n  \"n\": [0, 0, 0, 1, 0],\n  \"o\": [0, 0, 0, 0, 1],\n  \"r\": [0, 1, 1, 0, 0]\n}";
    assert_eq!(json, expected);
    assert_eq!(LetterStats::new().to_json().unwrap(), "{}");
}

#[test]
fn written_table_reads_back() {
    let stats = LetterStats::from_words(&words(&["crane", "trace", "slate", "élève"]));
    let back = LetterStats::from_json(&stats.to_json().unwrap()).unwrap();
    let mut rows = stats.rows();
    assert_eq!(rows.iter().map(|row| row.0).collect::<String>(), "cranetsléèv");
    rows.sort();
    let mut back_rows = back.rows();
    back_rows.sort();
    assert_eq!(rows, back_rows);
    for (letter, row) in rows {
        assert_eq!(back.row(letter), row);
    }
}

#[test]
fn sorted_rows_rise_by_letter() {
    let mut stats = LetterStats::from_rows(&vec![
        ('r', [1, 0, 0, 0, 0]),
        ('a', [2, 0, 0, 0, 0]),
        ('r', [3, 0, 0, 0, 0]),
        ('é', [4, 0, 0, 0, 0]),
        ('c', [5, 0, 0, 0, 0]),
    ]);
    assert_eq!(
        stats.rows(),
        vec![
            ('r', [3, 0, 0, 0, 0]),
            ('a', [2, 0, 0, 0, 0]),
            ('é', [4, 0, 0, 0, 0]),
            ('c', [5, 0, 0, 0, 0]),
        ]
    );
    let sorted = vec![
        ('a', [2, 0, 0, 0, 0]),
        ('c', [5, 0, 0, 0, 0]),
        ('r', [3, 0, 0, 0, 0]),
        ('é', [4, 0, 0, 0, 0]),
    ];
    assert_eq!(stats.sorted_rows(), sorted);
    stats.set_row('b', [0, 0, 0, 0, 9]);
    assert_eq!(stats.sorted_rows()[1], ('b', [0, 0, 0, 0, 9]));
    assert_eq!(stats.sorted_rows().len(), 5);
    assert!(LetterStats::new().sorted_rows().is_empty());
    assert_eq!(
        stats.to_json().unwrap(),
        "{\n  \"a\": [2, 0, 0, 0, 0],\n  \"b\": [0, 0, 0, 0, 9],\n  \"c\": [5, 0, 0, 0, 0],\n  \"r\": [3, 0, 0, 0, 0],\n  \"é\": [4, 0, 0, 0, 0]\n}"
    );
}
