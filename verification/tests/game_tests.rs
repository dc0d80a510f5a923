use wordle_bot::filter::Filter;
use wordle_bot::game::{
    fmt_correct_positions, fmt_hashset, fmt_misplaced_letters, GameData, LineError,
};
use wordle_bot::letters::LetterSet;

fn letters(set: &LetterSet) -> Vec<char> {
    (0..set.len()).map(|i| set.letter(i)).collect()
}

#[test]
fn new_game_knows_nothing() {
    let game = GameData::new();
    assert!(game.lines.is_empty());
    assert!(game.contains_not.is_empty());
    assert!(game.must_contain.is_empty());
    assert_eq!(game.correct_positions, [None, None, None, None, None]);
    assert!(game.misplaced_letters.iter().all(|set| set.is_empty()));
    assert!(!game.is_solved());
    assert_eq!(game.solved_word(), None);
}

#[test]
fn add_line_takes_in_each_mark() {
    let mut game = GameData::new();
    assert_eq!(game.add_line("crane", "mccwc"), Ok(()));
    assert_eq!(game.correct_positions, [None, Some('r'), Some('a'), None, Some('e')]);
    assert_eq!(letters(&game.misplaced_letters[0]), vec!['c']);
    assert!(game.misplaced_letters[1].is_empty());
    assert_eq!(letters(&game.must_contain), vec!['c', 'r', 'a', 'e']);
    assert_eq!(letters(&game.contains_not), vec!['n']);
    assert_eq!(game.lines.len(), 1);
    assert_eq!(game.lines[0].word, "crane");
    assert_eq!(game.lines[0].cells[3].letter, 'n');
    assert_eq!(game.lines[0].cells[3].state, 'w');
}

#[test]
fn absent_letter_known_to_be_present_is_not_excluded() {
    let mut game = GameData::new();
    assert_eq!(game.add_line("eagle", "cwwww"), Ok(()));
    // the second 'e' is marked absent, but 'e' is required already
    assert!(game.must_contain.contains('e'));
    assert!(!game.contains_not.contains('e'));
    assert_eq!(letters(&game.contains_not), vec!['a', 'g', 'l']);
}

#[test]
fn absent_mark_left_of_a_present_one_excludes_the_letter() {
    let mut game = GameData::new();
    assert_eq!(game.add_line("eerie", "wwmwc"), Ok(()));
    assert!(game.contains_not.contains('e'));
    assert!(game.must_contain.contains('e'));
}

#[test]
fn add_line_rejects_bad_shapes_without_change() {
    let mut game = GameData::new();
    assert_eq!(game.add_line("crane", "wwcwc"), Ok(()));
    assert_eq!(game.add_line("cran", "wwcwc"), Err(LineError::WordLength));
    assert_eq!(game.add_line("cranes", "wwcwc"), Err(LineError::WordLength));
    assert_eq!(game.add_line("crane", "wwcw"), Err(LineError::PatternLength));
    assert_eq!(game.add_line("crane", "wwcwcc"), Err(LineError::PatternLength));
    assert_eq!(game.add_line("crane", "wwxwc"), Err(LineError::UnknownMark));
    assert_eq!(game.add_line("crane", "WWCWC"), Err(LineError::UnknownMark));
    assert_eq!(game.add_line("", ""), Err(LineError::WordLength));
    assert_eq!(game.lines.len(), 1);
    assert_eq!(game.correct_positions, [None, None, Some('a'), None, Some('e')]);
    assert_eq!(letters(&game.contains_not), vec!['c', 'r', 'n']);
    assert_eq!(letters(&game.must_contain), vec!['a', 'e']);
}

#[test]
fn confirmed_place_stays_confirmed() {
    let mut game = GameData::new();
    game.add_line("crane", "wwcwc").unwrap();
    for (word, pattern) in [("slate", "wwcwc"), ("abide", "mwwwc"), ("zzzzz", "wwwww")] {
        game.add_line(word, pattern).unwrap();
        assert_eq!(game.correct_positions[2], Some('a'));
        assert_eq!(game.correct_positions[4], Some('e'));
        assert!(game.must_contain.contains('a'));
        assert!(game.contains_not.contains('c'));
    }
    assert_eq!(game.lines.len(), 4);
}

#[test]
fn five_confirmed_places_solve_the_game() {
    let mut game = GameData::new();
    game.add_line("crane", "cwcwc").unwrap();
    assert!(!game.is_solved());
    assert_eq!(game.solved_word(), None);
    game.add_line("chase", "ccccc").unwrap();
    assert!(game.is_solved());
    assert_eq!(game.solved_word(), Some("chase".to_string()));
}

#[test]
fn reset_forgets_everything() {
    let mut game = GameData::new();
    game.add_line("crane", "mccwc").unwrap();
    game.reset();
    assert!(game.lines.is_empty());
    assert!(game.contains_not.is_empty());
    assert!(game.must_contain.is_empty());
    assert_eq!(game.correct_positions, [None, None, None, None, None]);
    assert!(game.misplaced_letters.iter().all(|set| set.is_empty()));
}

#[test]
fn grape_is_rejected_after_crane() {
    let mut game = GameData::new();
    game.add_line("crane", "wwcwc").unwrap();
    let words = vec!["grape".to_string()];
    let filter = Filter::new(&game, &words);
    // 'r' is ruled out of the word
    assert!(!filter.matches("grape"));
    assert!(filter.filter_words().is_empty());
}

#[test]
fn letter_set_keeps_first_insertions_in_order() {
    let mut set = LetterSet::new();
    assert!(set.insert('b'));
    assert!(set.insert('a'));
    assert!(!set.insert('b'));
    assert_eq!(set.len(), 2);
    assert_eq!(letters(&set), vec!['b', 'a']);
    assert!(set.contains('a'));
    assert!(!set.contains('c'));
    set.clear();
    assert!(set.is_empty());
}

#[test]
fn formats_show_letters_in_upper_case() {
    let mut game = GameData::new();
    assert_eq!(fmt_hashset(&game.contains_not), "");
    assert_eq!(fmt_correct_positions(&game.correct_positions), "_ _ _ _ _");
    assert_eq!(fmt_misplaced_letters(&game.misplaced_letters), "");
    game.add_line("crane", "mwcwm").unwrap();
    game.add_line("black", "wwcmw").unwrap();
    assert_eq!(fmt_hashset(&game.contains_not), "R N B L K");
    assert_eq!(fmt_hashset(&game.must_contain), "C A E");
    assert_eq!(fmt_correct_positions(&game.correct_positions), "_ _ A _ _");
    assert_eq!(fmt_misplaced_letters(&game.misplaced_letters), "0: C, 3: C, 4: E");
    game.add_line("ocean", "wmmww").unwrap();
    assert_eq!(fmt_misplaced_letters(&game.misplaced_letters), "0: C, 1: C, 2: E, 3: C, 4: E");
}

#[test]
fn upper_case_may_be_longer_than_one_letter() {
    let mut set = LetterSet::new();
    set.insert('ß');
    set.insert('é');
    assert_eq!(fmt_hashset(&set), "SS É");
}
