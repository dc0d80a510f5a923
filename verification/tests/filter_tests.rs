use wordle_bot::filter::Filter;
use wordle_bot::game::GameData;

fn words(list: &[&str]) -> Vec<String> {
    list.iter().map(|w| w.to_string()).collect()
}

fn filter(game: &GameData, list: &Vec<String>) -> Vec<String> {
    Filter::new(game, list).filter_words()
}

#[test]
fn nothing_known_keeps_every_word_in_order() {
    let game = GameData::new();
    let list = words(&["slate", "crane", "trace", "crane"]);
    assert_eq!(filter(&game, &list), list);
}

#[test]
fn each_rule_removes_its_words() {
    let list = words(&["crane", "trace", "slate", "grape", "brace", "react", "caret"]);
    let mut game = GameData::new();
    game.add_line("crane", "mccwc").unwrap();
    // 'c' not first but in the word; 'r', 'a', 'e' at their places; no 'n'
    assert_eq!(filter(&game, &list), words(&["trace", "brace"]));

    let mut game = GameData::new();
    game.add_line("slate", "wwcmw").unwrap();
    // no 's', 'l', 'e'; 'a' third; 't' in the word but not fourth
    let list = words(&["train", "coats", "toady", "quart", "unity", "exact", "grass", "crate"]);
    assert_eq!(filter(&game, &list), words(&["train", "toady", "quart"]));
}

#[test]
fn filter_is_idempotent() {
    let list = words(&["crane", "trace", "slate", "grape", "brace", "react", "caret"]);
    let mut game = GameData::new();
    game.add_line("caret", "mmmmm").unwrap();
    let once = filter(&game, &list);
    assert_eq!(once, words(&["trace"]));
    let twice = filter(&game, &once);
    assert_eq!(twice, once);
}

#[test]
fn removed_word_does_not_come_back() {
    let list = words(&["crane", "trace", "slate", "grape", "brace", "react", "caret"]);
    let mut game = GameData::new();
    game.add_line("slate", "wwcwc").unwrap();
    let first = filter(&game, &list);
    assert_eq!(first, words(&["crane", "grape", "brace"]));
    game.add_line("grape", "wccwc").unwrap();
    let second = filter(&game, &first);
    assert_eq!(second, words(&["crane", "brace"]));
    for word in &second {
        assert!(first.contains(word));
    }
    for word in &list {
        if !first.contains(word) {
            assert!(!second.contains(word));
        }
    }
}

#[test]
fn no_word_left_is_no_error() {
    let list = words(&["crane"]);
    let mut game = GameData::new();
    game.add_line("crane", "wwwww").unwrap();
    assert!(filter(&game, &list).is_empty());
    assert!(filter(&game, &Vec::new()).is_empty());
}

#[test]
fn short_word_fails_a_confirmed_place_it_lacks() {
    let mut game = GameData::new();
    game.add_line("crane", "wwwwc").unwrap();
    let list = words(&["e", "guide", "see"]);
    assert_eq!(filter(&game, &list), words(&["guide"]));
}
