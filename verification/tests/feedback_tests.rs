use wordle_bot::game::LineData;
use wordle_bot::solver::Solver;

fn pattern_of(guess: &str, target: &str) -> String {
    let line: LineData = Solver::evaluate_word(guess, target);
    assert_eq!(line.word, guess);
    let letters: String = line.cells.iter().map(|cell| cell.letter).collect();
    assert_eq!(letters, guess);
    Solver::get_pattern(&line)
}

fn count(word: &str, letter: char) -> usize {
    word.chars().filter(|&c| c == letter).count()
}

#[test]
fn crane_against_trace() {
    // 'r', 'a' and 'e' stand at their places; 'c' is in the word elsewhere; 'n' is not in it.
    assert_eq!(pattern_of("crane", "trace"), "mccwc");
}

#[test]
fn crane_against_trace_cells() {
    let line = Solver::evaluate_word("crane", "trace");
    assert_eq!(line.cells[0].letter, 'c');
    assert_eq!(line.cells[0].state, 'm');
    assert_eq!(line.cells[2].letter, 'a');
    assert_eq!(line.cells[2].state, 'c');
    assert_eq!(line.cells[3].letter, 'n');
    assert_eq!(line.cells[3].state, 'w');
    assert_eq!(line.cells[4].letter, 'e');
    assert_eq!(line.cells[4].state, 'c');
}

#[test]
fn word_against_itself_is_all_correct() {
    for word in ["crane", "trace", "slate", "eerie", "aaaaa", "abide"] {
        assert_eq!(pattern_of(word, word), "ccccc");
    }
}

#[test]
fn no_common_letter_is_all_absent() {
    assert_eq!(pattern_of("crane", "moist"), "wwwww");
}

#[test]
fn repeated_letter_gets_one_mark_per_occurrence_in_target() {
    assert_eq!(pattern_of("speed", "abide"), "wwmwm");
    assert_eq!(pattern_of("eerie", "crane"), "wwmwc");
    assert_eq!(pattern_of("allee", "eagle"), "mmwmc");
    assert_eq!(pattern_of("aabbb", "bbaaa"), "mmmmw");
}

#[test]
fn correct_place_is_served_before_misplaced_ones() {
    // the only 'a' of the target is matched in place, so the earlier 'a' is absent
    assert_eq!(pattern_of("aaxxx", "zayyy"), "wcwww");
}

#[test]
fn marks_never_exceed_the_letters_of_the_target() {
    let words = ["crane", "trace", "slate", "eerie", "speed", "abide", "allee", "eagle", "aabbb"];
    for guess in words {
        for target in words {
            let pattern = pattern_of(guess, target);
            for letter in guess.chars() {
                let credited = guess
                    .chars()
                    .zip(pattern.chars())
                    .filter(|&(c, m)| c == letter && m != 'w')
                    .count();
                assert!(credited <= count(target, letter));
            }
        }
    }
}

#[test]
fn pattern_is_made_of_the_cell_states() {
    let line = Solver::evaluate_word("slate", "trace");
    let states: String = line.cells.iter().map(|cell| cell.state).collect();
    assert_eq!(Solver::get_pattern(&line), states);
    assert_eq!(states, "wwcmc");
}
