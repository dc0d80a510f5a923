use wordle_bot::analysis::LetterStats;
use wordle_bot::ranking::{WeightTable, Weights};
use wordle_bot::simulate::{run_games, run_simulation, target_words, SimulationError};
use wordle_bot::solver::{GuessError, Phase, Reply, Solver, SolverError, Turn};
use wordle_bot::stats::SimulationResults;

fn words(list: &[&str]) -> Vec<String> {
    list.iter().map(|w| w.to_string()).collect()
}

fn table() -> WeightTable {
    WeightTable::new(vec![Weights { positional: 1, distinct: 1, elimination: 1 }]).unwrap()
}

fn small() -> (Solver, LetterStats) {
    let list = words(&["crane", "trace", "slate"]);
    let stats = LetterStats::from_words(&list);
    (Solver::from_words(list).unwrap(), stats)
}

#[test]
fn solver_reads_its_word_list() {
    let solver = Solver::new("Crane\n  trace \r\ncat\n\nSLATE\nlonger\n").unwrap();
    assert_eq!(solver.all_words(), &words(&["crane", "trace", "slate"]));
    assert_eq!(solver.current_words(), &words(&["crane", "trace", "slate"]));
    assert_eq!(solver.current_phase(), Phase::Active);
    assert!(solver.game_data().lines.is_empty());
    assert_eq!(Solver::read_words(" A b \nc"), words(&["a b", "c"]));
}

#[test]
fn solver_needs_a_word_of_five_letters() {
    assert_eq!(Solver::new("").err(), Some(SolverError::EmptyWordList));
    assert_eq!(Solver::new("cat\nlonger\n").err(), Some(SolverError::EmptyWordList));
    assert_eq!(Solver::from_words(Vec::new()).err(), Some(SolverError::EmptyWordList));
    assert_eq!(Solver::from_words(words(&["four"])).err(), Some(SolverError::EmptyWordList));
    assert!(Solver::from_words(words(&["four", "fives"])).is_ok());
}

#[test]
fn submit_narrows_and_ranks() {
    let (mut solver, stats) = small();
    match solver.submit("crane", "mccwc", &stats, &table()) {
        Ok(Turn::Suggestions(ranked)) => {
            // trace: frequency 10, five distinct letters, no letter splits a list of one
            assert_eq!(ranked, vec![("trace".to_string(), 15)]);
        }
        other => panic!("unexpected {:?}", other),
    }
    assert_eq!(solver.current_words(), &words(&["trace"]));
    assert_eq!(solver.all_words(), &words(&["crane", "trace", "slate"]));
    assert_eq!(solver.game_data().lines.len(), 1);
    assert!(!solver.is_game_won());
    assert_eq!(solver.get_solved_word(), None);
    assert_eq!(solver.current_phase(), Phase::Active);
}

#[test]
fn submit_all_correct_solves() {
    let (mut solver, stats) = small();
    match solver.submit("slate", "ccccc", &stats, &table()) {
        Ok(Turn::Solved(word)) => assert_eq!(word, "slate"),
        other => panic!("unexpected {:?}", other),
    }
    assert!(solver.is_game_won());
    assert_eq!(solver.get_solved_word(), Some("slate".to_string()));
    assert_eq!(solver.current_phase(), Phase::Solved);
    assert_eq!(
        solver.submit("crane", "wwwww", &stats, &table()).err(),
        Some(GuessError::Finished)
    );
    assert_eq!(solver.game_data().lines.len(), 1);
}

#[test]
fn submit_without_candidates_left_exhausts() {
    let (mut solver, stats) = small();
    match solver.submit("crane", "wwwww", &stats, &table()) {
        Ok(Turn::Exhausted) => {}
        other => panic!("unexpected {:?}", other),
    }
    assert!(solver.current_words().is_empty());
    assert_eq!(solver.current_phase(), Phase::Exhausted);
    assert_eq!(
        solver.submit("slate", "wwwww", &stats, &table()).err(),
        Some(GuessError::Finished)
    );
    solver.reset();
    assert_eq!(solver.current_phase(), Phase::Active);
    assert_eq!(solver.current_words(), &words(&["crane", "trace", "slate"]));
    assert!(solver.game_data().lines.is_empty());
}

#[test]
fn submit_rejects_without_change() {
    let (mut solver, stats) = small();
    let weights = table();
    assert_eq!(solver.submit("cran", "wwwww", &stats, &weights).err(), Some(GuessError::WordLength));
    assert_eq!(
        solver.submit("grape", "wwwww", &stats, &weights).err(),
        Some(GuessError::UnknownWord)
    );
    assert_eq!(
        solver.submit("crane", "wwww", &stats, &weights).err(),
        Some(GuessError::PatternLength)
    );
    assert_eq!(
        solver.submit("crane", "wwwwx", &stats, &weights).err(),
        Some(GuessError::UnknownMark)
    );
    assert_eq!(
        solver.submit("grape", "wwwwx", &stats, &weights).err(),
        Some(GuessError::UnknownWord)
    );
    assert!(solver.game_data().lines.is_empty());
    assert_eq!(solver.current_words(), &words(&["crane", "trace", "slate"]));
    assert_eq!(solver.current_phase(), Phase::Active);
}

#[test]
fn candidates_only_shrink_during_a_session() {
    let list = words(&["crane", "trace", "slate", "brace", "grape", "react"]);
    let stats = LetterStats::from_words(&list);
    let mut solver = Solver::from_words(list.clone()).unwrap();
    let weights = table();
    let mut before = solver.current_words().clone();
    for (word, pattern) in [("slate", "wwcwc"), ("grape", "wccwc"), ("crane", "mccwc")] {
        solver.submit(word, pattern, &stats, &weights).unwrap();
        let after = solver.current_words().clone();
        assert!(after.iter().all(|w| before.contains(w)));
        before = after;
    }
    assert_eq!(before, words(&["brace"]));
}

#[test]
fn weights_follow_the_number_of_guesses() {
    let list = words(&["crane", "trace", "brace"]);
    let stats = LetterStats::from_words(&list);
    let weights = WeightTable::new(vec![
        Weights { positional: 1000, distinct: 0, elimination: 0 },
        Weights { positional: 0, distinct: 1, elimination: 0 },
        Weights { positional: 0, distinct: 0, elimination: 0 },
    ])
    .unwrap();
    let mut solver = Solver::from_words(list).unwrap();
    // one guess made: the second triple
    match solver.submit("crane", "mccwc", &stats, &weights) {
        Ok(Turn::Suggestions(ranked)) => {
            assert_eq!(ranked, vec![("trace".to_string(), 5), ("brace".to_string(), 5)])
        }
        other => panic!("unexpected {:?}", other),
    }
    // two made: the third, and so on for every later guess
    match solver.submit("trace", "wcccc", &stats, &weights) {
        Ok(Turn::Suggestions(ranked)) => assert_eq!(ranked, vec![("brace".to_string(), 0)]),
        other => panic!("unexpected {:?}", other),
    }
    assert_eq!(solver.rank_words(&stats, &weights), vec![("brace".to_string(), 0)]);
}

#[test]
fn top_suggestion_is_the_first_of_the_ranking() {
    let (solver, stats) = small();
    assert_eq!(solver.get_top_suggestion_silent(&stats, None), Some("crane".to_string()));
    let against_frequency = Weights { positional: -1, distinct: 0, elimination: 0 };
    assert_eq!(
        solver.get_top_suggestion_silent(&stats, Some(against_frequency)),
        Some("slate".to_string())
    );
    assert_eq!(
        solver.initial_suggestions(&stats),
        vec![("crane".to_string(), 10), ("trace".to_string(), 10), ("slate".to_string(), 9)]
    );
    assert_eq!(solver.update_wordlist(), words(&["crane", "trace", "slate"]));
}

#[test]
fn step_runs_a_dialogue() {
    let (mut solver, stats) = small();
    let weights = table();
    assert!(matches!(solver.step("  Crane \n"), Reply::AskPattern));
    assert!(matches!(solver.step(" MCCWC\n"), Reply::Accepted));
    assert_eq!(solver.game_data().lines.len(), 1);
    assert_eq!(solver.current_words().len(), 3);
    assert_eq!(solver.rank_words(&stats, &weights), vec![("trace".to_string(), 15)]);
    assert_eq!(solver.current_words(), &words(&["trace"]));
    assert!(matches!(solver.step("cran"), Reply::BadLength));
    match solver.step("grape") {
        Reply::UnknownWord(word) => assert_eq!(word, "grape"),
        other => panic!("unexpected {:?}", other),
    }
    assert!(matches!(solver.step("trace"), Reply::AskPattern));
    assert!(matches!(solver.step("exit"), Reply::BadPattern));
    assert_eq!(solver.game_data().lines.len(), 1);
    assert!(matches!(solver.step("trace"), Reply::AskPattern));
    match solver.step("ccccc") {
        Reply::Solved(word) => assert_eq!(word, "trace"),
        other => panic!("unexpected {:?}", other),
    }
    assert_eq!(solver.current_phase(), Phase::Solved);
    assert!(matches!(solver.step("slate"), Reply::Finished));
    assert!(matches!(solver.step("-r"), Reply::Restarted));
    assert_eq!(solver.current_phase(), Phase::Active);
    assert!(solver.game_data().lines.is_empty());
    assert_eq!(solver.current_words().len(), 3);
    assert!(matches!(solver.step(" EXIT "), Reply::Quit));
}

#[test]
fn accept_leaves_the_candidates_alone() {
    let (mut solver, stats) = small();
    assert_eq!(solver.accept("crane", "wwwww"), Ok(None));
    assert_eq!(solver.current_words().len(), 3);
    assert_eq!(solver.current_phase(), Phase::Active);
    assert_eq!(solver.accept("grape", "wwwww"), Err(GuessError::UnknownWord));
    assert_eq!(solver.accept("crane", "wwww"), Err(GuessError::PatternLength));
    assert_eq!(solver.game_data().lines.len(), 1);
    // ranking narrows the candidates; none is left, so the session is exhausted
    assert!(solver.rank_words(&stats, &table()).is_empty());
    assert_eq!(solver.current_phase(), Phase::Exhausted);
    assert_eq!(solver.accept("slate", "ccccc"), Err(GuessError::Finished));
    solver.reset();
    assert_eq!(solver.accept("slate", "ccccc"), Ok(Some("slate".to_string())));
    assert_eq!(solver.current_phase(), Phase::Solved);
    // a solved session stays solved, whatever the ranking finds
    solver.rank_words(&stats, &table());
    assert_eq!(solver.current_phase(), Phase::Solved);
}

#[test]
fn simulate_counts_the_guesses() {
    let (solver, stats) = small();
    let weights = table();
    assert_eq!(solver.simulate("crane".to_string(), &stats, &weights), 1);
    assert_eq!(solver.simulate("trace".to_string(), &stats, &weights), 2);
    assert_eq!(solver.simulate("slate".to_string(), &stats, &weights), 2);
    // the session itself is untouched
    assert!(solver.game_data().lines.is_empty());
    assert_eq!(solver.current_words().len(), 3);
}

#[test]
fn simulate_records_a_loss_when_no_candidate_is_left() {
    let (solver, stats) = small();
    // 'grape' is not in the list: after 'crane' no word agrees with the feedback
    assert_eq!(solver.simulate("grape".to_string(), &stats, &table()), 7);
    // an absent mark left of a correct one rules the target out
    let list = words(&["eerie", "crane"]);
    let stats = LetterStats::from_words(&list);
    let solver = Solver::from_words(list).unwrap();
    assert_eq!(solver.simulate("crane".to_string(), &stats, &table()), 7);
}

#[test]
fn simulate_loses_when_guesses_run_out() {
    let list = words(&["bills", "cills", "dills", "fills", "gills", "hills", "kills", "mills"]);
    let stats = LetterStats::from_words(&list);
    let solver = Solver::from_words(list).unwrap();
    let weights = table();
    assert_eq!(solver.simulate("bills".to_string(), &stats, &weights), 1);
    assert_eq!(solver.simulate("hills".to_string(), &stats, &weights), 6);
    assert_eq!(solver.simulate("kills".to_string(), &stats, &weights), 7);
    assert_eq!(solver.simulate("mills".to_string(), &stats, &weights), 7);
}

#[test]
fn simulation_of_reachable_targets_wins_every_game() {
    let (solver, stats) = small();
    let picks: Vec<usize> = (0..100).map(|i| (i * 7 + i / 3) % 3).collect();
    let crane = picks.iter().filter(|&&pick| pick == 0).count();
    let results = run_simulation(&solver, &stats, &table(), &picks).unwrap();
    assert_eq!(results.total_games(), 100);
    assert_eq!(results.wins(), 100);
    assert_eq!(results.count(7), 0);
    // 'crane' is found with the first guess, the two others with the second
    assert_eq!(results.count(1), crane);
    assert_eq!(results.count(2), 100 - crane);
    assert_eq!(results.total_guesses(), (crane + 2 * (100 - crane)) as u128);
}

#[test]
fn simulation_of_unreachable_targets_loses_every_game() {
    let (solver, stats) = small();
    let mut results = SimulationResults::new();
    let targets = words(&["grape", "moist"]);
    let picks: Vec<usize> = (0..20).map(|i| i % 2).collect();
    assert_eq!(run_games(&mut results, &solver, &targets, &stats, &table(), &picks), Ok(()));
    assert_eq!(results.total_games(), 20);
    assert_eq!(results.wins(), 0);
    assert_eq!(results.count(7), 20);
    assert_eq!(results.total_guesses(), 0);
}

#[test]
fn lost_game_is_recorded_and_the_others_still_run() {
    let (solver, stats) = small();
    let mut results = SimulationResults::new();
    let targets = words(&["crane", "grape", "trace"]);
    let picks = vec![1, 0, 2, 1, 1, 0];
    assert_eq!(run_games(&mut results, &solver, &targets, &stats, &table(), &picks), Ok(()));
    assert_eq!(results.total_games(), 6);
    assert_eq!(results.wins(), 3);
    assert_eq!(results.count(7), 3);
    assert_eq!(results.count(1), 2);
    assert_eq!(results.count(2), 1);
    assert_eq!(results.total_guesses(), 4);
    // a second batch adds to the same tally
    assert_eq!(run_games(&mut results, &solver, &targets, &stats, &table(), &vec![2, 2]), Ok(()));
    assert_eq!(results.total_games(), 8);
    assert_eq!(results.count(2), 3);
    assert_eq!(results.count(7), 3);
    assert_eq!(results.total_guesses(), 8);
}

#[test]
fn simulation_of_no_runs_is_empty() {
    let (solver, stats) = small();
    let results = run_simulation(&solver, &stats, &table(), &Vec::new()).unwrap();
    assert_eq!(results.total_games(), 0);
    assert_eq!(results.wins(), 0);
    assert_eq!(results.count(7), 0);
}

#[test]
fn targets_are_the_words_behind_the_tuning_words() {
    let short = words(&["crane", "trace"]);
    assert_eq!(target_words(&short), short);
    let mut long: Vec<String> = (0..10657).map(|i| format!("{:05}", i)).collect();
    assert_eq!(target_words(&long), long);
    long.push("crane".to_string());
    long.push("trace".to_string());
    assert_eq!(target_words(&long), short);
    assert_eq!(target_words(&Vec::new()), Vec::<String>::new());
}

#[test]
fn no_target_is_an_error() {
    let (solver, stats) = small();
    let mut results = SimulationResults::new();
    results.record_game(3);
    let none = Vec::new();
    assert_eq!(
        run_games(&mut results, &solver, &none, &stats, &table(), &Vec::new()),
        Err(SimulationError::NoTargets)
    );
    assert_eq!(results.total_games(), 1);
    assert_eq!(results.wins(), 1);
}

#[test]
fn results_tally_wins_and_losses() {
    let mut results = SimulationResults::new();
    for guesses in [3, 4, 3, 7, 6, 1, 9] {
        results.record_game(guesses);
    }
    assert_eq!(results.total_games(), 7);
    assert_eq!(results.wins(), 5);
    assert_eq!(results.total_guesses(), 17);
    assert_eq!(results.count(3), 2);
    assert_eq!(results.count(7), 2);
    assert_eq!(results.count(9), 0);
    assert_eq!(results.count(2), 0);
    assert_eq!(results.bar_unit(), 1);
    assert_eq!(results.bar_len(3), 2);
    for _ in 0..193 {
        results.record_game(2);
    }
    assert_eq!(results.total_games(), 200);
    assert_eq!(results.bar_unit(), 4);
    assert_eq!(results.bar_len(2), 48);
    assert_eq!(results.bar_len(3), 0);
}
