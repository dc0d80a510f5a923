//! Many games of self-play against targets that the caller has picked.

use vstd::prelude::*;
use crate::analysis::LetterStats;
use crate::feedback::WORD_LEN;
use crate::ranking::WeightTable;
use crate::solver::{simulated, Solver};
use crate::stats::{SimulationResults, LOSS_BUCKET, MAX_GUESSES};

verus! {

/// The number of words at the head of the list that serve to tune the first
/// guess and are never targets, where the list is longer than that.
pub const TUNING_WORDS: usize = 10657;

/// Why a simulation could not be run.
#[derive(Debug, Clone, Copy, PartialEq, Eq, Structural)]
pub enum SimulationError {
    /// There is no word to pick a target from.
    NoTargets,
}

/// The words that targets are picked from: those behind the tuning words
/// where the list is longer than these, else the whole list.
pub open spec fn targets_of(corpus: Seq<String>) -> Seq<String> {
    if corpus.len() > TUNING_WORDS {
        corpus.skip(TUNING_WORDS as int)
    } else {
        corpus
    }
}

/// The words that targets are picked from.
pub fn target_words(all_words: &Vec<String>) -> (targets: Vec<String>)
    ensures
        targets@ == targets_of(all_words@),
{
    let start: usize = if all_words.len() > TUNING_WORDS {
        TUNING_WORDS
    } else {
        0
    };
    let mut targets: Vec<String> = Vec::new();
    let mut i: usize = start;
    while i < all_words.len()
        invariant
            start <= i <= all_words@.len(),
            targets@ == all_words@.subrange(start as int, i as int),
        decreases all_words@.len() - i,
    {
        targets.push(all_words[i].clone());
        assert(all_words@.subrange(start as int, i as int).push(all_words@[i as int])
            =~= all_words@.subrange(start as int, i + 1));
        i += 1;
    }
    assert(all_words@.subrange(0, all_words@.len() as int) =~= all_words@);
    assert(all_words@.subrange(start as int, all_words@.len() as int) =~= all_words@.skip(
        start as int,
    ));
    targets
}

/// Whether self-play finds every word of `targets`.
pub open spec fn all_won(
    corpus: Seq<String>,
    stats: LetterStats,
    weights: WeightTable,
    targets: Seq<String>,
) -> bool {
    forall|i: int|
        0 <= i < targets.len() ==> simulated(corpus, stats, weights, (#[trigger] targets[i])@)
            <= MAX_GUESSES
}

/// Whether self-play finds no word of `targets`.
pub open spec fn all_lost(
    corpus: Seq<String>,
    stats: LetterStats,
    weights: WeightTable,
    targets: Seq<String>,
) -> bool {
    forall|i: int|
        0 <= i < targets.len() ==> simulated(corpus, stats, weights, (#[trigger] targets[i])@)
            > MAX_GUESSES
}

/// The number of guesses that self-play takes against the target at place
/// `pick` of `targets`; one more than the most allowed where it is lost.
pub open spec fn game_of(
    corpus: Seq<String>,
    stats: LetterStats,
    weights: WeightTable,
    targets: Seq<String>,
    pick: usize,
) -> nat {
    simulated(corpus, stats, weights, targets[pick as int]@)
}

/// The bucket in which a game of `guesses` guesses is counted.
pub open spec fn bucket_for(guesses: nat) -> int {
    if guesses <= MAX_GUESSES {
        guesses as int
    } else {
        LOSS_BUCKET as int
    }
}

/// How many of the first `n` games against the picked targets are won.
pub open spec fn wins_among(
    corpus: Seq<String>,
    stats: LetterStats,
    weights: WeightTable,
    targets: Seq<String>,
    picks: Seq<usize>,
    n: int,
) -> nat
    decreases n,
{
    if n <= 0 {
        0
    } else {
        wins_among(corpus, stats, weights, targets, picks, n - 1) + if game_of(
            corpus,
            stats,
            weights,
            targets,
            picks[n - 1],
        ) <= MAX_GUESSES {
            1nat
        } else {
            0nat
        }
    }
}

/// The guesses of those of the first `n` games against the picked targets
/// that are won, summed.
pub open spec fn guesses_among(
    corpus: Seq<String>,
    stats: LetterStats,
    weights: WeightTable,
    targets: Seq<String>,
    picks: Seq<usize>,
    n: int,
) -> nat
    decreases n,
{
    if n <= 0 {
        0
    } else {
        guesses_among(corpus, stats, weights, targets, picks, n - 1) + if game_of(
            corpus,
            stats,
            weights,
            targets,
            picks[n - 1],
        ) <= MAX_GUESSES {
            game_of(corpus, stats, weights, targets, picks[n - 1])
        } else {
            0nat
        }
    }
}

/// How many of the first `n` games against the picked targets are counted
/// in `bucket`.
pub open spec fn games_among(
    corpus: Seq<String>,
    stats: LetterStats,
    weights: WeightTable,
    targets: Seq<String>,
    picks: Seq<usize>,
    bucket: usize,
    n: int,
) -> nat
    decreases n,
{
    if n <= 0 {
        0
    } else {
        games_among(corpus, stats, weights, targets, picks, bucket, n - 1) + if bucket_for(
            game_of(corpus, stats, weights, targets, picks[n - 1]),
        ) == bucket {
            1nat
        } else {
            0nat
        }
    }
}

/// Whether every pick is a place of `targets`.
pub open spec fn picks_in_range(picks: Seq<usize>, targets: Seq<String>) -> bool {
    forall|i: int| 0 <= i < picks.len() ==> #[trigger] picks[i] < targets.len()
}

/// Every game is either won or counted in the loss bucket: among any games,
/// the wins and the losses together are all of them.
pub proof fn lemma_won_or_lost(
    corpus: Seq<String>,
    stats: LetterStats,
    weights: WeightTable,
    targets: Seq<String>,
    picks: Seq<usize>,
    n: int,
)
    requires
        0 <= n <= picks.len(),
    ensures
        wins_among(corpus, stats, weights, targets, picks, n) + games_among(
            corpus,
            stats,
            weights,
            targets,
            picks,
            LOSS_BUCKET,
            n,
        ) == n,
        guesses_among(corpus, stats, weights, targets, picks, n) <= MAX_GUESSES * wins_among(
            corpus,
            stats,
            weights,
            targets,
            picks,
            n,
        ),
    decreases n,
{
    if n > 0 {
        lemma_won_or_lost(corpus, stats, weights, targets, picks, n - 1);
    }
}

/// Where self-play finds every target, every game is won and none is
/// counted as lost.
pub proof fn lemma_all_won(
    corpus: Seq<String>,
    stats: LetterStats,
    weights: WeightTable,
    targets: Seq<String>,
    picks: Seq<usize>,
    n: int,
)
    requires
        0 <= n <= picks.len(),
        picks_in_range(picks, targets),
        all_won(corpus, stats, weights, targets),
    ensures
        wins_among(corpus, stats, weights, targets, picks, n) == n,
        games_among(corpus, stats, weights, targets, picks, LOSS_BUCKET, n) == 0,
    decreases n,
{
    if n > 0 {
        lemma_all_won(corpus, stats, weights, targets, picks, n - 1);
        assert(picks[n - 1] < targets.len());
        assert(simulated(corpus, stats, weights, targets[picks[n - 1] as int]@) <= MAX_GUESSES);
    }
}

/// Where self-play finds no target, every game is counted as lost and none
/// is won.
pub proof fn lemma_all_lost(
    corpus: Seq<String>,
    stats: LetterStats,
    weights: WeightTable,
    targets: Seq<String>,
    picks: Seq<usize>,
    n: int,
)
    requires
        0 <= n <= picks.len(),
        picks_in_range(picks, targets),
        all_lost(corpus, stats, weights, targets),
    ensures
        wins_among(corpus, stats, weights, targets, picks, n) == 0,
        guesses_among(corpus, stats, weights, targets, picks, n) == 0,
        games_among(corpus, stats, weights, targets, picks, LOSS_BUCKET, n) == n,
    decreases n,
{
    if n > 0 {
        lemma_all_lost(corpus, stats, weights, targets, picks, n - 1);
        assert(picks[n - 1] < targets.len());
        assert(simulated(corpus, stats, weights, targets[picks[n - 1] as int]@) > MAX_GUESSES);
    }
}

/// Whether `after` is the tally `before` with the games against the picked
/// targets added: each game counts; each won game adds to the wins, with
/// its guesses to their sum, and is counted under its number of guesses;
/// each lost game is counted in the loss bucket.
pub open spec fn tallied(
    after: SimulationResults,
    before: SimulationResults,
    corpus: Seq<String>,
    stats: LetterStats,
    weights: WeightTable,
    targets: Seq<String>,
    picks: Seq<usize>,
    n: int,
) -> bool {
    &&& after.games() == before.games() + n
    &&& after.won() == before.won() + wins_among(corpus, stats, weights, targets, picks, n)
    &&& after.guesses() == before.guesses() + guesses_among(
        corpus,
        stats,
        weights,
        targets,
        picks,
        n,
    )
    &&& forall|bucket: usize| #[trigger]
        after.counted(bucket) == before.counted(bucket) + games_among(
            corpus,
            stats,
            weights,
            targets,
            picks,
            bucket,
            n,
        )
}

/// Plays one game against each picked target, in the order of `picks`, and
/// records each in `results` as [`tallied`] says. A pick is a place in
/// `targets`; how the picks are drawn is the caller's. There is nothing to
/// play, and nothing is recorded, where `targets` is empty.
pub fn run_games(
    results: &mut SimulationResults,
    solver: &Solver,
    targets: &Vec<String>,
    stats: &LetterStats,
    weights: &WeightTable,
    picks: &Vec<usize>,
) -> (outcome: Result<(), SimulationError>)
    requires
        old(results).wf(),
        old(results).games() + picks@.len() <= usize::MAX,
        forall|i: int| 0 <= i < targets@.len() ==> (#[trigger] targets@[i])@.len() == WORD_LEN,
        picks_in_range(picks@, targets@),
    ensures
        outcome is Err <==> targets@.len() == 0,
        outcome is Err ==> outcome->Err_0 == SimulationError::NoTargets && *final(results) == *old(results),
        final(results).wf(),
        outcome is Ok ==> tallied(
            *final(results),
            *old(results),
            solver.corpus(),
            *stats,
            *weights,
            targets@,
            picks@,
            picks@.len() as int,
        ),
{
    if targets.len() == 0 {
        return Err(SimulationError::NoTargets);
    }
    let ghost corpus = solver.corpus();
    let mut i: usize = 0;
    while i < picks.len()
        invariant
            i <= picks@.len(),
            corpus == solver.corpus(),
            results.wf(),
            old(results).games() + picks@.len() <= usize::MAX,
            forall|i: int| 0 <= i < targets@.len() ==> (#[trigger] targets@[i])@.len() == WORD_LEN,
            picks_in_range(picks@, targets@),
            tallied(*results, *old(results), corpus, *stats, *weights, targets@, picks@, i as int),
        decreases picks@.len() - i,
    {
        let pick = picks[i];
        let ghost before = *results;
        let num_guesses = solver.simulate(targets[pick].clone(), stats, weights);
        results.record_game(num_guesses);
        proof {
            assert(num_guesses == game_of(corpus, *stats, *weights, targets@, picks@[i as int]));
            assert forall|bucket: usize| #[trigger]
                results.counted(bucket) == old(results).counted(bucket) + games_among(
                    corpus,
                    *stats,
                    *weights,
                    targets@,
                    picks@,
                    bucket,
                    i + 1,
                ) by {
                assert(before.counted(bucket) == old(results).counted(bucket) + games_among(
                    corpus,
                    *stats,
                    *weights,
                    targets@,
                    picks@,
                    bucket,
                    i as int,
                ));
            }
        }
        i += 1;
    }
    Ok(())
}

/// Plays one game on the word list of `solver` against each picked target,
/// and returns the tally. A pick is a place among [`targets_of`] the list.
/// There is nothing to run where that holds no word.
pub fn run_simulation(
    solver: &Solver,
    stats: &LetterStats,
    weights: &WeightTable,
    picks: &Vec<usize>,
) -> (outcome: Result<SimulationResults, SimulationError>)
    requires
        solver.wf(),
        picks_in_range(picks@, targets_of(solver.corpus())),
    ensures
        outcome is Err <==> targets_of(solver.corpus()).len() == 0,
        outcome is Err ==> outcome->Err_0 == SimulationError::NoTargets,
        outcome is Ok ==> {
            &&& outcome->Ok_0.wf()
            &&& outcome->Ok_0.games() == picks@.len()
            &&& outcome->Ok_0.won() == wins_among(
                solver.corpus(),
                *stats,
                *weights,
                targets_of(solver.corpus()),
                picks@,
                picks@.len() as int,
            )
            &&& outcome->Ok_0.guesses() == guesses_among(
                solver.corpus(),
                *stats,
                *weights,
                targets_of(solver.corpus()),
                picks@,
                picks@.len() as int,
            )
            &&& forall|bucket: usize| #[trigger]
                outcome->Ok_0.counted(bucket) == games_among(
                    solver.corpus(),
                    *stats,
                    *weights,
                    targets_of(solver.corpus()),
                    picks@,
                    bucket,
                    picks@.len() as int,
                )
            &&& all_won(solver.corpus(), *stats, *weights, targets_of(solver.corpus()))
                ==> outcome->Ok_0.won() == picks@.len() && outcome->Ok_0.counted(LOSS_BUCKET) == 0
            &&& all_lost(solver.corpus(), *stats, *weights, targets_of(solver.corpus()))
                ==> outcome->Ok_0.won() == 0 && outcome->Ok_0.counted(LOSS_BUCKET) == picks@.len()
        },
{
    let targets = target_words(solver.all_words());
    let mut results = SimulationResults::new();
    let runs: usize = picks.len();
    assert(results.games() + runs <= usize::MAX);
    proof {
        let corpus = solver.corpus();
        if all_won(corpus, *stats, *weights, targets@) {
            lemma_all_won(corpus, *stats, *weights, targets@, picks@, picks@.len() as int);
        }
        if all_lost(corpus, *stats, *weights, targets@) {
            lemma_all_lost(corpus, *stats, *weights, targets@, picks@, picks@.len() as int);
        }
    }
    match run_games(&mut results, solver, &targets, stats, weights, picks) {
        Ok(()) => Ok(results),
        Err(error) => Err(error),
    }
}

} // verus!
