//! The tally of a series of simulated games.

use vstd::prelude::*;
use vstd::std_specs::hash::*;
use std::collections::HashMap;

verus! {

/// The largest number of guesses with which a game can be won.
pub const MAX_GUESSES: usize = 6;

/// The bucket of the histogram that counts the lost games.
pub const LOSS_BUCKET: usize = 7;

/// The bucket in which a game of `num_guesses` guesses is counted: its
/// number of guesses if it was won, the loss bucket otherwise.
pub open spec fn bucket_of(num_guesses: usize) -> usize {
    if num_guesses <= MAX_GUESSES {
        num_guesses
    } else {
        LOSS_BUCKET
    }
}

/// How many games were played, how many were won and with how many guesses.
pub struct SimulationResults {
    total_games: usize,
    wins: usize,
    total_guesses: u128,
    guess_distribution: HashMap<usize, usize>,
}

impl SimulationResults {
    /// The number of games recorded.
    pub closed spec fn games(&self) -> nat {
        self.total_games as nat
    }

    /// The number of games won.
    pub closed spec fn won(&self) -> nat {
        self.wins as nat
    }

    /// The guesses of all games won, summed.
    pub closed spec fn guesses(&self) -> nat {
        self.total_guesses as nat
    }

    /// The number of games counted in `bucket`.
    pub closed spec fn counted(&self, bucket: usize) -> nat {
        if self.guess_distribution@.contains_key(bucket) {
            self.guess_distribution@[bucket] as nat
        } else {
            0
        }
    }

    /// No count exceeds the number of games, and the games won took at most
    /// six guesses each.
    pub closed spec fn wf(&self) -> bool {
        &&& self.wins <= self.total_games
        &&& self.total_guesses <= MAX_GUESSES * self.wins
        &&& forall|bucket: usize| #[trigger] self.counted(bucket) <= self.total_games
    }

    /// The tally before the first game.
    pub fn new() -> (results: SimulationResults)
        ensures
            results.wf(),
            results.games() == 0,
            results.won() == 0,
            results.guesses() == 0,
            forall|bucket: usize| #[trigger] results.counted(bucket) == 0,
    {
        broadcast use group_hash_axioms;

        SimulationResults {
            total_games: 0,
            wins: 0,
            total_guesses: 0,
            guess_distribution: HashMap::new(),
        }
    }

    /// Records a game that took `num_guesses` guesses. A game of at most six
    /// guesses is a win and is counted under its number of guesses; any other
    /// is a loss and is counted in the loss bucket.
    pub fn record_game(&mut self, num_guesses: usize)
        requires
            old(self).wf(),
            old(self).games() < usize::MAX,
        ensures
            final(self).wf(),
            final(self).games() == old(self).games() + 1,
            final(self).won() == old(self).won() + if num_guesses <= MAX_GUESSES {
                1nat
            } else {
                0nat
            },
            final(self).guesses() == old(self).guesses() + if num_guesses <= MAX_GUESSES {
                num_guesses as nat
            } else {
                0nat
            },
            forall|bucket: usize| #[trigger]
                final(self).counted(bucket) == old(self).counted(bucket) + if bucket == bucket_of(
                    num_guesses,
                ) {
                    1nat
                } else {
                    0nat
                },
            num_guesses > MAX_GUESSES ==> {
                &&& final(self).won() == old(self).won()
                &&& final(self).guesses() == old(self).guesses()
                &&& final(self).counted(LOSS_BUCKET) == old(self).counted(LOSS_BUCKET) + 1
                &&& forall|bucket: usize|
                    bucket != LOSS_BUCKET ==> #[trigger] final(self).counted(bucket) == old(self).counted(bucket)
            },
    {
        broadcast use group_hash_axioms;

        self.total_games += 1;
        let bucket: usize = if num_guesses <= MAX_GUESSES {
            self.wins += 1;
            self.total_guesses += num_guesses as u128;
            num_guesses
        } else {
            LOSS_BUCKET
        };
        assert(old(self).counted(bucket) <= old(self).total_games);
        let count: usize = match self.guess_distribution.get(&bucket) {
            Some(n) => *n,
            None => 0,
        };
        self.guess_distribution.insert(bucket, count + 1);
        assert forall|b: usize| #[trigger] self.counted(b) <= self.total_games by {
            assert(old(self).counted(b) <= old(self).total_games);
        }
    }

    /// The number of games recorded.
    pub fn total_games(&self) -> (n: usize)
        ensures
            n == self.games(),
    {
        self.total_games
    }

    /// The number of games won.
    pub fn wins(&self) -> (n: usize)
        ensures
            n == self.won(),
    {
        self.wins
    }

    /// The guesses of all games won, summed.
    pub fn total_guesses(&self) -> (n: u128)
        ensures
            n == self.guesses(),
    {
        self.total_guesses
    }

    /// The number of games counted in `bucket`.
    pub fn count(&self, bucket: usize) -> (n: usize)
        ensures
            n == self.counted(bucket),
    {
        broadcast use group_hash_axioms;

        match self.guess_distribution.get(&bucket) {
            Some(n) => *n,
            None => 0,
        }
    }

    /// The number of games that one mark of a histogram bar stands for: a
    /// fiftieth of the games, and at least one.
    pub fn bar_unit(&self) -> (unit: usize)
        ensures
            unit == if self.games() / 50 >= 1 {
                self.games() / 50
            } else {
                1
            },
    {
        let unit = self.total_games / 50;
        if unit >= 1 {
            unit
        } else {
            1
        }
    }

    /// The length of the histogram bar of `bucket`: its count in units of
    /// [`Self::bar_unit`], rounded down.
    pub fn bar_len(&self, bucket: usize) -> (len: usize)
        ensures
            len == self.counted(bucket) / if self.games() / 50 >= 1 {
                self.games() / 50
            } else {
                1
            },
    {
        self.count(bucket) / self.bar_unit()
    }
}

} // verus!
