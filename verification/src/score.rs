//! The score ledger of one (team, service) pair.

use std::collections::VecDeque;
use vstd::prelude::*;

verus! {

/// Number of rounds that a history remembers. The bound is a setting of the
/// engine, not a rule of the competition: it is configured here, by giving
/// this constant another value, and every contract speaks of it by name.
pub const HISTORY_WINDOW: usize = 100;

/// Cumulative score and uptime history of one service of one team.
#[derive(Debug)]
pub struct Score {
    /// Points earned so far; never decreases.
    pub score: u32,
    /// State observed in the latest round.
    pub up: bool,
    /// States observed in the latest rounds, oldest first.
    pub history: VecDeque<bool>,
}

/// Mathematical value of a [`Score`].
pub struct ScoreView {
    pub score: u32,
    pub up: bool,
    pub history: Seq<bool>,
}

impl View for Score {
    type V = ScoreView;

    open spec fn view(&self) -> ScoreView {
        ScoreView { score: self.score, up: self.up, history: self.history@ }
    }
}

/// The last `window` entries of `history`, or all of it where it is shorter.
pub open spec fn keep_last(history: Seq<bool>, window: nat) -> Seq<bool> {
    if history.len() > window {
        history.subrange(history.len() - window, history.len() as int)
    } else {
        history
    }
}

/// The counter after `points` more points, held at the largest value it can
/// take.
pub open spec fn add_points(score: u32, points: u8) -> u32 {
    if score + points <= u32::MAX {
        (score + points) as u32
    } else {
        u32::MAX
    }
}

impl ScoreView {
    /// The record of a pair that has not been checked yet.
    pub open spec fn fresh() -> ScoreView {
        ScoreView { score: 0, up: false, history: Seq::empty() }
    }

    /// The record after one round in which the service was seen `up` or not.
    pub open spec fn ticked(self, multiplier: u8, up: bool) -> ScoreView {
        ScoreView {
            score: if up {
                add_points(self.score, multiplier)
            } else {
                self.score
            },
            up,
            history: keep_last(self.history.push(up), HISTORY_WINDOW as nat),
        }
    }

    /// The record after `rounds` rounds in a row with the same observation.
    pub open spec fn ticked_times(self, multiplier: u8, up: bool, rounds: nat) -> ScoreView
        decreases rounds,
    {
        if rounds == 0 {
            self
        } else {
            self.ticked_times(multiplier, up, (rounds - 1) as nat).ticked(multiplier, up)
        }
    }

    /// The history holds no more than the window.
    pub open spec fn within_window(self) -> bool {
        self.history.len() <= HISTORY_WINDOW
    }
}

impl Score {
    /// The record of a pair that has not been checked yet.
    pub fn new() -> (score: Score)
        ensures
            score@ == ScoreView::fresh(),
    {
        Score { score: 0, up: false, history: VecDeque::new() }
    }

    /// Records one round. An up round earns `multiplier` points, a down round
    /// none; the observation becomes the current state and the newest entry
    /// of the history, whose oldest entries leave once the window is full.
    pub fn tick(&mut self, multiplier: u8, up: bool)
        ensures
            final(self)@ == old(self)@.ticked(multiplier, up),
    {
        if up {
            self.score = self.score.saturating_add(multiplier as u32);
        }
        self.up = up;
        self.history.push_back(up);
        let ghost pushed = self.history@;
        while self.history.len() > HISTORY_WINDOW
            invariant
                self.score == old(self)@.ticked(multiplier, up).score,
                self.up == up,
                self.history@.len() <= pushed.len(),
                self.history@.len() >= HISTORY_WINDOW || self.history@.len() == pushed.len(),
                self.history@ == pushed.subrange(
                    pushed.len() - self.history@.len(),
                    pushed.len() as int,
                ),
            decreases self.history@.len(),
        {
            let _ = self.history.pop_front();
        }
        assert(self.history@ =~= keep_last(pushed, HISTORY_WINDOW as nat));
    }
}

impl Clone for Score {
    /// An independent copy of the record.
    fn clone(&self) -> (copy: Score)
        ensures
            copy@ == self@,
    {
        let mut history: VecDeque<bool> = VecDeque::new();
        let mut i: usize = 0;
        while i < self.history.len()
            invariant
                i <= self.history@.len(),
                history@ == self.history@.take(i as int),
            decreases self.history@.len() - i,
        {
            history.push_back(self.history[i]);
            assert(self.history@.take(i + 1) =~= self.history@.take(i as int).push(
                self.history@[i as int],
            ));
            i += 1;
        }
        assert(self.history@.take(i as int) =~= self.history@);
        Score { score: self.score, up: self.up, history }
    }
}

impl Default for Score {
    /// The record of a pair that has not been checked yet.
    fn default() -> (score: Score)
        ensures
            score@ == ScoreView::fresh(),
    {
        Score::new()
    }
}

} // verus!
