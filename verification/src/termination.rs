//! Stopping a search once its best score has not improved for a while,
//! measured by the local clock.
use vstd::prelude::*;
use chrono::Local;

verus! {

/// Milliseconds since 1970 by the local clock
/// (`chrono::Local::now().timestamp_millis()`). The value depends on when the
/// call is made, so nothing is stated of it.
#[verifier::external_body]
fn now_millis() -> i64 {
    Local::now().timestamp_millis()
}

/// Tracks the best score seen and how long ago it last improved.
#[derive(Clone)]
pub struct ScoreNoImprovement<S> {
    pub limit_milliseconds: i64,
    /// When the best score last improved; `-1` before the first update.
    pub start_time: i64,
    pub current_best_score: S,
    /// Milliseconds between the last improvement and the last update.
    pub time_delta: i64,
}

/// What one update at time `now` does: the first update starts the clock and
/// takes the score; once the limit is reached nothing changes; an improving
/// score restarts the clock; any other score measures the time since the
/// last improvement (a difference beyond the range of `i64` wraps around).
pub open spec fn spec_updated<S>(old: ScoreNoImprovement<S>, new: ScoreNoImprovement<S>, score: S, improved: bool, now: i64) -> bool {
    if old.start_time == -1 {
        new == ScoreNoImprovement { start_time: now, current_best_score: score, ..old }
    } else if old.time_delta >= old.limit_milliseconds {
        new == old
    } else if improved {
        new == ScoreNoImprovement { start_time: now, current_best_score: score, time_delta: 0, ..old }
    } else {
        new == ScoreNoImprovement { time_delta: now.wrapping_sub(old.start_time), ..old }
    }
}

impl<S> ScoreNoImprovement<S> {
    /// A clock not yet started, with the given limit and placeholder score.
    pub fn new(limit_milliseconds: i64, stub_score: S) -> (r: Self)
        ensures
            r == (ScoreNoImprovement { limit_milliseconds, start_time: -1i64, current_best_score: stub_score, time_delta: 0i64 }),
    {
        ScoreNoImprovement { limit_milliseconds, start_time: -1, current_best_score: stub_score, time_delta: 0 }
    }

    /// Whether the best score has not improved for the limit.
    pub fn is_accomplish(&self) -> (r: bool)
        ensures
            r == (self.time_delta >= self.limit_milliseconds),
    {
        self.time_delta >= self.limit_milliseconds
    }

    /// One update at time `now` with the agent's best score; `improved` says
    /// whether that score is better than the best one kept.
    pub fn update_at(&mut self, agent_top_score: S, improved: bool, now: i64)
        ensures
            spec_updated(*old(self), *final(self), agent_top_score, improved, now),
    {
        if self.start_time == -1 {
            self.start_time = now;
            self.current_best_score = agent_top_score;
            return;
        }
        if self.is_accomplish() {
            return;
        }
        if improved {
            self.current_best_score = agent_top_score;
            self.start_time = now;
            self.time_delta = 0;
        } else {
            self.time_delta = now.wrapping_sub(self.start_time);
        }
    }

    /// One update at the current time (see `update_at`).
    pub fn update(&mut self, agent_top_score: S, improved: bool)
        ensures
            exists|now: i64| spec_updated(*old(self), *final(self), agent_top_score, improved, now),
    {
        let now = now_millis();
        self.update_at(agent_top_score, improved, now);
    }
}

/// `states` is a run of updates: each state is the one before it updated
/// with the score, improvement flag and clock value of its step.
pub open spec fn spec_update_run<S>(states: Seq<ScoreNoImprovement<S>>, scores: Seq<S>, improved: Seq<bool>, times: Seq<i64>) -> bool {
    &&& scores.len() == states.len() - 1
    &&& improved.len() == scores.len()
    &&& times.len() == scores.len()
    &&& forall|k: int| 0 <= k < scores.len() ==> spec_updated(#[trigger] states[k], states[k + 1], scores[k], improved[k], times[k])
}

/// Law: once the clock has started and the limit is reached, the strategy
/// stays accomplished and no later update changes it.
pub proof fn lemma_accomplished_stays<S>(states: Seq<ScoreNoImprovement<S>>, scores: Seq<S>, improved: Seq<bool>, times: Seq<i64>)
    requires
        states.len() >= 1,
        spec_update_run(states, scores, improved, times),
        states[0].start_time != -1,
        states[0].time_delta >= states[0].limit_milliseconds,
    ensures
        forall|k: int| 0 <= k < states.len() ==> #[trigger] states[k] == states[0],
{
    assert forall|k: int| 0 <= k < states.len() implies #[trigger] states[k] == states[0] by {
        lemma_run_prefix_unchanged(states, scores, improved, times, k);
    }
}

proof fn lemma_run_prefix_unchanged<S>(states: Seq<ScoreNoImprovement<S>>, scores: Seq<S>, improved: Seq<bool>, times: Seq<i64>, k: int)
    requires
        0 <= k < states.len(),
        spec_update_run(states, scores, improved, times),
        states[0].start_time != -1,
        states[0].time_delta >= states[0].limit_milliseconds,
    ensures
        states[k] == states[0],
    decreases k,
{
    if k > 0 {
        lemma_run_prefix_unchanged(states, scores, improved, times, k - 1);
        assert(spec_updated(states[k - 1], states[k], scores[k - 1], improved[k - 1], times[k - 1]));
    }
}

} // verus!
