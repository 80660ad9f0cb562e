//! The late-acceptance memory: the scores of the last accepted candidates,
//! newest first, against whose oldest one a new candidate is compared.
use vstd::prelude::*;
use std::collections::VecDeque;
use crate::candidate::{apply_deltas, spec_apply_deltas};

verus! {

/// The scores kept after accepting `score` into `scores`: it goes in front,
/// and the oldest leaves when more than `size` are kept.
pub open spec fn spec_accepted<S>(scores: Seq<S>, score: S, size: int) -> Seq<S> {
    let pushed = seq![score] + scores;
    if pushed.len() > size {
        pushed.drop_last()
    } else {
        pushed
    }
}

/// The scores kept after accepting each of `accepted` in turn into `scores`.
pub open spec fn spec_accepted_all<S>(scores: Seq<S>, accepted: Seq<S>, size: int) -> Seq<S>
    decreases accepted.len(),
{
    if accepted.len() == 0 {
        scores
    } else {
        spec_accepted(spec_accepted_all(scores, accepted.drop_last(), size), accepted.last(), size)
    }
}

/// The scores of the last accepted candidates, at most `late_acceptance_size`
/// of them, newest first.
pub struct LateScores<S> {
    pub late_acceptance_size: usize,
    pub late_scores: VecDeque<S>,
}

impl<S> LateScores<S> {
    /// No score kept yet.
    pub fn new(late_acceptance_size: usize) -> (r: Self)
        ensures
            r.late_acceptance_size == late_acceptance_size,
            r.late_scores@ == Seq::<S>::empty(),
    {
        LateScores { late_acceptance_size, late_scores: VecDeque::new() }
    }

    /// The score a candidate must not be worse than: the oldest kept score,
    /// or the current best one while none is kept.
    pub fn score_to_compare<'a>(&'a self, current: &'a S) -> (r: &'a S)
        ensures
            self.late_scores@.len() == 0 ==> r == current,
            self.late_scores@.len() > 0 ==> *r == self.late_scores@.last(),
    {
        let n = self.late_scores.len();
        if n == 0 {
            current
        } else {
            &self.late_scores[n - 1]
        }
    }

    /// One step on a sampled candidate. `accepted` says whether the
    /// candidate's score is no worse than `score_to_compare` or than the
    /// current best one (the scores' comparison is the caller's). An
    /// accepted candidate's deltas are written into the sample and its score
    /// is kept; otherwise nothing changes. Returns `accepted`.
    pub fn step_incremental<V: Copy>(&mut self, sample: &mut Vec<V>, deltas: &Vec<(usize, V)>, candidate_score: S, accepted: bool) -> (r: bool)
        requires
            forall|i: int| 0 <= i < deltas.len() ==> (#[trigger] deltas@[i]).0 < old(sample)@.len(),
        ensures
            r == accepted,
            final(self).late_acceptance_size == old(self).late_acceptance_size,
            accepted ==> final(sample)@ == spec_apply_deltas(old(sample)@, deltas@)
                && final(self).late_scores@ == spec_accepted(old(self).late_scores@, candidate_score, old(self).late_acceptance_size as int),
            !accepted ==> final(sample)@ == old(sample)@ && final(self).late_scores@ == old(self).late_scores@,
    {
        if accepted {
            apply_deltas(sample, deltas);
            self.accept(candidate_score);
        }
        accepted
    }

    /// Keeps the score of an accepted candidate.
    pub fn accept(&mut self, candidate_score: S)
        ensures
            final(self).late_acceptance_size == old(self).late_acceptance_size,
            final(self).late_scores@ == spec_accepted(old(self).late_scores@, candidate_score, old(self).late_acceptance_size as int),
    {
        self.late_scores.push_front(candidate_score);
        if self.late_scores.len() > self.late_acceptance_size {
            self.late_scores.pop_back();
        }
    }
}

/// Starting from no kept score, accepting the scores `accepted` one after
/// another keeps the last `size` of them (all, when fewer), newest first.
pub proof fn lemma_keeps_latest<S>(accepted: Seq<S>, size: nat)
    ensures
        spec_accepted_all(Seq::empty(), accepted, size as int)
            == accepted.reverse().take(if accepted.len() < size { accepted.len() as int } else { size as int }),
    decreases accepted.len(),
{
    if accepted.len() > 0 {
        let prev = accepted.drop_last();
        lemma_keeps_latest(prev, size);
        let kept = spec_accepted_all(Seq::<S>::empty(), prev, size as int);
        let c = accepted.last();
        assert(accepted.reverse() =~= seq![c] + prev.reverse());
        let n = if accepted.len() < size { accepted.len() as int } else { size as int };
        let m = if prev.len() < size { prev.len() as int } else { size as int };
        if prev.len() < size {
            assert(kept == prev.reverse());
            assert(spec_accepted(kept, c, size as int) =~= accepted.reverse().take(n));
        } else {
            assert(kept == prev.reverse().take(m));
            assert(spec_accepted(kept, c, size as int) =~= accepted.reverse().take(n));
        }
    }
}

} // verus!
