//! The decisions a solve makes before its agents start: whether the score
//! precision given fits the score type, and how the agents are linked in a
//! ring so that each one hears from the one before it.
use vstd::prelude::*;

verus! {

/// Whether a requested score precision fits a score type with
/// `precision_len` components: no request, or one number per component.
pub fn score_precision_fits(score_precision: &Option<Vec<u64>>, precision_len: usize) -> (r: bool)
    ensures
        r == match score_precision {
            Some(p) => p@.len() == precision_len,
            None => true,
        },
{
    match score_precision {
        Some(precision) => precision.len() == precision_len,
        None => true,
    }
}

/// `v` turned right by one place: the last item comes first.
pub open spec fn spec_rotated_right<T>(v: Seq<T>) -> Seq<T> {
    if v.len() == 0 {
        v
    } else {
        seq![v.last()] + v.drop_last()
    }
}

/// Hands agent `j` the receiving end of channel `j - 1` (of the last
/// channel, for the first agent): the receivers turned right by one place.
pub fn link_ring<T>(receivers: &mut Vec<T>)
    ensures
        final(receivers)@ == spec_rotated_right(old(receivers)@),
{
    if receivers.len() > 0 {
        let last = receivers.pop().unwrap();
        receivers.insert(0, last);
        assert(receivers@ =~= spec_rotated_right(old(receivers)@));
    }
}

/// In a ring of `n` agents, agent `j` listens on the channel that agent
/// `(j + n - 1) % n` sends on, so each channel has one listener, and no agent
/// listens to itself when there are two or more.
pub proof fn lemma_ring_links_predecessor<T>(channels: Seq<T>, j: int)
    requires
        0 <= j < channels.len(),
    ensures
        spec_rotated_right(channels)[j] == channels[(j + channels.len() - 1) % (channels.len() as int)],
        spec_rotated_right(channels).len() == channels.len(),
        channels.len() >= 2 ==> (j + channels.len() - 1) % (channels.len() as int) != j,
{
    let n = channels.len() as int;
    if j == 0 {
        assert((n - 1) % n == n - 1) by (nonlinear_arith)
            requires n >= 1;
    } else {
        assert((j + n - 1) % n == j - 1) by (nonlinear_arith)
            requires 1 <= j < n;
    }
}

} // verus!
