//! Looking ahead along the source chain.

use std::collections::VecDeque;

use vstd::prelude::*;

use super::tracker::{TrackerView, TxTracker};
use crate::keys::BlockHeight;

verus! {

/// The heights known so far while more are asked for.
pub struct HeightLookahead {
    pub next_heights: VecDeque<BlockHeight>,
    pub height_queued: Option<BlockHeight>,
    /// How far behind the first height the last wanted one is.
    pub depth: usize,
}

/// The height after which more are to be asked for, if any are.
pub open spec fn height_to_query(
    heights: Seq<BlockHeight>,
    height_queued: Option<BlockHeight>,
    depth: nat,
) -> Option<BlockHeight> {
    if heights.len() > depth {
        None
    } else if heights.len() > 0 {
        Some(heights.last())
    } else {
        height_queued
    }
}

/// The height at a place, if it is known.
pub open spec fn height_at(heights: Seq<BlockHeight>, i: nat) -> Option<BlockHeight> {
    if i < heights.len() {
        Some(heights[i as int])
    } else {
        None
    }
}

/// The height at a place, if it is known.
fn peek_height(heights: &VecDeque<BlockHeight>, i: usize) -> (r: Option<BlockHeight>)
    ensures
        r == height_at(heights@, i as nat),
{
    if i < heights.len() {
        Some(heights[i])
    } else {
        None
    }
}

impl HeightLookahead {
    /// The height whose successor is to be asked for; nothing when enough are known.
    pub fn query(&self) -> (r: Option<BlockHeight>)
        requires
            self.next_heights@.len() > 0 || self.height_queued is Some,
        ensures
            r == height_to_query(self.next_heights@, self.height_queued, self.depth as nat),
            r is None <==> self.next_heights@.len() > self.depth,
    {
        let n: usize = self.next_heights.len();
        if n > self.depth {
            None
        } else if n > 0 {
            Some(self.next_heights[n - 1])
        } else {
            self.height_queued
        }
    }

    /// The source chain named one more height.
    pub fn found(&mut self, height: BlockHeight)
        ensures
            final(self).next_heights@ == old(self).next_heights@.push(height),
            final(self).height_queued == old(self).height_queued,
            final(self).depth == old(self).depth,
    {
        self.next_heights.push_back(height);
    }
}

/// Each answer brings the lookahead nearer to its end: it asks as often as heights are missing.
pub proof fn lookahead_ends(
    heights: Seq<BlockHeight>,
    height_queued: Option<BlockHeight>,
    depth: nat,
    answers: Seq<BlockHeight>,
)
    requires
        heights.len() + answers.len() > depth,
    ensures
        height_to_query(heights + answers, height_queued, depth) is None,
{
}

impl TxTracker {
    /// Starts to look ahead, to `depth` heights behind the next one.
    pub fn look_ahead(&self, depth: usize) -> (r: HeightLookahead)
        ensures
            r.next_heights@ == self@.next_heights,
            r.height_queued == self@.height_queued,
            r.depth == depth,
    {
        let heights = self.next_heights.clone();
        assert(heights@ =~= self.next_heights@);
        HeightLookahead { next_heights: heights, height_queued: self.height_queued, depth }
    }

    /// Takes over the heights that were found. Returns the next height, and the one `depth` behind
    /// it.
    pub fn next_heights(&mut self, found: HeightLookahead) -> (r: (
        Option<BlockHeight>,
        Option<BlockHeight>,
    ))
        ensures
            final(self)@ == (TrackerView { next_heights: found.next_heights@, ..old(self)@ }),
            r.0 == height_at(found.next_heights@, 0),
            r.1 == height_at(found.next_heights@, found.depth as nat),
    {
        let next_height = peek_height(&found.next_heights, 0);
        let create_account_height = peek_height(&found.next_heights, found.depth);
        self.next_heights = found.next_heights;
        (next_height, create_account_height)
    }
}

/// Heights are asked for as long as no more than `depth` are known, each time after the last one
/// that is known, or after the one that was queued last where none is.
pub proof fn lookahead_goes_on_from_the_last_height(
    heights: Seq<BlockHeight>,
    height_queued: Option<BlockHeight>,
    depth: nat,
)
    ensures
        heights.len() > depth ==> height_to_query(heights, height_queued, depth) is None,
        0 < heights.len() <= depth ==> height_to_query(heights, height_queued, depth) == Some(
            heights[heights.len() - 1],
        ),
        heights.len() == 0 ==> height_to_query(heights, height_queued, depth) == height_queued,
        forall|i: nat|
            i < heights.len() ==> #[trigger] height_at(heights, i) == Some(heights[i as int]),
        forall|i: nat| i >= heights.len() ==> (#[trigger] height_at(heights, i)) is None,
{
}

} // verus!
