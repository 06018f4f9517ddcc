//! How long to wait between batches.

use vstd::prelude::*;

use super::tracker::{TrackerView, TxTracker};

verus! {

/// How many block timestamps are kept.
pub const MAX_TIMESTAMPS: usize = 10;

/// With fewer timestamps than this no delay is derived from them.
pub const MIN_TIMESTAMPS: usize = 5;

/// The longest duration that the clock types can hold, in nanoseconds.
pub const MAX_DURATION_NANOS: u128 = 18446744073709551615999999999;

/// A tenth of a second, in nanoseconds.
pub const SHORT_DELAY_NANOS: u128 = 100000000;

/// The timestamps after one more block: the last ones, at most `MAX_TIMESTAMPS`.
pub open spec fn recorded(timestamps: Seq<u64>, timestamp: u64) -> Seq<u64> {
    let all = timestamps.push(timestamp);
    if all.len() > MAX_TIMESTAMPS {
        all.skip(1)
    } else {
        all
    }
}

/// Time does not run backwards.
pub open spec fn in_order(timestamps: Seq<u64>) -> bool {
    forall|i: int, j: int| 0 <= i <= j < timestamps.len() ==> timestamps[i] <= timestamps[j]
}

/// The times between neighbouring blocks.
pub open spec fn delays(timestamps: Seq<u64>) -> Seq<int> {
    Seq::new(
        (if timestamps.len() == 0 {
            0
        } else {
            timestamps.len() - 1
        }) as nat,
        |i: int| timestamps[i + 1] - timestamps[i],
    )
}

/// `r` is the longest but for one.
pub open spec fn second_longest(d: Seq<int>, r: int) -> bool {
    exists|i: int, j: int|
        {
            &&& 0 <= i < d.len()
            &&& 0 <= j < d.len()
            &&& i != j
            &&& #[trigger] d[i] >= r
            &&& #[trigger] d[j] == r
            &&& forall|k: int| 0 <= k < d.len() && k != i ==> #[trigger] d[k] <= r
        }
}

/// `r` is the longest.
pub open spec fn longest(d: Seq<int>, r: int) -> bool {
    &&& exists|i: int| 0 <= i < d.len() && #[trigger] d[i] == r
    &&& forall|k: int| 0 <= k < d.len() ==> #[trigger] d[k] <= r
}

/// There is one second longest delay.
pub proof fn second_longest_is_unique(d: Seq<int>, r: int, s: int)
    requires
        second_longest(d, r),
        second_longest(d, s),
    ensures
        r == s,
{
}

/// Blocks that take long: the second longest and the longest time between recent ones, in
/// nanoseconds.
#[derive(Clone, Copy, Debug, PartialEq, Eq)]
pub struct SlowBlocks {
    pub delay: u128,
    pub longest: u128,
}

impl TrackerView {
    /// The delay that follows from recent blocks.
    pub open spec fn observed_delay(self, r: Option<u128>) -> bool {
        match r {
            None => self.recent_block_timestamps.len() < MIN_TIMESTAMPS,
            Some(d) => {
                &&& self.recent_block_timestamps.len() >= MIN_TIMESTAMPS
                &&& second_longest(delays(self.recent_block_timestamps), d as int)
            },
        }
    }

    /// The delay after a batch that leaves nothing to look after: the configured one, else the one
    /// that recent blocks show, else a little more than the least delay between blocks.
    pub open spec fn normal_delay(self, r: u128) -> bool {
        match self.tx_batch_interval {
            Some(d) => r == d,
            None => {
                ||| self.observed_delay(Some(r))
                ||| self.observed_delay(None) && r == self.min_block_production_delay
                    + SHORT_DELAY_NANOS
            },
        }
    }

    /// The delay goes by recent blocks, and is more than twice the least delay between blocks.
    pub open spec fn slow_blocks(self, r: Option<SlowBlocks>) -> bool {
        match r {
            Some(s) => {
                &&& self.tx_batch_interval is None
                &&& self.observed_delay(Some(s.delay))
                &&& s.delay > 2 * self.min_block_production_delay
                &&& longest(delays(self.recent_block_timestamps), s.longest as int)
            },
            None => {
                ||| self.tx_batch_interval is Some
                ||| self.observed_delay(None)
                ||| exists|d: u128| #[trigger]
                    self.observed_delay(Some(d)) && d <= 2 * self.min_block_production_delay
            },
        }
    }

    /// The clock types can hold the delays.
    pub open spec fn delays_fit(self) -> bool {
        self.tx_batch_interval is None ==> {
            &&& self.min_block_production_delay + SHORT_DELAY_NANOS <= MAX_DURATION_NANOS
            &&& self.recent_block_timestamps.len() >= MIN_TIMESTAMPS ==> in_order(
                self.recent_block_timestamps,
            )
        }
    }
}

impl TxTracker {
    /// Keeps the timestamp of a target block.
    pub fn record_block_timestamp(&mut self, timestamp: u64)
        ensures
            final(self)@ == (TrackerView {
                recent_block_timestamps: recorded(old(self)@.recent_block_timestamps, timestamp),
                ..old(self)@
            }),
    {
        self.recent_block_timestamps.push_back(timestamp);
        if self.recent_block_timestamps.len() > MAX_TIMESTAMPS {
            self.recent_block_timestamps.pop_front();
        }
        assert(self@.recent_block_timestamps =~= recorded(
            old(self)@.recent_block_timestamps,
            timestamp,
        ));
    }

    /// The longest and the second longest time between recent blocks, in nanoseconds.
    fn longest_recent_block_delays(&self) -> (r: Option<(u64, u64)>)
        requires
            self@.recent_block_timestamps.len() >= MIN_TIMESTAMPS ==> in_order(
                self@.recent_block_timestamps,
            ),
        ensures
            match r {
                None => self@.observed_delay(None),
                Some((first, second)) => {
                    &&& longest(delays(self@.recent_block_timestamps), first as int)
                    &&& self@.observed_delay(Some(second as u128))
                },
            },
    {
        if self.recent_block_timestamps.len() < MIN_TIMESTAMPS {
            return None;
        }
        let ghost t = self@.recent_block_timestamps;
        let ghost d = delays(t);
        let mut longest: u64 = self.recent_block_timestamps[1] - self.recent_block_timestamps[0];
        let mut second: u64 = self.recent_block_timestamps[2] - self.recent_block_timestamps[1];
        let ghost mut at_longest: int = 0;
        let ghost mut at_second: int = 1;
        assert(d[0] == longest && d[1] == second);
        if second > longest {
            let swapped: u64 = longest;
            longest = second;
            second = swapped;
            proof {
                at_longest = 1;
                at_second = 0;
            }
        }
        let mut i: usize = 3;
        while i < self.recent_block_timestamps.len()
            invariant
                3 <= i <= t.len(),
                t == self.recent_block_timestamps@,
                in_order(t),
                d == delays(t),
                0 <= at_longest < i - 1,
                0 <= at_second < i - 1,
                at_longest != at_second,
                d[at_longest] == longest,
                d[at_second] == second,
                longest >= second,
                forall|k: int| 0 <= k < i - 1 && k != at_longest ==> #[trigger] d[k] <= second,
            decreases t.len() - i,
        {
            let delay: u64 = self.recent_block_timestamps[i] - self.recent_block_timestamps[i - 1];
            assert(d[i - 1] == delay);
            if delay > longest {
                second = longest;
                longest = delay;
                proof {
                    at_second = at_longest;
                    at_longest = i - 1;
                }
            } else if delay > second {
                second = delay;
                proof {
                    at_second = i - 1;
                }
            }
            i += 1;
        }
        assert(d[at_longest] >= second && d[at_second] == second);
        Some((longest, second))
    }

    /// The second longest time between recent blocks, in nanoseconds.
    pub fn second_longest_recent_block_delay(&self) -> (r: Option<u128>)
        requires
            self@.recent_block_timestamps.len() >= MIN_TIMESTAMPS ==> in_order(
                self@.recent_block_timestamps,
            ),
        ensures
            self@.observed_delay(r),
    {
        match self.longest_recent_block_delays() {
            Some((_, second)) => Some(second as u128),
            None => None,
        }
    }

    /// The delays between recent blocks, where they go by them and are longer than expected.
    pub fn slow_blocks(&self) -> (r: Option<SlowBlocks>)
        requires
            self@.delays_fit(),
        ensures
            self@.slow_blocks(r),
    {
        if self.tx_batch_interval.is_some() {
            return None;
        }
        match self.longest_recent_block_delays() {
            Some((first, second)) => {
                let delay = second as u128;
                assert(self@.observed_delay(Some(delay)));
                if delay > 2 * self.min_block_production_delay {
                    Some(SlowBlocks { delay, longest: first as u128 })
                } else {
                    None
                }
            },
            None => None,
        }
    }

    /// The delay after a batch that leaves nothing to look after, in nanoseconds.
    pub fn normal_delay(&self) -> (r: u128)
        requires
            self@.delays_fit(),
        ensures
            self@.normal_delay(r),
    {
        match self.tx_batch_interval {
            Some(d) => d,
            None => match self.second_longest_recent_block_delay() {
                Some(d) => d,
                None => self.min_block_production_delay + SHORT_DELAY_NANOS,
            },
        }
    }
}

/// However many blocks are recorded, no more than `MAX_TIMESTAMPS` timestamps are kept, and the
/// newest one is among them.
pub proof fn timestamps_stay_few(timestamps: Seq<u64>, timestamp: u64)
    requires
        timestamps.len() <= MAX_TIMESTAMPS,
    ensures
        0 < recorded(timestamps, timestamp).len() <= MAX_TIMESTAMPS,
        recorded(timestamps, timestamp).last() == timestamp,
{
}

/// The last ten timestamps are kept, in order, and older ones are dropped.
pub proof fn last_ten_timestamps_are_kept(timestamps: Seq<u64>, timestamp: u64)
    requires
        timestamps.len() <= 10,
    ensures
        ({
            let after = recorded(timestamps, timestamp);
            &&& timestamps.len() < 10 ==> after == timestamps.push(timestamp)
            &&& timestamps.len() == 10 ==> after.len() == 10 && after[9] == timestamp && forall|
                i: int,
            | 0 <= i < 9 ==> #[trigger] after[i] == timestamps[i + 1]
        }),
{
}

/// The delays are the differences of neighbouring timestamps.
pub proof fn delays_are_differences(timestamps: Seq<u64>)
    ensures
        timestamps.len() > 0 ==> delays(timestamps).len() == timestamps.len() - 1,
        forall|i: int|
            0 <= i < timestamps.len() - 1 ==> #[trigger] delays(timestamps)[i] == timestamps[i + 1]
                - timestamps[i],
{
}

/// The second longest delay is one of them. At most one is longer, and at least one other is no
/// shorter. With fewer than five timestamps there is none.
pub proof fn second_longest_has_at_most_one_longer(t: TrackerView, r: Option<u128>)
    requires
        t.observed_delay(r),
    ensures
        r is None <==> t.recent_block_timestamps.len() < 5,
        r matches Some(s) ==> {
            let d = delays(t.recent_block_timestamps);
            &&& d.contains(s as int)
            &&& exists|i: int, j: int|
                0 <= i < d.len() && 0 <= j < d.len() && i != j && #[trigger] d[i] >= s
                    && #[trigger] d[j] >= s
            &&& forall|i: int, j: int|
                0 <= i < d.len() && 0 <= j < d.len() && i != j ==> !(#[trigger] d[i] > s
                    && #[trigger] d[j] > s)
        },
{
    if let Some(s) = r {
        let d = delays(t.recent_block_timestamps);
        let (i, j) = choose|i: int, j: int|
            {
                &&& 0 <= i < d.len()
                &&& 0 <= j < d.len()
                &&& i != j
                &&& #[trigger] d[i] >= s
                &&& #[trigger] d[j] == s
                &&& forall|k: int| 0 <= k < d.len() && k != i ==> #[trigger] d[k] <= s
            };
        assert(d[j] == s);
        assert(d[i] >= s && d[j] >= s);
    }
}

/// Blocks count as slow if, with no time set, the second longest delay is more than twice the least
/// one. The longest one is then told too.
pub proof fn slow_blocks_take_more_than_twice_the_least_delay(
    t: TrackerView,
    s: SlowBlocks,
    delay: u128,
)
    requires
        t.observed_delay(Some(delay)),
    ensures
        t.slow_blocks(Some(s)) ==> {
            let d = delays(t.recent_block_timestamps);
            &&& t.tx_batch_interval is None
            &&& s.delay == delay
            &&& s.delay > 2 * t.min_block_production_delay
            &&& d.contains(s.longest as int)
            &&& forall|i: int| 0 <= i < d.len() ==> #[trigger] d[i] <= s.longest
        },
        t.slow_blocks(None) ==> t.tx_batch_interval is Some || delay <= 2
            * t.min_block_production_delay,
{
    let d = delays(t.recent_block_timestamps);
    if t.slow_blocks(Some(s)) {
        second_longest_is_unique(d, delay as int, s.delay as int);
        let i = choose|i: int| 0 <= i < d.len() && #[trigger] d[i] == s.longest;
        assert(d[i] == s.longest);
    }
    if t.slow_blocks(None) && t.tx_batch_interval is None {
        let e = choose|e: u128| #[trigger]
            t.observed_delay(Some(e)) && e <= 2 * t.min_block_production_delay;
        second_longest_is_unique(d, delay as int, e as int);
    }
}

} // verus!
