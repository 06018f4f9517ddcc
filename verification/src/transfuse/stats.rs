//! Counting what was copied.

use std::time::{Duration, Instant};
use vstd::prelude::*;

use super::args::end_of_heights;

verus! {

/// `std::time::Instant`, which is only measured from.
#[verifier::external_type_specification]
#[verifier::external_body]
pub struct ExInstant(std::time::Instant);

/// Calls `std::time::Instant::now`. Nothing is said of the clock.
#[verifier::external_body]
fn clock() -> Instant {
    Instant::now()
}

/// Calls `std::time::Instant::elapsed`. Nothing is said of the clock.
#[verifier::external_body]
fn time_since(start: &Instant) -> Duration {
    start.elapsed()
}

/// The instant is one that the clock gave.
pub closed spec fn read_from_clock(r: Instant) -> bool {
    call_ensures(clock, (), r)
}

/// The duration is one that a measurement from `start` gave.
pub closed spec fn measured_from(start: Instant, r: Duration) -> bool {
    call_ensures(time_since, (&start,), r)
}

/// What was copied so far.
pub struct TransferStats {
    keys_transferred: usize,
    bytes_transferred: usize,
    start_time: Instant,
    height_range: Option<(u64, u64)>,
}

/// The view of `TransferStats`: the counts and the range, without the time.
#[verifier::ext_equal]
pub ghost struct StatsView {
    pub keys: nat,
    pub bytes: nat,
    pub height_range: Option<(u64, u64)>,
}

impl View for TransferStats {
    type V = StatsView;

    closed spec fn view(&self) -> StatsView {
        StatsView {
            keys: self.keys_transferred as nat,
            bytes: self.bytes_transferred as nat,
            height_range: self.height_range,
        }
    }
}

impl StatsView {
    /// Nothing copied.
    pub open spec fn empty() -> StatsView {
        StatsView { keys: 0, bytes: 0, height_range: None }
    }

    pub open spec fn with_range(self, start: u64, end: Option<u64>) -> StatsView {
        StatsView { height_range: Some((start, end_of_heights(end))), ..self }
    }

    /// One more key.
    pub open spec fn with_key(self, key_size: nat, value_size: nat) -> StatsView {
        StatsView { keys: self.keys + 1, bytes: self.bytes + key_size + value_size, ..self }
    }

    /// With the counts of another transfer.
    pub open spec fn joined(self, other: StatsView) -> StatsView {
        StatsView { keys: self.keys + other.keys, bytes: self.bytes + other.bytes, ..self }
    }

    /// The counts fit their type.
    pub open spec fn fits(self) -> bool {
        self.keys <= usize::MAX && self.bytes <= usize::MAX
    }
}

/// What may be done with counts.
pub ghost enum StatsStep {
    Key { key_size: nat, value_size: nat },
    Range { start: u64, end: Option<u64> },
}

impl StatsView {
    /// The counts after some steps.
    pub open spec fn after(self, steps: Seq<StatsStep>) -> StatsView
        decreases steps.len(),
    {
        if steps.len() == 0 {
            self
        } else {
            let before = self.after(steps.drop_last());
            match steps.last() {
                StatsStep::Key { key_size, value_size } => before.with_key(key_size, value_size),
                StatsStep::Range { start, end } => before.with_range(start, end),
            }
        }
    }
}

/// The number of keys among some steps.
pub open spec fn keys_among(steps: Seq<StatsStep>) -> nat {
    steps.filter(|s: StatsStep| s is Key).len()
}

/// The size of the keys and values among some steps.
pub open spec fn bytes_among(steps: Seq<StatsStep>) -> nat
    decreases steps.len(),
{
    if steps.len() == 0 {
        0
    } else {
        bytes_among(steps.drop_last()) + match steps.last() {
            StatsStep::Key { key_size, value_size } => key_size + value_size,
            StatsStep::Range { .. } => 0,
        }
    }
}

/// Whatever the order, each key counts once, and all sizes add up. Setting the range of heights
/// changes neither.
pub proof fn counts_add_up(steps: Seq<StatsStep>)
    ensures
        StatsView::empty().after(steps).keys == keys_among(steps),
        StatsView::empty().after(steps).bytes == bytes_among(steps),
    decreases steps.len(),
{
    reveal(Seq::filter);
    if steps.len() > 0 {
        counts_add_up(steps.drop_last());
    }
}

/// How far a transfer is.
#[derive(Clone, Copy, Debug, PartialEq, Eq)]
pub enum Progress {
    /// Of `total` heights `processed` are done, up to `current`.
    Heights { processed: u64, total: u64, current: u64 },
    /// So many keys, of a range of heights.
    Range { keys: usize, start: u64, end: u64 },
    /// So many keys.
    Keys { keys: usize },
}

/// The distance from `start`, where it is not behind.
pub open spec fn distance(start: u64, end: u64) -> u64 {
    if start <= end {
        (end - start) as u64
    } else {
        0
    }
}

impl TransferStats {
    /// When the count was started.
    pub closed spec fn started(&self) -> Instant {
        self.start_time
    }

    /// Counts that are kept fit their type.
    pub proof fn lemma_fits(&self)
        ensures
            self@.fits(),
    {
    }

    pub fn new() -> (r: TransferStats)
        ensures
            r@ == StatsView::empty(),
            read_from_clock(r.started()),
    {
        TransferStats {
            keys_transferred: 0,
            bytes_transferred: 0,
            start_time: clock(),
            height_range: None,
        }
    }

    /// Notes the heights that are to be copied, from `start` to before `end`.
    pub fn set_height_range(&mut self, start: u64, end: Option<u64>)
        ensures
            final(self)@ == old(self)@.with_range(start, end),
            final(self).started() == old(self).started(),
    {
        self.height_range = Some(
            (
                start,
                match end {
                    Some(h) => h,
                    None => u64::MAX,
                },
            ),
        );
    }

    /// Counts a key.
    pub fn add_key(&mut self, key_size: usize, value_size: usize)
        requires
            old(self)@.with_key(key_size as nat, value_size as nat).fits(),
        ensures
            final(self)@ == old(self)@.with_key(key_size as nat, value_size as nat),
            final(self).started() == old(self).started(),
    {
        self.keys_transferred = self.keys_transferred + 1;
        self.bytes_transferred = self.bytes_transferred + (key_size + value_size);
    }

    /// Whether one more key can be counted.
    pub fn can_add_key(&self, key_size: usize, value_size: usize) -> (b: bool)
        ensures
            b == self@.with_key(key_size as nat, value_size as nat).fits(),
    {
        self.keys_transferred < usize::MAX && key_size <= usize::MAX - self.bytes_transferred
            && value_size <= usize::MAX - self.bytes_transferred - key_size
    }

    /// Counts what another transfer copied.
    pub fn add_stats(&mut self, other: &TransferStats)
        requires
            old(self)@.joined(other@).fits(),
        ensures
            final(self)@ == old(self)@.joined(other@),
            final(self).started() == old(self).started(),
    {
        self.keys_transferred = self.keys_transferred + other.keys_transferred;
        self.bytes_transferred = self.bytes_transferred + other.bytes_transferred;
    }

    /// Whether what another transfer copied can be counted.
    pub fn can_add_stats(&self, other: &TransferStats) -> (b: bool)
        ensures
            b == self@.joined(other@).fits(),
    {
        other.keys_transferred <= usize::MAX - self.keys_transferred && other.bytes_transferred
            <= usize::MAX - self.bytes_transferred
    }

    /// How far the transfer is, at `current_height` where there is one.
    pub fn progress(&self, current_height: Option<u64>) -> (r: Progress)
        ensures
            match (self@.height_range, current_height) {
                (Some((start, end)), Some(current)) => r == (Progress::Heights {
                    processed: distance(start, current),
                    total: distance(start, end),
                    current,
                }),
                (Some((start, end)), None) => r == (Progress::Range {
                    keys: self@.keys as usize,
                    start,
                    end,
                }),
                (None, _) => r == (Progress::Keys { keys: self@.keys as usize }),
            },
    {
        match self.height_range {
            Some((start, end)) => match current_height {
                Some(current) => Progress::Heights {
                    processed: current.saturating_sub(start),
                    total: end.saturating_sub(start),
                    current,
                },
                None => Progress::Range { keys: self.keys_transferred, start, end },
            },
            None => Progress::Keys { keys: self.keys_transferred },
        }
    }

    /// The number of keys, the number of bytes, and the time since the start.
    pub fn get_summary(&self) -> (r: (usize, usize, Duration))
        ensures
            r.0 == self@.keys,
            r.1 == self@.bytes,
            measured_from(self.started(), r.2),
    {
        (self.keys_transferred, self.bytes_transferred, time_since(&self.start_time))
    }
}

/// A key adds one to the keys and both sizes to the bytes. Setting the range and joining counts do
/// what they say, and nothing else.
pub proof fn counts_change_as_told(
    s: StatsView,
    other: StatsView,
    key_size: nat,
    value_size: nat,
    start: u64,
    end: Option<u64>,
)
    ensures
        s.with_key(key_size, value_size).keys == s.keys + 1,
        s.with_key(key_size, value_size).bytes == s.bytes + key_size + value_size,
        s.with_key(key_size, value_size).height_range == s.height_range,
        s.with_range(start, end).keys == s.keys,
        s.with_range(start, end).bytes == s.bytes,
        s.with_range(start, end).height_range == Some(
            (
                start,
                match end {
                    Some(e) => e,
                    None => u64::MAX,
                },
            ),
        ),
        s.joined(other).keys == s.keys + other.keys,
        s.joined(other).bytes == s.bytes + other.bytes,
        s.joined(other).height_range == s.height_range,
        StatsView::empty().keys == 0 && StatsView::empty().bytes == 0
            && StatsView::empty().height_range is None,
{
}

/// The way from one height to another is the number of heights between them, and nothing backwards.
pub proof fn distances_go_forward(start: u64, end: u64)
    ensures
        start <= end ==> start + distance(start, end) == end,
        start > end ==> distance(start, end) == 0,
{
}

} // verus!
