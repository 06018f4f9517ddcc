//! Copying the entries of one column, height by height.

use vstd::bytes::lemma_auto_spec_u64_to_from_le_bytes;
use vstd::prelude::*;

use super::args::{heights_end, DbColumn, TransfuseArgs};
use super::keys::{height_to_key, key_of};
use super::stats::{read_from_clock, StatsView, TransferStats};
use crate::keys::{duplicate_bytes, same_bytes};
use crate::ordered::views;

verus! {

/// A key and its value.
pub type Entry = (Vec<u8>, Vec<u8>);

/// The view of an `Entry`.
pub type EntryView = (Seq<u8>, Seq<u8>);

/// Where a transfer is.
enum Stage {
    /// The hash of the block at the height is wanted.
    Index,
    /// The entry of the hash is wanted.
    Data { key: Vec<u8> },
    /// It is to be seen whether the destination has the entry.
    Existing { key: Vec<u8>, value: Vec<u8> },
    /// The batch is full.
    Full,
    /// All heights are done, and the batch is not empty.
    Last,
    Done,
}

/// The view of a stage.
#[verifier::ext_equal]
pub ghost enum StageView {
    Index,
    Data { key: Seq<u8> },
    Existing { key: Seq<u8>, value: Seq<u8> },
    Full,
    Last,
    Done,
}

impl View for Stage {
    type V = StageView;

    closed spec fn view(&self) -> StageView {
        match self {
            Stage::Index => StageView::Index,
            Stage::Data { key } => StageView::Data { key: key@ },
            Stage::Existing { key, value } => StageView::Existing { key: key@, value: value@ },
            Stage::Full => StageView::Full,
            Stage::Last => StageView::Last,
            Stage::Done => StageView::Done,
        }
    }
}

/// What a transfer wants done next.
pub enum Request {
    /// Read a value of the source.
    Source { column: DbColumn, key: Vec<u8> },
    /// Look whether the destination has a key.
    Destination { column: DbColumn, key: Vec<u8> },
    /// Write the batch to the destination. Progress is then shown at the height, where there is
    /// one.
    Commit { progress: Option<u64> },
    Done,
}

/// The view of a `Request`.
#[verifier::ext_equal]
pub ghost enum RequestView {
    Source { column: DbColumn, key: Seq<u8> },
    Destination { column: DbColumn, key: Seq<u8> },
    Commit { progress: Option<u64> },
    Done,
}

impl View for Request {
    type V = RequestView;

    open spec fn view(&self) -> RequestView {
        match self {
            Request::Source { column, key } => RequestView::Source { column: *column, key: key@ },
            Request::Destination { column, key } => RequestView::Destination {
                column: *column,
                key: key@,
            },
            Request::Commit { progress } => RequestView::Commit { progress: *progress },
            Request::Done => RequestView::Done,
        }
    }
}

/// What came of a request.
pub enum Reply {
    /// The value that the source has, if any.
    Value(Option<Vec<u8>>),
    /// Whether the destination has the key.
    Exists(bool),
    Committed,
}

/// The view of a `Reply`.
#[verifier::ext_equal]
pub ghost enum ReplyView {
    Value(Option<Seq<u8>>),
    Exists(bool),
    Committed,
}

impl View for Reply {
    type V = ReplyView;

    open spec fn view(&self) -> ReplyView {
        match self {
            Reply::Value(Some(v)) => ReplyView::Value(Some(v@)),
            Reply::Value(None) => ReplyView::Value(None),
            Reply::Exists(b) => ReplyView::Exists(*b),
            Reply::Committed => ReplyView::Committed,
        }
    }
}

/// A transfer of the entries of one column.
pub struct Transfer {
    column: DbColumn,
    end: Option<u64>,
    batch_size: usize,
    show_progress: bool,
    skip_existing: bool,
    height: u64,
    batch: Vec<Entry>,
    stats: TransferStats,
    stage: Stage,
}

/// The view of a `Transfer`.
#[verifier::ext_equal]
pub ghost struct TransferView {
    pub column: DbColumn,
    /// The height after the last one. Without it, there is no last one but the highest.
    pub end: Option<u64>,
    pub batch_size: nat,
    pub show_progress: bool,
    pub skip_existing: bool,
    /// The height that is being copied.
    pub height: u64,
    /// The entries to write next.
    pub batch: Seq<EntryView>,
    pub stats: StatsView,
    pub stage: StageView,
}

impl View for Transfer {
    type V = TransferView;

    closed spec fn view(&self) -> TransferView {
        TransferView {
            column: self.column,
            end: self.end,
            batch_size: self.batch_size as nat,
            show_progress: self.show_progress,
            skip_existing: self.skip_existing,
            height: self.height,
            batch: views(self.batch@),
            stats: self.stats@,
            stage: self.stage@,
        }
    }
}

impl TransferView {
    /// A transfer at its start.
    pub open spec fn start(
        column: DbColumn,
        start: u64,
        end: Option<u64>,
        batch_size: nat,
        show_progress: bool,
        skip_existing: bool,
    ) -> TransferView {
        (TransferView {
            column,
            end,
            batch_size,
            show_progress,
            skip_existing,
            height: start,
            batch: Seq::empty(),
            stats: StatsView::empty().with_range(start, end),
            stage: if start < heights_end(end) {
                StageView::Index
            } else {
                StageView::Done
            },
        })
    }

    /// The transfer is through with a height.
    pub open spec fn next(self) -> TransferView {
        if self.height + 1 < heights_end(self.end) {
            TransferView { height: (self.height + 1) as u64, stage: StageView::Index, ..self }
        } else if self.batch.len() > 0 {
            TransferView { stage: StageView::Last, ..self }
        } else {
            TransferView { stage: StageView::Done, ..self }
        }
    }

    /// The batch has an entry for the key.
    pub open spec fn holds(self, key: Seq<u8>) -> bool {
        exists|i: int| 0 <= i < self.batch.len() && (#[trigger] self.batch[i]).0 == key
    }

    /// An entry goes into the batch.
    pub open spec fn put(self, key: Seq<u8>, value: Seq<u8>) -> TransferView {
        let t = TransferView {
            batch: self.batch.push((key, value)),
            stats: self.stats.with_key(key.len(), value.len()),
            ..self
        };
        if t.batch.len() >= t.batch_size {
            TransferView { stage: StageView::Full, ..t }
        } else {
            t.next()
        }
    }

    /// An entry of the source was found. Where existing ones are skipped, so is one that the batch
    /// has already.
    pub open spec fn found(self, key: Seq<u8>, value: Seq<u8>) -> TransferView {
        if self.skip_existing && self.holds(key) {
            self.next()
        } else if self.skip_existing {
            TransferView { stage: StageView::Existing { key, value }, ..self }
        } else {
            self.put(key, value)
        }
    }

    /// The batch was written.
    pub open spec fn emptied(self) -> TransferView {
        TransferView { batch: Seq::empty(), ..self }
    }

    /// What is wanted next.
    pub open spec fn request(self) -> RequestView {
        match self.stage {
            StageView::Index => RequestView::Source {
                column: DbColumn::BlockHeight,
                key: key_of(self.height),
            },
            StageView::Data { key } => RequestView::Source { column: self.column, key },
            StageView::Existing { key, value } => RequestView::Destination {
                column: self.column,
                key,
            },
            StageView::Full => RequestView::Commit {
                progress: if self.show_progress {
                    Some(self.height)
                } else {
                    None
                },
            },
            StageView::Last => RequestView::Commit { progress: None },
            StageView::Done => RequestView::Done,
        }
    }

    /// The transfer after what was wanted was done.
    pub open spec fn replied(self, reply: ReplyView) -> TransferView {
        match (self.stage, reply) {
            (StageView::Index, ReplyView::Value(Some(v))) => if self.column
                == DbColumn::BlockHeight {
                self.found(key_of(self.height), v)
            } else {
                TransferView { stage: StageView::Data { key: v }, ..self }
            },
            (StageView::Data { key }, ReplyView::Value(Some(v))) => self.found(key, v),
            (StageView::Existing { key, value }, ReplyView::Exists(false)) => self.put(key, value),
            (StageView::Full, _) => self.emptied().next(),
            (StageView::Last, _) => (TransferView { stage: StageView::Done, ..self }).emptied(),
            (StageView::Done, _) => self,
            _ => self.next(),
        }
    }

    /// The reply is one to the request, and what it gives can be counted.
    pub open spec fn accepts(self, reply: ReplyView) -> bool {
        &&& match self.request() {
            RequestView::Source { .. } => reply is Value,
            RequestView::Destination { .. } => reply is Exists,
            RequestView::Commit { .. } => reply is Committed,
            RequestView::Done => false,
        }
        &&& self.replied(reply).stats.fits()
    }

    /// The stage agrees with the height and the batch. The batch never holds more entries than it
    /// is meant to, or one.
    pub open spec fn valid(self) -> bool {
        &&& self.batch.len() <= self.stats.keys
        &&& match self.stage {
            StageView::Full => {
                &&& self.height < heights_end(self.end)
                &&& self.batch.len() > 0
                &&& self.batch.len() == self.batch_size || self.batch.len() == 1
                    && self.batch_size == 0
            },
            StageView::Last => 0 < self.batch.len() < self.batch_size,
            StageView::Done => self.batch.len() == 0,
            _ => {
                &&& self.height < heights_end(self.end)
                &&& self.batch.len() == 0 || self.batch.len() < self.batch_size
            },
        }
    }
}

impl Transfer {
    /// When the transfer was started.
    pub closed spec fn started(&self) -> std::time::Instant {
        self.stats.started()
    }

    /// A transfer of `column` from `start_height` to before `end_height`.
    pub fn new(
        args: &TransfuseArgs,
        column: DbColumn,
        start_height: u64,
        end_height: Option<u64>,
    ) -> (r: Transfer)
        ensures
            r@ == TransferView::start(
                column,
                start_height,
                end_height,
                args.batch_size as nat,
                args.progress,
                args.skip_existing,
            ),
            r@.valid(),
            read_from_clock(r.started()),
    {
        let mut stats = TransferStats::new();
        stats.set_height_range(start_height, end_height);
        let batch: Vec<Entry> = Vec::new();
        let any: bool = match end_height {
            Some(h) => start_height < h,
            None => true,
        };
        assert(views(batch@) =~= Seq::empty());
        Transfer {
            column,
            end: end_height,
            batch_size: args.batch_size,
            show_progress: args.progress,
            skip_existing: args.skip_existing,
            height: start_height,
            batch,
            stats,
            stage: if any {
                Stage::Index
            } else {
                Stage::Done
            },
        }
    }

    /// What is wanted next.
    pub fn request(&self) -> (r: Request)
        ensures
            r@ == self@.request(),
    {
        match &self.stage {
            Stage::Index => Request::Source {
                column: DbColumn::BlockHeight,
                key: height_to_key(self.height),
            },
            Stage::Data { key } => Request::Source {
                column: self.column,
                key: duplicate_bytes(key),
            },
            Stage::Existing { key, value: _ } => Request::Destination {
                column: self.column,
                key: duplicate_bytes(key),
            },
            Stage::Full => Request::Commit {
                progress: if self.show_progress {
                    Some(self.height)
                } else {
                    None
                },
            },
            Stage::Last => Request::Commit { progress: None },
            Stage::Done => Request::Done,
        }
    }

    /// The entries to write when that is wanted.
    pub fn batch(&self) -> (r: &Vec<Entry>)
        ensures
            views(r@) == self@.batch,
    {
        &self.batch
    }

    /// What was copied so far.
    pub fn stats(&self) -> (r: &TransferStats)
        ensures
            r@ == self@.stats,
            r.started() == self.started(),
    {
        &self.stats
    }

    /// What was copied, when the transfer is over.
    pub fn into_stats(self) -> (r: TransferStats)
        ensures
            r@ == self@.stats,
            r.started() == self.started(),
    {
        self.stats
    }

    /// Whether the reply can be counted.
    pub fn accepts(&self, reply: &Reply) -> (b: bool)
        ensures
            b == self@.accepts(reply@),
    {
        proof {
            lemma_auto_spec_u64_to_from_le_bytes();
        }
        match (&self.stage, reply) {
            (Stage::Index, Reply::Value(v)) => match v {
                Some(v) => {
                    let found = matches!(self.column, DbColumn::BlockHeight);
                    self.stats_fit_put(8, v.len(), found && !self.skip_existing)
                },
                None => self.stats_fit_put(0, 0, false),
            },
            (Stage::Data { key }, Reply::Value(v)) => match v {
                Some(v) => self.stats_fit_put(key.len(), v.len(), !self.skip_existing),
                None => self.stats_fit_put(0, 0, false),
            },
            (Stage::Existing { key, value }, Reply::Exists(b)) => self.stats_fit_put(
                key.len(),
                value.len(),
                !*b,
            ),
            (Stage::Full, Reply::Committed) => self.stats_fit_put(0, 0, false),
            (Stage::Last, Reply::Committed) => self.stats_fit_put(0, 0, false),
            _ => false,
        }
    }

    fn stats_fit_put(&self, key_size: usize, value_size: usize, counts: bool) -> (b: bool)
        ensures
            b == (if counts {
                self@.stats.with_key(key_size as nat, value_size as nat).fits()
            } else {
                self@.stats.fits()
            }),
    {
        proof {
            self.stats.lemma_fits();
        }
        !counts || self.stats.can_add_key(key_size, value_size)
    }

    fn turn_on(&mut self)
        ensures
            final(self)@ == old(self)@.next(),
            final(self).started() == old(self).started(),
    {
        let more: bool = self.height < u64::MAX && match self.end {
            Some(h) => self.height + 1 < h,
            None => true,
        };
        if more {
            self.height = self.height + 1;
            self.stage = Stage::Index;
        } else if self.batch.len() > 0 {
            self.stage = Stage::Last;
        } else {
            self.stage = Stage::Done;
        }
    }

    /// Whether the batch has an entry for the key.
    fn is_in_batch(&self, key: &Vec<u8>) -> (b: bool)
        ensures
            b == self@.holds(key@),
    {
        let mut i: usize = 0;
        while i < self.batch.len()
            invariant
                i <= self.batch@.len(),
                forall|j: int| 0 <= j < i ==> (#[trigger] self@.batch[j]).0 != key@,
            decreases self.batch@.len() - i,
        {
            assert(self@.batch[i as int] == self.batch@[i as int]@);
            if same_bytes(&self.batch[i].0, key) {
                return true;
            }
            i += 1;
        }
        false
    }

    fn put(&mut self, key: Vec<u8>, value: Vec<u8>)
        requires
            old(self)@.stats.with_key(key@.len(), value@.len()).fits(),
        ensures
            final(self)@ == old(self)@.put(key@, value@),
            final(self).started() == old(self).started(),
    {
        let ghost before = self@;
        let ghost entry = (key@, value@);
        self.stats.add_key(key.len(), value.len());
        self.batch.push((key, value));
        assert(views(self.batch@) =~= before.batch.push(entry));
        if self.batch.len() >= self.batch_size {
            self.stage = Stage::Full;
        } else {
            self.turn_on();
        }
    }

    fn find(&mut self, key: Vec<u8>, value: Vec<u8>)
        requires
            old(self)@.found(key@, value@).stats.fits(),
        ensures
            final(self)@ == old(self)@.found(key@, value@),
            final(self).started() == old(self).started(),
    {
        if self.skip_existing && self.is_in_batch(&key) {
            self.turn_on();
        } else if self.skip_existing {
            self.stage = Stage::Existing { key, value };
        } else {
            self.put(key, value);
        }
    }

    /// What was wanted is done.
    pub fn advance(&mut self, reply: Reply)
        requires
            old(self)@.valid(),
            old(self)@.accepts(reply@),
        ensures
            final(self)@ == old(self)@.replied(reply@),
            final(self)@.valid(),
            final(self).started() == old(self).started(),
    {
        let ghost before = self@;
        let mut stage = Stage::Done;
        std::mem::swap(&mut stage, &mut self.stage);
        match stage {
            Stage::Index => {
                if let Reply::Value(Some(v)) = reply {
                    if matches!(self.column, DbColumn::BlockHeight) {
                        let key = height_to_key(self.height);
                        self.find(key, v);
                    } else {
                        self.stage = Stage::Data { key: v };
                    }
                } else {
                    self.turn_on();
                }
            },
            Stage::Data { key } => {
                if let Reply::Value(Some(v)) = reply {
                    self.find(key, v);
                } else {
                    self.turn_on();
                }
            },
            Stage::Existing { key, value } => {
                if let Reply::Exists(false) = reply {
                    self.put(key, value);
                } else {
                    self.turn_on();
                }
            },
            Stage::Full => {
                self.batch = Vec::new();
                assert(views(self.batch@) =~= Seq::empty());
                self.turn_on();
            },
            Stage::Last => {
                self.batch = Vec::new();
                assert(views(self.batch@) =~= Seq::empty());
            },
            Stage::Done => {},
        }
    }
}

} // verus!
