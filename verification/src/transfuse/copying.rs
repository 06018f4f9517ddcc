//! What a transfer leaves in the destination.

use vstd::prelude::*;

use super::args::{heights_end, DbColumn};
use super::keys::key_of;
use super::stats::StatsView;
use super::transfer::{EntryView, ReplyView, RequestView, StageView, TransferView};

verus! {

/// The entries of a column.
pub type ColumnView = Map<Seq<u8>, Seq<u8>>;

/// The entries of the source that a transfer reads: the hashes by height, and those of the column
/// that is copied.
#[verifier::ext_equal]
pub ghost struct SourceView {
    pub index: ColumnView,
    pub data: ColumnView,
}

impl SourceView {
    /// The source for a column. Heights are copied from the index itself.
    pub open spec fn is_for(self, column: DbColumn) -> bool {
        column == DbColumn::BlockHeight ==> self.data == self.index
    }

    /// The entry of `key` is that of `height`.
    pub open spec fn names(self, column: DbColumn, height: u64, key: Seq<u8>) -> bool {
        &&& self.index.contains_key(key_of(height))
        &&& key == if column == DbColumn::BlockHeight {
            key_of(height)
        } else {
            self.index[key_of(height)]
        }
        &&& self.data.contains_key(key)
    }

    /// The entry of `key` is that of a height from `start` to before `end`.
    pub open spec fn covers(self, column: DbColumn, start: u64, end: int, key: Seq<u8>) -> bool {
        exists|h: u64| start <= h < end && #[trigger] self.names(column, h, key)
    }

    /// A destination with the entries of the heights from `start` to before `end` copied into it.
    pub open spec fn copied(
        self,
        column: DbColumn,
        start: u64,
        end: int,
        skip_existing: bool,
        dest: ColumnView,
    ) -> ColumnView {
        Map::new(
            |k: Seq<u8>| dest.contains_key(k) || self.covers(column, start, end, k),
            |k: Seq<u8>|
                if self.covers(column, start, end, k) && !(skip_existing && dest.contains_key(k)) {
                    self.data[k]
                } else {
                    dest[k]
                },
        )
    }
}

impl SourceView {
    /// The key of the entry of a height.
    pub open spec fn key_at(self, column: DbColumn, height: u64) -> Seq<u8> {
        if column == DbColumn::BlockHeight {
            key_of(height)
        } else {
            self.index[key_of(height)]
        }
    }

    /// The entry of a height is copied. Where existing entries are skipped, one that was there
    /// before is not, nor one that is that of an earlier height.
    pub open spec fn counts(
        self,
        column: DbColumn,
        start: u64,
        height: u64,
        skip_existing: bool,
        before: ColumnView,
    ) -> bool {
        let key = self.key_at(column, height);
        &&& self.names(column, height, key)
        &&& skip_existing ==> !before.contains_key(key) && !self.covers(
            column,
            start,
            height as int,
            key,
        )
    }

    /// The counts after the entries of the heights from `start` to before `end` were copied: each
    /// one with the sizes of its key and its value.
    pub open spec fn tally(
        self,
        column: DbColumn,
        start: u64,
        end: int,
        skip_existing: bool,
        before: ColumnView,
        stats: StatsView,
    ) -> StatsView
        decreases end - start,
    {
        if end <= start {
            stats
        } else {
            let rest = self.tally(column, start, end - 1, skip_existing, before, stats);
            let height = (end - 1) as u64;
            let key = self.key_at(column, height);
            if self.counts(column, start, height, skip_existing, before) {
                rest.with_key(key.len(), self.data[key].len())
            } else {
                rest
            }
        }
    }
}

/// A column with entries written to it.
pub open spec fn with_entries(column: ColumnView, entries: Seq<EntryView>) -> ColumnView
    decreases entries.len(),
{
    if entries.len() == 0 {
        column
    } else {
        with_entries(column, entries.drop_last()).insert(entries.last().0, entries.last().1)
    }
}

proof fn lemma_with_entries_grows(column: ColumnView, entries: Seq<EntryView>, key: Seq<u8>)
    requires
        column.contains_key(key),
    ensures
        with_entries(column, entries).contains_key(key),
    decreases entries.len(),
{
    if entries.len() > 0 {
        lemma_with_entries_grows(column, entries.drop_last(), key);
    }
}

proof fn lemma_with_entries(column: ColumnView, entries: Seq<EntryView>, key: Seq<u8>)
    ensures
        with_entries(column, entries).contains_key(key) == (column.contains_key(key) || exists|
            i: int,
        | 0 <= i < entries.len() && (#[trigger] entries[i]).0 == key),
    decreases entries.len(),
{
    if entries.len() > 0 {
        let rest = entries.drop_last();
        let n: int = entries.len() - 1;
        lemma_with_entries(column, rest, key);
        assert(entries[n] == entries.last());
        if exists|i: int| 0 <= i < rest.len() && (#[trigger] rest[i]).0 == key {
            let i = choose|i: int| 0 <= i < rest.len() && (#[trigger] rest[i]).0 == key;
            assert(entries[i].0 == key);
        }
        if exists|i: int| 0 <= i < entries.len() && (#[trigger] entries[i]).0 == key {
            let i = choose|i: int| 0 <= i < entries.len() && (#[trigger] entries[i]).0 == key;
            if i < n {
                assert(rest[i].0 == key);
            }
        }
    }
}

impl TransferView {
    /// The answer to what is wanted.
    pub open spec fn answer(self, source: SourceView, dest: ColumnView) -> ReplyView {
        match self.request() {
            RequestView::Source { column, key } => {
                let read = if column == DbColumn::BlockHeight {
                    source.index
                } else {
                    source.data
                };
                ReplyView::Value(
                    if read.contains_key(key) {
                        Some(read[key])
                    } else {
                        None
                    },
                )
            },
            RequestView::Destination { key, .. } => ReplyView::Exists(dest.contains_key(key)),
            _ => ReplyView::Committed,
        }
    }

    /// The destination after what is wanted was done.
    pub open spec fn written(self, dest: ColumnView) -> ColumnView {
        if self.request() is Commit {
            with_entries(dest, self.batch)
        } else {
            dest
        }
    }

    /// The height before which all is in the destination or in the batch.
    pub open spec fn reached(self) -> int {
        match self.stage {
            StageView::Full => self.height + 1,
            StageView::Last => heights_end(self.end),
            StageView::Done => heights_end(self.end),
            _ => self.height as int,
        }
    }

    /// Destination and batch together hold what was in the destination before, and the entries of
    /// all heights from `start` that are done. Those are what is counted.
    pub open spec fn on_track(
        self,
        start: u64,
        source: SourceView,
        before: ColumnView,
        dest: ColumnView,
    ) -> bool {
        &&& self.valid()
        &&& start <= self.height
        &&& source.is_for(self.column)
        &&& before.dom().subset_of(dest.dom())
        &&& with_entries(dest, self.batch) == source.copied(
            self.column,
            start,
            self.reached(),
            self.skip_existing,
            before,
        )
        &&& self.stats == source.tally(
            self.column,
            start,
            self.reached(),
            self.skip_existing,
            before,
            StatsView::empty().with_range(start, self.end),
        )
        &&& match self.stage {
            StageView::Data { key } => {
                &&& self.column != DbColumn::BlockHeight
                &&& source.index.contains_key(key_of(self.height))
                &&& key == source.index[key_of(self.height)]
            },
            StageView::Existing { key, value } => {
                &&& self.skip_existing
                &&& !self.holds(key)
                &&& source.names(self.column, self.height, key)
                &&& value == source.data[key]
            },
            _ => true,
        }
    }

    /// How many requests may still come, at most.
    pub open spec fn requests_left(self) -> int {
        match self.stage {
            StageView::Index => (heights_end(self.end) - self.height) * 4 + 5,
            StageView::Data { .. } => (heights_end(self.end) - self.height) * 4 + 4,
            StageView::Existing { .. } => (heights_end(self.end) - self.height) * 4 + 3,
            StageView::Full => (heights_end(self.end) - self.height) * 4 + 2,
            StageView::Last => 1,
            StageView::Done => 0,
        }
    }
}

/// A transfer starts with nothing copied.
pub proof fn transfer_starts_on_track(
    column: DbColumn,
    start: u64,
    end: Option<u64>,
    batch_size: nat,
    show_progress: bool,
    skip_existing: bool,
    source: SourceView,
    dest: ColumnView,
)
    requires
        source.is_for(column),
    ensures
        TransferView::start(
            column,
            start,
            end,
            batch_size,
            show_progress,
            skip_existing,
        ).on_track(start, source, dest, dest),
{
    let t = TransferView::start(column, start, end, batch_size, show_progress, skip_existing);
    assert(dest =~= source.copied(column, start, t.reached(), skip_existing, dest));
}

/// One more height: its entry is copied, or there is nothing to copy.
proof fn lemma_one_more(
    source: SourceView,
    column: DbColumn,
    start: u64,
    height: u64,
    skip_existing: bool,
    before: ColumnView,
)
    requires
        start <= height,
    ensures
        ({
            let done = source.copied(column, start, height as int, skip_existing, before);
            let more = source.copied(column, start, height + 1, skip_existing, before);
            &&& (forall|k: Seq<u8>| !#[trigger] source.names(column, height, k)) ==> more == done
            &&& forall|k: Seq<u8>| #[trigger]
                source.names(column, height, k) && !(skip_existing && before.contains_key(k))
                    ==> more == done.insert(k, source.data[k])
            &&& forall|k: Seq<u8>| #[trigger]
                source.names(column, height, k) && done.contains_key(k) && skip_existing ==> more
                    == done
        }),
{
    let done = source.copied(column, start, height as int, skip_existing, before);
    let more = source.copied(column, start, height + 1, skip_existing, before);
    assert forall|k: Seq<u8>| #[trigger]
        source.covers(column, start, height + 1, k) == (source.covers(
            column,
            start,
            height as int,
            k,
        ) || source.names(column, height, k)) by {
        if source.names(column, height, k) {
            assert(start <= height < height + 1);
        }
        if source.covers(column, start, height as int, k) {
            let h = choose|h: u64|
                start <= h < height as int && #[trigger] source.names(column, h, k);
            assert(start <= h < height + 1 && source.names(column, h, k));
        }
    }
    if forall|k: Seq<u8>| !#[trigger] source.names(column, height, k) {
        assert(more =~= done);
    }
    assert forall|k: Seq<u8>| #[trigger]
        source.names(column, height, k) && !(skip_existing && before.contains_key(k)) implies more
        == done.insert(k, source.data[k]) by {
        assert(more =~= done.insert(k, source.data[k]));
    }
    assert forall|k: Seq<u8>| #[trigger]
        source.names(column, height, k) && done.contains_key(k) && skip_existing implies more
        == done by {
        assert(more =~= done);
    }
}

/// Each answered request keeps the transfer on track: nothing else is written, and nothing is left
/// out.
pub proof fn transfer_stays_on_track(
    t: TransferView,
    start: u64,
    source: SourceView,
    before: ColumnView,
    dest: ColumnView,
)
    requires
        t.on_track(start, source, before, dest),
        !(t.stage is Done),
    ensures
        t.replied(t.answer(source, dest)).on_track(start, source, before, t.written(dest)),
{
    let n = t.replied(t.answer(source, dest));
    let w = t.written(dest);
    lemma_one_more(source, t.column, start, t.height, t.skip_existing, before);
    assert((t.height + 1 - 1) as u64 == t.height);
    let done = source.copied(t.column, start, t.height as int, t.skip_existing, before);
    let key = source.key_at(t.column, t.height);
    lemma_with_entries(dest, t.batch, key);
    assert(t.reached() == t.height ==> done.contains_key(key) == (before.contains_key(key)
        || source.covers(t.column, start, t.height as int, key)));
    match t.stage {
        StageView::Index => {
            let k = key_of(t.height);
            if source.index.contains_key(k) && t.column == DbColumn::BlockHeight {
                assert(source.names(t.column, t.height, k));
                if !t.skip_existing {
                    assert(t.batch.push((k, source.data[k])).drop_last() =~= t.batch);
                }
            }
        },
        StageView::Data { key } => {
            if source.data.contains_key(key) {
                assert(source.names(t.column, t.height, key));
                if !t.skip_existing {
                    assert(t.batch.push((key, source.data[key])).drop_last() =~= t.batch);
                }
            }
        },
        StageView::Existing { key, value } => {
            if dest.contains_key(key) {
                lemma_with_entries_grows(dest, t.batch, key);
                assert(done.contains_key(key));
            } else {
                assert(!before.contains_key(key)) by {
                    assert(before.dom().contains(key) ==> dest.dom().contains(key));
                }
                assert(t.batch.push((key, value)).drop_last() =~= t.batch);
            }
        },
        _ => {
            assert forall|k: Seq<u8>| before.dom().contains(k) implies w.dom().contains(k) by {
                assert(dest.dom().contains(k));
                lemma_with_entries_grows(dest, t.batch, k);
            }
        },
    }
}

/// Each answered request brings the end nearer.
pub proof fn transfer_comes_to_an_end(t: TransferView, reply: ReplyView)
    requires
        t.valid(),
        t.accepts(reply),
    ensures
        0 <= t.replied(reply).requests_left() < t.requests_left(),
{
}

/// When a transfer is over, the destination holds what it held before, and the entries of the
/// source for each height from the first to before the end. Where existing entries are skipped,
/// they are as they were.
pub proof fn finished_transfer_has_copied(
    t: TransferView,
    start: u64,
    source: SourceView,
    before: ColumnView,
    dest: ColumnView,
)
    requires
        t.on_track(start, source, before, dest),
        t.stage is Done,
    ensures
        dest == source.copied(
            t.column,
            start,
            heights_end(t.end),
            t.skip_existing,
            before,
        ),
        t.stats == source.tally(
            t.column,
            start,
            heights_end(t.end),
            t.skip_existing,
            before,
            StatsView::empty().with_range(start, t.end),
        ),
{
}

/// What is copied and what is counted depends neither on the size of the batches nor on whether
/// progress is shown.
pub proof fn batches_make_no_difference(
    a: TransferView,
    b: TransferView,
    start: u64,
    source: SourceView,
    before: ColumnView,
    dest_a: ColumnView,
    dest_b: ColumnView,
)
    requires
        a.column == b.column,
        a.end == b.end,
        a.skip_existing == b.skip_existing,
        a.on_track(start, source, before, dest_a),
        b.on_track(start, source, before, dest_b),
        a.stage is Done,
        b.stage is Done,
    ensures
        dest_a == dest_b,
        a.stats == b.stats,
{
}

/// The size of a full batch.
pub open spec fn full_size(batch_size: nat) -> nat {
    if batch_size == 0 {
        1
    } else {
        batch_size
    }
}

/// Each commit but the last writes a full batch. The last one writes at least one entry, and no
/// more than a full batch. There is none when nothing was counted.
pub proof fn commits_are_full_but_the_last(t: TransferView)
    requires
        t.valid(),
        t.request() is Commit,
    ensures
        1 <= t.batch.len() <= full_size(t.batch_size),
        !(t.replied(ReplyView::Committed).stage is Done) ==> t.batch.len() == full_size(
            t.batch_size,
        ),
        t.stats.keys > 0,
{
}

/// No entry of the end height, or of a later one, is copied on its account.
pub proof fn end_height_is_left_out(
    source: SourceView,
    column: DbColumn,
    start: u64,
    end: u64,
    skip_existing: bool,
    before: ColumnView,
    key: Seq<u8>,
)
    requires
        source.copied(column, start, end as int, skip_existing, before).contains_key(key),
        !before.contains_key(key),
    ensures
        exists|h: u64| start <= h < end && #[trigger] source.names(column, h, key),
{
}

/// A transfer reads the hash of its height, then the entry of its own column under that hash. It
/// looks for that entry in its own column of the destination. A full batch is written with progress
/// at its height where that is to be shown, and the last one without.
pub proof fn transfers_ask_for_their_column(t: TransferView)
    ensures
        match t.stage {
            StageView::Index => t.request() == (RequestView::Source {
                column: DbColumn::BlockHeight,
                key: key_of(t.height),
            }),
            StageView::Data { key } => t.request() == (RequestView::Source {
                column: t.column,
                key,
            }),
            StageView::Existing { key, .. } => t.request() == (RequestView::Destination {
                column: t.column,
                key,
            }),
            StageView::Full => t.show_progress && t.request() == (RequestView::Commit {
                progress: Some(t.height),
            }) || !t.show_progress && t.request() == (RequestView::Commit { progress: None }),
            StageView::Last => t.request() == (RequestView::Commit { progress: None }),
            StageView::Done => t.request() is Done,
        },
{
}

/// A transfer starts at its first height with what it was given, and keeps to it.
pub proof fn transfers_keep_to_what_they_were_given(
    column: DbColumn,
    start: u64,
    end: Option<u64>,
    batch_size: nat,
    show_progress: bool,
    skip_existing: bool,
    t: TransferView,
    reply: ReplyView,
)
    ensures
        ({
            let s = TransferView::start(
                column,
                start,
                end,
                batch_size,
                show_progress,
                skip_existing,
            );
            &&& s.column == column
            &&& s.end == end
            &&& s.batch_size == batch_size
            &&& s.show_progress == show_progress
            &&& s.skip_existing == skip_existing
            &&& s.height == start
            &&& s.batch.len() == 0
            &&& s.stage is Done <==> end is Some && end->0 <= start
        }),
        ({
            let n = t.replied(reply);
            &&& n.column == t.column
            &&& n.end == t.end
            &&& n.batch_size == t.batch_size
            &&& n.show_progress == t.show_progress
            &&& n.skip_existing == t.skip_existing
            &&& n.stats.height_range == t.stats.height_range
            &&& n.height == t.height || n.height == t.height + 1 || t.height == u64::MAX
        }),
{
}

/// A reply is taken if it is of the kind that was asked for, and what it gives can be counted. None
/// is when all is done.
pub proof fn replies_are_those_asked_for(t: TransferView, reply: ReplyView)
    ensures
        ({
            let stats = t.replied(reply).stats;
            t.accepts(reply) <==> stats.keys <= usize::MAX && stats.bytes <= usize::MAX
                && match t.stage {
                StageView::Index => reply is Value,
                StageView::Data { .. } => reply is Value,
                StageView::Existing { .. } => reply is Exists,
                StageView::Full => reply is Committed,
                StageView::Last => reply is Committed,
                StageView::Done => false,
            }
        }),
{
}

} // verus!
