//! What a verification finds out.

use vstd::prelude::*;

use super::args::{heights_end, DbColumn};
use super::copying::{ColumnView, SourceView};
use super::keys::key_of;
use super::verify::{LookupView, StageView, VerificationView};

verus! {

impl SourceView {
    /// The destination has the entry of each height from `start` to before `end`, as it is in the
    /// source.
    pub open spec fn is_copied(
        self,
        column: DbColumn,
        start: u64,
        end: int,
        dest: ColumnView,
    ) -> bool {
        forall|key: Seq<u8>| #[trigger]
            self.covers(column, start, end, key) ==> dest.contains_key(key) && dest[key]
                == self.data[key]
    }
}

impl VerificationView {
    /// The value that is wanted.
    pub open spec fn answer(self, source: SourceView, dest: ColumnView) -> Option<Seq<u8>> {
        let (read, key) = match self.lookup() {
            LookupView::Source { column, key } => (
                if column == DbColumn::BlockHeight {
                    source.index
                } else {
                    source.data
                },
                key,
            ),
            LookupView::Destination { key, .. } => (dest, key),
            LookupView::Done => (Map::empty(), Seq::empty()),
        };
        if read.contains_key(key) {
            Some(read[key])
        } else {
            None
        }
    }

    /// The height before which all is compared.
    pub open spec fn reached(self) -> int {
        if self.stage is Done {
            heights_end(self.end)
        } else {
            self.height as int
        }
    }

    /// No mismatch was found if and only if the heights from `start` that are compared are copied.
    pub open spec fn on_track(self, start: u64, source: SourceView, dest: ColumnView) -> bool {
        &&& self.valid()
        &&& start <= self.height
        &&& source.is_for(self.column)
        &&& self.mismatches == 0 <==> source.is_copied(self.column, start, self.reached(), dest)
        &&& match self.stage {
            StageView::Data { key } => {
                &&& self.column != DbColumn::BlockHeight
                &&& source.index.contains_key(key_of(self.height))
                &&& key == source.index[key_of(self.height)]
            },
            StageView::Copy { key, value } => {
                &&& source.names(self.column, self.height, key)
                &&& value == source.data[key]
            },
            _ => true,
        }
    }

    /// How many lookups may still come, at most.
    pub open spec fn lookups_left(self) -> int {
        match self.stage {
            StageView::Index => (heights_end(self.end) - self.height) * 3,
            StageView::Data { .. } => (heights_end(self.end) - self.height) * 3 - 1,
            StageView::Copy { .. } => (heights_end(self.end) - self.height) * 3 - 2,
            StageView::Done => 0,
        }
    }
}

/// A verification starts with nothing compared.
pub proof fn verification_starts_on_track(
    column: DbColumn,
    start: u64,
    end: Option<u64>,
    source: SourceView,
    dest: ColumnView,
)
    requires
        source.is_for(column),
    ensures
        VerificationView::start(column, start, end).on_track(start, source, dest),
{
}

proof fn lemma_one_more(
    source: SourceView,
    column: DbColumn,
    start: u64,
    height: u64,
    dest: ColumnView,
)
    requires
        start <= height,
    ensures
        source.is_copied(column, start, height + 1, dest) <==> source.is_copied(
            column,
            start,
            height as int,
            dest,
        ) && forall|key: Seq<u8>| #[trigger]
            source.names(column, height, key) ==> dest.contains_key(key) && dest[key]
                == source.data[key],
{
    assert forall|k: Seq<u8>| #[trigger]
        source.covers(column, start, height + 1, k) == (source.covers(
            column,
            start,
            height as int,
            k,
        ) || source.names(column, height, k)) by {
        if source.names(column, height, k) {
            assert(start <= height < height + 1);
        }
        if source.covers(column, start, height as int, k) {
            let h = choose|h: u64|
                start <= h < height as int && #[trigger] source.names(column, h, k);
            assert(start <= h < height + 1 && source.names(column, h, k));
        }
    }
    if source.is_copied(column, start, height + 1, dest) {
        assert forall|k: Seq<u8>| #[trigger]
            source.covers(column, start, height as int, k) implies dest.contains_key(k) && dest[k]
            == source.data[k] by {
            assert(source.covers(column, start, height + 1, k));
        }
        assert forall|k: Seq<u8>| #[trigger]
            source.names(column, height, k) implies dest.contains_key(k) && dest[k]
            == source.data[k] by {
            assert(source.covers(column, start, height + 1, k));
        }
    }
}

/// Each answered lookup keeps the verification on track.
pub proof fn verification_stays_on_track(
    v: VerificationView,
    start: u64,
    source: SourceView,
    dest: ColumnView,
)
    requires
        v.on_track(start, source, dest),
        !(v.stage is Done),
    ensures
        v.replied(v.answer(source, dest)).on_track(start, source, dest),
{
    lemma_one_more(source, v.column, start, v.height, dest);
    match v.stage {
        StageView::Index => {
            let k = key_of(v.height);
            if source.index.contains_key(k) && v.column == DbColumn::BlockHeight {
                assert(source.names(v.column, v.height, k));
            }
        },
        StageView::Data { key } => {
            if source.data.contains_key(key) {
                assert(source.names(v.column, v.height, key));
            }
        },
        _ => {},
    }
}

/// Each answered lookup brings the end nearer.
pub proof fn verification_comes_to_an_end(v: VerificationView, found: Option<Seq<u8>>)
    requires
        v.valid(),
        !(v.stage is Done),
    ensures
        0 <= v.replied(found).lookups_left() < v.lookups_left(),
{
}

/// A verification that is over found no mismatch if and only if the destination has the entries of
/// all heights from the first to before the end, as they are in the source. Other entries of the
/// destination do not matter.
pub proof fn verification_passes_iff_copied(
    v: VerificationView,
    start: u64,
    source: SourceView,
    dest: ColumnView,
)
    requires
        v.on_track(start, source, dest),
        v.stage is Done,
    ensures
        v.mismatches == 0 <==> forall|key: Seq<u8>| #[trigger]
            source.covers(v.column, start, heights_end(v.end), key) ==> dest.contains_key(key)
                && dest[key] == source.data[key],
{
}

/// A verification passes after a transfer of the same heights. Where existing entries were skipped,
/// they have to be those of the source.
pub proof fn verification_passes_after_transfer(
    v: VerificationView,
    start: u64,
    source: SourceView,
    skip_existing: bool,
    before: ColumnView,
    dest: ColumnView,
)
    requires
        dest == source.copied(v.column, start, heights_end(v.end), skip_existing, before),
        skip_existing ==> forall|key: Seq<u8>| #[trigger]
            source.covers(v.column, start, heights_end(v.end), key) && before.contains_key(key)
                ==> before[key] == source.data[key],
        v.on_track(start, source, dest),
        v.stage is Done,
    ensures
        v.mismatches == 0,
{
}

/// A verification reads the hash of its height, then the entry of its own column under that hash in
/// the source, and the same entry in the destination.
pub proof fn verifications_ask_for_their_column(v: VerificationView)
    ensures
        match v.stage {
            StageView::Index => v.lookup() == (LookupView::Source {
                column: DbColumn::BlockHeight,
                key: key_of(v.height),
            }),
            StageView::Data { key } => v.lookup() == (LookupView::Source { column: v.column, key }),
            StageView::Copy { key, .. } => v.lookup() == (LookupView::Destination {
                column: v.column,
                key,
            }),
            StageView::Done => v.lookup() is Done,
        },
{
}

/// A height is reported if its entry is missing in the destination or is another one there, and
/// fewer than ten were before. Such an entry counts as a mismatch, and an equal one as verified.
pub proof fn mismatches_are_reported(v: VerificationView, found: Option<Seq<u8>>)
    ensures
        match v.stage {
            StageView::Copy { key, value } => {
                let same = found matches Some(x) && x == value;
                let after = v.replied(found);
                &&& v.report(found) is Some <==> !same && v.mismatches < 10
                &&& v.report(found) matches Some(h) ==> h == v.height
                &&& same ==> after.verified == v.verified + 1 && after.mismatches == v.mismatches
                &&& !same ==> after.verified == v.verified && after.mismatches == v.mismatches + 1
            },
            _ => {
                &&& v.report(found) is None
                &&& v.replied(found).verified == v.verified
                &&& v.replied(found).mismatches == v.mismatches
            },
        },
{
}

/// How many heights from `start` to before `end` have an entry that the destination has too, or,
/// where `copied` is false, lacks or has another one for.
pub open spec fn heights_copied(
    source: SourceView,
    column: DbColumn,
    start: u64,
    end: int,
    dest: ColumnView,
    copied: bool,
) -> nat
    decreases end - start,
{
    if end <= start {
        0
    } else {
        let h = (end - 1) as u64;
        let key = source.key_at(column, h);
        let same = dest.contains_key(key) && dest[key] == source.data[key];
        heights_copied(source, column, start, end - 1, dest, copied) + if source.names(
            column,
            h,
            key,
        ) && same == copied {
            1nat
        } else {
            0
        }
    }
}

/// The counts are those of the heights that were compared.
pub open spec fn counts_on_track(
    v: VerificationView,
    start: u64,
    source: SourceView,
    dest: ColumnView,
) -> bool {
    &&& v.verified == heights_copied(source, v.column, start, v.reached(), dest, true)
    &&& v.mismatches == heights_copied(source, v.column, start, v.reached(), dest, false)
}

/// Each height whose entry the destination has is counted as verified, and each other one with an
/// entry as a mismatch: so it is at the start, and each answered lookup keeps it so.
pub proof fn verification_counts_heights(
    v: VerificationView,
    start: u64,
    end: Option<u64>,
    source: SourceView,
    dest: ColumnView,
)
    requires
        v.on_track(start, source, dest),
        !(v.stage is Done),
        counts_on_track(v, start, source, dest),
    ensures
        counts_on_track(VerificationView::start(v.column, start, end), start, source, dest),
        counts_on_track(v.replied(v.answer(source, dest)), start, source, dest),
{
    assert((v.height + 1 - 1) as u64 == v.height);
    let key = source.key_at(v.column, v.height);
    match v.stage {
        StageView::Index => {
            let k = key_of(v.height);
            if source.index.contains_key(k) && v.column == DbColumn::BlockHeight {
                assert(source.names(v.column, v.height, k));
            }
        },
        _ => {},
    }
}

} // verus!
