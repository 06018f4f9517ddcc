//! Comparing the entries of one column in the destination with those of the source, height by
//! height.

use vstd::prelude::*;

use super::args::{heights_end, DbColumn};
use super::keys::{height_to_key, key_of};
use crate::keys::{duplicate_bytes, same_bytes};

verus! {

/// How many mismatches are reported one by one.
pub const MAX_REPORTED: u128 = 10;

/// Where a verification is.
enum Stage {
    /// The hash of the block at the height is wanted.
    Index,
    /// The entry of the hash is wanted.
    Data { key: Vec<u8> },
    /// The entry of the destination is wanted.
    Copy { key: Vec<u8>, value: Vec<u8> },
    Done,
}

/// The view of a stage.
#[verifier::ext_equal]
pub ghost enum StageView {
    Index,
    Data { key: Seq<u8> },
    Copy { key: Seq<u8>, value: Seq<u8> },
    Done,
}

impl View for Stage {
    type V = StageView;

    closed spec fn view(&self) -> StageView {
        match self {
            Stage::Index => StageView::Index,
            Stage::Data { key } => StageView::Data { key: key@ },
            Stage::Copy { key, value } => StageView::Copy { key: key@, value: value@ },
            Stage::Done => StageView::Done,
        }
    }
}

/// What a verification wants read next.
pub enum Lookup {
    Source { column: DbColumn, key: Vec<u8> },
    Destination { column: DbColumn, key: Vec<u8> },
    Done,
}

/// The view of a `Lookup`.
#[verifier::ext_equal]
pub ghost enum LookupView {
    Source { column: DbColumn, key: Seq<u8> },
    Destination { column: DbColumn, key: Seq<u8> },
    Done,
}

impl View for Lookup {
    type V = LookupView;

    open spec fn view(&self) -> LookupView {
        match self {
            Lookup::Source { column, key } => LookupView::Source { column: *column, key: key@ },
            Lookup::Destination { column, key } => LookupView::Destination {
                column: *column,
                key: key@,
            },
            Lookup::Done => LookupView::Done,
        }
    }
}

/// The bytes of a value, if there is one.
pub open spec fn bytes_of(value: Option<Vec<u8>>) -> Option<Seq<u8>> {
    match value {
        Some(v) => Some(v@),
        None => None,
    }
}

/// A verification of the entries of one column.
pub struct Verification {
    column: DbColumn,
    end: Option<u64>,
    height: u64,
    verified: u128,
    mismatches: u128,
    stage: Stage,
}

/// The view of a `Verification`.
#[verifier::ext_equal]
pub ghost struct VerificationView {
    pub column: DbColumn,
    /// The height after the last one. Without it, there is no last one but the highest.
    pub end: Option<u64>,
    /// The height that is being compared.
    pub height: u64,
    /// How many entries were the same.
    pub verified: nat,
    /// How many entries were missing, or were not the same.
    pub mismatches: nat,
    pub stage: StageView,
}

impl View for Verification {
    type V = VerificationView;

    closed spec fn view(&self) -> VerificationView {
        VerificationView {
            column: self.column,
            end: self.end,
            height: self.height,
            verified: self.verified as nat,
            mismatches: self.mismatches as nat,
            stage: self.stage@,
        }
    }
}

/// The transfer of a column went wrong.
#[derive(Clone, Copy, Debug, PartialEq, Eq)]
pub struct VerificationFailed {
    pub column: DbColumn,
}

impl VerificationView {
    /// A verification at its start.
    pub open spec fn start(column: DbColumn, start: u64, end: Option<u64>) -> VerificationView {
        VerificationView {
            column,
            end,
            height: start,
            verified: 0,
            mismatches: 0,
            stage: if start < heights_end(end) {
                StageView::Index
            } else {
                StageView::Done
            },
        }
    }

    /// The verification is through with a height.
    pub open spec fn next(self) -> VerificationView {
        if self.height + 1 < heights_end(self.end) {
            VerificationView { height: (self.height + 1) as u64, stage: StageView::Index, ..self }
        } else {
            VerificationView { stage: StageView::Done, ..self }
        }
    }

    /// What is wanted next.
    pub open spec fn lookup(self) -> LookupView {
        match self.stage {
            StageView::Index => LookupView::Source {
                column: DbColumn::BlockHeight,
                key: key_of(self.height),
            },
            StageView::Data { key } => LookupView::Source { column: self.column, key },
            StageView::Copy { key, value } => LookupView::Destination { column: self.column, key },
            StageView::Done => LookupView::Done,
        }
    }

    /// The entry of the source is not in the destination, or is another one there.
    pub open spec fn differs(self, found: Option<Seq<u8>>) -> bool {
        self.stage matches StageView::Copy { key, value } && found != Some(value)
    }

    /// The verification after the value was looked up.
    pub open spec fn replied(self, found: Option<Seq<u8>>) -> VerificationView {
        match (self.stage, found) {
            (StageView::Index, Some(v)) => VerificationView {
                stage: if self.column == DbColumn::BlockHeight {
                    StageView::Copy { key: key_of(self.height), value: v }
                } else {
                    StageView::Data { key: v }
                },
                ..self
            },
            (StageView::Data { key }, Some(v)) => VerificationView {
                stage: StageView::Copy { key, value: v },
                ..self
            },
            (StageView::Copy { key, value }, _) => if self.differs(found) {
                VerificationView { mismatches: self.mismatches + 1, ..self }.next()
            } else {
                VerificationView { verified: self.verified + 1, ..self }.next()
            },
            (StageView::Done, _) => self,
            _ => self.next(),
        }
    }

    /// The height to report after the value was looked up: that of a mismatch, for the first few.
    pub open spec fn report(self, found: Option<Seq<u8>>) -> Option<u64> {
        if self.differs(found) && self.mismatches < MAX_REPORTED {
            Some(self.height)
        } else {
            None
        }
    }

    /// There are no more entries than heights so far.
    pub open spec fn valid(self) -> bool {
        if self.stage is Done {
            self.verified + self.mismatches <= self.height + 1
        } else {
            self.height < heights_end(self.end) && self.verified + self.mismatches <= self.height
        }
    }
}

impl Verification {
    /// A verification of `column` from `start_height` to before `end_height`.
    pub fn new(column: DbColumn, start_height: u64, end_height: Option<u64>) -> (r: Verification)
        ensures
            r@ == VerificationView::start(column, start_height, end_height),
            r@.valid(),
    {
        let any: bool = match end_height {
            Some(h) => start_height < h,
            None => true,
        };
        Verification {
            column,
            end: end_height,
            height: start_height,
            verified: 0,
            mismatches: 0,
            stage: if any {
                Stage::Index
            } else {
                Stage::Done
            },
        }
    }

    /// What is wanted next.
    pub fn lookup(&self) -> (r: Lookup)
        ensures
            r@ == self@.lookup(),
    {
        match &self.stage {
            Stage::Index => Lookup::Source {
                column: DbColumn::BlockHeight,
                key: height_to_key(self.height),
            },
            Stage::Data { key } => Lookup::Source {
                column: self.column,
                key: duplicate_bytes(key),
            },
            Stage::Copy { key, value: _ } => Lookup::Destination {
                column: self.column,
                key: duplicate_bytes(key),
            },
            Stage::Done => Lookup::Done,
        }
    }

    fn turn_on(&mut self)
        ensures
            final(self)@ == old(self)@.next(),
    {
        let more: bool = self.height < u64::MAX && match self.end {
            Some(h) => self.height + 1 < h,
            None => true,
        };
        if more {
            self.height = self.height + 1;
            self.stage = Stage::Index;
        } else {
            self.stage = Stage::Done;
        }
    }

    /// What was wanted is looked up. Returns a height to report.
    pub fn advance(&mut self, found: Option<Vec<u8>>) -> (r: Option<u64>)
        requires
            old(self)@.valid(),
        ensures
            final(self)@ == old(self)@.replied(bytes_of(found)),
            final(self)@.valid(),
            r == old(self)@.report(bytes_of(found)),
    {
        let height = self.height;
        let mut stage = Stage::Done;
        std::mem::swap(&mut stage, &mut self.stage);
        match stage {
            Stage::Index => {
                match found {
                    Some(v) => {
                        if matches!(self.column, DbColumn::BlockHeight) {
                            self.stage = Stage::Copy { key: height_to_key(height), value: v };
                        } else {
                            self.stage = Stage::Data { key: v };
                        }
                    },
                    None => {
                        self.turn_on();
                    },
                }
                None
            },
            Stage::Data { key } => {
                match found {
                    Some(v) => {
                        self.stage = Stage::Copy { key, value: v };
                    },
                    None => {
                        self.turn_on();
                    },
                }
                None
            },
            Stage::Copy { key: _, value } => {
                let same = match &found {
                    Some(v) => same_bytes(v, &value),
                    None => false,
                };
                if same {
                    self.verified = self.verified + 1;
                    self.turn_on();
                    return None;
                }
                let shown = self.mismatches < MAX_REPORTED;
                self.mismatches = self.mismatches + 1;
                self.turn_on();
                if shown {
                    Some(height)
                } else {
                    None
                }
            },
            Stage::Done => None,
        }
    }

    /// How many entries were the same.
    pub fn verified(&self) -> (r: u128)
        ensures
            r == self@.verified,
    {
        self.verified
    }

    /// How many entries were missing, or were not the same.
    pub fn mismatches(&self) -> (r: u128)
        ensures
            r == self@.mismatches,
    {
        self.mismatches
    }

    /// A transfer is good if there was no mismatch.
    pub fn outcome(&self) -> (r: Result<(), VerificationFailed>)
        ensures
            r == (if self@.mismatches == 0 {
                Ok(())
            } else {
                Err(VerificationFailed { column: self@.column })
            }),
    {
        if self.mismatches > 0 {
            return Err(VerificationFailed { column: self.column });
        }
        Ok(())
    }
}

} // verus!
