//! The steps of a whole run.

use vstd::prelude::*;

use super::args::{ColumnType, DbColumn, TransfuseArgs};

verus! {

/// A step of a run.
#[derive(Clone, Copy, Debug, PartialEq, Eq)]
pub enum Step {
    /// Copy a column.
    Transfer(DbColumn),
    /// Compare a column.
    Verify(DbColumn),
}

/// The columns to copy, in order.
pub open spec fn columns(column_type: ColumnType) -> Seq<DbColumn> {
    match column_type {
        ColumnType::Both => seq![DbColumn::BlockHeader, DbColumn::Block],
        ColumnType::Headers => seq![DbColumn::BlockHeader],
        ColumnType::Blocks => seq![DbColumn::Block],
    }
}

/// The steps for some columns. Each is compared right after it was copied.
pub open spec fn steps(columns: Seq<DbColumn>, verify: bool) -> Seq<Step>
    decreases columns.len(),
{
    if columns.len() == 0 {
        Seq::empty()
    } else {
        let before = steps(columns.drop_last(), verify).push(Step::Transfer(columns.last()));
        if verify {
            before.push(Step::Verify(columns.last()))
        } else {
            before
        }
    }
}

/// The columns to copy, in order.
pub fn columns_of(column_type: &ColumnType) -> (r: Vec<DbColumn>)
    ensures
        r@ == columns(*column_type),
{
    let mut r: Vec<DbColumn> = Vec::new();
    match column_type {
        ColumnType::Both => {
            r.push(DbColumn::BlockHeader);
            r.push(DbColumn::Block);
        },
        ColumnType::Headers => {
            r.push(DbColumn::BlockHeader);
        },
        ColumnType::Blocks => {
            r.push(DbColumn::Block);
        },
    }
    assert(r@ =~= columns(*column_type));
    r
}

/// The steps of a run.
pub fn plan(args: &TransfuseArgs) -> (r: Vec<Step>)
    ensures
        r@ == steps(columns(args.column_type), args.verify),
{
    let list = columns_of(&args.column_type);
    let mut r: Vec<Step> = Vec::new();
    let mut i: usize = 0;
    assert(r@ =~= steps(list@.take(0), args.verify));
    while i < list.len()
        invariant
            i <= list@.len(),
            r@ == steps(list@.take(i as int), args.verify),
        decreases list@.len() - i,
    {
        assert(list@.take(i + 1).drop_last() =~= list@.take(i as int));
        r.push(Step::Transfer(list[i]));
        if args.verify {
            r.push(Step::Verify(list[i]));
        }
        i += 1;
    }
    assert(list@.take(list@.len() as int) =~= list@);
    r
}

/// A column is compared only after it was copied, and only if that is asked for.
pub proof fn steps_verify_what_was_copied(columns: Seq<DbColumn>, verify: bool, i: int)
    requires
        0 <= i < steps(columns, verify).len(),
        steps(columns, verify)[i] is Verify,
    ensures
        verify,
        i > 0,
        steps(columns, verify)[i - 1] == Step::Transfer(steps(columns, verify)[i]->Verify_0),
    decreases columns.len(),
{
    let rest = steps(columns.drop_last(), verify);
    if i < rest.len() {
        steps_verify_what_was_copied(columns.drop_last(), verify, i);
    }
}

/// Headers are copied before blocks, and only what is asked for.
pub proof fn columns_are_those_asked_for()
    ensures
        columns(ColumnType::Both).len() == 2,
        columns(ColumnType::Both)[0] == DbColumn::BlockHeader,
        columns(ColumnType::Both)[1] == DbColumn::Block,
        columns(ColumnType::Headers).len() == 1,
        columns(ColumnType::Headers)[0] == DbColumn::BlockHeader,
        columns(ColumnType::Blocks).len() == 1,
        columns(ColumnType::Blocks)[0] == DbColumn::Block,
{
}

/// Each column is copied once, in order, and compared right after that if it is asked for.
pub proof fn each_column_is_copied_once(list: Seq<DbColumn>, i: int)
    requires
        0 <= i < list.len(),
    ensures
        steps(list, false).len() == list.len(),
        steps(list, false)[i] == Step::Transfer(list[i]),
        steps(list, true).len() == 2 * list.len(),
        steps(list, true)[2 * i] == Step::Transfer(list[i]),
        steps(list, true)[2 * i + 1] == Step::Verify(list[i]),
    decreases list.len(),
{
    let rest = list.drop_last();
    if i < rest.len() {
        each_column_is_copied_once(rest, i);
    } else if rest.len() > 0 {
        each_column_is_copied_once(rest, 0);
    }
}

} // verus!
