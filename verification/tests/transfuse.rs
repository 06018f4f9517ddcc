use std::collections::BTreeMap;
use std::path::PathBuf;

use near_tools::transfuse::args::{ColumnType, DbColumn, TransfuseArgs};
use near_tools::transfuse::keys::{height_to_key, key_to_height};
use near_tools::transfuse::plan::{columns_of, plan, Step};
use near_tools::transfuse::stats::{Progress, TransferStats};
use near_tools::transfuse::transfer::{Reply, Request, Transfer};
use near_tools::transfuse::verify::{Lookup, Verification, VerificationFailed, MAX_REPORTED};

type Column = BTreeMap<Vec<u8>, Vec<u8>>;

fn args(column_type: ColumnType, batch_size: usize, verify: bool, skip_existing: bool) -> TransfuseArgs {
    TransfuseArgs {
        source_home: PathBuf::from("/source"),
        destination_home: PathBuf::from("/destination"),
        column_type,
        start_height: None,
        end_height: None,
        batch_size,
        verify,
        progress: true,
        skip_existing,
    }
}

/// Runs a transfer to its end. Returns the sizes of the batches and the heights shown.
fn run(
    transfer: &mut Transfer,
    index: &Column,
    data: &Column,
    dest: &mut Column,
) -> Vec<(usize, Option<u64>)> {
    let mut commits = Vec::new();
    loop {
        let reply = match transfer.request() {
            Request::Source { column: DbColumn::BlockHeight, key } => {
                Reply::Value(index.get(&key).cloned())
            }
            Request::Source { key, .. } => Reply::Value(data.get(&key).cloned()),
            Request::Destination { key, .. } => Reply::Exists(dest.contains_key(&key)),
            Request::Commit { progress } => {
                for (key, value) in transfer.batch() {
                    dest.insert(key.clone(), value.clone());
                }
                commits.push((transfer.batch().len(), progress));
                Reply::Committed
            }
            Request::Done => return commits,
        };
        assert!(transfer.accepts(&reply));
        transfer.advance(reply);
    }
}

/// Heights 5 to 9, of which 7 has no block.
fn source() -> (Column, Column) {
    let mut index = Column::new();
    let mut data = Column::new();
    for h in [5u64, 6, 8, 9] {
        let hash = vec![h as u8; 32];
        index.insert(height_to_key(h), hash.clone());
        data.insert(hash, vec![h as u8, 1]);
    }
    (index, data)
}

#[test]
fn key_of_a_height_is_little_endian() {
    assert_eq!(height_to_key(0), vec![0, 0, 0, 0, 0, 0, 0, 0]);
    assert_eq!(height_to_key(0x0102030405060708), vec![8, 7, 6, 5, 4, 3, 2, 1]);
    assert_eq!(height_to_key(u64::MAX), vec![255; 8]);
}

#[test]
fn height_of_a_key_is_the_height() {
    for h in [0u64, 1, 255, 256, 1_000_000, u64::MAX] {
        assert_eq!(key_to_height(&height_to_key(h)), Some(h));
    }
    assert_eq!(key_to_height(&[1, 0, 0, 0, 0, 0, 0, 0]), Some(1));
}

#[test]
fn key_of_another_length_has_no_height() {
    assert_eq!(key_to_height(&[]), None);
    assert_eq!(key_to_height(&[0; 7]), None);
    assert_eq!(key_to_height(&[0; 9]), None);
    assert_eq!(key_to_height(&[0; 32]), None);
}

#[test]
fn stats_count_keys_and_bytes() {
    let mut stats = TransferStats::new();
    assert_eq!(stats.get_summary().0, 0);
    stats.add_key(8, 32);
    stats.add_key(32, 100);
    let (keys, bytes, _) = stats.get_summary();
    assert_eq!((keys, bytes), (2, 172));
    assert!(stats.can_add_key(1, 1));
    assert!(!stats.can_add_key(usize::MAX, 0));
    assert!(!stats.can_add_key(usize::MAX - 172, 1));
    assert!(stats.can_add_key(usize::MAX - 172, 0));
}

#[test]
fn stats_measure_time() {
    let stats = TransferStats::new();
    let first = stats.get_summary().2;
    let second = stats.get_summary().2;
    assert!(first <= second);
}

#[test]
fn stats_of_two_transfers_add_up() {
    let mut total = TransferStats::new();
    total.set_height_range(3, Some(9));
    let mut part = TransferStats::new();
    part.add_key(1, 2);
    part.add_key(3, 4);
    assert!(total.can_add_stats(&part));
    total.add_stats(&part);
    total.add_stats(&part);
    let (keys, bytes, _) = total.get_summary();
    assert_eq!((keys, bytes), (4, 20));
    assert_eq!(total.progress(None), Progress::Range { keys: 4, start: 3, end: 9 });
}

#[test]
fn progress_depends_on_range_and_height() {
    let mut stats = TransferStats::new();
    stats.add_key(1, 1);
    assert_eq!(stats.progress(None), Progress::Keys { keys: 1 });
    assert_eq!(stats.progress(Some(7)), Progress::Keys { keys: 1 });
    stats.set_height_range(10, Some(20));
    assert_eq!(
        stats.progress(Some(13)),
        Progress::Heights { processed: 3, total: 10, current: 13 }
    );
    assert_eq!(stats.progress(Some(4)), Progress::Heights { processed: 0, total: 10, current: 4 });
    stats.set_height_range(10, None);
    assert_eq!(stats.progress(None), Progress::Range { keys: 1, start: 10, end: u64::MAX });
    stats.set_height_range(10, Some(5));
    assert_eq!(stats.progress(Some(12)), Progress::Heights { processed: 2, total: 0, current: 12 });
}

#[test]
fn first_height_defaults_to_zero() {
    let mut a = args(ColumnType::Both, 1, false, false);
    assert_eq!(a.first_height(), 0);
    a.start_height = Some(77);
    assert_eq!(a.first_height(), 77);
}

#[test]
fn transfer_copies_blocks_by_hash() {
    let (index, data) = source();
    let a = args(ColumnType::Blocks, 2, false, false);
    let mut t = Transfer::new(&a, DbColumn::Block, 0, Some(20));
    let mut dest = Column::new();
    let commits = run(&mut t, &index, &data, &mut dest);
    assert_eq!(dest, data);
    assert_eq!(commits, vec![(2, Some(6)), (2, Some(9))]);
    let (keys, bytes, _) = t.into_stats().get_summary();
    assert_eq!((keys, bytes), (4, 4 * 34));
}

#[test]
fn transfer_writes_the_rest_at_the_end() {
    let (index, data) = source();
    let a = args(ColumnType::Blocks, 3, false, false);
    let mut t = Transfer::new(&a, DbColumn::Block, 0, Some(20));
    let mut dest = Column::new();
    assert_eq!(run(&mut t, &index, &data, &mut dest), vec![(3, Some(8)), (1, None)]);
    assert_eq!(dest, data);
}

#[test]
fn transfer_leaves_out_the_end_height() {
    let (index, data) = source();
    let a = args(ColumnType::Blocks, 100, false, false);
    let mut t = Transfer::new(&a, DbColumn::Block, 6, Some(9));
    let mut dest = Column::new();
    run(&mut t, &index, &data, &mut dest);
    let keys: Vec<Vec<u8>> = dest.keys().cloned().collect();
    assert_eq!(keys, vec![vec![6; 32], vec![8; 32]]);
}

#[test]
fn transfer_of_heights_copies_the_index() {
    let (index, data) = source();
    let a = args(ColumnType::Both, 100, false, false);
    let mut t = Transfer::new(&a, DbColumn::BlockHeight, 5, Some(10));
    let mut dest = Column::new();
    run(&mut t, &index, &data, &mut dest);
    assert_eq!(dest, index);
    assert_eq!(t.stats().get_summary().1, 4 * 40);
}

#[test]
fn transfer_passes_over_hashes_without_data() {
    let (index, mut data) = source();
    data.remove(&vec![8u8; 32]);
    let a = args(ColumnType::Headers, 100, false, false);
    let mut t = Transfer::new(&a, DbColumn::BlockHeader, 5, Some(10));
    let mut dest = Column::new();
    run(&mut t, &index, &data, &mut dest);
    assert_eq!(dest, data);
    assert_eq!(t.stats().get_summary().0, 3);
}

#[test]
fn transfer_skips_existing_blocks_if_asked() {
    let (index, data) = source();
    let mut dest = Column::new();
    dest.insert(vec![6; 32], vec![99]);
    dest.insert(vec![1], vec![1]);
    let mut overwritten = dest.clone();

    let a = args(ColumnType::Blocks, 100, false, true);
    let mut t = Transfer::new(&a, DbColumn::Block, 5, Some(10));
    run(&mut t, &index, &data, &mut dest);
    assert_eq!(dest[&vec![6u8; 32]], vec![99]);
    assert_eq!(dest[&vec![5u8; 32]], vec![5, 1]);
    assert_eq!(dest[&vec![1u8]], vec![1]);
    assert_eq!(dest.len(), 5);
    assert_eq!(t.stats().get_summary().0, 3);

    let a = args(ColumnType::Blocks, 100, false, false);
    let mut t = Transfer::new(&a, DbColumn::Block, 5, Some(10));
    run(&mut t, &index, &data, &mut overwritten);
    assert_eq!(overwritten[&vec![6u8; 32]], vec![6, 1]);
    assert_eq!(t.stats().get_summary().0, 4);
}

#[test]
fn transfer_without_a_batch_size_writes_each_key() {
    let (index, data) = source();
    let mut a = args(ColumnType::Blocks, 0, false, false);
    a.progress = false;
    let mut t = Transfer::new(&a, DbColumn::Block, 5, Some(10));
    let mut dest = Column::new();
    assert_eq!(run(&mut t, &index, &data, &mut dest), vec![(1, None); 4]);
}

#[test]
fn transfer_of_no_heights_is_done() {
    let a = args(ColumnType::Blocks, 1, false, false);
    for (start, end) in [(5, Some(5)), (6, Some(5)), (u64::MAX, Some(u64::MAX))] {
        let t = Transfer::new(&a, DbColumn::Block, start, end);
        assert!(matches!(t.request(), Request::Done));
    }
}

#[test]
fn transfer_without_an_end_copies_the_highest_height() {
    let mut index = Column::new();
    let mut data = Column::new();
    for (h, b) in [(u64::MAX - 1, 1u8), (u64::MAX, 2)] {
        index.insert(height_to_key(h), vec![b; 32]);
        data.insert(vec![b; 32], vec![b]);
    }
    let a = args(ColumnType::Blocks, 10, false, false);
    let mut dest = Column::new();
    let mut t = Transfer::new(&a, DbColumn::Block, u64::MAX - 1, None);
    assert_eq!(run(&mut t, &index, &data, &mut dest), vec![(2, None)]);
    assert_eq!(dest, data);
    let mut dest = Column::new();
    let mut t = Transfer::new(&a, DbColumn::Block, u64::MAX, None);
    run(&mut t, &index, &data, &mut dest);
    assert_eq!(dest.len(), 1);
    let mut t = Transfer::new(&a, DbColumn::Block, u64::MAX - 1, Some(u64::MAX));
    let mut dest = Column::new();
    run(&mut t, &index, &data, &mut dest);
    assert_eq!(dest.keys().next(), Some(&vec![1u8; 32]));
    assert_eq!(dest.len(), 1);
}

#[test]
fn counts_do_not_depend_on_the_batch_size() {
    let (mut index, data) = source();
    index.insert(height_to_key(7), vec![6; 32]);
    for skip in [false, true] {
        let mut seen = Vec::new();
        for batch_size in [0, 1, 2, 3, 100] {
            let a = args(ColumnType::Blocks, batch_size, false, skip);
            let mut t = Transfer::new(&a, DbColumn::Block, 5, Some(10));
            let mut dest = Column::new();
            let commits = run(&mut t, &index, &data, &mut dest);
            let full = batch_size.max(1);
            let (last, others) = commits.split_last().unwrap();
            assert!(others.iter().all(|c| c.0 == full));
            assert!(1 <= last.0 && last.0 <= full);
            let (keys, bytes, _) = t.into_stats().get_summary();
            seen.push((dest, keys, bytes));
        }
        assert!(seen.iter().all(|s| *s == seen[0]));
        assert_eq!(seen[0].1, if skip { 4 } else { 5 });
        assert_eq!(seen[0].2, seen[0].1 * 34);
    }
}

#[test]
fn transfer_accepts_only_replies_to_its_request() {
    let a = args(ColumnType::Blocks, 1, false, false);
    let t = Transfer::new(&a, DbColumn::Block, 1, Some(2));
    assert!(t.accepts(&Reply::Value(None)));
    assert!(!t.accepts(&Reply::Exists(true)));
    assert!(!t.accepts(&Reply::Committed));
}

/// Runs a verification to its end. Returns the heights reported.
fn check(v: &mut Verification, index: &Column, data: &Column, dest: &Column) -> Vec<u64> {
    let mut reported = Vec::new();
    loop {
        let found = match v.lookup() {
            Lookup::Source { column: DbColumn::BlockHeight, key } => index.get(&key).cloned(),
            Lookup::Source { key, .. } => data.get(&key).cloned(),
            Lookup::Destination { key, .. } => dest.get(&key).cloned(),
            Lookup::Done => return reported,
        };
        reported.extend(v.advance(found));
    }
}

#[test]
fn verification_passes_after_a_transfer() {
    let (index, data) = source();
    let a = args(ColumnType::Blocks, 2, false, false);
    let mut dest = Column::new();
    dest.insert(vec![1], vec![1]);
    let mut t = Transfer::new(&a, DbColumn::Block, 6, Some(9));
    run(&mut t, &index, &data, &mut dest);
    let mut v = Verification::new(DbColumn::Block, 6, Some(9));
    assert!(check(&mut v, &index, &data, &dest).is_empty());
    assert_eq!((v.verified(), v.mismatches()), (2, 0));
    assert_eq!(v.outcome(), Ok(()));
}

#[test]
fn verification_finds_what_is_missing_or_different() {
    let (index, data) = source();
    let mut dest = data.clone();
    dest.remove(&vec![6u8; 32]);
    dest.insert(vec![9; 32], vec![0]);
    let mut v = Verification::new(DbColumn::BlockHeader, 5, Some(10));
    assert_eq!(check(&mut v, &index, &data, &dest), vec![6, 9]);
    assert_eq!((v.verified(), v.mismatches()), (2, 2));
    assert_eq!(v.outcome(), Err(VerificationFailed { column: DbColumn::BlockHeader }));
    let mut v = Verification::new(DbColumn::BlockHeader, 7, Some(9));
    assert!(check(&mut v, &index, &data, &dest).is_empty());
    assert_eq!(v.outcome(), Ok(()));
}

#[test]
fn verification_of_heights_compares_the_index() {
    let (index, data) = source();
    let mut v = Verification::new(DbColumn::BlockHeight, 0, Some(20));
    assert!(check(&mut v, &index, &data, &index).is_empty());
    assert_eq!(v.verified(), 4);
    let mut v = Verification::new(DbColumn::BlockHeight, 9, Some(20));
    assert_eq!(check(&mut v, &index, &data, &Column::new()), vec![9]);
}

#[test]
fn verification_reports_the_first_mismatches() {
    let mut index = Column::new();
    for h in 0..12u64 {
        index.insert(height_to_key(h), vec![1]);
    }
    let mut v = Verification::new(DbColumn::BlockHeight, 0, Some(12));
    let reported = check(&mut v, &index, &Column::new(), &Column::new());
    assert_eq!(reported, (0..10u64).collect::<Vec<_>>());
    assert_eq!(reported.len() as u128, MAX_REPORTED);
    assert_eq!(v.mismatches(), 12);
}

#[test]
fn verification_without_an_end_compares_the_highest_height() {
    let mut index = Column::new();
    index.insert(height_to_key(u64::MAX), vec![1]);
    let mut v = Verification::new(DbColumn::BlockHeight, u64::MAX - 1, None);
    assert_eq!(check(&mut v, &index, &Column::new(), &Column::new()), vec![u64::MAX]);
    let v = Verification::new(DbColumn::BlockHeight, 5, Some(5));
    assert!(matches!(v.lookup(), Lookup::Done));
    assert_eq!(v.outcome(), Ok(()));
}

#[test]
fn plan_copies_headers_before_blocks() {
    assert_eq!(columns_of(&ColumnType::Both), vec![DbColumn::BlockHeader, DbColumn::Block]);
    assert_eq!(
        plan(&args(ColumnType::Both, 1, false, false)),
        vec![Step::Transfer(DbColumn::BlockHeader), Step::Transfer(DbColumn::Block)]
    );
    assert_eq!(
        plan(&args(ColumnType::Headers, 1, false, false)),
        vec![Step::Transfer(DbColumn::BlockHeader)]
    );
}

#[test]
fn plan_verifies_each_column_after_it_was_copied() {
    assert_eq!(
        plan(&args(ColumnType::Both, 1, true, false)),
        vec![
            Step::Transfer(DbColumn::BlockHeader),
            Step::Verify(DbColumn::BlockHeader),
            Step::Transfer(DbColumn::Block),
            Step::Verify(DbColumn::Block),
        ]
    );
    assert_eq!(
        plan(&args(ColumnType::Blocks, 1, true, false)),
        vec![Step::Transfer(DbColumn::Block), Step::Verify(DbColumn::Block)]
    );
}
