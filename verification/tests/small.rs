use std::path::PathBuf;

use near_tools::block_misc::{
    BlockMiscKeySelector, BlockMiscValue, ColumnSelector, WriteCryptoHashCommand, WriteError,
};
use near_tools::delivery::{reply_to_sender, MailboxError, SendError};
use near_tools::keys::CryptoHash;
use near_tools::mirror::metrics::{
    log_summary, MetricsSummary, ResolveStatus, Sample, SendStatus,
};
use near_tools::text::{append_decimal, append_joined};

fn command(hash: Option<CryptoHash>, key: BlockMiscKeySelector) -> WriteCryptoHashCommand {
    WriteCryptoHashCommand {
        hash,
        clone_from_other_home_dir: Some(PathBuf::from("/other")),
        column: ColumnSelector::BlockMisc { key },
    }
}

#[test]
fn given_hash_comes_before_the_stored_one() {
    let given = CryptoHash([1; 32]);
    let stored = CryptoHash([2; 32]);
    let c = command(Some(given), BlockMiscKeySelector::StateSnapshot);
    assert!(!c.wants_stored());
    assert_eq!(c.get_crypto_hash(Some(stored)), Ok(given));
    assert_eq!(c.get_crypto_hash(None), Ok(given));
    let c = command(None, BlockMiscKeySelector::StateSnapshot);
    assert!(c.wants_stored());
    assert_eq!(c.get_crypto_hash(Some(stored)), Ok(stored));
}

#[test]
fn no_hash_is_an_error() {
    let c = command(None, BlockMiscKeySelector::StateSnapshot);
    assert_eq!(c.get_crypto_hash(None), Err(WriteError::NoHash));
    assert_eq!(WriteError::NoHash.message(), "No source store provided and no hash provided");
}

#[test]
fn no_tip_is_an_error() {
    let c = command(Some(CryptoHash([1; 32])), BlockMiscKeySelector::HeaderHead);
    assert!(c.wants_stored());
    assert_eq!(c.get_tip::<u8>(None), Err(WriteError::NoTip));
    assert_eq!(c.get_tip(Some(7)), Ok(7));
    assert_eq!(WriteError::NoTip.message(), "No source store provided for Tip");
}

#[test]
fn value_goes_by_the_key() {
    let hash = CryptoHash([3; 32]);
    let c = command(None, BlockMiscKeySelector::StateSnapshot);
    assert_eq!(c.key(), BlockMiscKeySelector::StateSnapshot);
    assert_eq!(c.value(Some(hash), Some(5)), Ok(BlockMiscValue::StateSnapshot(hash)));
    assert_eq!(c.value(None, Some(5)), Err(WriteError::NoHash));
    let c = command(Some(hash), BlockMiscKeySelector::HeaderHead);
    assert_eq!(c.value(None, Some(5)), Ok(BlockMiscValue::HeaderHead(5)));
    assert_eq!(c.value::<u8>(Some(hash), None), Err(WriteError::NoTip));
}

#[test]
fn sender_hears_of_the_mailbox() {
    assert_eq!(reply_to_sender::<u8>(Ok(4)), Ok(4));
    assert_eq!(reply_to_sender::<u8>(Err(MailboxError::Closed)), Err(SendError::Closed));
    assert_eq!(reply_to_sender::<u8>(Err(MailboxError::Timeout)), Err(SendError::Timeout));
}

fn sample(label: &str, value: u64) -> Sample {
    Sample { label: label.to_string(), value }
}

#[test]
fn summary_picks_values_by_label() {
    let sent = vec![
        sample("invalid", 2),
        sample("ok", 1),
        sample("awaiting_nonce", 4),
        sample("other_error", 3),
    ];
    let resolved = vec![sample("success", 7), sample("failed", 8)];
    assert_eq!(
        log_summary(&sent, 5, 6, &resolved),
        MetricsSummary {
            sent_ok: 1,
            sent_invalid: 2,
            sent_other_error: 3,
            sent_awaiting: 4,
            included: 5,
            requeued: 6,
            resolved_ok: 7,
            resolved_fail: 8,
        }
    );
}

#[test]
fn summary_of_unused_labels_is_zero() {
    let s = log_summary(&vec![sample("else", 9)], 0, 0, &vec![]);
    assert_eq!((s.sent_ok, s.sent_awaiting, s.resolved_ok, s.resolved_fail), (0, 0, 0, 0));
}

#[test]
fn labels_of_statuses() {
    assert_eq!(SendStatus::Sent.label(), "ok");
    assert_eq!(SendStatus::Invalid.label(), "invalid");
    assert_eq!(SendStatus::OtherError.label(), "other_error");
    assert_eq!(SendStatus::AwaitingNonce.label(), "awaiting_nonce");
    assert_eq!(ResolveStatus::Success.label(), "success");
    assert_eq!(ResolveStatus::Failed.label(), "failed");
}

#[test]
fn numbers_in_decimal_notation() {
    for n in [0u64, 7, 10, 99, 100, 1_234_567_890, u64::MAX] {
        let mut s = String::from("#");
        append_decimal(&mut s, n);
        assert_eq!(s, format!("#{}", n));
    }
}

#[test]
fn strings_with_separators() {
    let mut s = String::new();
    append_joined(&mut s, &vec![], ", ");
    assert_eq!(s, "");
    append_joined(&mut s, &vec!["a".to_string()], ", ");
    assert_eq!(s, "a");
    append_joined(&mut s, &vec!["b".to_string(), "c".to_string(), "d".to_string()], ", ");
    assert_eq!(s, "ab, c, d");
}
