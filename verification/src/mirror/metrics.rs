//! The counters of the mirror, and what is logged of them.

use vstd::prelude::*;

verus! {

/// What came of sending a transaction.
#[derive(Clone, Copy, Debug, PartialEq, Eq)]
pub enum SendStatus {
    Sent,
    Invalid,
    OtherError,
    /// It was not sent, since its nonce is not known.
    AwaitingNonce,
}

/// What came of asking the target chain for a nonce.
#[derive(Clone, Copy, Debug, PartialEq, Eq)]
pub enum ResolveStatus {
    Success,
    Failed,
}

impl SendStatus {
    /// The label that such transactions are counted under.
    pub open spec fn text(self) -> Seq<char> {
        match self {
            SendStatus::Sent => "ok"@,
            SendStatus::Invalid => "invalid"@,
            SendStatus::OtherError => "other_error"@,
            SendStatus::AwaitingNonce => "awaiting_nonce"@,
        }
    }

    /// The label that such transactions are counted under.
    pub fn label(&self) -> (r: &'static str)
        ensures
            r@ == self.text(),
    {
        match self {
            SendStatus::Sent => "ok",
            SendStatus::Invalid => "invalid",
            SendStatus::OtherError => "other_error",
            SendStatus::AwaitingNonce => "awaiting_nonce",
        }
    }
}

impl ResolveStatus {
    /// The label that such nonces are counted under.
    pub open spec fn text(self) -> Seq<char> {
        match self {
            ResolveStatus::Success => "success"@,
            ResolveStatus::Failed => "failed"@,
        }
    }

    /// The label that such nonces are counted under.
    pub fn label(&self) -> (r: &'static str)
        ensures
            r@ == self.text(),
    {
        match self {
            ResolveStatus::Success => "success",
            ResolveStatus::Failed => "failed",
        }
    }
}

/// The value of a counter under one label.
pub struct Sample {
    pub label: String,
    pub value: u64,
}

/// The value under a label. A label that nothing was counted under has none.
pub open spec fn value_under(samples: Seq<Sample>, label: Seq<char>) -> u64
    decreases samples.len(),
{
    if samples.len() == 0 {
        0
    } else if samples[0].label@ == label {
        samples[0].value
    } else {
        value_under(samples.skip(1), label)
    }
}

fn find_value(samples: &Vec<Sample>, label: &str) -> (r: u64)
    ensures
        r == value_under(samples@, label@),
{
    let wanted = label.to_owned();
    let mut i: usize = 0;
    assert(samples@.skip(0) =~= samples@);
    while i < samples.len()
        invariant
            i <= samples@.len(),
            wanted@ == label@,
            value_under(samples@, label@) == value_under(samples@.skip(i as int), label@),
        decreases samples@.len() - i,
    {
        assert(samples@.skip(i as int)[0] == samples@[i as int]);
        if samples[i].label == wanted {
            return samples[i].value;
        }
        assert(samples@.skip(i as int).skip(1) =~= samples@.skip(i + 1));
        i += 1;
    }
    0
}

/// The values that are logged together.
#[derive(Clone, Copy, Debug, PartialEq, Eq)]
pub struct MetricsSummary {
    pub sent_ok: u64,
    pub sent_invalid: u64,
    pub sent_other_error: u64,
    pub sent_awaiting: u64,
    pub included: u64,
    pub requeued: u64,
    pub resolved_ok: u64,
    pub resolved_fail: u64,
}

/// The values to log, from those of the four counters: transactions sent and nonces resolved, by
/// label, and transactions included and requeued.
pub fn log_summary(
    transactions_sent: &Vec<Sample>,
    transactions_included: u64,
    transactions_requeued: u64,
    nonces_force_resolved: &Vec<Sample>,
) -> (r: MetricsSummary)
    ensures
        r == (MetricsSummary {
            sent_ok: value_under(transactions_sent@, SendStatus::Sent.text()),
            sent_invalid: value_under(transactions_sent@, SendStatus::Invalid.text()),
            sent_other_error: value_under(transactions_sent@, SendStatus::OtherError.text()),
            sent_awaiting: value_under(transactions_sent@, SendStatus::AwaitingNonce.text()),
            included: transactions_included,
            requeued: transactions_requeued,
            resolved_ok: value_under(nonces_force_resolved@, ResolveStatus::Success.text()),
            resolved_fail: value_under(nonces_force_resolved@, ResolveStatus::Failed.text()),
        }),
{
    MetricsSummary {
        sent_ok: find_value(transactions_sent, SendStatus::Sent.label()),
        sent_invalid: find_value(transactions_sent, SendStatus::Invalid.label()),
        sent_other_error: find_value(transactions_sent, SendStatus::OtherError.label()),
        sent_awaiting: find_value(transactions_sent, SendStatus::AwaitingNonce.label()),
        included: transactions_included,
        requeued: transactions_requeued,
        resolved_ok: find_value(nonces_force_resolved, ResolveStatus::Success.label()),
        resolved_fail: find_value(nonces_force_resolved, ResolveStatus::Failed.label()),
    }
}

/// The value under a label is that of the first sample with it, and nothing where there is none.
pub proof fn first_sample_of_a_label_counts(samples: Seq<Sample>, label: Seq<char>, i: int)
    requires
        0 <= i <= samples.len(),
        forall|j: int| 0 <= j < i ==> (#[trigger] samples[j]).label@ != label,
    ensures
        i == samples.len() ==> value_under(samples, label) == 0,
        i < samples.len() && samples[i].label@ == label ==> value_under(samples, label)
            == samples[i].value,
    decreases samples.len(),
{
    if i > 0 {
        let rest = samples.skip(1);
        assert(samples[0].label@ != label);
        assert forall|j: int| 0 <= j < i - 1 implies (#[trigger] rest[j]).label@ != label by {
            assert(rest[j] == samples[j + 1]);
        }
        first_sample_of_a_label_counts(rest, label, i - 1);
    }
}

/// The labels, letter for letter.
pub proof fn labels_are_as_documented()
    ensures
        SendStatus::Sent.text() == "ok"@,
        SendStatus::Invalid.text() == "invalid"@,
        SendStatus::OtherError.text() == "other_error"@,
        SendStatus::AwaitingNonce.text() == "awaiting_nonce"@,
        ResolveStatus::Success.text() == "success"@,
        ResolveStatus::Failed.text() == "failed"@,
{
}

} // verus!
