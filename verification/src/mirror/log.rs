//! The text that is logged of a target block.

use vstd::prelude::*;
use vstd::string::StringExecFns;

use super::target::{TargetBlock, TargetShard, TargetTx, TargetTxView};
use super::tracker::{account_view, SendInfoView, TxSendInfo, TxTracker};
use crate::keys::{AccountId, BlockHeight, CryptoHash, ShardId};
use crate::ordered::views;
use crate::text::{append_decimal, append_joined, decimal, digit, joined};

verus! {

/// A thousand million units of gas.
pub const GIGA_GAS: u64 = 1000000000;

/// The text of a duration that is given in nanoseconds.
pub uninterp spec fn duration_text(nanos: u64) -> Seq<char>;

/// Calls the `Debug` formatting of `std::time::Duration`. The contract says that the text depends
/// on the duration alone.
#[verifier::external_body]
fn format_duration(nanos: u64) -> (r: String)
    ensures
        r@ == duration_text(nanos),
{
    format!("{:?}", std::time::Duration::from_nanos(nanos))
}

/// The number of units that the amount fills, one that is begun with them.
pub open spec fn rounded_up(amount: nat, unit: nat) -> nat {
    (amount + unit - 1) as nat / unit
}

/// The text of an amount of gas, in units of a million million. An amount of no more than 999
/// thousandths is rounded up to thousandths, a larger one to tenths. Amounts close to the highest
/// one are rounded as that one, and down.
pub open spec fn gas_text(gas: u64) -> Seq<char> {
    if gas == 0 {
        "0 Tgas"@
    } else if gas < GIGA_GAS {
        "<0.001 Tgas"@
    } else if gas <= 999 * GIGA_GAS {
        let thousandths = rounded_up(gas as nat, GIGA_GAS as nat);
        "0."@ + digit(thousandths / 100) + digit(thousandths / 10 % 10) + digit(thousandths % 10)
            + " Tgas"@
    } else {
        let tenths = if gas + 100 * GIGA_GAS - 1 <= u64::MAX {
            rounded_up(gas as nat, 100 * GIGA_GAS as nat)
        } else {
            u64::MAX as nat / (100 * GIGA_GAS as nat)
        };
        decimal(tenths / 10) + "."@ + decimal(tenths % 10) + " Tgas"@
    }
}

/// Calls the `Display` formatting of `near_primitives_core::types::Gas`. The contract gives the
/// text that it writes: the amount, rounded up, with its unit.
#[verifier::external_body]
fn format_gas(gas: u64) -> (r: String)
    ensures
        r@ == gas_text(gas),
{
    format!("{}", near_primitives_core::types::Gas::from_gas(gas))
}

/// The name on the target chain, where it differs.
pub open spec fn mapped_text(name: Option<Seq<char>>) -> Seq<char> {
    match name {
        Some(s) => " (mapped to \""@ + s + "\")"@,
        None => Seq::empty(),
    }
}

/// The time since `then`, or nothing where that is still to come.
pub open spec fn elapsed(then: u64, now: u64) -> u64 {
    if then <= now {
        (now - then) as u64
    } else {
        0
    }
}

/// A sent transaction that was found on the chain; `age` is the text of its age.
pub open spec fn tx_text(info: SendInfoView, age: Seq<char>) -> Seq<char> {
    info.provenance + " signer: \""@ + info.source_signer_id + "\""@ + mapped_text(
        info.target_signer_id,
    ) + " receiver: \""@ + info.source_receiver_id + "\""@ + mapped_text(info.target_receiver_id)
        + " actions: <"@ + joined(info.actions, ", "@) + "> sent "@ + age + " ago @ target #"@
        + decimal(info.sent_at_target_height as nat) + "\n"@
}

/// The sent ones of some transactions on the chain.
pub open spec fn sent_text(
    sent: Map<CryptoHash, SendInfoView>,
    txs: Seq<TargetTxView>,
    now: u64,
) -> Seq<char>
    decreases txs.len(),
{
    if txs.len() == 0 {
        Seq::empty()
    } else {
        let rest = sent_text(sent, txs.drop_last(), now);
        let hash = txs.last().hash;
        if sent.contains_key(hash) {
            rest + tx_text(sent[hash], duration_text(elapsed(sent[hash].sent_at, now)))
        } else {
            rest
        }
    }
}

/// How many of some transactions on the chain were not sent from here.
pub open spec fn other_count(sent: Map<CryptoHash, SendInfoView>, txs: Seq<TargetTxView>) -> nat
    decreases txs.len(),
{
    if txs.len() == 0 {
        0
    } else {
        let rest = other_count(sent, txs.drop_last());
        if sent.contains_key(txs.last().hash) {
            rest
        } else {
            rest + 1
        }
    }
}

pub open spec fn other_text(count: nat) -> Seq<char> {
    if count > 0 {
        "    ...    \n"@ + decimal(count)
            + " other txs (not ours, or sent before a restart)\n"@ + "    ...    \n"@
    } else {
        Seq::empty()
    }
}

/// The first line of a shard with a new chunk; `gas` is the text of the gas that it used.
pub open spec fn header_text(shard_id: ShardId, gas: Seq<char>) -> Seq<char> {
    "-------- shard "@ + decimal(shard_id as nat) + " gas used: "@ + gas + " ---------\n"@
}

/// One shard of a block at `height`.
pub open spec fn shard_text(
    sent: Map<CryptoHash, SendInfoView>,
    shard: TargetShard,
    height: BlockHeight,
    now: u64,
) -> Seq<char> {
    let start = "-------- shard "@ + decimal(shard.shard_id as nat);
    match shard.chunk {
        Some(c) => if c.height_included == height {
            header_text(shard.shard_id, gas_text(c.gas_used)) + sent_text(
                sent,
                views(c.transactions@),
                now,
            ) + other_text(other_count(sent, views(c.transactions@)))
        } else {
            start + " old chunk (#"@ + decimal(c.height_included as nat) + ") ---------\n"@
        },
        None => start + " chunk missing ---------\n"@,
    }
}

/// The first `n` shards of a block.
pub open spec fn block_text(
    sent: Map<CryptoHash, SendInfoView>,
    msg: TargetBlock,
    now: u64,
    n: int,
) -> Seq<char>
    decreases n,
{
    if n <= 0 {
        Seq::empty()
    } else {
        block_text(sent, msg, now, n - 1) + shard_text(sent, msg.shards@[n - 1], msg.height, now)
    }
}

fn append_mapped(text: &mut String, name: &Option<AccountId>)
    ensures
        final(text)@ == old(text)@ + mapped_text(account_view(*name)),
{
    if let Some(id) = name {
        text.append(" (mapped to \"");
        text.append(id.0.as_str());
        text.append("\")");
    }
    assert(text@ =~= old(text)@ + mapped_text(account_view(*name)));
}

impl TxSendInfo {
    /// Appends the line for a sent transaction; `age` is the text of its age.
    pub fn append_line(&self, text: &mut String, age: &str)
        ensures
            final(text)@ == old(text)@ + tx_text(self@, age@),
    {
        text.append(self.provenance.as_str());
        text.append(" signer: \"");
        text.append(self.source_signer_id.0.as_str());
        text.append("\"");
        append_mapped(text, &self.target_signer_id);
        text.append(" receiver: \"");
        text.append(self.source_receiver_id.0.as_str());
        text.append("\"");
        append_mapped(text, &self.target_receiver_id);
        text.append(" actions: <");
        append_joined(text, &self.actions, ", ");
        text.append("> sent ");
        text.append(age);
        text.append(" ago @ target #");
        append_decimal(text, self.sent_at_target_height);
        text.append("\n");
        assert(text@ =~= old(text)@ + tx_text(self@, age@));
    }
}

/// Appends the first line of a shard with a new chunk; `gas` is the text of the gas that it used.
pub fn append_header(text: &mut String, shard_id: ShardId, gas: &str)
    ensures
        final(text)@ == old(text)@ + header_text(shard_id, gas@),
{
    text.append("-------- shard ");
    append_decimal(text, shard_id);
    text.append(" gas used: ");
    text.append(gas);
    text.append(" ---------\n");
    assert(text@ =~= old(text)@ + header_text(shard_id, gas@));
}

fn append_other(text: &mut String, count: u64)
    ensures
        final(text)@ == old(text)@ + other_text(count as nat),
{
    if count > 0 {
        text.append("    ...    \n");
        append_decimal(text, count);
        text.append(" other txs (not ours, or sent before a restart)\n");
        text.append("    ...    \n");
    }
    assert(text@ =~= old(text)@ + other_text(count as nat));
}

impl TxTracker {
    /// Appends the lines of the sent ones among `txs`, and returns the number of others.
    fn append_txs(&self, text: &mut String, txs: &Vec<TargetTx>, now: u64) -> (r: u64)
        ensures
            final(text)@ == old(text)@ + sent_text(self@.sent_txs, views(txs@), now),
            r == other_count(self@.sent_txs, views(txs@)),
    {
        let ghost all = views(txs@);
        let ghost start = text@;
        let ghost sent = self@.sent_txs;
        let mut others: u64 = 0;
        let mut i: usize = 0;
        assert(start =~= start + sent_text(sent, all.take(0), now));
        while i < txs.len()
            invariant
                i <= txs@.len(),
                others <= i,
                all == views(txs@),
                sent == self@.sent_txs,
                text@ == start + sent_text(sent, all.take(i as int), now),
                others == other_count(sent, all.take(i as int)),
            decreases txs@.len() - i,
        {
            assert(all.take(i + 1).drop_last() =~= all.take(i as int));
            assert(all[i as int].hash == txs@[i as int].hash);
            if let Some(info) = self.sent_txs.get(&txs[i].hash) {
                let passed: u64 = if info.sent_at <= now {
                    now - info.sent_at
                } else {
                    0
                };
                let age = format_duration(passed);
                info.append_line(text, age.as_str());
            } else {
                others = others + 1;
            }
            assert(text@ =~= start + sent_text(sent, all.take(i + 1), now));
            i += 1;
        }
        assert(all.take(txs@.len() as int) =~= all);
        others
    }

    /// The text to log of a target block: for each shard the transactions that were sent from
    /// here, and how many others there are.
    pub fn log_target_block(&self, msg: &TargetBlock, now: u64) -> (r: String)
        ensures
            r@ == block_text(self@.sent_txs, *msg, now, msg.shards@.len() as int),
    {
        let ghost sent = self@.sent_txs;
        let mut text = String::new();
        let mut i: usize = 0;
        while i < msg.shards.len()
            invariant
                i <= msg.shards@.len(),
                sent == self@.sent_txs,
                text@ == block_text(sent, *msg, now, i as int),
            decreases msg.shards@.len() - i,
        {
            let ghost before = text@;
            let shard = &msg.shards[i];
            match &shard.chunk {
                Some(c) => {
                    if c.height_included == msg.height {
                        let gas = format_gas(c.gas_used);
                        append_header(&mut text, shard.shard_id, gas.as_str());
                        let others: u64 = self.append_txs(&mut text, &c.transactions, now);
                        append_other(&mut text, others);
                    } else {
                        text.append("-------- shard ");
                        append_decimal(&mut text, shard.shard_id);
                        text.append(" old chunk (#");
                        append_decimal(&mut text, c.height_included);
                        text.append(") ---------\n");
                    }
                },
                None => {
                    text.append("-------- shard ");
                    append_decimal(&mut text, shard.shard_id);
                    text.append(" chunk missing ---------\n");
                },
            }
            assert(text@ =~= before + shard_text(sent, *shard, msg.height, now));
            i += 1;
        }
        text
    }
}

/// The age of a transaction is the time since it was sent, and nothing where that is still to come.
pub proof fn ages_are_never_negative(then: u64, now: u64)
    ensures
        then <= now ==> then + elapsed(then, now) == now,
        then > now ==> elapsed(then, now) == 0,
{
}

/// Of the transactions of a chunk, each one that was sent has its line, in order, and the others are
/// counted.
pub proof fn each_tx_is_logged_or_counted(
    sent: Map<CryptoHash, SendInfoView>,
    txs: Seq<TargetTxView>,
    tx: TargetTxView,
    now: u64,
)
    ensures
        sent_text(sent, Seq::empty(), now) == Seq::<char>::empty(),
        other_count(sent, Seq::empty()) == 0,
        sent.contains_key(tx.hash) ==> {
            &&& sent_text(sent, txs.push(tx), now) == sent_text(sent, txs, now) + tx_text(
                sent[tx.hash],
                duration_text(elapsed(sent[tx.hash].sent_at, now)),
            )
            &&& other_count(sent, txs.push(tx)) == other_count(sent, txs)
        },
        !sent.contains_key(tx.hash) ==> {
            &&& sent_text(sent, txs.push(tx), now) == sent_text(sent, txs, now)
            &&& other_count(sent, txs.push(tx)) == other_count(sent, txs) + 1
        },
{
    assert(txs.push(tx).drop_last() =~= txs);
}

/// All shards of a block are logged, in order.
pub proof fn each_shard_is_logged(
    sent: Map<CryptoHash, SendInfoView>,
    msg: TargetBlock,
    now: u64,
    n: int,
)
    requires
        0 <= n < msg.shards@.len(),
    ensures
        block_text(sent, msg, now, 0) == Seq::<char>::empty(),
        block_text(sent, msg, now, n + 1) == block_text(sent, msg, now, n) + shard_text(
            sent,
            msg.shards@[n],
            msg.height,
            now,
        ),
{
}

} // verus!
