//! Transaction receipts: what execution left behind, when two of them agree, and how much memory
//! one takes.

use crate::primitives::{Address, B256};
use alloy_consensus::{Eip658Value, InMemorySize};
use alloy_primitives::B256 as Word;
use op_alloy_consensus::{OpDepositReceipt, OpReceipt};
use vstd::layout::size_of;
use vstd::prelude::*;

verus! {

/// One log record emitted by a contract.
#[derive(Clone, Debug)]
pub struct Log {
    pub address: Address,
    pub topics: Vec<B256>,
    pub data: Vec<u8>,
}

/// How execution ended: a success flag, or a state root on chains older than the flag.
#[derive(Clone, Copy, Debug, PartialEq, Eq, Structural)]
pub enum Status {
    Eip658(bool),
    PostState(B256),
}

/// The transaction type a receipt belongs to. Deposits carry two fields of their own.
#[derive(Clone, Copy, Debug, PartialEq, Eq, Structural)]
pub enum ReceiptKind {
    Legacy,
    Eip2930,
    Eip1559,
    Eip7702,
    PostExec,
    Deposit { nonce: Option<u64>, version: Option<u64> },
}

/// The result of executing one transaction.
#[derive(Clone, Debug)]
pub struct Receipt {
    pub kind: ReceiptKind,
    pub status: Status,
    pub cumulative_gas_used: u64,
    pub logs: Vec<Log>,
}

/// The contents of a [`Log`].
pub struct LogView {
    pub address: Address,
    pub topics: Seq<B256>,
    pub data: Seq<u8>,
}

/// The contents of a [`Receipt`]: two receipts record the same effects when these are equal.
pub struct ReceiptView {
    pub kind: ReceiptKind,
    pub status: Status,
    pub cumulative_gas_used: u64,
    pub logs: Seq<LogView>,
}

impl View for Log {
    type V = LogView;

    open spec fn view(&self) -> LogView {
        LogView { address: self.address, topics: self.topics@, data: self.data@ }
    }
}

impl View for Receipt {
    type V = ReceiptView;

    open spec fn view(&self) -> ReceiptView {
        ReceiptView {
            kind: self.kind,
            status: self.status,
            cumulative_gas_used: self.cumulative_gas_used,
            logs: self.logs@.map_values(|log: Log| log@),
        }
    }
}

fn same_topics(left: &Vec<B256>, right: &Vec<B256>) -> (same: bool)
    ensures
        same == (left@ == right@),
{
    if left.len() != right.len() {
        return false;
    }
    for i in 0..left.len()
        invariant
            left@.len() == right@.len(),
            forall|j: int| 0 <= j < i ==> left@[j] == right@[j],
    {
        if left[i] != right[i] {
            return false;
        }
    }
    assert(left@ =~= right@);
    true
}

fn same_bytes(left: &Vec<u8>, right: &Vec<u8>) -> (same: bool)
    ensures
        same == (left@ == right@),
{
    if left.len() != right.len() {
        return false;
    }
    for i in 0..left.len()
        invariant
            left@.len() == right@.len(),
            forall|j: int| 0 <= j < i ==> left@[j] == right@[j],
    {
        if left[i] != right[i] {
            return false;
        }
    }
    assert(left@ =~= right@);
    true
}

impl Log {
    /// Whether both records hold the same address, topics and data.
    pub fn same(&self, other: &Log) -> (same: bool)
        ensures
            same == (self@ == other@),
    {
        self.address == other.address && same_topics(&self.topics, &other.topics) && same_bytes(
            &self.data,
            &other.data,
        )
    }
}

impl Receipt {
    /// Whether both receipts record the same effects.
    pub fn same(&self, other: &Receipt) -> (same: bool)
        ensures
            same == (self@ == other@),
    {
        if self.kind != other.kind || self.status != other.status || self.cumulative_gas_used
            != other.cumulative_gas_used || self.logs.len() != other.logs.len() {
            assert(self@.logs.len() == self.logs@.len());
            assert(other@.logs.len() == other.logs@.len());
            return false;
        }
        for i in 0..self.logs.len()
            invariant
                self.logs@.len() == other.logs@.len(),
                forall|j: int| 0 <= j < i ==> self.logs@[j]@ == other.logs@[j]@,
        {
            if !self.logs[i].same(&other.logs[i]) {
                assert(self@.logs[i as int] != other@.logs[i as int]);
                return false;
            }
        }
        assert(self@.logs =~= other@.logs);
        true
    }
}

/// The status word of the consensus library, whose in-memory size receipts are measured with.
#[verifier::external_type_specification]
#[verifier::external_body]
pub struct ExEip658Value(Eip658Value);

impl LogView {
    /// The bytes that a log takes: its address, its topics of 32 bytes each, and its data.
    pub open spec fn footprint(self) -> nat {
        20 + 32 * self.topics.len() + self.data.len()
    }
}

/// The bytes that a receipt takes besides its logs.
pub open spec fn fixed_footprint(kind: ReceiptKind) -> nat {
    let deposit_fields: nat = if kind is Deposit {
        2 * size_of::<Option<u64>>()
    } else {
        0
    };
    size_of::<Eip658Value>() + size_of::<u64>() + deposit_fields
}

/// The bytes that the given logs take together.
pub open spec fn logs_footprint(logs: Seq<LogView>) -> nat
    decreases logs.len(),
{
    if logs.len() == 0 {
        0
    } else {
        logs_footprint(logs.drop_last()) + logs.last().footprint()
    }
}

impl ReceiptView {
    /// The bytes that a receipt takes.
    pub open spec fn footprint(self) -> nat {
        fixed_footprint(self.kind) + logs_footprint(self.logs)
    }
}

/// A size, held at `usize::MAX`.
pub open spec fn capped(total: nat) -> nat {
    if total <= usize::MAX {
        total
    } else {
        usize::MAX as nat
    }
}

/// Calls `alloy_consensus::InMemorySize::size` on an `op_alloy_consensus::OpReceipt` without logs.
/// Claimed of it: the size is that of the status word and of the gas counter, and for a deposit
/// that of its two optional fields as well, whatever the fields hold.
#[verifier::external_body]
fn fixed_size(kind: ReceiptKind, status: Status, cumulative_gas_used: u64) -> (size: usize)
    ensures
        size == fixed_footprint(kind),
{
    let word = |h: B256| Word::from_slice(&[h.high.to_be_bytes(), h.low.to_be_bytes()].concat());
    let status = match status {
        Status::Eip658(success) => Eip658Value::Eip658(success),
        Status::PostState(root) => Eip658Value::PostState(word(root)),
    };
    let inner = alloy_consensus::Receipt { status, cumulative_gas_used, logs: Vec::new() };
    (match kind {
        ReceiptKind::Legacy => OpReceipt::Legacy(inner),
        ReceiptKind::Eip2930 => OpReceipt::Eip2930(inner),
        ReceiptKind::Eip1559 => OpReceipt::Eip1559(inner),
        ReceiptKind::Eip7702 => OpReceipt::Eip7702(inner),
        ReceiptKind::PostExec => OpReceipt::PostExec(inner),
        ReceiptKind::Deposit { nonce: deposit_nonce, version: deposit_receipt_version } =>
            OpReceipt::Deposit(OpDepositReceipt { inner, deposit_nonce, deposit_receipt_version }),
    }).size()
}

impl Log {
    /// The bytes that this log takes in memory.
    pub fn size(&self) -> (size: usize)
        ensures
            size == capped(self@.footprint()),
    {
        let size: u128 = 20 + 32 * (self.topics.len() as u128) + self.data.len() as u128;
        if size > usize::MAX as u128 {
            usize::MAX
        } else {
            size as usize
        }
    }
}

impl Receipt {
    /// The bytes that this receipt takes in memory.
    pub fn size(&self) -> (size: usize)
        ensures
            size == capped(self@.footprint()),
    {
        let mut size: usize = fixed_size(self.kind, self.status, self.cumulative_gas_used);
        for i in 0..self.logs.len()
            invariant
                size == capped(
                    fixed_footprint(self.kind) + logs_footprint(self@.logs.take(i as int)),
                ),
        {
            assert(self@.logs.take(i + 1).drop_last() =~= self@.logs.take(i as int));
            assert(self@.logs.take(i + 1).last() == self.logs@[i as int]@);
            size = size.saturating_add(self.logs[i].size());
        }
        assert(self@.logs.take(self.logs.len() as int) =~= self@.logs);
        size
    }
}

/// The sum of numbers.
pub open spec fn sum(parts: Seq<nat>) -> nat
    decreases parts.len(),
{
    if parts.len() == 0 {
        0
    } else {
        sum(parts.drop_last()) + parts.last()
    }
}

/// **Receipts agree when every field does.** Two receipts have the same contents exactly when they
/// are of the same kind, status and gas counter, and have as many logs, each with the same address,
/// topics and data as the other's in its place.
pub proof fn equal_receipts_agree_in_every_field(left: Receipt, right: Receipt)
    ensures
        left@ == right@ <==> {
            &&& left.kind == right.kind
            &&& left.status == right.status
            &&& left.cumulative_gas_used == right.cumulative_gas_used
            &&& left.logs@.len() == right.logs@.len()
            &&& forall|i: int|
                0 <= i < left.logs@.len() ==> {
                    &&& (#[trigger] left.logs@[i]).address == right.logs@[i].address
                    &&& left.logs@[i].topics@ == right.logs@[i].topics@
                    &&& left.logs@[i].data@ == right.logs@[i].data@
                }
        },
{
    if left@ == right@ {
        assert(left@.logs.len() == left.logs@.len());
        assert(right@.logs.len() == right.logs@.len());
        assert forall|i: int| 0 <= i < left.logs@.len() implies {
            &&& (#[trigger] left.logs@[i]).address == right.logs@[i].address
            &&& left.logs@[i].topics@ == right.logs@[i].topics@
            &&& left.logs@[i].data@ == right.logs@[i].data@
        } by {
            assert(left@.logs[i] == left.logs@[i]@);
            assert(right@.logs[i] == right.logs@[i]@);
        }
    }
    if left.logs@.len() == right.logs@.len() && (forall|i: int|
        0 <= i < left.logs@.len() ==> {
            &&& (#[trigger] left.logs@[i]).address == right.logs@[i].address
            &&& left.logs@[i].topics@ == right.logs@[i].topics@
            &&& left.logs@[i].data@ == right.logs@[i].data@
        }) {
        assert(left@.logs =~= right@.logs);
    }
}

proof fn lemma_logs_footprint_is_sum(logs: Seq<LogView>, parts: Seq<nat>)
    requires
        parts.len() == logs.len(),
        forall|i: int|
            0 <= i < logs.len() ==> #[trigger] parts[i] == 20 + 32 * logs[i].topics.len()
                + logs[i].data.len(),
    ensures
        logs_footprint(logs) == sum(parts),
    decreases logs.len(),
{
    if logs.len() > 0 {
        lemma_logs_footprint_is_sum(logs.drop_last(), parts.drop_last());
        assert(parts.last() == parts[logs.len() - 1]);
    }
}

/// **A receipt takes the sum of its parts.** These are the status word and the gas counter, for a
/// deposit its two optional fields, and for each log 20 bytes of address, 32 bytes for each topic,
/// and the data. A size that no machine integer holds is given as the highest one.
pub proof fn receipt_takes_the_sum_of_its_parts(receipt: Receipt, log: Log)
    ensures
        log@.footprint() == 20 + 32 * log.topics@.len() + log.data@.len(),
        receipt@.footprint() == size_of::<Eip658Value>() + size_of::<u64>() + (
        if receipt.kind is Deposit {
            2 * size_of::<Option<u64>>()
        } else {
            0
        }) + sum(
            Seq::new(
                receipt.logs@.len(),
                |i: int|
                    (20 + 32 * receipt.logs@[i].topics@.len()
                        + receipt.logs@[i].data@.len()) as nat,
            ),
        ),
        forall|n: nat| n <= usize::MAX ==> #[trigger] capped(n) == n,
        forall|n: nat| n > usize::MAX ==> #[trigger] capped(n) == usize::MAX,
{
    let parts = Seq::new(
        receipt.logs@.len(),
        |i: int|
            (20 + 32 * receipt.logs@[i].topics@.len() + receipt.logs@[i].data@.len()) as nat,
    );
    lemma_logs_footprint_is_sum(receipt@.logs, parts);
}

} // verus!
