//! From the receipts of a delta to what a client is sent.

use crate::ledger::{well_cut, Delta, Event};
use crate::primitives::{Address, B256};
use crate::reason::Reason;
use crate::receipt::{logs_footprint, sum, LogView, ReceiptView};
use crate::recovery::Failure;
use crate::snapshot::{receipts_footprint, BlockAndReceipts, Snapshot, MAX_BYTES};
use vstd::prelude::*;

verus! {

/// Where a transaction stands: its block, and its place in it.
#[derive(Clone, Copy, Debug, PartialEq, Eq, Structural)]
pub struct TransactionMeta {
    pub tx_hash: B256,
    pub index: u64,
    pub block_hash: B256,
    pub block_number: u64,
    pub base_fee: Option<u64>,
    pub timestamp: u64,
    pub excess_blob_gas: Option<u64>,
}

/// What it takes, besides the receipt itself, to write a receipt out in full.
#[derive(Clone, Copy, Debug, PartialEq, Eq, Structural)]
pub struct ReceiptInput {
    pub sender: Address,
    /// The gas of this transaction alone.
    pub gas_used: u64,
    /// The number of logs in the block before this transaction.
    pub next_log_index: usize,
    pub meta: TransactionMeta,
}

/// Where the receipts of an update come from.
#[derive(Clone, Copy, Debug, PartialEq, Eq, Structural)]
pub enum Source {
    Pending,
    Canonical,
}

/// The receipts of a block from one transaction on, written out.
#[derive(Debug)]
pub struct Update<R> {
    pub block_number: u64,
    pub parent_hash: B256,
    pub block_hash: B256,
    pub source: Source,
    pub from_transaction_index: usize,
    pub receipts: Vec<R>,
}

/// The gas that the block had used before the transaction at `index`.
pub open spec fn gas_before(effects: Seq<ReceiptView>, index: int) -> u64 {
    if index == 0 {
        0
    } else {
        effects[index - 1].cumulative_gas_used
    }
}

/// The number of logs in the first `count` receipts.
pub open spec fn logs_before(effects: Seq<ReceiptView>, count: int) -> nat
    decreases count,
{
    if count <= 0 {
        0
    } else {
        logs_before(effects, count - 1) + effects[count - 1].logs.len()
    }
}

/// Whether the gas counters of the first `count` receipts never fall.
pub open spec fn gas_grows(effects: Seq<ReceiptView>, count: int) -> bool {
    forall|i: int|
        0 <= i < count ==> #[trigger] gas_before(effects, i) <= effects[i].cumulative_gas_used
}

impl<P> BlockAndReceipts<P> {
    /// The number of transactions that have a receipt.
    pub open spec fn paired(&self) -> nat {
        if self.block().transactions@.len() < self.receipts()@.len() {
            self.block().transactions@.len()
        } else {
            self.receipts()@.len()
        }
    }

    /// What the transaction at `index` is written out with.
    pub open spec fn receipt_input(&self, index: int) -> ReceiptInput {
        let block = self.block();
        ReceiptInput {
            sender: block.transactions@[index].sender,
            gas_used: (self.effects()[index].cumulative_gas_used - gas_before(
                self.effects(),
                index,
            )) as u64,
            next_log_index: logs_before(self.effects(), index) as usize,
            meta: TransactionMeta {
                tx_hash: block.transactions@[index].hash,
                index: index as u64,
                block_hash: block.hash,
                block_number: block.number,
                base_fee: block.base_fee_per_gas,
                timestamp: block.timestamp,
                excess_blob_gas: block.excess_blob_gas,
            },
        }
    }

    /// What the transactions from `start` on are written out with.
    pub open spec fn receipt_inputs_from(&self, start: usize) -> Seq<ReceiptInput> {
        Seq::new(
            if start <= self.paired() {
                (self.paired() - start) as nat
            } else {
                0
            },
            |i: int| self.receipt_input(start + i),
        )
    }
}

proof fn lemma_logs_before_grow(effects: Seq<ReceiptView>, count: int, more: int)
    requires
        0 <= count <= more,
    ensures
        logs_before(effects, count) <= logs_before(effects, more),
    decreases more,
{
    if count < more {
        lemma_logs_before_grow(effects, count, more - 1);
    }
}

impl<P> Delta<P> {
    /// What the transactions of this delta are written out with. The gas counters of the whole
    /// block are checked on the way, those of receipts that were delivered before too.
    pub fn receipt_inputs(&self) -> (result: Result<Vec<ReceiptInput>, Reason>)
        requires
            self.start <= self.snapshot.len(),
            logs_before(
                self.snapshot.data.effects(),
                self.snapshot.data.paired() as int,
            ) <= usize::MAX,
        ensures
            match result {
                Ok(inputs) => {
                    &&& gas_grows(
                        self.snapshot.data.effects(),
                        self.snapshot.data.paired() as int,
                    )
                    &&& inputs@ == self.snapshot.data.receipt_inputs_from(self.start)
                },
                Err(reason) => {
                    &&& reason == Reason::InvalidCumulativeGas
                    &&& !gas_grows(
                        self.snapshot.data.effects(),
                        self.snapshot.data.paired() as int,
                    )
                },
            },
    {
        let data = &self.snapshot.data;
        let block = data.block();
        let receipts = data.receipts();
        let ghost effects = data.effects();
        let paired: usize = if block.transactions.len() < receipts.len() {
            block.transactions.len()
        } else {
            receipts.len()
        };
        let mut cumulative: u64 = 0;
        let mut next_log_index: usize = 0;
        let mut inputs: Vec<ReceiptInput> = Vec::with_capacity(receipts.len() - self.start);
        for index in 0..paired
            invariant
                data == self.snapshot.data,
                block == data.block(),
                receipts == data.receipts(),
                effects == data.effects(),
                paired == data.paired(),
                paired <= block.transactions@.len(),
                paired <= receipts@.len(),
                logs_before(effects, paired as int) <= usize::MAX,
                gas_grows(effects, index as int),
                cumulative == gas_before(effects, index as int),
                next_log_index == logs_before(effects, index as int),
                inputs@.len() == if index <= self.start {
                    0
                } else {
                    index - self.start
                },
                forall|i: int|
                    0 <= i < inputs@.len() ==> #[trigger] inputs@[i] == data.receipt_input(
                        self.start + i,
                    ),
        {
            let receipt = &receipts[index];
            assert(effects[index as int] == receipt@);
            assert(receipt@.logs.len() == receipt.logs@.len());
            proof {
                lemma_logs_before_grow(effects, index + 1, paired as int);
            }
            let gas_used: u64 = match receipt.cumulative_gas_used.checked_sub(cumulative) {
                Some(gas_used) => gas_used,
                None => {
                    return Err(Reason::InvalidCumulativeGas);
                },
            };
            if index >= self.start {
                let transaction = &block.transactions[index];
                let input = ReceiptInput {
                    sender: transaction.sender,
                    gas_used,
                    next_log_index,
                    meta: TransactionMeta {
                        tx_hash: transaction.hash,
                        index: index as u64,
                        block_hash: block.hash,
                        block_number: block.number,
                        base_fee: block.base_fee_per_gas,
                        timestamp: block.timestamp,
                        excess_blob_gas: block.excess_blob_gas,
                    },
                };
                assert(input == data.receipt_input(index as int));
                inputs.push(input);
            }
            assert(gas_grows(effects, index + 1));
            cumulative = receipt.cumulative_gas_used;
            next_log_index += receipt.logs.len();
        }
        assert(inputs@ =~= data.receipt_inputs_from(self.start));
        Ok(inputs)
    }

    /// The update that delivers this delta with its receipts written out.
    pub fn into_update<R>(self, receipts: Vec<R>) -> (update: Update<R>)
        ensures
            update == updated(self, receipts),
    {
        let block = self.snapshot.data.block();
        Update {
            block_number: block.number,
            parent_hash: block.parent_hash,
            block_hash: block.hash,
            source: if self.snapshot.canonical {
                Source::Canonical
            } else {
                Source::Pending
            },
            from_transaction_index: self.start,
            receipts,
        }
    }
}

/// The update that delivers a delta with its receipts written out.
pub open spec fn updated<P, R>(delta: Delta<P>, receipts: Vec<R>) -> Update<R> {
    Update {
        block_number: delta.snapshot.number(),
        parent_hash: delta.snapshot.parent(),
        block_hash: delta.snapshot.hash(),
        source: if delta.snapshot.canonical {
            Source::Canonical
        } else {
            Source::Pending
        },
        from_transaction_index: delta.start,
        receipts,
    }
}

/// Whether writing out a delta with the given converter could come to `result`. The converter gets
/// what each receipt needs, unless a gas counter falls, and what it gives back decides.
pub open spec fn may_convert_to<P, R, E, F>(
    delta: Delta<P>,
    convert: F,
    result: Result<Update<R>, Failure<E>>,
) -> bool where F: FnOnce(Vec<ReceiptInput>, &BlockAndReceipts<P>) -> Result<Vec<R>, E> {
    let data = delta.snapshot.data;
    if gas_grows(data.effects(), data.paired() as int) {
        exists|inputs: Vec<ReceiptInput>, written: Result<Vec<R>, E>|
            {
                &&& inputs@ == data.receipt_inputs_from(delta.start)
                &&& #[trigger] call_ensures(convert, (inputs, &*data), written)
                &&& result == match written {
                    Ok(receipts) => Ok::<Update<R>, Failure<E>>(updated(delta, receipts)),
                    Err(e) => Err(Failure::Outside(e)),
                }
            }
    } else {
        result == Err::<Update<R>, Failure<E>>(Failure::Rule(Reason::InvalidCumulativeGas))
    }
}

/// Writes out the receipts of a delta with the given converter, which gets what each of them needs
/// and the block they belong to.
pub fn convert_delta<P, R, E, F>(delta: Delta<P>, convert: F) -> (result: Result<
    Update<R>,
    Failure<E>,
>) where F: FnOnce(Vec<ReceiptInput>, &BlockAndReceipts<P>) -> Result<Vec<R>, E>
    requires
        delta.start <= delta.snapshot.len(),
        logs_before(
            delta.snapshot.data.effects(),
            delta.snapshot.data.paired() as int,
        ) <= usize::MAX,
        forall|inputs: Vec<ReceiptInput>, data: &BlockAndReceipts<P>| #[trigger]
            call_requires(convert, (inputs, data)),
    ensures
        may_convert_to(delta, convert, result),
{
    let inputs = match delta.receipt_inputs() {
        Ok(inputs) => inputs,
        Err(reason) => {
            return Err(Failure::Rule(reason));
        },
    };
    match convert(inputs, &delta.snapshot.data) {
        Ok(receipts) => Ok(delta.into_update(receipts)),
        Err(e) => Err(Failure::Outside(e)),
    }
}

/// Whether writing out an event could come to `result`. A seal stays as it is.
pub open spec fn event_may_convert_to<P, R, E, F>(
    event: Event<Delta<P>>,
    convert: F,
    result: Result<Event<Update<R>>, Failure<E>>,
) -> bool where F: FnOnce(Vec<ReceiptInput>, &BlockAndReceipts<P>) -> Result<Vec<R>, E> {
    match event {
        Event::Apply(delta) => match result {
            Ok(Event::Apply(update)) => may_convert_to(
                delta,
                convert,
                Ok::<Update<R>, Failure<E>>(update),
            ),
            Ok(Event::Seal(_)) => false,
            Err(failure) => may_convert_to(delta, convert, Err::<Update<R>, Failure<E>>(failure)),
        },
        Event::Seal(seal) => result == Ok::<Event<Update<R>>, Failure<E>>(Event::Seal(seal)),
    }
}

/// Whether writing out the first events of a batch could come to `written`.
pub open spec fn may_convert_up_to<P, R, E, F>(
    events: Seq<Event<Delta<P>>>,
    convert: F,
    written: Seq<Event<Update<R>>>,
) -> bool where F: FnOnce(Vec<ReceiptInput>, &BlockAndReceipts<P>) -> Result<Vec<R>, E> {
    &&& written.len() <= events.len()
    &&& forall|i: int|
        0 <= i < written.len() ==> event_may_convert_to(
            events[i],
            convert,
            Ok::<Event<Update<R>>, Failure<E>>(#[trigger] written[i]),
        )
}

/// Writes out the events of a batch in order, up to the first that fails.
pub fn convert_events<P, R, E, F>(events: Vec<Event<Delta<P>>>, convert: F) -> (result: Result<
    Vec<Event<Update<R>>>,
    Failure<E>,
>) where F: Fn(Vec<ReceiptInput>, &BlockAndReceipts<P>) -> Result<Vec<R>, E>
    requires
        well_cut(events@),
        forall|inputs: Vec<ReceiptInput>, data: &BlockAndReceipts<P>| #[trigger]
            call_requires(convert, (inputs, data)),
    ensures
        match result {
            Ok(written) => {
                &&& written@.len() == events@.len()
                &&& may_convert_up_to(events@, convert, written@)
            },
            Err(failure) => exists|written: Seq<Event<Update<R>>>|
                {
                    &&& written.len() < events@.len()
                    &&& #[trigger] may_convert_up_to(events@, convert, written)
                    &&& event_may_convert_to(
                        events@[written.len() as int],
                        convert,
                        Err::<Event<Update<R>>, Failure<E>>(failure),
                    )
                },
        },
{
    let mut written: Vec<Event<Update<R>>> = Vec::with_capacity(events.len());
    for event in it: events
        invariant
            it.seq() == events@,
            well_cut(events@),
            forall|inputs: Vec<ReceiptInput>, data: &BlockAndReceipts<P>| #[trigger]
                call_requires(convert, (inputs, data)),
            written@.len() == it.index(),
            may_convert_up_to(events@, convert, written@),
    {
        match event {
            Event::Seal(seal) => {
                written.push(Event::Seal(seal));
            },
            Event::Apply(delta) => {
                proof {
                    valid_logs_fit(&delta.snapshot);
                }
                match convert_delta(delta, &convert) {
                    Ok(update) => {
                        written.push(Event::Apply(update));
                    },
                    Err(failure) => {
                        return Err(failure);
                    },
                }
            },
        }
    }
    Ok(written)
}

/// The gas of the first `count` transactions, each as it is written out.
pub open spec fn gas_written<P>(data: &BlockAndReceipts<P>, count: int) -> nat
    decreases count,
{
    if count <= 0 {
        0
    } else {
        gas_written(data, count - 1) + data.receipt_input(count - 1).gas_used as nat
    }
}

/// **Gas adds up.** The gas of single transactions adds up to the block's counter.
pub proof fn gas_adds_up<P>(data: &BlockAndReceipts<P>, count: int)
    requires
        0 <= count <= data.paired(),
        gas_grows(data.effects(), count),
    ensures
        gas_written(data, count) == gas_before(data.effects(), count),
    decreases count,
{
    if count > 0 {
        gas_adds_up(data, count - 1);
        assert(gas_before(data.effects(), count - 1)
            <= data.effects()[count - 1].cumulative_gas_used);
    }
}

/// **Parts are written like the whole.** A receipt is written out the same way, whichever part of
/// the block it is delivered with.
pub proof fn parts_are_written_alike<P>(data: &BlockAndReceipts<P>, start: usize)
    requires
        start <= data.paired(),
    ensures
        data.receipt_inputs_from(start) == data.receipt_inputs_from(0).skip(start as int),
{
    assert(data.receipt_inputs_from(start) =~= data.receipt_inputs_from(0).skip(start as int));
}

proof fn lemma_logs_footprint(logs: Seq<LogView>)
    ensures
        logs_footprint(logs) >= 20 * logs.len(),
    decreases logs.len(),
{
    if logs.len() > 0 {
        lemma_logs_footprint(logs.drop_last());
    }
}

proof fn lemma_logs_before_prefix(effects: Seq<ReceiptView>, count: int)
    requires
        effects.len() > 0,
        0 <= count < effects.len(),
    ensures
        logs_before(effects.drop_last(), count) == logs_before(effects, count),
    decreases count,
{
    if count > 0 {
        lemma_logs_before_prefix(effects, count - 1);
    }
}

proof fn lemma_receipts_footprint(effects: Seq<ReceiptView>)
    ensures
        receipts_footprint(effects) >= 20 * logs_before(effects, effects.len() as int),
    decreases effects.len(),
{
    if effects.len() > 0 {
        lemma_receipts_footprint(effects.drop_last());
        lemma_logs_before_prefix(effects, effects.len() - 1);
        lemma_logs_footprint(effects.last().logs);
    }
}

/// The logs of a block that fits the byte budget can be counted.
pub proof fn valid_logs_fit<P>(snapshot: &Snapshot<P>)
    requires
        snapshot.validity() is Ok,
    ensures
        20 * logs_before(
            snapshot.data.effects(),
            snapshot.data.paired() as int,
        ) <= MAX_BYTES,
{
    lemma_receipts_footprint(snapshot.data.effects());
}

/// The number of transactions of a block that have a receipt.
pub open spec fn written_count<P>(data: &BlockAndReceipts<P>) -> int {
    if data.block().transactions@.len() < data.receipts()@.len() {
        data.block().transactions@.len() as int
    } else {
        data.receipts()@.len() as int
    }
}

/// The number of logs of all receipts of a block.
pub open spec fn log_count<P>(data: &BlockAndReceipts<P>) -> nat {
    sum(Seq::new(data.receipts()@.len(), |i: int| data.receipts()@[i].logs@.len()))
}

proof fn lemma_logs_before_is_sum(effects: Seq<ReceiptView>, parts: Seq<nat>, count: int)
    requires
        parts.len() == effects.len(),
        forall|i: int| 0 <= i < effects.len() ==> #[trigger] parts[i] == effects[i].logs.len(),
        0 <= count <= effects.len(),
    ensures
        logs_before(effects, count) == sum(parts.take(count)),
    decreases count,
{
    if count > 0 {
        lemma_logs_before_is_sum(effects, parts, count - 1);
        assert(parts.take(count).drop_last() =~= parts.take(count - 1));
        assert(parts.take(count).last() == parts[count - 1]);
    }
}

/// **Log indices are contiguous over a block.** The first transaction is written out with log index
/// 0, and every other one with that of the transaction before it, plus the number of logs of that
/// one's receipt.
pub proof fn log_indices_are_contiguous<P>(data: &BlockAndReceipts<P>, index: int)
    requires
        0 <= index < data.receipts()@.len(),
        log_count(data) <= usize::MAX,
    ensures
        data.receipt_input(0).next_log_index == 0,
        index > 0 ==> data.receipt_input(index).next_log_index == data.receipt_input(
            index - 1,
        ).next_log_index + data.receipts()@[index - 1].logs@.len(),
{
    let effects = data.effects();
    let parts = Seq::new(data.receipts()@.len(), |i: int| data.receipts()@[i].logs@.len());
    assert forall|i: int| 0 <= i < effects.len() implies #[trigger] parts[i]
        == effects[i].logs.len() by {
        assert(effects[i] == data.receipts()@[i]@);
    }
    lemma_logs_before_is_sum(effects, parts, effects.len() as int);
    assert(parts.take(effects.len() as int) =~= parts);
    lemma_logs_before_grow(effects, index, effects.len() as int);
    if index > 0 {
        lemma_logs_before_grow(effects, index - 1, effects.len() as int);
        assert(effects[index - 1].logs.len() == parts[index - 1]);
    }
}

/// **A receipt is written out with its own gas, and with its own place.** The gas is what the
/// counter of the block grew by; the sender and the hash are those of the transaction in the same
/// place, and the rest is the block's.
pub proof fn receipts_are_written_in_their_place<P>(data: &BlockAndReceipts<P>, index: int)
    requires
        0 <= index < written_count(data),
        index <= u64::MAX,
        index > 0 ==> data.receipts()@[index - 1].cumulative_gas_used
            <= data.receipts()@[index].cumulative_gas_used,
    ensures
        ({
            let input = data.receipt_input(index);
            let block = data.block();
            let before = if index > 0 {
                data.receipts()@[index - 1].cumulative_gas_used as int
            } else {
                0
            };
            &&& input.gas_used + before == data.receipts()@[index].cumulative_gas_used
            &&& input.sender == block.transactions@[index].sender
            &&& input.meta.tx_hash == block.transactions@[index].hash
            &&& input.meta.index == index
            &&& input.meta.block_hash == block.hash
            &&& input.meta.block_number == block.number
            &&& input.meta.base_fee == block.base_fee_per_gas
            &&& input.meta.timestamp == block.timestamp
            &&& input.meta.excess_blob_gas == block.excess_blob_gas
        }),
{
    assert(data.effects()[index] == data.receipts()@[index]@);
    if index > 0 {
        assert(data.effects()[index - 1] == data.receipts()@[index - 1]@);
    }
}

/// **Everything from the first new transaction on is written out, in order, and nothing else.**
pub proof fn new_transactions_are_written_out<P>(data: &BlockAndReceipts<P>, start: usize)
    ensures
        data.receipt_inputs_from(start).len() == if start < written_count(data) {
            written_count(data) - start
        } else {
            0
        },
        forall|i: int|
            0 <= i < data.receipt_inputs_from(start).len() ==> #[trigger] data.receipt_inputs_from(
                start,
            )[i] == data.receipt_input(start + i),
        data.paired() == written_count(data),
{
}

/// Whether a gas counter of a block is below the one before it.
pub open spec fn gas_falls<P>(data: &BlockAndReceipts<P>) -> bool {
    exists|i: int|
        0 < i < written_count(data) && (#[trigger] data.receipts()@[i]).cumulative_gas_used
            < data.receipts()@[i - 1].cumulative_gas_used
}

/// **Only a falling gas counter is refused.** The counters of all receipts of the block are looked
/// at, of those that were delivered before too.
pub proof fn falling_gas_is_refused<P>(data: &BlockAndReceipts<P>)
    ensures
        gas_grows(data.effects(), data.paired() as int) <==> !gas_falls(data),
{
    let effects = data.effects();
    let receipts = data.receipts()@;
    assert forall|i: int| 0 <= i < receipts.len() implies (
    #[trigger] effects[i]).cumulative_gas_used == receipts[i].cumulative_gas_used by {
        assert(effects[i] == receipts[i]@);
    }
    if gas_grows(effects, data.paired() as int) {
        assert forall|i: int| 0 < i < written_count(data) implies (
        #[trigger] receipts[i]).cumulative_gas_used >= receipts[i - 1].cumulative_gas_used by {
            assert(gas_before(effects, i) <= effects[i].cumulative_gas_used);
            assert(effects[i - 1].cumulative_gas_used == receipts[i - 1].cumulative_gas_used);
        }
    }
    if !gas_falls(data) {
        assert forall|i: int| 0 <= i < data.paired() implies #[trigger] gas_before(effects, i)
            <= effects[i].cumulative_gas_used by {
            if i > 0 {
                assert(receipts[i].cumulative_gas_used >= receipts[i - 1].cumulative_gas_used);
                assert(effects[i - 1].cumulative_gas_used == receipts[i - 1].cumulative_gas_used);
            }
        }
    }
}

/// **What a delta is written out as is settled by the converter.** A falling gas counter is refused
/// without it. Otherwise it is given what the new transactions need, in order, and the block; the
/// update holds the receipts that it wrote, and names the block, its source and the first
/// transaction; a failure of the converter is passed on.
pub proof fn conversion_is_the_converters<P, R, E, F>(
    delta: Delta<P>,
    convert: F,
    result: Result<Update<R>, Failure<E>>,
) where F: FnOnce(Vec<ReceiptInput>, &BlockAndReceipts<P>) -> Result<Vec<R>, E>
    requires
        may_convert_to(delta, convert, result),
    ensures
        gas_falls(&*delta.snapshot.data) <==> result is Err && result->Err_0 is Rule,
        result is Err && result->Err_0 is Rule ==> result->Err_0->Rule_0
            == Reason::InvalidCumulativeGas,
        result is Err && result->Err_0 is Outside ==> exists|inputs: Vec<ReceiptInput>|
            #[trigger] call_ensures(
                convert,
                (inputs, &*delta.snapshot.data),
                Err::<Vec<R>, E>(result->Err_0->Outside_0),
            ) && inputs@ == delta.snapshot.data.receipt_inputs_from(delta.start),
        result is Ok ==> exists|inputs: Vec<ReceiptInput>|
            #[trigger] call_ensures(
                convert,
                (inputs, &*delta.snapshot.data),
                Ok::<Vec<R>, E>(result->Ok_0.receipts),
            ) && inputs@ == delta.snapshot.data.receipt_inputs_from(delta.start),
        result is Ok ==> {
            let block = delta.snapshot.data.block();
            &&& result->Ok_0.block_number == block.number
            &&& result->Ok_0.parent_hash == block.parent_hash
            &&& result->Ok_0.block_hash == block.hash
            &&& result->Ok_0.from_transaction_index == delta.start
            &&& result->Ok_0.source is Canonical <==> delta.snapshot.canonical
        },
{
    let data = delta.snapshot.data;
    falling_gas_is_refused(&*data);
    if !gas_falls(&*data) {
        let (inputs, written) = choose|inputs: Vec<ReceiptInput>, written: Result<Vec<R>, E>|
            {
                &&& inputs@ == data.receipt_inputs_from(delta.start)
                &&& #[trigger] call_ensures(convert, (inputs, &*data), written)
                &&& result == match written {
                    Ok(receipts) => Ok::<Update<R>, Failure<E>>(updated(delta, receipts)),
                    Err(e) => Err(Failure::Outside(e)),
                }
            };
        match written {
            Ok(receipts) => {
                assert(call_ensures(
                    convert,
                    (inputs, &*data),
                    Ok::<Vec<R>, E>(result->Ok_0.receipts),
                ));
            },
            Err(e) => {
                assert(call_ensures(
                    convert,
                    (inputs, &*data),
                    Err::<Vec<R>, E>(result->Err_0->Outside_0),
                ));
            },
        }
    }
}

/// **A batch is written out event by event.** A seal stays as it is, a delta becomes an update as
/// the converter has it, and only a delta can fail.
pub proof fn events_are_written_one_by_one<P, R, E, F>(
    events: Seq<Event<Delta<P>>>,
    convert: F,
    written: Seq<Event<Update<R>>>,
    failure: Failure<E>,
    i: int,
) where F: FnOnce(Vec<ReceiptInput>, &BlockAndReceipts<P>) -> Result<Vec<R>, E>
    requires
        0 <= i < events.len(),
    ensures
        may_convert_up_to::<P, R, E, F>(events, convert, written) ==> written.len() <= events.len(),
        may_convert_up_to::<P, R, E, F>(events, convert, written) && i < written.len() ==> {
            &&& events[i] is Seal <==> written[i] is Seal
            &&& events[i] matches Event::Seal(seal) ==> written[i] == Event::<Update<R>>::Seal(seal)
            &&& events[i] matches Event::Apply(delta) ==> may_convert_to(
                delta,
                convert,
                Ok::<Update<R>, Failure<E>>(written[i]->Apply_0),
            )
        },
        event_may_convert_to(
            events[i],
            convert,
            Err::<Event<Update<R>>, Failure<E>>(failure),
        ) ==> {
            &&& events[i] is Apply
            &&& may_convert_to(
                events[i]->Apply_0,
                convert,
                Err::<Update<R>, Failure<E>>(failure),
            )
        },
{
    if may_convert_up_to::<P, R, E, F>(events, convert, written) && i < written.len() {
        assert(event_may_convert_to(
            events[i],
            convert,
            Ok::<Event<Update<R>>, Failure<E>>(written[i]),
        ));
    }
}

/// **An update names its block, its source and its first transaction**, and holds the receipts that
/// were written.
pub proof fn update_names_its_block<P, R>(delta: Delta<P>, receipts: Vec<R>)
    ensures
        updated(delta, receipts).block_number == delta.snapshot.data.block().number,
        updated(delta, receipts).parent_hash == delta.snapshot.data.block().parent_hash,
        updated(delta, receipts).block_hash == delta.snapshot.data.block().hash,
        updated(delta, receipts).from_transaction_index == delta.start,
        updated(delta, receipts).source is Canonical <==> delta.snapshot.canonical,
        updated(delta, receipts).receipts == receipts,
{
}

} // verus!
