//! Receipts, blocks and what is written out of them.

use alloy_consensus::InMemorySize;
use execution_receipts::convert::{
    convert_delta, convert_events, ReceiptInput, Source, TransactionMeta, Update,
};
use execution_receipts::ledger::{Delta, Event, Seal};
use execution_receipts::primitives::{Address, B256};
use execution_receipts::reason::Reason;
use execution_receipts::receipt::{Log, Receipt, ReceiptKind, Status};
use execution_receipts::recovery::Failure;
use execution_receipts::snapshot::{Block, BlockAndReceipts, Snapshot, Transaction, MAX_BYTES};
use op_alloy_consensus::{OpDepositReceipt, OpReceipt};
use std::sync::Arc;

fn hash(low: u128) -> B256 {
    B256 { high: 0, low }
}

fn log(topics: usize, data: usize) -> Log {
    Log {
        address: Address { high: 1, low: 2 },
        topics: (0..topics).map(|i| hash(i as u128)).collect(),
        data: vec![7; data],
    }
}

fn receipt(kind: ReceiptKind, gas: u64, logs: Vec<Log>) -> Receipt {
    Receipt { kind, status: Status::Eip658(true), cumulative_gas_used: gas, logs }
}

fn block(size: usize, transactions: usize) -> Block<&'static str> {
    Block {
        number: 7,
        hash: hash(70),
        parent_hash: hash(60),
        timestamp: 1234,
        base_fee_per_gas: Some(9),
        excess_blob_gas: None,
        transactions: (0..transactions)
            .map(|i| Transaction {
                hash: hash(1000 + i as u128),
                sender: Address { high: 0, low: 50 + i as u128 },
            })
            .collect(),
        size,
        payload: "rides along",
    }
}

fn snapshot(size: usize, transactions: usize, receipts: Vec<Receipt>) -> Snapshot<&'static str> {
    Snapshot::canonical(Arc::new(BlockAndReceipts::new(block(size, transactions), receipts)))
}

#[test]
fn size_counts_every_part_of_a_receipt() {
    let plain = [
        ReceiptKind::Legacy,
        ReceiptKind::Eip2930,
        ReceiptKind::Eip1559,
        ReceiptKind::Eip7702,
        ReceiptKind::PostExec,
    ];
    for kind in plain {
        assert_eq!(receipt(kind, 0, vec![]).size(), 33 + 8);
        assert_eq!(receipt(kind, u64::MAX, vec![]).size(), 33 + 8);
    }
    for nonce in [None, Some(3)] {
        let deposit = ReceiptKind::Deposit { nonce, version: None };
        assert_eq!(receipt(deposit, 0, vec![]).size(), 33 + 8 + 16 + 16);
    }
    let logs = vec![log(0, 0), log(4, 5)];
    assert_eq!(receipt(ReceiptKind::Legacy, 0, logs).size(), 33 + 8 + 20 + (20 + 4 * 32 + 5));
    let mut old = receipt(ReceiptKind::Legacy, 0, vec![]);
    old.status = Status::PostState(hash(1));
    assert_eq!(old.size(), 33 + 8);
}

#[test]
fn size_agrees_with_the_consensus_library() {
    let logs: Vec<Log> = vec![log(2, 33), log(0, 1)];
    let outside = logs
        .iter()
        .map(|log| {
            alloy_primitives::Log::new_unchecked(
                alloy_primitives::Address::ZERO,
                vec![alloy_primitives::B256::ZERO; log.topics.len()],
                log.data.clone().into(),
            )
        })
        .collect();
    let inner = alloy_consensus::Receipt {
        status: true.into(),
        cumulative_gas_used: 5,
        logs: outside,
    };
    let legacy = OpReceipt::Legacy(inner.clone());
    assert_eq!(receipt(ReceiptKind::Legacy, 5, logs.clone()).size(), legacy.size());
    let deposit = OpReceipt::Deposit(OpDepositReceipt {
        inner,
        deposit_nonce: Some(1),
        deposit_receipt_version: None,
    });
    let kind = ReceiptKind::Deposit { nonce: Some(1), version: None };
    assert_eq!(receipt(kind, 5, logs).size(), deposit.size());
}

#[test]
fn size_of_a_log() {
    assert_eq!(log(0, 0).size(), 20);
    assert_eq!(log(3, 100).size(), 20 + 96 + 100);
}

#[test]
fn every_field_tells_receipts_apart() {
    let base = || receipt(ReceiptKind::Eip1559, 5, vec![log(1, 1)]);
    assert!(base().same(&base()));
    let mut other = base();
    other.kind = ReceiptKind::Eip2930;
    assert!(!base().same(&other));
    let mut other = base();
    other.status = Status::Eip658(false);
    assert!(!base().same(&other));
    let mut other = base();
    other.status = Status::PostState(hash(0));
    assert!(!base().same(&other));
    let mut other = base();
    other.cumulative_gas_used = 6;
    assert!(!base().same(&other));
    let mut other = base();
    other.logs.push(log(0, 0));
    assert!(!base().same(&other) && !other.same(&base()));
    let mut other = base();
    other.logs[0].address.low = 3;
    assert!(!base().same(&other));
    let mut other = base();
    other.logs[0].topics[0] = hash(9);
    assert!(!base().same(&other));
    let mut other = base();
    other.logs[0].topics.clear();
    assert!(!base().same(&other));
    let mut other = base();
    other.logs[0].data[0] = 8;
    assert!(!base().same(&other));
    let mut other = base();
    other.logs[0].data.push(0);
    assert!(!base().same(&other));
    let deposit = |version| ReceiptKind::Deposit { nonce: Some(1), version };
    assert!(!receipt(deposit(None), 5, vec![]).same(&receipt(deposit(Some(1)), 5, vec![])));
}

#[test]
fn a_block_and_its_receipts_are_measured_together() {
    let one = snapshot(1000, 1, vec![receipt(ReceiptKind::Legacy, 1, vec![log(0, 9)])]);
    assert_eq!(one.bytes(), 1000 + 41 + 29);
    assert_eq!(one.data.bytes(), one.bytes());
    assert_eq!(one.data.block().payload, "rides along");
    assert_eq!(one.data.receipts().len(), 1);
    let huge = snapshot(usize::MAX, 1, vec![receipt(ReceiptKind::Legacy, 1, vec![])]);
    assert_eq!(huge.bytes(), usize::MAX);
}

#[test]
fn the_byte_budget_is_met_exactly() {
    let receipts = || vec![receipt(ReceiptKind::Legacy, 1, vec![])];
    assert_eq!(snapshot(MAX_BYTES - 41, 1, receipts()).validate(), Ok(()));
    assert_eq!(snapshot(MAX_BYTES - 40, 1, receipts()).validate(), Err(Reason::BufferLimit));
    // A missing receipt is found before the size is.
    assert_eq!(snapshot(MAX_BYTES + 1, 1, vec![]).validate(), Err(Reason::ReceiptCountMismatch));
    assert_eq!(snapshot(0, 0, receipts()).validate(), Err(Reason::ReceiptCountMismatch));
}

#[test]
fn snapshots_know_where_they_come_from() {
    let data = Arc::new(BlockAndReceipts::new(block(0, 0), vec![]));
    let canonical = Snapshot::canonical(data.clone());
    assert!(canonical.canonical && canonical.computed_hash);
    assert_eq!(canonical.publication_id, 0);
    let pending = Snapshot::pending(data.clone(), false, 5);
    assert!(!pending.canonical && !pending.computed_hash);
    assert_eq!(pending.publication_id, 5);
    assert!(Snapshot::pending(data, true, 6).computed_hash);
    assert_eq!((pending.number(), pending.hash(), pending.parent()), (7, hash(70), hash(60)));
    assert_eq!(pending.len(), 0);
}

#[test]
fn only_an_unchanged_prefix_is_extended() {
    let plain = |gas| receipt(ReceiptKind::Legacy, gas, vec![]);
    let two = |gas| vec![plain(1), plain(gas)];
    let short = snapshot(0, 1, vec![plain(1)]);
    let long = snapshot(0, 2, two(2));
    assert!(long.extends(&short) && long.extends(&long));
    assert!(!short.extends(&long));
    assert!(!snapshot(0, 2, two(3)).extends(&long));
    let mut moved = block(0, 2);
    moved.parent_hash = hash(61);
    let moved = Snapshot::canonical(Arc::new(BlockAndReceipts::new(moved, two(2))));
    assert!(!moved.extends(&short));
    let mut swapped = block(0, 2);
    swapped.transactions.swap(0, 1);
    let swapped = Snapshot::canonical(Arc::new(BlockAndReceipts::new(swapped, two(2))));
    assert!(!swapped.extends(&short));
    // The hash of a block that is still being built changes with every transaction.
    let mut renamed = block(0, 2);
    renamed.hash = hash(71);
    let renamed = Snapshot::canonical(Arc::new(BlockAndReceipts::new(renamed, two(2))));
    assert!(renamed.extends(&long));
}

fn three() -> Vec<Receipt> {
    vec![
        receipt(ReceiptKind::Legacy, 21_000, vec![log(0, 0), log(0, 0)]),
        receipt(ReceiptKind::Legacy, 51_000, vec![]),
        receipt(ReceiptKind::Legacy, 51_000, vec![log(0, 0)]),
    ]
}

fn input(index: u64, gas_used: u64, next_log_index: usize) -> ReceiptInput {
    ReceiptInput {
        sender: Address { high: 0, low: 50 + index as u128 },
        gas_used,
        next_log_index,
        meta: TransactionMeta {
            tx_hash: hash(1000 + index as u128),
            index,
            block_hash: hash(70),
            block_number: 7,
            base_fee: Some(9),
            timestamp: 1234,
            excess_blob_gas: None,
        },
    }
}

#[test]
fn receipts_are_written_out_with_their_own_gas_and_log_index() {
    let delta = |start| Delta { snapshot: snapshot(0, 3, three()), start };
    let whole = delta(0).receipt_inputs().unwrap();
    assert_eq!(whole, vec![input(0, 21_000, 0), input(1, 30_000, 2), input(2, 0, 2)]);
    // The gas of single transactions adds up to the counter of the block.
    assert_eq!(whole.iter().map(|input| input.gas_used).sum::<u64>(), 51_000);
    // A part is written out like the whole.
    for start in 0..=3 {
        assert_eq!(delta(start).receipt_inputs().unwrap(), whole[start..].to_vec());
    }
}

#[test]
fn a_falling_gas_counter_is_refused() {
    let mut receipts = three();
    receipts[1].cumulative_gas_used = 20_999;
    // Receipts that were delivered before are checked too.
    for start in 0..=3 {
        let delta = Delta { snapshot: snapshot(0, 3, receipts.clone()), start };
        assert_eq!(delta.receipt_inputs(), Err(Reason::InvalidCumulativeGas));
        let converted: Result<Update<u64>, Failure<String>> =
            convert_delta(delta, |_, _| panic!("nothing to write out"));
        assert!(matches!(converted, Err(Failure::Rule(Reason::InvalidCumulativeGas))));
    }
}

#[test]
fn an_update_names_its_block_and_source() {
    let delta = Delta { snapshot: snapshot(0, 3, three()), start: 2 };
    let update = convert_delta(delta, |inputs, data| -> Result<Vec<(u64, usize)>, String> {
        assert_eq!(data.block().payload, "rides along");
        Ok(inputs.iter().map(|input| (input.meta.index, data.receipts().len())).collect())
    })
    .unwrap();
    assert_eq!(update.block_number, 7);
    assert_eq!(update.block_hash, hash(70));
    assert_eq!(update.parent_hash, hash(60));
    assert_eq!(update.source, Source::Canonical);
    assert_eq!(update.from_transaction_index, 2);
    assert_eq!(update.receipts, vec![(2, 3)]);

    let mut pending = Delta { snapshot: snapshot(0, 3, three()), start: 3 };
    pending.snapshot.canonical = false;
    let update = convert_delta(pending, |inputs, _| Ok::<_, String>(inputs)).unwrap();
    assert_eq!(update.source, Source::Pending);
    assert!(update.receipts.is_empty());
}

#[test]
fn a_converter_that_fails_is_reported() {
    let delta = Delta { snapshot: snapshot(0, 3, three()), start: 0 };
    let result: Result<Update<u64>, _> = convert_delta(delta, |_, _| Err("no fee data"));
    assert!(matches!(result, Err(Failure::Outside("no fee data"))));
}

#[test]
fn a_batch_is_written_out_in_order() {
    let seal = Seal {
        block_number: 7,
        block_hash: hash(70),
        parent_hash: hash(60),
        transaction_count: 3,
    };
    let apply = |start| Event::Apply(Delta { snapshot: snapshot(0, 3, three()), start });
    let indexes = |inputs: Vec<ReceiptInput>, _: &BlockAndReceipts<&str>| {
        Ok::<Vec<u64>, String>(inputs.iter().map(|input| input.meta.index).collect())
    };
    let written = convert_events(vec![apply(1), Event::Seal(seal), apply(0)], indexes).unwrap();
    assert_eq!(written.len(), 3);
    assert!(matches!(&written[0], Event::Apply(update) if update.receipts == vec![1, 2]));
    assert!(matches!(&written[1], Event::Seal(found) if *found == seal));
    assert!(matches!(&written[2], Event::Apply(update) if update.receipts == vec![0, 1, 2]));

    let picky = |inputs: Vec<ReceiptInput>, _: &BlockAndReceipts<&str>| {
        if inputs.len() == 2 { Err("two at once") } else { Ok(inputs) }
    };
    let refused = convert_events(vec![apply(0), apply(1), apply(2)], picky);
    assert!(matches!(refused, Err(Failure::Outside("two at once"))));
}

#[test]
fn logs_of_a_valid_block_fit_the_budget() {
    let logs: Vec<Log> = (0..1000).map(|_| log(0, 0)).collect();
    let full = snapshot(0, 1, vec![receipt(ReceiptKind::Legacy, 1, logs)]);
    assert_eq!(full.validate(), Ok(()));
    assert_eq!(full.bytes(), 41 + 20 * 1000);
}
