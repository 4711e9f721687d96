//! The feed over blocks with real hashes and sizes.

use alloy_consensus::{Header, InMemorySize, TxLegacy};
use alloy_primitives::{Signature, U256};
use execution_receipts::convert::{Source, Update};
use execution_receipts::ledger::{Delta, Event, Seal, MAX_BLOCKS, MAX_RECOVERY_BLOCKS};
use execution_receipts::params::check_params;
use execution_receipts::primitives::{Address, BlockNumHash, B256};
use execution_receipts::receipt::{Log, Receipt, ReceiptKind, Status};
use execution_receipts::recovery::{read_canonical_successor, Failure};
use execution_receipts::sequence::ReceiptSequence;
use execution_receipts::snapshot::{Block, BlockAndReceipts, Snapshot, Transaction, MAX_BYTES};
use execution_receipts::wire::{batch_message, Json};
use op_alloy_consensus::{OpBlock, OpTxEnvelope, OpTypedTransaction};
use reth_primitives_traits::RecoveredBlock;
use serde_json::Value;
use std::sync::Arc;

const ZERO: B256 = B256 { high: 0, low: 0 };
const NOBODY: Address = Address { high: 0, low: 0 };

fn repeat_byte(byte: u8) -> B256 {
    let half = u128::from_be_bytes([byte; 16]);
    B256 { high: half, low: half }
}

fn from_word(word: alloy_primitives::B256) -> B256 {
    B256 {
        high: u128::from_be_bytes(word[..16].try_into().unwrap()),
        low: u128::from_be_bytes(word[16..].try_into().unwrap()),
    }
}

fn to_word(hash: B256) -> alloy_primitives::B256 {
    let halves = [hash.high.to_be_bytes(), hash.low.to_be_bytes()];
    alloy_primitives::B256::from_slice(&halves.concat())
}

fn legacy(success: bool, cumulative_gas_used: u64) -> Receipt {
    Receipt {
        kind: ReceiptKind::Legacy,
        status: Status::Eip658(success),
        cumulative_gas_used,
        logs: Vec::new(),
    }
}

fn snapshot(
    number: u64,
    parent: B256,
    ids: &[u64],
    publication_id: u64,
    canonical: bool,
) -> Snapshot<()> {
    let txs: Vec<OpTxEnvelope> = ids
        .iter()
        .map(|&nonce| {
            OpTxEnvelope::new_unhashed(
                OpTypedTransaction::Legacy(TxLegacy {
                    nonce,
                    gas_limit: 21_000,
                    ..Default::default()
                }),
                Signature::new(U256::from(1), U256::from(2), false),
            )
        })
        .collect();
    let transactions = txs
        .iter()
        .map(|tx| Transaction { hash: from_word(tx.tx_hash()), sender: NOBODY })
        .collect();
    let block = OpBlock {
        header: Header { number, parent_hash: to_word(parent), ..Default::default() },
        body: alloy_consensus::BlockBody { transactions: txs, ..Default::default() },
    };
    let senders = vec![alloy_primitives::Address::ZERO; ids.len()];
    let block = RecoveredBlock::new_unhashed(block, senders);
    let receipts = (0..ids.len()).map(|i| legacy(true, (i as u64 + 1) * 21_000)).collect();
    let block = Block {
        number,
        hash: from_word(block.hash()),
        parent_hash: parent,
        timestamp: 0,
        base_fee_per_gas: None,
        excess_blob_gas: None,
        transactions,
        size: block.size(),
        payload: (),
    };
    Snapshot {
        data: Arc::new(BlockAndReceipts::new(block, receipts)),
        canonical,
        computed_hash: canonical,
        publication_id,
    }
}

/// The same block with other receipts.
fn with_receipts(snapshot: Snapshot<()>, receipts: Vec<Receipt>) -> Snapshot<()> {
    let block = snapshot.data.block();
    let block = Block {
        number: block.number,
        hash: block.hash,
        parent_hash: block.parent_hash,
        timestamp: block.timestamp,
        base_fee_per_gas: block.base_fee_per_gas,
        excess_blob_gas: block.excess_blob_gas,
        transactions: block.transactions.clone(),
        size: block.size,
        payload: (),
    };
    Snapshot { data: Arc::new(BlockAndReceipts::new(block, receipts)), ..snapshot }
}

fn sequence() -> ReceiptSequence<()> {
    ReceiptSequence::new(BlockNumHash::new(99, ZERO))
}

fn event_positions(events: &[Event<Delta<()>>]) -> Vec<(&'static str, u64, usize, usize)> {
    events
        .iter()
        .map(|event| match event {
            Event::Apply(d) => ("apply", d.snapshot.number(), d.start, d.snapshot.len()),
            Event::Seal(s) => ("seal", s.block_number, s.transaction_count, s.transaction_count),
        })
        .collect()
}

#[test]
fn cumulative_pending_only_emits_new_receipts() {
    let mut s = sequence();
    assert_eq!(
        event_positions(&s.pending(snapshot(100, ZERO, &[1, 2], 1, false)).unwrap()),
        vec![("apply", 100, 0, 2)]
    );
    assert_eq!(
        event_positions(&s.pending(snapshot(100, ZERO, &[1, 2, 3, 4], 2, false)).unwrap()),
        vec![("apply", 100, 2, 4)]
    );
}

#[test]
fn equal_transaction_hashes_do_not_hide_execution_mismatch() {
    let mut s = sequence();
    s.pending(snapshot(100, ZERO, &[1], 1, false)).unwrap();
    let full = with_receipts(snapshot(100, ZERO, &[1], 0, true), vec![legacy(false, 21_000)]);
    assert_eq!(s.canonical(full).unwrap_err().as_str(), "execution_mismatch");
}

#[test]
fn reordered_transactions_reset_even_when_receipts_match() {
    let mut s = sequence();
    s.pending(snapshot(100, ZERO, &[1, 2], 1, false)).unwrap();
    assert_eq!(
        s.canonical(snapshot(100, ZERO, &[2, 1], 0, true)).unwrap_err().as_str(),
        "execution_mismatch"
    );
}

#[test]
fn pending_prefix_changes_reset() {
    let mut s = sequence();
    s.pending(snapshot(100, ZERO, &[1, 2], 1, false)).unwrap();
    assert_eq!(
        s.pending(snapshot(100, ZERO, &[1, 3], 2, false)).unwrap_err().as_str(),
        "pending_prefix_changed"
    );
}

#[test]
fn uncomputed_parent_needs_canonical_confirmation() {
    let mut s = sequence();
    let parent = snapshot(100, ZERO, &[1], 1, false);
    s.pending(parent.clone()).unwrap();
    assert!(s.pending(snapshot(101, parent.hash(), &[2], 2, false)).unwrap().is_empty());
    let mut canonical = parent;
    canonical.canonical = true;
    assert_eq!(
        event_positions(&s.canonical(canonical).unwrap()),
        vec![("seal", 100, 1, 1), ("apply", 101, 0, 1)]
    );
}

#[test]
fn mismatching_child_parent_never_bypasses_ordering() {
    let mut s = sequence();
    let mut parent = snapshot(100, ZERO, &[1], 1, false);
    parent.computed_hash = true;
    s.pending(parent.clone()).unwrap();
    assert!(s.pending(snapshot(101, repeat_byte(7), &[2], 2, false)).unwrap().is_empty());
    parent.canonical = true;
    assert_eq!(s.canonical(parent).unwrap_err().as_str(), "pending_parent_changed");
}

#[test]
fn extending_parent_after_child_was_published_resets() {
    let mut s = sequence();
    let mut parent = snapshot(100, ZERO, &[1], 1, false);
    parent.computed_hash = true;
    s.pending(parent.clone()).unwrap();
    s.pending(snapshot(101, parent.hash(), &[2], 2, false)).unwrap();
    assert_eq!(
        s.pending(snapshot(100, ZERO, &[1, 3], 3, false)).unwrap_err().as_str(),
        "published_parent_changed"
    );
}

#[test]
fn latest_snapshot_can_overtake_queued_older_publications() {
    let mut s = sequence();
    s.pending(snapshot(100, ZERO, &[1, 2, 3], 3, false)).unwrap();
    assert!(s.pending(snapshot(100, ZERO, &[1], 1, false)).unwrap().is_empty());
    assert!(s.pending(snapshot(100, ZERO, &[1, 2], 2, false)).unwrap().is_empty());
    assert_eq!(s.emitted[&100].len(), 3);
}

#[test]
fn receipt_count_mismatch_is_terminal() {
    let mut s = sequence();
    let p = with_receipts(snapshot(100, ZERO, &[1], 1, false), Vec::new());
    assert_eq!(s.pending(p).unwrap_err().as_str(), "receipt_count_mismatch");
}

#[test]
fn empty_canonical_blocks_advance_the_anchor() {
    let mut s = sequence();
    let empty = snapshot(100, ZERO, &[], 0, true);
    assert_eq!(event_positions(&s.canonical(empty.clone()).unwrap()), vec![("seal", 100, 0, 0)]);
    assert_eq!(
        event_positions(&s.pending(snapshot(101, empty.hash(), &[1], 1, false)).unwrap()),
        vec![("apply", 101, 0, 1)]
    );
}

#[test]
fn changed_canonical_anchor_resets() {
    let mut s = sequence();
    assert_eq!(
        s.canonical(snapshot(99, ZERO, &[], 0, true)).unwrap_err().as_str(),
        "canonical_reorg"
    );
    assert_eq!(
        s.canonical(snapshot(100, repeat_byte(1), &[], 0, true)).unwrap_err().as_str(),
        "canonical_parent_mismatch"
    );
}

fn words(failure: Failure<eyre::Report>) -> String {
    match failure {
        Failure::Rule(reason) => reason.as_str().to_string(),
        Failure::Outside(error) => error.to_string(),
    }
}

fn read_from_blocks(
    blocks: &[Snapshot<()>],
    anchor: BlockNumHash,
) -> Result<Option<Snapshot<()>>, Failure<eyre::Report>> {
    read_canonical_successor(
        anchor,
        |number| Ok(blocks.iter().find(|b| b.number() == number).map(Snapshot::hash)),
        |hash| {
            blocks
                .iter()
                .find(|b| b.hash() == hash)
                .cloned()
                .ok_or_else(|| eyre::Report::msg("canonical_block_unavailable"))
        },
    )
}

#[test]
fn backfill_gap_larger_than_pending_buffer_preserves_receipt_order() {
    let anchor = snapshot(99, ZERO, &[], 0, true);
    let mut state = ReceiptSequence::new(BlockNumHash::new(99, anchor.hash()));
    let mut parent = anchor.hash();
    let mut blocks = Vec::new();
    for number in 100..=168 {
        let block = snapshot(number, parent, &[number, number + 1], 0, true);
        parent = block.hash();
        blocks.push(block);
    }

    // One transaction of the first block and a pending child are already known.
    let mut events = state.pending(snapshot(100, anchor.hash(), &[100], 1, false)).unwrap();
    assert!(state.pending(snapshot(101, blocks[0].hash(), &[101], 2, false)).unwrap().is_empty());
    let notification = blocks.last().unwrap().clone();
    let stored = std::iter::once(anchor).chain(blocks.iter().cloned()).collect::<Vec<_>>();
    assert_eq!(state.canonical(notification.clone()).unwrap_err().as_str(), "canonical_gap");

    // Canonical input skips 68 predecessors, as happens when backfill writes straight to DB.
    while state.needs_recovery(Some(&notification), None).unwrap() {
        let next = read_from_blocks(&stored, state.anchor).unwrap().unwrap();
        assert_eq!(next.number(), state.anchor.number + 1);
        events.extend(state.canonical(next).unwrap());
    }
    events.extend(state.canonical(notification).unwrap());

    let mut receipts = Vec::new();
    let mut seals = Vec::new();
    for event in &events {
        match event {
            Event::Apply(delta) => receipts.extend(
                (delta.start..delta.snapshot.len()).map(|i| (delta.snapshot.number(), i)),
            ),
            Event::Seal(seal) => {
                assert_eq!(receipts.iter().filter(|(n, _)| *n == seal.block_number).count(), 2);
                seals.push(seal.block_number);
            }
        }
    }
    assert_eq!(receipts, (100..=168).flat_map(|n| [(n, 0), (n, 1)]).collect::<Vec<_>>());
    assert_eq!(seals, (100..=168).collect::<Vec<_>>());
    // Delayed canonical notifications and stale pending data cannot replay anything.
    for block in blocks {
        assert!(state.canonical(block).unwrap().is_empty());
    }
    assert!(state.pending(snapshot(101, ZERO, &[999], 3, false)).unwrap().is_empty());
}

#[test]
fn recovery_rejects_changed_anchor_and_disconnected_successor() {
    let anchor = snapshot(99, ZERO, &[], 0, true);
    assert_eq!(
        words(
            read_from_blocks(std::slice::from_ref(&anchor), BlockNumHash::new(99, ZERO))
                .unwrap_err()
        ),
        "canonical_anchor_changed"
    );

    let position = BlockNumHash::new(99, anchor.hash());
    assert!(read_from_blocks(std::slice::from_ref(&anchor), position).unwrap().is_none());
    let next = snapshot(100, repeat_byte(1), &[], 0, true);
    assert_eq!(
        words(read_from_blocks(&[anchor, next], position).unwrap_err()),
        "canonical_parent_mismatch"
    );
}

#[test]
fn recovery_requires_block_and_receipts_and_checks_pending_execution() {
    let anchor = snapshot(99, ZERO, &[], 0, true);
    let position = BlockNumHash::new(99, anchor.hash());
    let next = snapshot(100, anchor.hash(), &[1, 2], 0, true);
    let hashes = |n: u64| -> Result<Option<B256>, eyre::Report> {
        Ok(Some(if n == 99 { anchor.hash() } else { next.hash() }))
    };
    for reason in ["canonical_block_unavailable", "canonical_receipts_unavailable"] {
        let read: Result<Option<Snapshot<()>>, _> =
            read_canonical_successor(position, hashes, |_| Err(eyre::Report::msg(reason)));
        assert_eq!(words(read.unwrap_err()), reason);
    }
    let incomplete = with_receipts(next.clone(), vec![]);
    let recovered =
        read_canonical_successor(position, hashes, |_| Ok(incomplete)).unwrap().unwrap();
    let mut state = ReceiptSequence::new(position);
    assert_eq!(state.canonical(recovered).unwrap_err().as_str(), "receipt_count_mismatch");
    assert_eq!(state.anchor, position);
    state.pending(snapshot(100, anchor.hash(), &[3], 1, false)).unwrap();
    let recovered = read_from_blocks(&[anchor, next], position).unwrap().unwrap();
    assert_eq!(state.canonical(recovered).unwrap_err().as_str(), "execution_mismatch");
    assert_eq!(state.anchor, position);
}

#[test]
fn recovery_detects_a_branch_change_during_reads() {
    let anchor = snapshot(99, ZERO, &[], 0, true);
    let next = snapshot(100, anchor.hash(), &[], 0, true);
    let position = BlockNumHash::new(99, anchor.hash());
    for changed_height in [99, 100] {
        let mut reads = 0;
        let result: Result<Option<Snapshot<()>>, Failure<eyre::Report>> = read_canonical_successor(
            position,
            |n| {
                reads += 1;
                Ok(Some(if reads > 2 && n == changed_height {
                    repeat_byte(7)
                } else if n == 99 {
                    anchor.hash()
                } else {
                    next.hash()
                }))
            },
            |_| Ok(next.clone()),
        );
        assert_eq!(
            words(result.unwrap_err()),
            if changed_height == 99 {
                "canonical_anchor_changed"
            } else {
                "canonical_successor_changed"
            }
        );
    }
}

#[test]
fn recovery_is_bounded_and_only_fills_predecessors() {
    let state = sequence();
    let needs = |next: Option<&Snapshot<()>>, target: Option<u64>| {
        state.needs_recovery(next, target).map_err(|reason| reason.as_str())
    };
    let next = snapshot(100, ZERO, &[], 0, true);
    // Process a contiguous notification before a pending child's later recovery target.
    assert_eq!(needs(Some(&next), Some(200)), Ok(false));
    let boundary = state.anchor.number + MAX_RECOVERY_BLOCKS;
    assert_eq!(needs(None, Some(boundary)), Ok(true));
    assert_eq!(needs(None, Some(boundary + 1)), Err("canonical_recovery_limit"));
    let next = snapshot(boundary + 1, ZERO, &[], 0, true);
    assert_eq!(needs(Some(&next), None), Ok(true));
    let too_far = snapshot(boundary + 2, ZERO, &[], 0, true);
    assert_eq!(needs(Some(&too_far), None), Err("canonical_recovery_limit"));
    assert_eq!(needs(None, Some(99)), Ok(false));
}

#[test]
fn recovery_preserves_empty_block_seals() {
    let anchor = snapshot(99, ZERO, &[], 0, true);
    let first = snapshot(100, anchor.hash(), &[], 0, true);
    let second = snapshot(101, first.hash(), &[], 0, true);
    let mut state = ReceiptSequence::new(BlockNumHash::new(99, anchor.hash()));
    let recovered = read_from_blocks(&[anchor, first], state.anchor).unwrap().unwrap();
    assert_eq!(event_positions(&state.canonical(recovered).unwrap()), vec![("seal", 100, 0, 0)]);
    assert_eq!(event_positions(&state.canonical(second).unwrap()), vec![("seal", 101, 0, 0)]);
}

#[test]
fn waiting_blocks_have_a_hard_bound() {
    let mut s = sequence();
    for i in 0..MAX_BLOCKS {
        assert!(s
            .pending(snapshot(200 + i as u64, ZERO, &[], i as u64 + 1, false))
            .unwrap()
            .is_empty());
    }
    assert_eq!(
        s.pending(snapshot(999, ZERO, &[], 100, false)).unwrap_err().as_str(),
        "buffer_limit"
    );
}

#[test]
fn replacing_a_snapshot_at_capacity_does_not_take_another_slot() {
    let mut s = sequence();
    let mut parent = ZERO;
    for i in 0..MAX_BLOCKS {
        let mut p = snapshot(100 + i as u64, parent, &[i as u64], i as u64 + 1, false);
        p.computed_hash = true;
        parent = p.hash();
        s.pending(p).unwrap();
    }
    let mut replacement = s.emitted.last_key_value().unwrap().1.clone();
    replacement.publication_id += 1;
    assert!(s.pending(replacement).unwrap().is_empty());
    assert_eq!(s.emitted.len(), MAX_BLOCKS);
    assert_eq!(
        s.pending(snapshot(100 + MAX_BLOCKS as u64, parent, &[99], 100, false))
            .unwrap_err()
            .as_str(),
        "buffer_limit"
    );
}

#[test]
fn retained_receipts_still_obey_the_total_byte_budget() {
    let mut s = sequence();
    for i in 0..2 {
        let mut receipt = legacy(true, 21_000);
        receipt.logs.push(Log {
            address: NOBODY,
            topics: Vec::new(),
            data: vec![0_u8; MAX_BYTES / 2],
        });
        let p = with_receipts(snapshot(200 + i, ZERO, &[i], i + 1, false), vec![receipt]);
        assert!(p.bytes() < MAX_BYTES);
        if i == 0 {
            assert!(s.pending(p).unwrap().is_empty());
        } else {
            assert_eq!(s.pending(p).unwrap_err().as_str(), "buffer_limit");
        }
    }
}

#[test]
fn subscription_accepts_no_options() {
    for raw in [None, Some("[]")] {
        assert!(check_params(raw).is_ok());
    }
    for raw in [r#"[{"version":2}]"#, r#"[{"resume":10}]"#, "[{}]", "[null]", "{}", "[1,2]"] {
        assert_eq!(check_params(Some(raw)).unwrap_err().code, -32602, "{raw}");
    }
}

#[test]
fn repairs_then_seals_before_releasing_child() {
    let mut s = sequence();
    s.pending(snapshot(100, ZERO, &[1], 1, false)).unwrap();
    let parent = snapshot(100, ZERO, &[1, 2], 0, true);
    let parent_hash = parent.hash();
    assert!(s.pending(snapshot(101, parent_hash, &[3], 2, false)).unwrap().is_empty());

    let events = s.canonical(parent.clone()).unwrap();
    assert_eq!(
        event_positions(&events),
        vec![("apply", 100, 1, 2), ("seal", 100, 2, 2), ("apply", 101, 0, 1)]
    );
    let Event::Seal(seal) = &events[1] else { panic!("missing seal") };
    assert_eq!(seal.block_hash, parent_hash);
    assert_eq!(seal.parent_hash, ZERO);
    assert!(s.canonical(parent).unwrap().is_empty());
}

#[test]
fn full_pending_only_needs_one_seal() {
    let mut s = sequence();
    s.pending(snapshot(100, ZERO, &[1, 2], 1, false)).unwrap();
    let parent = snapshot(100, ZERO, &[1, 2], 0, true);
    assert_eq!(event_positions(&s.canonical(parent.clone()).unwrap()), vec![("seal", 100, 2, 2)]);
    assert!(s.canonical(parent).unwrap().is_empty());
}

#[test]
fn empty_canonical_blocks_are_explicit_and_contiguous() {
    let mut s = sequence();
    let empty = snapshot(100, ZERO, &[], 0, true);
    let empty_hash = empty.hash();
    assert_eq!(event_positions(&s.canonical(empty).unwrap()), vec![("seal", 100, 0, 0)]);
    let next = snapshot(101, empty_hash, &[], 0, true);
    let events = s.canonical(next).unwrap();
    assert_eq!(event_positions(&events), vec![("seal", 101, 0, 0)]);
    let Event::Seal(seal) = &events[0] else { panic!("missing seal") };
    assert_eq!(seal.parent_hash, empty_hash);
}

#[test]
fn seal_after_speculative_child_does_not_replay_child() {
    let mut s = sequence();
    let mut parent = snapshot(100, ZERO, &[1], 1, false);
    parent.computed_hash = true;
    s.pending(parent.clone()).unwrap();
    assert_eq!(
        event_positions(&s.pending(snapshot(101, parent.hash(), &[2], 2, false)).unwrap()),
        vec![("apply", 101, 0, 1)]
    );
    parent.canonical = true;
    assert_eq!(event_positions(&s.canonical(parent).unwrap()), vec![("seal", 100, 1, 1)]);
    assert_eq!(s.emitted[&101].len(), 1);
}

#[test]
fn zero_transaction_pending_has_context_without_repeated_empty_updates() {
    let mut s = sequence();
    let mut parent = snapshot(100, ZERO, &[], 1, false);
    parent.computed_hash = true;
    assert_eq!(
        event_positions(&s.pending(parent.clone()).unwrap()),
        vec![("apply", 100, 0, 0)]
    );
    parent.publication_id = 2;
    assert!(s.pending(parent.clone()).unwrap().is_empty());
    assert_eq!(
        event_positions(&s.pending(snapshot(101, parent.hash(), &[1], 3, false)).unwrap()),
        vec![("apply", 101, 0, 1)]
    );
    parent.canonical = true;
    assert_eq!(event_positions(&s.canonical(parent).unwrap()), vec![("seal", 100, 0, 0)]);
}

#[test]
fn missing_block_is_applied_and_sealed_before_child() {
    let mut s = sequence();
    let parent = snapshot(100, ZERO, &[1, 2], 0, true);
    assert!(s.pending(snapshot(101, parent.hash(), &[3], 1, false)).unwrap().is_empty());
    assert_eq!(
        event_positions(&s.canonical(parent).unwrap()),
        vec![("apply", 100, 0, 2), ("seal", 100, 2, 2), ("apply", 101, 0, 1)]
    );
}

#[test]
fn conflict_cannot_confirm_or_release_child() {
    let mut s = sequence();
    s.pending(snapshot(100, ZERO, &[1], 1, false)).unwrap();
    let parent = with_receipts(snapshot(100, ZERO, &[1], 0, true), vec![legacy(false, 21_000)]);
    s.pending(snapshot(101, parent.hash(), &[2], 2, false)).unwrap();
    assert_eq!(s.canonical(parent).unwrap_err().as_str(), "execution_mismatch");
    assert_eq!(s.anchor.number, 99);
    assert!(!s.emitted.contains_key(&101));
}

fn to_value(json: &Json<Value>) -> Value {
    match json {
        Json::Null => Value::Null,
        Json::Number(n) => Value::from(*n),
        Json::Text(text) => Value::from(text.as_str()),
        Json::Hash(hash) => serde_json::to_value(to_word(*hash)).unwrap(),
        Json::Receipt(receipt) => receipt.clone(),
        Json::Array(items) => Value::Array(items.iter().map(to_value).collect()),
        Json::Object(fields) => {
            Value::Object(fields.iter().map(|(k, v)| (k.to_string(), to_value(v))).collect())
        }
    }
}

#[test]
fn wire_events_keep_order_and_do_not_nest_apply_fields() {
    let receipt: Value = serde_json::from_str(r#"{"transactionIndex":"0x2","logs":[]}"#).unwrap();
    let events = vec![
        Event::Apply(Update {
            block_number: 100,
            parent_hash: ZERO,
            block_hash: repeat_byte(1),
            source: Source::Canonical,
            from_transaction_index: 2,
            receipts: vec![receipt],
        }),
        Event::Seal(Seal {
            block_number: 100,
            block_hash: repeat_byte(1),
            parent_hash: ZERO,
            transaction_count: 3,
        }),
    ];
    let wire = to_value(&batch_message("session", 1, events));
    let expected: Value = serde_json::from_str(
        r#"{"type":"batch","sessionId":"session","sequence":1,"events":[
            {"type":"apply","blockNumber":100,
             "parentHash":"0x0000000000000000000000000000000000000000000000000000000000000000",
             "blockHash":"0x0101010101010101010101010101010101010101010101010101010101010101",
             "source":"canonical","fromTransactionIndex":2,
             "receipts":[{"transactionIndex":"0x2","logs":[]}]},
            {"type":"seal","blockNumber":100,
             "blockHash":"0x0101010101010101010101010101010101010101010101010101010101010101",
             "parentHash":"0x0000000000000000000000000000000000000000000000000000000000000000",
             "transactionCount":3}
        ]}"#,
    )
    .unwrap();
    assert_eq!(wire, expected);
}

#[test]
fn every_pending_prefix_reconciles_without_replaying_receipts() {
    for parent_len in 0..=3 {
        for child_len in 0..=3 {
            for publish_parent in [false, true] {
                let mut state = sequence();
                let parent = snapshot(100, ZERO, &[1, 2, 3], 0, true);
                let child = snapshot(101, parent.hash(), &[4, 5, 6], 0, true);
                let mut events = Vec::new();
                if publish_parent {
                    let p = snapshot(100, ZERO, &[1, 2, 3][..parent_len], 1, false);
                    events.extend(state.pending(p.clone()).unwrap());
                    assert!(state.pending(p).unwrap().is_empty());
                }
                let p = snapshot(101, parent.hash(), &[4, 5, 6][..child_len], 2, false);
                events.extend(state.pending(p.clone()).unwrap());
                assert!(state.pending(p).unwrap().is_empty());
                events.extend(state.canonical(parent.clone()).unwrap());
                events.extend(state.canonical(child.clone()).unwrap());
                assert!(state.canonical(parent).unwrap().is_empty());
                assert!(state.canonical(child).unwrap().is_empty());
                assert!(state.pending(snapshot(101, ZERO, &[], 3, false)).unwrap().is_empty());
                let mut positions = Vec::new();
                let mut seals = Vec::new();
                for event in events {
                    match event {
                        Event::Apply(delta) => positions.extend(
                            (delta.start..delta.snapshot.len())
                                .map(|i| (delta.snapshot.number(), i)),
                        ),
                        Event::Seal(seal) => {
                            assert_eq!(
                                positions.iter().filter(|(n, _)| *n == seal.block_number).count(),
                                seal.transaction_count
                            );
                            seals.push(seal.block_number);
                        }
                    }
                }
                assert_eq!(
                    positions,
                    vec![(100, 0), (100, 1), (100, 2), (101, 0), (101, 1), (101, 2)]
                );
                assert_eq!(seals, vec![100, 101]);
            }
        }
    }
}
