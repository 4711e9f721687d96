//! The course of a subscription.

use execution_receipts::ledger::{Event, MAX_RECOVERY_BLOCKS};
use execution_receipts::primitives::{Address, BlockNumHash, B256};
use execution_receipts::reason::Reason;
use execution_receipts::receipt::{Receipt, ReceiptKind, Status};
use execution_receipts::recovery::Failure;
use execution_receipts::session::{Position, Reset, Signal};
use execution_receipts::snapshot::{Block, BlockAndReceipts, Snapshot, Transaction, MAX_BYTES};
use execution_receipts::subscription::{Action, Batch, Subscription};
use std::sync::Arc;

fn hash(low: u128) -> B256 {
    B256 { high: 2, low }
}

fn data(number: u64, size: usize, ids: &[u64]) -> Arc<BlockAndReceipts<()>> {
    let block = Block {
        number,
        hash: hash(number as u128),
        parent_hash: hash((number as u128).wrapping_sub(1)),
        timestamp: 0,
        base_fee_per_gas: None,
        excess_blob_gas: None,
        transactions: ids
            .iter()
            .map(|&id| Transaction { hash: hash(id as u128), sender: Address { high: 0, low: 0 } })
            .collect(),
        size,
        payload: (),
    };
    let receipts = ids
        .iter()
        .map(|_| Receipt {
            kind: ReceiptKind::Legacy,
            status: Status::Eip658(true),
            cumulative_gas_used: 0,
            logs: vec![],
        })
        .collect();
    Arc::new(BlockAndReceipts::new(block, receipts))
}

fn canonical(number: u64, ids: &[u64]) -> Snapshot<()> {
    Snapshot::canonical(data(number, 100, ids))
}

fn pending(number: u64, ids: &[u64], id: u64) -> Snapshot<()> {
    Snapshot::pending(data(number, 100, ids), false, id)
}

fn at(number: u64) -> BlockNumHash {
    BlockNumHash::new(number, hash(number as u128))
}

fn position(number: u64) -> Option<Position> {
    let parent = hash(number as u128 - 1);
    Some(Position { number, hash: hash(number as u128), parent })
}

fn started(first: Option<Snapshot<()>>) -> Subscription<()> {
    Subscription::new(at(10), first)
}

fn waiting() -> Subscription<()> {
    let mut subscription = started(None);
    assert!(matches!(subscription.step(Signal::Started), Action::Wait));
    subscription
}

fn committed(blocks: Vec<Snapshot<()>>) -> Signal<()> {
    Signal::Committed { reverted: false, blocks }
}

fn batch(action: Action<()>) -> Batch<()> {
    match action {
        Action::Send(batch) => batch,
        other => panic!("nothing to send: {other:?}"),
    }
}

fn reset(action: Action<()>) -> Reset {
    match action {
        Action::Reset(reset) => reset,
        other => panic!("not over: {other:?}"),
    }
}

fn rule(reset: &Reset) -> Reason {
    match reset.reason {
        Failure::Rule(reason) => reason,
        Failure::Outside(_) => panic!("no rule was broken"),
    }
}

fn numbers(batch: &Batch<()>) -> Vec<(&'static str, u64)> {
    batch
        .events
        .iter()
        .map(|event| match event {
            Event::Apply(delta) => ("apply", delta.snapshot.number()),
            Event::Seal(seal) => ("seal", seal.block_number),
        })
        .collect()
}

#[test]
fn the_first_pending_block_is_sent_at_the_start() {
    let mut subscription = started(Some(pending(11, &[1], 1)));
    let sent = batch(subscription.step(Signal::Started));
    assert_eq!(sent.sequence, 1);
    assert_eq!(numbers(&sent), vec![("apply", 11)]);
    assert_eq!(subscription.sequence(), 0);
    assert!(matches!(subscription.step(Signal::Sent), Action::Wait));
    assert_eq!(subscription.sequence(), 1);
    // A publication that was overtaken by it says nothing.
    let again = subscription.step(Signal::Published(pending(11, &[1], 1)));
    assert!(matches!(again, Action::Wait));
}

#[test]
fn messages_are_numbered_one_by_one() {
    let mut subscription = waiting();
    for number in 11..15 {
        let sent = batch(subscription.step(committed(vec![canonical(number, &[number])])));
        assert_eq!(sent.sequence, number - 10);
        assert_eq!(numbers(&sent), vec![("apply", number), ("seal", number)]);
        assert!(matches!(subscription.step(Signal::Sent), Action::Wait));
    }
    let last = reset(subscription.step(Signal::CanonicalLost));
    assert_eq!(last.sequence, 5);
    assert_eq!(rule(&last), Reason::CanonicalStreamGap);
}

#[test]
fn a_batch_counts_once_it_was_sent() {
    let mut subscription = waiting();
    let mut delivered = vec![0];
    let sent = batch(subscription.step(committed(vec![canonical(11, &[]), canonical(12, &[])])));
    delivered.push(sent.sequence);
    let unsent = batch(subscription.step(Signal::Sent));
    assert_eq!(unsent.sequence, 2);
    // The second batch never reached the client: the reset takes its number.
    let last = reset(subscription.step(Signal::SendFailed));
    delivered.push(last.sequence);
    assert_eq!(delivered, vec![0, 1, 2]);
    assert_eq!(rule(&last), Reason::ClientDisconnected);
    assert!(matches!(subscription.step(Signal::Sent), Action::Close));
}

#[test]
fn queued_blocks_are_sent_one_after_another() {
    let mut subscription = waiting();
    let blocks = vec![canonical(11, &[]), canonical(12, &[1]), canonical(13, &[])];
    assert_eq!(numbers(&batch(subscription.step(committed(blocks)))), vec![("seal", 11)]);
    assert_eq!(
        numbers(&batch(subscription.step(Signal::Sent))),
        vec![("apply", 12), ("seal", 12)]
    );
    assert_eq!(numbers(&batch(subscription.step(Signal::Sent))), vec![("seal", 13)]);
    assert!(matches!(subscription.step(Signal::Sent), Action::Wait));
    // What was announced before is taken in silence.
    let stale = vec![canonical(12, &[1]), canonical(13, &[])];
    assert!(matches!(subscription.step(committed(stale)), Action::Wait));
}

#[test]
fn a_jumped_block_waits_for_its_predecessors() {
    let mut subscription = waiting();
    let mut action = subscription.step(committed(vec![canonical(13, &[3])]));
    for number in [11, 12] {
        match action {
            Action::Recover { anchor, required } => {
                assert_eq!(anchor, at(number - 1));
                assert!(required);
            }
            other => panic!("nothing is read: {other:?}"),
        }
        let sent = batch(subscription.step(Signal::Recovered(Some(canonical(number, &[])))));
        assert_eq!(numbers(&sent), vec![("seal", number)]);
        action = subscription.step(Signal::Sent);
    }
    assert_eq!(numbers(&batch(action)), vec![("apply", 13), ("seal", 13)]);
    assert!(matches!(subscription.step(Signal::Sent), Action::Wait));
}

#[test]
fn a_missing_predecessor_ends_the_subscription() {
    let mut subscription = waiting();
    subscription.step(committed(vec![canonical(13, &[3])]));
    let last = reset(subscription.step(Signal::Recovered(None)));
    assert_eq!(rule(&last), Reason::CanonicalBlockUnavailable);
    assert_eq!(last.sequence, 1);
    assert_eq!(last.context.anchor, at(10));
    assert_eq!(last.context.last_canonical_input, position(13));
    assert_eq!(last.context.queued_canonical, position(13));
    assert_eq!(last.context.repair_target, Some(12));
}

#[test]
fn a_pending_child_asks_for_its_parents() {
    let mut subscription = waiting();
    match subscription.step(Signal::Published(pending(13, &[1], 1))) {
        Action::Recover { anchor, required } => {
            assert_eq!(anchor, at(10));
            assert!(!required);
        }
        other => panic!("nothing is read: {other:?}"),
    }
    // It may precede the execution of its parent: no second attempt is made.
    assert!(matches!(subscription.step(Signal::Recovered(None)), Action::Wait));
    let again = subscription.step(Signal::Published(pending(13, &[1], 1)));
    assert!(matches!(again, Action::Recover { required: false, .. }));
    let sent = batch(subscription.step(Signal::Recovered(Some(canonical(11, &[])))));
    assert_eq!(numbers(&sent), vec![("seal", 11)]);
    assert!(matches!(subscription.step(Signal::Sent), Action::Recover { required: false, .. }));
    let sent = batch(subscription.step(Signal::Recovered(Some(canonical(12, &[])))));
    assert_eq!(numbers(&sent), vec![("seal", 12), ("apply", 13)]);
    assert!(matches!(subscription.step(Signal::Sent), Action::Wait));
    let last = reset(subscription.step(Signal::PublicationsLagged));
    assert_eq!(rule(&last), Reason::PublicationGap);
    assert_eq!(last.context.anchor, at(12));
    assert_eq!(last.context.last_canonical_input, position(12));
    assert_eq!(last.context.queued_canonical, None);
    assert_eq!(last.context.repair_target, None);
}

#[test]
fn a_gap_that_is_too_wide_is_refused() {
    let mut subscription = waiting();
    let last = reset(subscription.step(Signal::Published(pending(
        10 + MAX_RECOVERY_BLOCKS + 2,
        &[],
        1,
    ))));
    assert_eq!(rule(&last), Reason::CanonicalRecoveryLimit);
    assert_eq!(last.context.repair_target, Some(10 + MAX_RECOVERY_BLOCKS + 1));
    let mut subscription = waiting();
    let widest = pending(10 + MAX_RECOVERY_BLOCKS + 1, &[], 1);
    assert!(matches!(subscription.step(Signal::Published(widest)), Action::Recover { .. }));
}

#[test]
fn a_reverted_chain_ends_the_subscription() {
    let mut subscription = waiting();
    let signal = Signal::Committed { reverted: true, blocks: vec![canonical(11, &[])] };
    let last = reset(subscription.step(signal));
    assert_eq!(rule(&last), Reason::CanonicalReorg);
    assert_eq!(last.context.queued_canonical, None);
}

#[test]
fn signals_from_outside_end_the_subscription() {
    let ends = [
        (Signal::PublicationsLagged, Reason::PublicationGap),
        (Signal::PublicationsClosed, Reason::PublicationStreamClosed),
        (Signal::CanonicalLost, Reason::CanonicalStreamGap),
        (Signal::SendTimedOut, Reason::ClientTooSlow),
        (Signal::SendFailed, Reason::ClientDisconnected),
    ];
    for (signal, reason) in ends {
        let last = reset(waiting().step(signal));
        assert_eq!(rule(&last), reason);
        assert_eq!(last.sequence, 1);
    }
    let last = reset(waiting().step(Signal::Failed(Failure::Outside("disk".to_string()))));
    assert!(matches!(last.reason, Failure::Outside(words) if words == "disk"));
    let last = reset(waiting().step(Signal::Failed(Failure::Rule(Reason::InvalidCumulativeGas))));
    assert_eq!(rule(&last), Reason::InvalidCumulativeGas);
}

#[test]
fn a_broken_rule_ends_the_subscription() {
    let mut subscription = started(Some(pending(11, &[1], 1)));
    batch(subscription.step(Signal::Started));
    subscription.step(Signal::Sent);
    let last = reset(subscription.step(committed(vec![canonical(11, &[2])])));
    assert_eq!(rule(&last), Reason::ExecutionMismatch);
    assert_eq!(last.sequence, 2);
    assert_eq!(last.context.anchor, at(10));
    assert_eq!(last.context.last_canonical_input, position(11));
}

#[test]
fn a_reset_is_terminal() {
    let mut subscription = waiting();
    reset(subscription.step(Signal::CanonicalLost));
    assert_eq!(subscription.sequence(), 1);
    let late = [
        Signal::Started,
        Signal::Sent,
        Signal::Published(pending(11, &[1], 1)),
        committed(vec![canonical(11, &[])]),
        Signal::Recovered(None),
        Signal::ClientClosed,
        Signal::CanonicalLost,
    ];
    for signal in late {
        assert!(matches!(subscription.step(signal), Action::Close));
        assert_eq!(subscription.sequence(), 1);
    }
}

#[test]
fn a_client_may_leave() {
    let mut subscription = waiting();
    assert!(matches!(subscription.step(Signal::ClientClosed), Action::Close));
    assert_eq!(subscription.sequence(), 0);
    assert!(matches!(subscription.step(committed(vec![])), Action::Close));
}

#[test]
fn an_announcement_is_bounded() {
    // In bytes, for one announcement.
    let half = |number| Snapshot::canonical(data(number, MAX_BYTES / 2, &[]));
    let mut subscription = waiting();
    let sent = batch(subscription.step(committed(vec![half(11), half(12)])));
    assert_eq!(numbers(&sent), vec![("seal", 11)]);
    let mut subscription = waiting();
    let last = reset(subscription.step(committed(vec![half(11), half(12), canonical(13, &[])])));
    assert_eq!(rule(&last), Reason::BufferLimit);
    assert_eq!(last.context.queued_canonical, position(11));
    assert_eq!(last.context.last_canonical_input, None);
    // In blocks, for the whole queue.
    let many = |from: u64, count: u64| (from..from + count).map(|n| canonical(n, &[])).collect();
    let mut subscription = waiting();
    assert!(matches!(subscription.step(committed(many(11, MAX_RECOVERY_BLOCKS))), Action::Send(_)));
    let mut subscription = waiting();
    let last = reset(subscription.step(committed(many(11, MAX_RECOVERY_BLOCKS + 1))));
    assert_eq!(rule(&last), Reason::BufferLimit);
}

#[test]
fn an_empty_announcement_changes_nothing() {
    let mut subscription = waiting();
    assert!(matches!(subscription.step(committed(vec![])), Action::Wait));
    assert_eq!(subscription.sequence(), 0);
}
