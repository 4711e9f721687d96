//! What the feed promises over several inputs.

use execution_receipts::ledger::{Delta, Event};
use execution_receipts::primitives::{Address, BlockNumHash, B256};
use execution_receipts::reason::Reason;
use execution_receipts::receipt::{Receipt, ReceiptKind, Status};
use execution_receipts::recovery::{
    check_anchor, check_successor, is_worth_reading, read_canonical_successor, Ask, Failure,
    Recovery, Stage,
};
use execution_receipts::sequence::ReceiptSequence;
use execution_receipts::snapshot::{Block, BlockAndReceipts, Snapshot, Transaction};
use std::sync::Arc;

fn hash(low: u128) -> B256 {
    B256 { high: 1, low }
}

/// The canonical block at a height has the height as its hash.
fn data(number: u64, own: u128, parent: u128, ids: &[u64]) -> Arc<BlockAndReceipts<()>> {
    let block = Block {
        number,
        hash: hash(own),
        parent_hash: hash(parent),
        timestamp: 0,
        base_fee_per_gas: None,
        excess_blob_gas: None,
        transactions: ids
            .iter()
            .map(|&id| Transaction { hash: hash(id as u128), sender: Address { high: 0, low: 0 } })
            .collect(),
        size: 100,
        payload: (),
    };
    let receipts = ids
        .iter()
        .enumerate()
        .map(|(i, _)| Receipt {
            kind: ReceiptKind::Legacy,
            status: Status::Eip658(true),
            cumulative_gas_used: 10 * (i as u64 + 1),
            logs: vec![],
        })
        .collect();
    Arc::new(BlockAndReceipts::new(block, receipts))
}

fn canonical(number: u64, ids: &[u64]) -> Snapshot<()> {
    Snapshot::canonical(data(number, number as u128, number as u128 - 1, ids))
}

fn pending(number: u64, ids: &[u64], id: u64, certified: bool) -> Snapshot<()> {
    Snapshot::pending(data(number, number as u128, number as u128 - 1, ids), certified, id)
}

fn feed() -> ReceiptSequence<()> {
    ReceiptSequence::new(BlockNumHash::new(10, hash(10)))
}

/// A client that refuses what does not continue its list.
struct Client {
    blocks: Vec<Vec<B256>>,
    sealed: usize,
}

impl Client {
    fn take(&mut self, events: &[Event<Delta<()>>]) {
        for event in events {
            match event {
                Event::Apply(delta) => {
                    let number = delta.snapshot.number() as usize - 10;
                    if number == self.blocks.len() + 1 {
                        assert_eq!(delta.start, 0);
                        self.blocks.push(vec![]);
                    }
                    assert_eq!(number, self.blocks.len());
                    assert!(self.sealed < number);
                    let block = self.blocks.last_mut().unwrap();
                    assert_eq!(delta.start, block.len());
                    let transactions = &delta.snapshot.data.block().transactions;
                    block.extend(transactions[delta.start..].iter().map(|tx| tx.hash));
                }
                Event::Seal(seal) => {
                    self.sealed += 1;
                    assert_eq!(seal.block_number as usize, 10 + self.sealed);
                    if self.blocks.len() < self.sealed {
                        self.blocks.push(vec![]);
                    }
                    assert_eq!(seal.transaction_count, self.blocks[self.sealed - 1].len());
                }
            }
        }
    }
}

#[test]
fn a_client_follows_any_mix_of_inputs() {
    let mut feed = feed();
    let mut client = Client { blocks: vec![], sealed: 0 };
    client.take(&feed.pending(pending(11, &[1], 1, false)).unwrap());
    client.take(&feed.pending(pending(12, &[4], 2, false)).unwrap());
    client.take(&feed.pending(pending(13, &[], 3, false)).unwrap());
    client.take(&feed.pending(pending(11, &[1, 2], 4, true)).unwrap());
    client.take(&feed.pending(pending(12, &[4, 5], 5, true)).unwrap());
    client.take(&feed.canonical(canonical(11, &[1, 2])).unwrap());
    client.take(&feed.canonical(canonical(12, &[4, 5])).unwrap());
    client.take(&feed.canonical(canonical(12, &[4, 5])).unwrap());
    client.take(&feed.canonical(canonical(13, &[6])).unwrap());
    client.take(&feed.canonical(canonical(14, &[])).unwrap());
    assert_eq!(client.blocks, vec![
        vec![hash(1), hash(2)],
        vec![hash(4), hash(5)],
        vec![hash(6)],
        vec![],
    ]);
    assert_eq!(client.sealed, 4);
    assert_eq!(feed.anchor, BlockNumHash::new(14, hash(14)));
    assert!(feed.emitted.is_empty() && feed.waiting.is_empty());
}

#[test]
fn a_block_at_or_below_the_anchor_says_nothing() {
    let mut feed = feed();
    assert!(feed.pending(pending(10, &[1], 1, true)).unwrap().is_empty());
    assert!(feed.pending(pending(3, &[1], 2, true)).unwrap().is_empty());
    assert!(feed.canonical(canonical(10, &[1])).unwrap().is_empty());
    assert!(feed.canonical(canonical(9, &[1])).unwrap().is_empty());
    let other = Snapshot::canonical(data(9, 999, 8, &[]));
    assert!(feed.canonical(other).unwrap().is_empty());
    let other = Snapshot::canonical(data(10, 999, 9, &[]));
    assert_eq!(feed.canonical(other).unwrap_err(), Reason::CanonicalReorg);
    assert!(feed.emitted.is_empty() && feed.waiting.is_empty());
}

#[test]
fn a_publication_is_taken_once() {
    let mut feed = feed();
    assert_eq!(feed.pending(pending(11, &[1, 2], 5, false)).unwrap().len(), 1);
    assert!(feed.pending(pending(11, &[1, 2], 5, false)).unwrap().is_empty());
    // An older publication is not even compared with what was delivered.
    assert!(feed.pending(pending(11, &[9], 4, false)).unwrap().is_empty());
    // The newest snapshot of a waiting block counts as well.
    assert!(feed.pending(pending(13, &[1, 2], 6, false)).unwrap().is_empty());
    assert!(feed.pending(pending(13, &[1], 5, false)).unwrap().is_empty());
    assert_eq!(feed.waiting[&13].len(), 2);
    assert!(feed.pending(pending(13, &[9], 7, false)).unwrap().is_empty());
    assert_eq!(feed.waiting[&13].len(), 1);
}

#[test]
fn a_canonical_block_is_taken_once() {
    let mut feed = feed();
    assert_eq!(feed.canonical(canonical(11, &[1])).unwrap().len(), 2);
    assert!(feed.canonical(canonical(11, &[1])).unwrap().is_empty());
    assert_eq!(feed.anchor, BlockNumHash::new(11, hash(11)));
    // Whatever was accepted in the meantime.
    feed.canonical(canonical(12, &[2])).unwrap();
    feed.pending(pending(13, &[3], 1, true)).unwrap();
    feed.canonical(canonical(13, &[3])).unwrap();
    assert!(feed.canonical(canonical(11, &[1])).unwrap().is_empty());
    assert!(feed.canonical(canonical(12, &[2])).unwrap().is_empty());
    assert!(feed.canonical(canonical(13, &[3])).unwrap().is_empty());
    assert!(feed.pending(pending(13, &[3], 1, true)).unwrap().is_empty());
    assert_eq!(feed.anchor, BlockNumHash::new(13, hash(13)));
}

#[test]
fn receipts_come_in_order_and_blocks_form_a_chain() {
    let mut feed = feed();
    let mut events = Vec::new();
    events.extend(feed.pending(pending(12, &[5, 6], 1, true)).unwrap());
    events.extend(feed.pending(pending(11, &[1], 2, false)).unwrap());
    events.extend(feed.pending(pending(11, &[1, 2], 3, true)).unwrap());
    events.extend(feed.pending(pending(12, &[5, 6, 7], 4, false)).unwrap());
    events.extend(feed.pending(pending(14, &[], 5, true)).unwrap());
    let positions: Vec<(u64, usize)> = events
        .iter()
        .flat_map(|event| match event {
            Event::Apply(delta) => (delta.start..delta.snapshot.len())
                .map(|i| (delta.snapshot.number(), i))
                .collect::<Vec<_>>(),
            Event::Seal(_) => vec![],
        })
        .collect();
    assert_eq!(positions, vec![(11, 0), (11, 1), (12, 0), (12, 1), (12, 2)]);
    assert_eq!(feed.emitted.keys().copied().collect::<Vec<_>>(), vec![11, 12]);
    assert_eq!(feed.emitted[&11].parent(), feed.anchor.hash);
    assert_eq!(feed.emitted[&12].parent(), feed.emitted[&11].hash());
    assert_eq!(feed.waiting.keys().copied().collect::<Vec<_>>(), vec![14]);
}

#[test]
fn a_child_needs_a_certified_parent() {
    for certified in [false, true] {
        let mut feed = feed();
        feed.pending(pending(11, &[1], 1, certified)).unwrap();
        let events = feed.pending(pending(12, &[2], 2, false)).unwrap();
        assert_eq!(events.len(), if certified { 1 } else { 0 });
        assert_eq!(feed.emitted.contains_key(&12), certified);
        assert_eq!(feed.waiting.contains_key(&12), !certified);
    }
    // A gap is never jumped, whatever is certified.
    let mut feed = feed();
    feed.pending(pending(11, &[1], 1, true)).unwrap();
    assert!(feed.pending(pending(13, &[2], 2, true)).unwrap().is_empty());
    // A certified replacement of the parent releases the children.
    feed.pending(pending(12, &[], 3, false)).unwrap();
    assert_eq!(feed.pending(pending(12, &[], 4, true)).unwrap().len(), 1);
    assert_eq!(feed.emitted.len(), 3);
}

#[test]
fn news_is_delivered_at_once() {
    let mut feed = feed();
    // The first snapshot of a block is delivered even when it is empty.
    let events = feed.pending(pending(11, &[], 1, false)).unwrap();
    assert!(matches!(&events[..], [Event::Apply(delta)] if delta.start == 0));
    let events = feed.pending(pending(11, &[1, 2], 2, true)).unwrap();
    assert!(matches!(&events[..], [Event::Apply(delta)] if delta.start == 0));
    let events = feed.pending(pending(11, &[1, 2, 3], 3, true)).unwrap();
    assert!(matches!(&events[..], [Event::Apply(delta)] if delta.start == 2));
    // A newer snapshot without news is not delivered.
    assert!(feed.pending(pending(11, &[1, 2, 3], 4, true)).unwrap().is_empty());
    assert_eq!(feed.emitted[&11].publication_id, 4);
}

#[test]
fn a_published_parent_cannot_change() {
    let start = || {
        let mut feed = feed();
        feed.pending(pending(11, &[1], 1, true)).unwrap();
        feed.pending(pending(12, &[2], 2, true)).unwrap();
        feed
    };
    // More transactions, or another hash, under a delivered child.
    let mut feed = start();
    assert_eq!(
        feed.canonical(canonical(11, &[1, 9])).unwrap_err(),
        Reason::PublishedParentChanged
    );
    let mut feed = start();
    let renamed = Snapshot::canonical(data(11, 999, 10, &[1]));
    assert_eq!(feed.canonical(renamed).unwrap_err(), Reason::PublishedParentChanged);
    let mut feed = start();
    let renamed = Snapshot::pending(data(11, 999, 10, &[1]), true, 3);
    assert_eq!(feed.pending(renamed).unwrap_err(), Reason::PublishedParentChanged);
    // An unchanged parent is fine.
    let mut feed = start();
    assert_eq!(feed.canonical(canonical(11, &[1])).unwrap().len(), 1);
}

#[test]
fn canonical_blocks_come_one_by_one() {
    let mut feed = feed();
    assert_eq!(feed.canonical(canonical(12, &[])).unwrap_err(), Reason::CanonicalGap);
    let stranger = Snapshot::canonical(data(11, 11, 999, &[]));
    assert_eq!(feed.canonical(stranger).unwrap_err(), Reason::CanonicalParentMismatch);
    assert_eq!(feed.anchor, BlockNumHash::new(10, hash(10)));
    let mut last = ReceiptSequence::<()>::new(BlockNumHash::new(u64::MAX, hash(0)));
    assert!(last.canonical(canonical(11, &[])).unwrap().is_empty());
    assert!(last.pending(pending(u64::MAX, &[], 1, true)).unwrap().is_empty());
}

#[test]
fn a_release_may_cover_several_blocks() {
    let mut feed = feed();
    for number in [14, 13, 12] {
        assert!(feed.pending(pending(number, &[number], number, true)).unwrap().is_empty());
    }
    let events = feed.pending(pending(11, &[11], 11, true)).unwrap();
    let numbers: Vec<u64> = events
        .iter()
        .map(|event| match event {
            Event::Apply(delta) => delta.snapshot.number(),
            Event::Seal(_) => panic!("nothing is canonical"),
        })
        .collect();
    assert_eq!(numbers, vec![11, 12, 13, 14]);
}

#[test]
fn recovery_makes_headway() {
    let mut feed = feed();
    let next = canonical(14, &[]);
    for number in [11, 12, 13] {
        assert_eq!(feed.needs_recovery(Some(&next), None), Ok(true));
        assert_eq!(feed.needs_recovery(None, Some(13)), Ok(true));
        feed.canonical(canonical(number, &[])).unwrap();
    }
    assert_eq!(feed.needs_recovery(Some(&next), None), Ok(false));
    assert_eq!(feed.needs_recovery(None, Some(13)), Ok(false));
    assert_eq!(feed.needs_recovery(None, None), Ok(false));
    let genesis = Snapshot::canonical(data(0, 0, 0, &[]));
    assert_eq!(feed.needs_recovery(Some(&genesis), Some(500)), Ok(false));
}

fn read(
    anchor: BlockNumHash,
    hashes: [Result<Option<B256>, &'static str>; 4],
    block: Result<Snapshot<()>, &'static str>,
) -> Result<Option<Snapshot<()>>, Failure<&'static str>> {
    let mut hashes = hashes.into_iter();
    read_canonical_successor(anchor, |_| hashes.next().unwrap(), |_| block)
}

#[test]
fn a_block_read_back_is_the_next_one() {
    let anchor = BlockNumHash::new(10, hash(10));
    let (at, above) = (Ok(Some(hash(10))), Ok(Some(hash(11))));
    let block = || Ok(canonical(11, &[1]));
    let found = read(anchor, [at, above, at, above], block()).unwrap().unwrap();
    assert_eq!((found.number(), found.hash(), found.parent()), (11, hash(11), hash(10)));
    assert_eq!(feed().canonical(found).unwrap().len(), 2);

    let rule = |result: Result<Option<Snapshot<()>>, Failure<&'static str>>| match result {
        Err(Failure::Rule(reason)) => reason,
        _ => panic!("no rule was broken"),
    };
    let none = Ok(None);
    let other = Ok(Some(hash(999)));
    assert_eq!(
        rule(read(anchor, [none, above, at, above], block())),
        Reason::CanonicalAnchorUnavailable
    );
    assert_eq!(
        rule(read(anchor, [other, above, at, above], block())),
        Reason::CanonicalAnchorChanged
    );
    assert!(read(anchor, [at, none, at, above], block()).unwrap().is_none());
    for changed in [none, other] {
        assert_eq!(
            rule(read(anchor, [at, above, changed, above], block())),
            Reason::CanonicalAnchorChanged
        );
        assert_eq!(
            rule(read(anchor, [at, above, at, changed], block())),
            Reason::CanonicalSuccessorChanged
        );
    }
    for wrong in [
        Snapshot::canonical(data(12, 11, 10, &[])),
        Snapshot::canonical(data(11, 999, 10, &[])),
        Snapshot::canonical(data(11, 11, 999, &[])),
    ] {
        assert_eq!(
            rule(read(anchor, [at, above, at, above], Ok(wrong))),
            Reason::CanonicalParentMismatch
        );
    }
    let last = BlockNumHash::new(u64::MAX, hash(10));
    assert_eq!(
        rule(read(last, [at, above, at, above], block())),
        Reason::CanonicalHeightOverflow
    );
}

#[test]
fn a_failed_read_is_reported() {
    let anchor = BlockNumHash::new(10, hash(10));
    let (at, above) = (Ok(Some(hash(10))), Ok(Some(hash(11))));
    let good = [at, above, at, above];
    for position in 0..4 {
        let mut hashes = good;
        hashes[position] = Err("disk");
        let result = read(anchor, hashes, Ok(canonical(11, &[])));
        assert!(matches!(result, Err(Failure::Outside("disk"))));
    }
    assert!(matches!(read(anchor, good, Err("block")), Err(Failure::Outside("block"))));
}

#[test]
fn the_checks_of_a_recovery_step_stand_alone() {
    let anchor = BlockNumHash::new(10, hash(10));
    assert_eq!(check_anchor(anchor, Some(hash(10))), Ok(11));
    assert_eq!(check_anchor(anchor, Some(hash(11))), Err(Reason::CanonicalAnchorChanged));
    assert_eq!(check_anchor(anchor, None), Err(Reason::CanonicalAnchorUnavailable));
    assert_eq!(check_successor(anchor, hash(11), &canonical(11, &[])), Ok(()));
    assert_eq!(
        check_successor(anchor, hash(12), &canonical(12, &[])),
        Err(Reason::CanonicalParentMismatch)
    );
    // Without a queued block, the newest canonical block decides.
    assert!(is_worth_reading(anchor, true, None));
    assert!(!is_worth_reading(anchor, false, None));
    assert!(!is_worth_reading(anchor, false, Some(10)));
    assert!(is_worth_reading(anchor, false, Some(11)));
}

fn asks_hash(ask: &Ask<()>, number: u64) -> bool {
    matches!(ask, Ask::Hash(found) if *found == number)
}

/// A recovery step that has read the block above height 10 and is to confirm it.
fn read_once(snapshot: Snapshot<()>) -> Recovery<()> {
    let anchor = BlockNumHash::new(10, hash(10));
    let (recovery, ask) = Recovery::start(anchor);
    assert!(asks_hash(&ask, 10));
    let (recovery, ask) = recovery.on_hash(Some(hash(10)));
    assert!(asks_hash(&ask, 11));
    let (recovery, ask) = recovery.on_hash(Some(hash(11)));
    assert!(matches!(ask, Ask::Block(found) if found == hash(11)));
    let (recovery, ask) = recovery.on_block(snapshot);
    assert!(asks_hash(&ask, 10));
    assert!(matches!(recovery.stage, Stage::AnchorAgain(found, _) if found == hash(11)));
    recovery
}

fn refusal(next: (Recovery<()>, Ask<()>)) -> Reason {
    assert!(matches!(next.0.stage, Stage::Over));
    match next.1 {
        Ask::Done(Err(reason)) => reason,
        other => panic!("not refused: {other:?}"),
    }
}

#[test]
fn a_block_is_confirmed_after_it_was_read() {
    let (recovery, ask) = read_once(canonical(11, &[1])).on_hash(Some(hash(10)));
    assert!(asks_hash(&ask, 11));
    let (recovery, ask) = recovery.on_hash(Some(hash(11)));
    assert!(matches!(recovery.stage, Stage::Over));
    match ask {
        Ask::Done(Ok(Some(found))) => assert_eq!((found.number(), found.len()), (11, 1)),
        other => panic!("nothing found: {other:?}"),
    }
}

#[test]
fn later_answers_decide_about_a_block() {
    for changed in [None, Some(hash(999))] {
        let next = read_once(canonical(11, &[])).on_hash(changed);
        assert_eq!(refusal(next), Reason::CanonicalAnchorChanged);
        let (recovery, _) = read_once(canonical(11, &[])).on_hash(Some(hash(10)));
        assert_eq!(refusal(recovery.on_hash(changed)), Reason::CanonicalSuccessorChanged);
    }
    // The hash is compared before the block is.
    let stranger = || Snapshot::canonical(data(11, 11, 999, &[]));
    let (recovery, _) = read_once(stranger()).on_hash(Some(hash(10)));
    assert_eq!(refusal(recovery.on_hash(None)), Reason::CanonicalSuccessorChanged);
    let (recovery, _) = read_once(stranger()).on_hash(Some(hash(10)));
    assert_eq!(refusal(recovery.on_hash(Some(hash(11)))), Reason::CanonicalParentMismatch);
}

#[test]
fn first_answers_decide_whether_a_block_is_read() {
    let start = |number| Recovery::<()>::start(BlockNumHash::new(number, hash(10))).0;
    assert_eq!(refusal(start(10).on_hash(None)), Reason::CanonicalAnchorUnavailable);
    assert_eq!(refusal(start(10).on_hash(Some(hash(9)))), Reason::CanonicalAnchorChanged);
    let last = start(u64::MAX).on_hash(Some(hash(10)));
    assert_eq!(refusal(last), Reason::CanonicalHeightOverflow);
    let (recovery, _) = start(10).on_hash(Some(hash(10)));
    let (recovery, ask) = recovery.on_hash(None);
    assert!(matches!(recovery.stage, Stage::Over));
    assert!(matches!(ask, Ask::Done(Ok(None))));
}

#[test]
fn reads_are_made_in_order() {
    let anchor = BlockNumHash::new(10, hash(10));
    let calls = std::cell::RefCell::new(Vec::new());
    let found = read_canonical_successor(
        anchor,
        |number| {
            calls.borrow_mut().push(format!("hash {number}"));
            Ok::<_, String>(Some(hash(number as u128)))
        },
        |wanted| {
            calls.borrow_mut().push(format!("block {}", wanted.low));
            Ok(canonical(11, &[]))
        },
    );
    assert!(found.unwrap().is_some());
    assert_eq!(*calls.borrow(), ["hash 10", "hash 11", "block 11", "hash 10", "hash 11"]);

    // Nothing above the anchor: no block is read.
    let mut numbers = Vec::new();
    let found = read_canonical_successor(
        anchor,
        |number| {
            numbers.push(number);
            Ok::<_, String>(if number == 10 { Some(hash(10)) } else { None })
        },
        |_| -> Result<Snapshot<()>, String> { panic!("no block to read") },
    );
    assert!(found.unwrap().is_none());
    assert_eq!(numbers, [10, 11]);
}
