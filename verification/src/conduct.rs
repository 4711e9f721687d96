//! What each input comes to, said of blocks, receipts and heights alone.

use crate::laws::lemma_heights_counted;
use crate::ledger::{bytes_held, lemma_advance_keeps_linked, lemma_anchored_keeps_linked,
    lemma_queued_keeps_linked, lemma_withdrawn_first, Delta, Event, Ledger, Outcome, Release, Seal};
use crate::ordered::{first_key, lemma_has_first, lemma_has_last, lemma_total_insert,
    lemma_total_remove};
use crate::primitives::BlockNumHash;
use crate::reason::Reason;
use crate::snapshot::{extension_keeps_what_was_executed, validity_is_counted, weight, Snapshot};
use vstd::prelude::*;

verus! {

/// Whether a snapshot is fit to be taken in: one receipt for each transaction, and no more than 64
/// MiB in all.
pub open spec fn is_sound<P>(snapshot: Snapshot<P>) -> bool {
    &&& snapshot.data.block().transactions@.len() == snapshot.data.receipts()@.len()
    &&& weight(&snapshot.data) <= 67_108_864
}

/// Whether a snapshot of a block keeps all that an earlier one says was executed.
pub open spec fn keeps<P>(snapshot: Snapshot<P>, previous: Snapshot<P>) -> bool {
    let (receipts, old_receipts) = (snapshot.data.receipts()@, previous.data.receipts()@);
    let transactions = snapshot.data.block().transactions@;
    let old_transactions = previous.data.block().transactions@;
    &&& snapshot.data.block().parent_hash == previous.data.block().parent_hash
    &&& old_receipts.len() <= receipts.len()
    &&& forall|i: int| 0 <= i < old_receipts.len() ==> (#[trigger] old_receipts[i])@ == receipts[i]@
    &&& forall|i: int|
        0 <= i < old_transactions.len() && i < transactions.len() ==> (
        #[trigger] old_transactions[i]).hash == transactions[i].hash
}

/// The height up to which a feed has delivered blocks.
pub open spec fn height<P>(ledger: Ledger<P>) -> int {
    ledger.anchor.number + ledger.emitted.dom().len()
}

/// The snapshot of a block above the anchor, delivered or waiting.
pub open spec fn held<P>(ledger: Ledger<P>, number: int) -> Snapshot<P> {
    if ledger.emitted.contains_key(number as u64) {
        ledger.emitted[number as u64]
    } else {
        ledger.waiting[number as u64]
    }
}

/// Whether a block waits at a height that is surely the child of what lies below: of the anchor, or
/// of a block whose hash was calculated locally.
pub open spec fn hangs<P>(ledger: Ledger<P>, number: int) -> bool {
    &&& 0 <= number <= u64::MAX
    &&& ledger.waiting.contains_key(number as u64)
    &&& if number == ledger.anchor.number + 1 {
        ledger.waiting[number as u64].parent() == ledger.anchor.hash
    } else {
        let below = held(ledger, number - 1);
        below.computed_hash && ledger.waiting[number as u64].parent() == below.hash()
    }
}

/// Whether `end` is where the unbroken run of such blocks above the delivered ones ends.
pub open spec fn run_ends<P>(ledger: Ledger<P>, end: int) -> bool {
    &&& height(ledger) <= end
    &&& forall|number: int| height(ledger) < number <= end ==> #[trigger] hangs(ledger, number)
    &&& !hangs(ledger, end + 1)
}

/// The delivery of every block of that run, each from its first transaction on.
pub open spec fn run_events<P>(ledger: Ledger<P>, end: int) -> Seq<Event<Delta<P>>> {
    Seq::new(
        (end - height(ledger)) as nat,
        |i: int|
            Event::Apply(
                Delta { snapshot: ledger.waiting[(height(ledger) + 1 + i) as u64], start: 0 },
            ),
    )
}

/// Whether the waiting blocks up to a height, and no others, have become delivered ones.
pub open spec fn moved<P>(before: Ledger<P>, end: int, after: Ledger<P>) -> bool {
    &&& after.anchor == before.anchor
    &&& forall|k: u64| #[trigger]
        after.emitted.contains_key(k) <==> before.emitted.contains_key(k)
            || (before.waiting.contains_key(k) && k <= end)
    &&& forall|k: u64| #[trigger]
        after.emitted.contains_key(k) ==> after.emitted[k] == held(before, k as int)
    &&& forall|k: u64| #[trigger]
        after.waiting.contains_key(k) <==> before.waiting.contains_key(k) && k > end
    &&& forall|k: u64| #[trigger]
        after.waiting.contains_key(k) ==> after.waiting[k] == before.waiting[k]
}

/// Whether a feed holds more than 64 blocks or 64 MiB.
pub open spec fn holds_too_much<P>(ledger: Ledger<P>) -> bool {
    ||| ledger.emitted.dom().len() + ledger.waiting.dom().len() > 64
    ||| bytes_held(ledger.emitted) + bytes_held(ledger.waiting) > 67_108_864
}

/// Whether a feed that has `events` to deliver goes on to release its waiting blocks and comes to
/// `after`. When nothing was delivered above the anchor, a waiting block there has to be the child
/// of the anchor. Otherwise the unbroken run is released, unless the feed holds too much.
pub open spec fn releases<P>(
    before: Ledger<P>,
    events: Seq<Event<Delta<P>>>,
    after: Outcome<P>,
) -> bool {
    let next = (before.anchor.number + 1) as u64;
    if before.emitted.dom().is_empty() && before.anchor.number < u64::MAX
        && before.waiting.contains_key(next) && before.waiting[next].parent()
        != before.anchor.hash {
        &&& after.ledger == before
        &&& after.result == Err::<Seq<Event<Delta<P>>>, Reason>(Reason::PendingParentChanged)
    } else {
        exists|end: int|
            {
                &&& #[trigger] run_ends(before, end)
                &&& moved(before, end, after.ledger)
                &&& after.result == if holds_too_much(before) {
                    Err(Reason::BufferLimit)
                } else {
                    Ok(events + run_events(before, end))
                }
            }
    }
}

/// **Memory is counted block by block.** A feed without blocks holds nothing, and each block that
/// is added to those of a map adds what it takes.
pub proof fn memory_is_counted<P>(m: Map<u64, Snapshot<P>>, k: u64, snapshot: Snapshot<P>)
    requires
        m.dom().finite(),
        !m.contains_key(k),
    ensures
        bytes_held(Map::<u64, Snapshot<P>>::empty()) == 0,
        bytes_held(m.insert(k, snapshot)) == bytes_held(m) + snapshot.bytes(),
{
    lemma_total_insert(m, k, snapshot, |s: Snapshot<P>| s.bytes() as nat);
}

proof fn lemma_height<P>(ledger: Ledger<P>)
    requires
        ledger.linked(),
    ensures
        height(ledger) == ledger.tip(),
{
    if !ledger.emitted.dom().is_empty() {
        lemma_has_last(ledger.emitted);
    }
    lemma_heights_counted(ledger.emitted, ledger.anchor.number, ledger.tip());
}

/// Moving the lowest waiting block to the delivered ones changes nothing about what is held.
proof fn lemma_advance_holds_the_same<P>(ledger: Ledger<P>)
    requires
        ledger.linked(),
        !ledger.waiting.dom().is_empty(),
        !ledger.emitted.contains_key(first_key(ledger.waiting)),
    ensures
        holds_too_much(ledger.advanced()) == holds_too_much(ledger),
{
    let number = first_key(ledger.waiting);
    let weight = |s: Snapshot<P>| s.bytes() as nat;
    lemma_has_first(ledger.waiting);
    lemma_total_insert(ledger.emitted, number, ledger.waiting[number], weight);
    lemma_total_remove(ledger.waiting, number, weight);
}

proof fn lemma_drained_releases<P>(ledger: Ledger<P>)
    requires
        ledger.linked(),
        forall|k: u64| #[trigger] ledger.waiting.contains_key(k) ==> ledger.tip() < k,
    ensures
        releases(ledger, Seq::empty(), ledger.drained()),
    decreases ledger.waiting.dom().len(),
{
    let number = first_key(ledger.waiting);
    lemma_height(ledger);
    if !ledger.emitted.dom().is_empty() {
        lemma_has_last(ledger.emitted);
    }
    if !ledger.waiting.dom().is_empty() {
        lemma_has_first(ledger.waiting);
        assert(ledger.waiting.contains_key(number));
    }
    match ledger.release() {
        Release::Refuse(_) => {},
        Release::Hold => {
            let end = height(ledger);
            if ledger.waiting.contains_key((end + 1) as u64) {
                assert(number == end + 1);
            }
            assert(run_ends(ledger, end));
            assert(moved(ledger, end, ledger));
            assert(Seq::<Event<Delta<P>>>::empty() + run_events(ledger, end) =~= Seq::empty());
        },
        Release::From(start) => {
            let after = ledger.advanced();
            lemma_advance_keeps_linked(ledger);
            lemma_advance_holds_the_same(ledger);
            lemma_height(after);
            assert(after.emitted.contains_key(number));
            assert forall|k: u64| #[trigger] after.waiting.contains_key(k) implies after.tip()
                < k by {
                assert(ledger.waiting.contains_key(k));
            }
            lemma_drained_releases(after);
            let end = choose|end: int|
                {
                    &&& #[trigger] run_ends(after, end)
                    &&& moved(after, end, after.drained().ledger)
                    &&& after.drained().result == if holds_too_much(after) {
                        Err(Reason::BufferLimit)
                    } else {
                        Ok(Seq::empty() + run_events(after, end))
                    }
                };
            assert(number == height(ledger) + 1);
            assert(hangs(ledger, number as int));
            assert forall|k: int| number < k implies hangs(after, k) == #[trigger] hangs(
                ledger,
                k,
            ) by {
                if 0 <= k <= u64::MAX && ledger.waiting.contains_key(k as u64) {
                    assert(after.waiting.contains_key(k as u64));
                    assert(!ledger.emitted.contains_key((k - 1) as u64) || k - 1
                        <= height(ledger));
                }
            }
            assert forall|k: int| height(ledger) < k <= end implies #[trigger] hangs(
                ledger,
                k,
            ) by {
                if k > number {
                    assert(hangs(after, k));
                }
            }
            assert(!hangs(ledger, end + 1));
            assert(run_ends(ledger, end));
            assert(moved(ledger, end, after.drained().ledger)) by {
                let last = after.drained().ledger;
                assert forall|k: u64| #[trigger] last.emitted.contains_key(
                    k,
                ) implies last.emitted[k] == held(ledger, k as int) by {
                    assert(last.emitted[k] == held(after, k as int));
                }
                assert forall|k: u64| #[trigger]
                    last.emitted.contains_key(k) <==> ledger.emitted.contains_key(k) || (
                    ledger.waiting.contains_key(k) && k <= end) by {
                    assert(after.emitted.contains_key(k) <==> ledger.emitted.contains_key(k) || k
                        == number);
                }
                assert forall|k: u64| #[trigger]
                    last.waiting.contains_key(k) <==> ledger.waiting.contains_key(k) && k
                        > end by {
                    assert(after.waiting.contains_key(k) <==> ledger.waiting.contains_key(k) && k
                        != number);
                }
            }
            let empty = Seq::<Event<Delta<P>>>::empty();
            let parts = ledger.advance_events(start) + (empty + run_events(after, end));
            let whole = empty + run_events(ledger, end);
            assert forall|i: int| 0 <= i < whole.len() implies parts[i] == whole[i] by {
                let k = height(ledger) + 1 + i;
                assert(hangs(ledger, k));
                if i > 0 {
                    assert(parts[i] == run_events(after, end)[i - 1]);
                    assert(height(after) + 1 + (i - 1) == k);
                    assert(after.waiting[k as u64] == ledger.waiting[k as u64]);
                }
            }
            assert(parts =~= whole);
        },
    }
}

proof fn lemma_releases_after<P>(
    before: Ledger<P>,
    outcome: Outcome<P>,
    events: Seq<Event<Delta<P>>>,
)
    requires
        releases(before, Seq::empty(), outcome),
    ensures
        releases(before, events, outcome.after(events)),
{
    let next = (before.anchor.number + 1) as u64;
    if before.emitted.dom().is_empty() && before.anchor.number < u64::MAX
        && before.waiting.contains_key(next) && before.waiting[next].parent()
        != before.anchor.hash {
    } else {
        let empty = Seq::<Event<Delta<P>>>::empty();
        let end = choose|end: int|
            {
                &&& #[trigger] run_ends(before, end)
                &&& moved(before, end, outcome.ledger)
                &&& outcome.result == if holds_too_much(before) {
                    Err(Reason::BufferLimit)
                } else {
                    Ok(empty + run_events(before, end))
                }
            };
        assert(events + (empty + run_events(before, end)) =~= events + run_events(before, end));
        assert(run_ends(before, end));
    }
}

/// **An unsound input is refused as such.** Whichever way it comes, a snapshot without one receipt
/// for each transaction, or with more than 64 MiB, is refused, and the feed is as it was.
pub proof fn unsound_input_is_refused<P>(ledger: Ledger<P>, snapshot: Snapshot<P>)
    requires
        !is_sound(snapshot),
    ensures
        ({
            let reason = if snapshot.data.block().transactions@.len()
                != snapshot.data.receipts()@.len() {
                Reason::ReceiptCountMismatch
            } else {
                Reason::BufferLimit
            };
            let refused = Outcome {
                ledger,
                result: Err::<Seq<Event<Delta<P>>>, Reason>(reason),
            };
            &&& ledger.on_pending(snapshot) == refused
            &&& ledger.on_canonical(snapshot) == refused
        }),
{
    validity_is_counted(snapshot);
}

/// **A canonical block has to follow the anchor.** A sound one below the anchor, or the anchor
/// itself, says nothing; another block at the height of the anchor, a block that leaves out a
/// height, and a block on another parent are refused, each with its reason. The feed is as it was.
pub proof fn canonical_has_to_follow_the_anchor<P>(ledger: Ledger<P>, snapshot: Snapshot<P>)
    requires
        is_sound(snapshot),
        snapshot.number() != ledger.anchor.number + 1 || snapshot.parent() != ledger.anchor.hash,
    ensures
        ledger.on_canonical(snapshot).ledger == ledger,
        ledger.on_canonical(snapshot).result == if snapshot.number() < ledger.anchor.number {
            Ok(Seq::<Event<Delta<P>>>::empty())
        } else if snapshot.number() == ledger.anchor.number {
            if snapshot.hash() == ledger.anchor.hash {
                Ok(Seq::empty())
            } else {
                Err(Reason::CanonicalReorg)
            }
        } else if snapshot.number() > ledger.anchor.number + 1 {
            Err(Reason::CanonicalGap)
        } else {
            Err(Reason::CanonicalParentMismatch)
        },
{
    validity_is_counted(snapshot);
}

/// Whether a child of the block after the anchor was delivered that this snapshot of the block
/// would break with: it has another number of transactions than was delivered, or another hash than
/// the child's parent.
pub open spec fn breaks_with_child<P>(ledger: Ledger<P>, snapshot: Snapshot<P>) -> bool {
    let child = (snapshot.number() + 1) as u64;
    &&& snapshot.number() < u64::MAX
    &&& ledger.emitted.contains_key(child)
    &&& snapshot.data.receipts()@.len()
        != ledger.emitted[snapshot.number()].data.receipts()@.len()
        || ledger.emitted[child].parent() != snapshot.hash()
}

/// **A canonical block that conflicts is refused.** The next block has to keep all that was
/// delivered of it, and may not break with a delivered child. Otherwise the anchor stays, nothing
/// is released, and only the block itself is no longer counted as delivered.
pub proof fn canonical_conflict_is_refused<P>(ledger: Ledger<P>, snapshot: Snapshot<P>)
    requires
        ledger.inv(),
        is_sound(snapshot),
        snapshot.number() == ledger.anchor.number + 1,
        snapshot.parent() == ledger.anchor.hash,
        ledger.emitted.contains_key(snapshot.number()),
        !keeps(snapshot, ledger.emitted[snapshot.number()]) || breaks_with_child(ledger, snapshot),
    ensures
        ledger.on_canonical(snapshot).result == Err::<Seq<Event<Delta<P>>>, Reason>(
            if !keeps(snapshot, ledger.emitted[snapshot.number()]) {
                Reason::ExecutionMismatch
            } else {
                Reason::PublishedParentChanged
            },
        ),
        ledger.on_canonical(snapshot).ledger.anchor == ledger.anchor,
        ledger.on_canonical(snapshot).ledger.waiting == ledger.waiting,
        ledger.on_canonical(snapshot).ledger.emitted == ledger.emitted.remove(snapshot.number()),
{
    let number = snapshot.number();
    validity_is_counted(snapshot);
    extension_keeps_what_was_executed(snapshot, ledger.emitted[number]);
    if breaks_with_child(ledger, snapshot) {
        assert(ledger.withdrawn(number).emitted.contains_key((number + 1) as u64));
        assert(!ledger.withdrawn(number).emitted.dom().is_empty());
        lemma_withdrawn_first(ledger);
    }
}

/// **A canonical block that fits is accepted.** It is sound, follows the anchor, keeps all that was
/// delivered of it, and breaks with no delivered child. It becomes the anchor. What was not yet
/// delivered of it comes first, then its seal, and then the waiting blocks are released.
pub proof fn canonical_that_fits_is_accepted<P>(ledger: Ledger<P>, snapshot: Snapshot<P>)
    requires
        ledger.inv(),
        is_sound(snapshot),
        snapshot.number() == ledger.anchor.number + 1,
        snapshot.parent() == ledger.anchor.hash,
        ledger.emitted.contains_key(snapshot.number()) ==> keeps(
            snapshot,
            ledger.emitted[snapshot.number()],
        ) && !breaks_with_child(ledger, snapshot),
    ensures
        ({
            let number = snapshot.number();
            let delivered = if ledger.emitted.contains_key(number) {
                ledger.emitted[number].data.receipts()@.len()
            } else {
                0
            };
            let tail = if delivered < snapshot.data.receipts()@.len() {
                seq![Event::Apply(Delta { snapshot, start: delivered as usize })]
            } else {
                Seq::empty()
            };
            let seal = Event::<Delta<P>>::Seal(
                Seal {
                    block_number: snapshot.data.block().number,
                    block_hash: snapshot.data.block().hash,
                    parent_hash: snapshot.data.block().parent_hash,
                    transaction_count: snapshot.data.receipts().len(),
                },
            );
            let anchored = Ledger {
                anchor: BlockNumHash { number, hash: snapshot.data.block().hash },
                emitted: ledger.emitted.remove(number),
                waiting: ledger.waiting.remove(number),
            };
            releases(anchored, tail.push(seal), ledger.on_canonical(snapshot))
        }),
{
    let number = snapshot.number();
    let anchored = ledger.anchored(snapshot);
    validity_is_counted(snapshot);
    if ledger.emitted.contains_key(number) {
        extension_keeps_what_was_executed(snapshot, ledger.emitted[number]);
    }
    if !ledger.emitted.dom().is_empty() {
        lemma_has_last(ledger.emitted);
        assert(ledger.emitted.contains_key(number));
    }
    if !ledger.withdrawn(number).emitted.dom().is_empty() {
        lemma_withdrawn_first(ledger);
        assert(ledger.emitted.contains_key((number + 1) as u64));
    }
    lemma_anchored_keeps_linked(ledger, snapshot);
    if !anchored.emitted.dom().is_empty() {
        lemma_has_last(anchored.emitted);
    }
    assert forall|k: u64| #[trigger] anchored.waiting.contains_key(k) implies anchored.tip()
        < k by {
        assert(ledger.waiting.contains_key(k));
        if !anchored.emitted.dom().is_empty() {
            assert(ledger.emitted.contains_key(anchored.tip()));
        }
    }
    lemma_drained_releases(anchored);
    lemma_releases_after(anchored, anchored.drained(), ledger.seal_events(snapshot));
}

/// **A pending snapshot without news is silent.** It is at or below the anchor, or no newer than
/// the one that is held of its block, the waiting one before the delivered one.
pub proof fn pending_without_news_is_silent<P>(ledger: Ledger<P>, snapshot: Snapshot<P>)
    requires
        is_sound(snapshot),
        ({
            let number = snapshot.number();
            ||| number <= ledger.anchor.number
            ||| ledger.waiting.contains_key(number) && ledger.waiting[number].publication_id
                >= snapshot.publication_id
            ||| !ledger.waiting.contains_key(number) && ledger.emitted.contains_key(number)
                && ledger.emitted[number].publication_id >= snapshot.publication_id
        }),
    ensures
        ledger.on_pending(snapshot).ledger == ledger,
        ledger.on_pending(snapshot).result == Ok::<Seq<Event<Delta<P>>>, Reason>(Seq::empty()),
{
    validity_is_counted(snapshot);
}

/// **A newer pending snapshot of a new block waits for its parent.** It takes the place of an older
/// one that waits, and then the waiting blocks are released.
pub proof fn pending_of_a_new_block_waits<P>(ledger: Ledger<P>, snapshot: Snapshot<P>)
    requires
        ledger.inv(),
        is_sound(snapshot),
        snapshot.number() > ledger.anchor.number,
        !ledger.emitted.contains_key(snapshot.number()),
        ledger.waiting.contains_key(snapshot.number())
            ==> ledger.waiting[snapshot.number()].publication_id < snapshot.publication_id,
    ensures
        releases(
            Ledger {
                anchor: ledger.anchor,
                emitted: ledger.emitted,
                waiting: ledger.waiting.insert(snapshot.number(), snapshot),
            },
            Seq::empty(),
            ledger.on_pending(snapshot),
        ),
{
    let queued = ledger.queued(snapshot);
    validity_is_counted(snapshot);
    lemma_queued_keeps_linked(ledger, snapshot);
    assert forall|k: u64| #[trigger] queued.waiting.contains_key(k) implies queued.tip() < k by {
        if k != snapshot.number() {
            assert(ledger.waiting.contains_key(k));
        }
    }
    lemma_drained_releases(queued);
}

/// **A newer pending snapshot of a delivered block may only add to it.** It has to keep all that
/// was delivered, and may change neither the number of transactions nor the hash of a block on
/// which another was delivered. It then takes the place of the one before; what is new of it is
/// delivered, if anything is, and then the waiting blocks are released.
pub proof fn pending_of_a_delivered_block_adds<P>(ledger: Ledger<P>, snapshot: Snapshot<P>)
    requires
        ledger.inv(),
        is_sound(snapshot),
        ledger.emitted.contains_key(snapshot.number()),
        ledger.emitted[snapshot.number()].publication_id < snapshot.publication_id,
    ensures
        ({
            let number = snapshot.number();
            let previous = ledger.emitted[number];
            let old_len = previous.data.receipts()@.len();
            let outcome = ledger.on_pending(snapshot);
            let changes_parent = number < u64::MAX && ledger.emitted.contains_key(
                (number + 1) as u64,
            ) && (snapshot.data.receipts()@.len() != old_len || snapshot.hash()
                != previous.hash());
            if !keeps(snapshot, previous) || changes_parent {
                &&& outcome.ledger.anchor == ledger.anchor
                &&& outcome.ledger.emitted == ledger.emitted
                &&& outcome.ledger.waiting == ledger.waiting.insert(number, snapshot)
                &&& outcome.result == Err::<Seq<Event<Delta<P>>>, Reason>(
                    if !keeps(snapshot, previous) {
                        Reason::PendingPrefixChanged
                    } else {
                        Reason::PublishedParentChanged
                    },
                )
            } else {
                releases(
                    Ledger {
                        anchor: ledger.anchor,
                        emitted: ledger.emitted.insert(number, snapshot),
                        waiting: ledger.waiting,
                    },
                    if old_len < snapshot.data.receipts()@.len() {
                        seq![Event::Apply(Delta { snapshot, start: old_len as usize })]
                    } else {
                        Seq::empty()
                    },
                    outcome,
                )
            }
        }),
{
    let number = snapshot.number();
    let previous = ledger.emitted[number];
    let queued = ledger.queued(snapshot);
    validity_is_counted(snapshot);
    extension_keeps_what_was_executed(snapshot, previous);
    lemma_has_last(ledger.emitted);
    assert(!ledger.waiting.contains_key(number));
    lemma_queued_keeps_linked(ledger, snapshot);
    assert(queued.waiting.contains_key(number));
    lemma_has_first(queued.waiting);
    assert(first_key(queued.waiting) == number) by {
        let first = first_key(queued.waiting);
        if first != number {
            assert(ledger.waiting.contains_key(first));
        }
    }
    assert(ledger.tip() > number ==> ledger.emitted.contains_key((number + 1) as u64));
    if queued.release() is From {
        let after = queued.advanced();
        lemma_advance_keeps_linked(queued);
        assert(after.waiting =~= ledger.waiting);
        assert(after.emitted =~= ledger.emitted.insert(number, snapshot));
        assert forall|k: u64| #[trigger] after.waiting.contains_key(k) implies after.tip() < k by {
            assert(ledger.waiting.contains_key(k));
        }
        lemma_drained_releases(after);
        lemma_releases_after(after, after.drained(), queued.advance_events(previous.len()));
    }
}

/// **Blocks are read back as far as they are missing.** What is missing lies above the anchor and
/// below the next canonical block, or, when none is queued, at or below the height that is asked
/// for. More than 1024 missing blocks are too many.
pub proof fn missing_blocks_are_counted<P>(
    ledger: Ledger<P>,
    next_canonical: Option<&Snapshot<P>>,
    pending_target: Option<u64>,
)
    ensures
        ({
            let missing = match (next_canonical, pending_target) {
                (Some(snapshot), _) => snapshot.number() - 1 - ledger.anchor.number,
                (None, Some(target)) => target - ledger.anchor.number,
                (None, None) => 0,
            };
            let result = ledger.recovery(next_canonical, pending_target);
            &&& missing <= 0 <==> result == Ok::<bool, Reason>(false)
            &&& 0 < missing <= 1024 <==> result == Ok::<bool, Reason>(true)
            &&& missing > 1024 <==> result == Err::<bool, Reason>(Reason::CanonicalRecoveryLimit)
        }),
{
}

} // verus!
