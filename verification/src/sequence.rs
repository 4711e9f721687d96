//! The state of one subscription's feed, and the rules that order it.

use crate::ledger::{bytes_held, lemma_advance_keeps_linked, lemma_anchored_keeps_linked,
    lemma_canonical_keeps_inv, lemma_canonical_well_cut, lemma_fresh_inv, lemma_pending_keeps_inv,
    lemma_pending_well_cut, lemma_queued_keeps_linked, lemma_withdrawn_first, well_cut, Delta,
    Event, Ledger, Outcome, Release, Seal, MAX_BLOCKS, MAX_RECOVERY_BLOCKS};
use crate::ordered::{first_key, highest, lemma_has_first, lemma_total_remove, lowest, total};
use crate::primitives::BlockNumHash;
use crate::reason::Reason;
use crate::snapshot::{Snapshot, MAX_BYTES};
use std::collections::BTreeMap;
use vstd::prelude::*;

verus! {

broadcast use vstd::std_specs::btree::group_btree_axioms;

/// Pure ordering and reconciliation. It never reads a database or writes to a client.
#[derive(Debug)]
pub struct ReceiptSequence<P> {
    pub anchor: BlockNumHash,
    pub emitted: BTreeMap<u64, Snapshot<P>>,
    pub waiting: BTreeMap<u64, Snapshot<P>>,
}

impl<P> View for ReceiptSequence<P> {
    type V = Ledger<P>;

    open spec fn view(&self) -> Ledger<P> {
        Ledger { anchor: self.anchor, emitted: self.emitted@, waiting: self.waiting@ }
    }
}

/// Whether an outcome is what a call left behind and returned.
pub open spec fn comes_to<P>(
    outcome: Outcome<P>,
    after: ReceiptSequence<P>,
    result: Result<Vec<Event<Delta<P>>>, Reason>,
) -> bool {
    &&& outcome.ledger == after@
    &&& outcome.result == match result {
        Ok(events) => Ok::<Seq<Event<Delta<P>>>, Reason>(events@),
        Err(reason) => Err(reason),
    }
}

/// The memory that the snapshots of a map take together.
fn sum_bytes<P>(m: &BTreeMap<u64, Snapshot<P>>) -> (sum: usize)
    requires
        bytes_held(m@) <= usize::MAX,
    ensures
        sum == bytes_held(m@),
{
    let ghost weight = |snapshot: Snapshot<P>| snapshot.bytes() as nat;
    let ghost keys: Seq<u64> = vstd::std_specs::iter::IteratorSpec::remaining(&m.keys()).unref();
    let ghost mut rest: Map<u64, Snapshot<P>> = m@;
    let mut sum: usize = 0;
    for k in it: m.keys()
        invariant
            it.seq().unref() == keys,
            keys.to_set() == m@.dom(),
            keys.no_duplicates(),
            weight == (|snapshot: Snapshot<P>| snapshot.bytes() as nat),
            rest.dom().finite(),
            forall|j: u64| #[trigger]
                rest.contains_key(j) <==> m@.contains_key(j) && !keys.take(
                    it.index() as int,
                ).contains(j),
            forall|j: u64| #[trigger] rest.contains_key(j) ==> rest[j] == m@[j],
            sum + total(rest, weight) == bytes_held(m@),
            bytes_held(m@) <= usize::MAX,
    {
        let ghost index = it.index() as int;
        proof {
            assert(keys[index] == *k);
            assert(keys.to_set().contains(*k));
            assert(keys.take(index + 1) =~= keys.take(index).push(*k));
            assert(!keys.take(index).contains(*k));
            assert(keys.take(index + 1).contains(*k)) by {
                assert(keys.take(index + 1)[index] == *k);
            }
            assert forall|j: u64|
                keys.take(index).contains(j) implies keys.take(index + 1).contains(j) by {
                let n = choose|n: int| 0 <= n < index && keys.take(index)[n] == j;
                assert(keys.take(index + 1)[n] == j);
            }
            lemma_total_remove(rest, *k, weight);
            rest = rest.remove(*k);
        }
        if let Some(snapshot) = m.get(k) {
            sum += snapshot.bytes();
        }
    }
    proof {
        assert(keys.take(keys.len() as int) =~= keys);
        assert forall|j: u64| !(#[trigger] rest.contains_key(j)) by {
            assert(m@.contains_key(j) ==> keys.to_set().contains(j));
        }
        assert(rest.dom() =~= Set::empty());
    }
    sum
}

impl<P> ReceiptSequence<P> {
    /// A feed that stands on `anchor` and has delivered nothing.
    pub fn new(anchor: BlockNumHash) -> (sequence: Self)
        ensures
            sequence@ == Ledger::<P>::fresh(anchor),
            sequence@.inv(),
    {
        proof {
            lemma_fresh_inv::<P>(anchor);
        }
        Self { anchor, emitted: BTreeMap::new(), waiting: BTreeMap::new() }
    }

    /// Holds the feed to the number of blocks and bytes that it may hold.
    fn check_bound(&self) -> (result: Result<(), Reason>)
        requires
            self@.emitted.dom().finite(),
            self@.waiting.dom().finite(),
            self@.blocks_held() <= usize::MAX,
            self@.bytes_held() <= usize::MAX,
        ensures
            result == if self@.within_bound() {
                Ok::<(), Reason>(())
            } else {
                Err(Reason::BufferLimit)
            },
    {
        if self.emitted.len() + self.waiting.len() > MAX_BLOCKS || sum_bytes(&self.emitted)
            + sum_bytes(&self.waiting) > MAX_BYTES {
            return Err(Reason::BufferLimit);
        }
        Ok(())
    }

    /// Decides about the lowest waiting block: its height and the transaction to deliver it from,
    /// or `None` when it stays.
    fn next_release(&self) -> (result: Result<Option<(u64, usize)>, Reason>)
        requires
            self@.linked(),
        ensures
            match self@.release() {
                Release::Hold => result == Ok::<Option<(u64, usize)>, Reason>(None),
                Release::Refuse(reason) => result == Err::<Option<(u64, usize)>, Reason>(reason),
                Release::From(start) => result == Ok::<Option<(u64, usize)>, Reason>(
                    Some((first_key(self@.waiting), start)),
                ),
            },
    {
        let number = match lowest(&self.waiting) {
            Some(number) => number,
            None => {
                return Ok(None);
            },
        };
        let snapshot = match self.waiting.get(&number) {
            Some(snapshot) => snapshot,
            None => {
                return Ok(None);
            },
        };
        assert(self@.waiting.contains_key(number));
        let last = highest(&self.emitted);
        if let Some(previous) = self.emitted.get(&number) {
            if !snapshot.extends(previous) {
                return Err(Reason::PendingPrefixChanged);
            }
            if last.is_some() && last.unwrap() > number && (snapshot.len() != previous.len()
                || snapshot.hash() != previous.hash()) {
                return Err(Reason::PublishedParentChanged);
            }
            return Ok(Some((number, previous.len())));
        }
        if let Some(parent_number) = last {
            if let Some(parent) = self.emitted.get(&parent_number) {
                if number != parent_number + 1 || !parent.computed_hash || snapshot.parent()
                    != parent.hash() {
                    return Ok(None);
                }
            }
        } else {
            if number != self.anchor.number + 1 {
                return Ok(None);
            }
            if snapshot.parent() != self.anchor.hash {
                return Err(Reason::PendingParentChanged);
            }
        }
        Ok(Some((number, 0)))
    }

    /// Delivers waiting blocks, lowest first, as far as the rules let it.
    fn drain(&mut self) -> (result: Result<Vec<Event<Delta<P>>>, Reason>)
        requires
            old(self)@.linked(),
            old(self)@.blocks_held() <= MAX_BLOCKS + 1,
            old(self)@.bytes_held() <= 2 * MAX_BYTES,
        ensures
            comes_to(old(self)@.drained(), *final(self), result),
    {
        let mut deltas: Vec<Event<Delta<P>>> = Vec::new();
        proof {
            lemma_after_nothing(self@.drained());
        }
        loop
            invariant
                self@.linked(),
                self@.blocks_held() <= MAX_BLOCKS + 1,
                self@.bytes_held() <= 2 * MAX_BYTES,
                old(self)@.drained() == self@.drained().after(deltas@),
            ensures
                self@.release() is Hold,
            decreases self@.waiting.dom().len(),
        {
            let (number, start) = match self.next_release() {
                Err(reason) => {
                    return Err(reason);
                },
                Ok(None) => {
                    break;
                },
                Ok(Some(release)) => release,
            };
            let ghost before = self@;
            let ghost delivered = deltas@;
            proof {
                lemma_has_first(before.waiting);
                lemma_advance_keeps_linked(before);
                lemma_after_after(
                    before.advanced().drained(),
                    before.advance_events(start),
                    deltas@,
                );
            }
            if let Some(snapshot) = self.waiting.remove(&number) {
                let first = self.emitted.insert(number, snapshot.clone()).is_none();
                if first || start < snapshot.len() {
                    deltas.push(Event::Apply(Delta { snapshot, start }));
                }
            }
            assert(self@ =~= before.advanced());
            assert(deltas@ =~= delivered + before.advance_events(start));
        }
        match self.check_bound() {
            Err(reason) => Err(reason),
            Ok(_) => {
                assert(deltas@ + Seq::<Event<Delta<P>>>::empty() =~= deltas@);
                Ok(deltas)
            },
        }
    }

    /// Takes in a snapshot of a block that is still being built. A refusal ends the subscription:
    /// it may leave a feed that is not at rest.
    pub fn pending(&mut self, snapshot: Snapshot<P>) -> (result: Result<
        Vec<Event<Delta<P>>>,
        Reason,
    >)
        requires
            old(self)@.inv(),
        ensures
            comes_to(old(self)@.on_pending(snapshot), *final(self), result),
            result is Ok ==> final(self)@.inv(),
            result matches Ok(events) ==> well_cut(events@),
    {
        if let Err(reason) = snapshot.validate() {
            return Err(reason);
        }
        let number = snapshot.number();
        if number <= self.anchor.number {
            return Ok(Vec::new());
        }
        // The initial latest-state snapshot may overtake publications already in the queue.
        let newest = match self.waiting.get(&number) {
            Some(held) => Some(held),
            None => self.emitted.get(&number),
        };
        if let Some(held) = newest {
            if held.publication_id >= snapshot.publication_id {
                return Ok(Vec::new());
            }
        }
        proof {
            lemma_queued_keeps_linked(self@, snapshot);
            if self@.on_pending(snapshot).result is Ok {
                lemma_pending_keeps_inv(self@, snapshot);
                lemma_pending_well_cut(self@, snapshot);
            }
        }
        let ghost queued = self@.queued(snapshot);
        self.waiting.insert(number, snapshot);
        assert(self@ =~= queued);
        self.drain()
    }

    /// Takes in a block of the canonical chain. A refusal ends the subscription.
    pub fn canonical(&mut self, snapshot: Snapshot<P>) -> (result: Result<
        Vec<Event<Delta<P>>>,
        Reason,
    >)
        requires
            old(self)@.inv(),
        ensures
            comes_to(old(self)@.on_canonical(snapshot), *final(self), result),
            result is Ok ==> final(self)@.inv(),
            result matches Ok(events) ==> well_cut(events@),
    {
        if let Err(reason) = snapshot.validate() {
            return Err(reason);
        }
        let number = snapshot.number();
        if number <= self.anchor.number {
            if number == self.anchor.number && snapshot.hash() != self.anchor.hash {
                return Err(Reason::CanonicalReorg);
            }
            return Ok(Vec::new());
        }
        if number != self.anchor.number + 1 {
            return Err(Reason::CanonicalGap);
        }
        if snapshot.parent() != self.anchor.hash {
            return Err(Reason::CanonicalParentMismatch);
        }
        let ghost before = self@;
        let mut deltas: Vec<Event<Delta<P>>> = Vec::new();
        let mut start: usize = 0;
        if let Some(previous) = self.emitted.remove(&number) {
            assert(self@ =~= before.withdrawn(number));
            if !snapshot.extends(&previous) {
                return Err(Reason::ExecutionMismatch);
            }
            start = previous.len();
            // A child may only have been emitted once its entire parent was certified.
            if let Some(child_number) = lowest(&self.emitted) {
                if let Some(child) = self.emitted.get(&child_number) {
                    if start != snapshot.len() || child.parent() != snapshot.hash() {
                        return Err(Reason::PublishedParentChanged);
                    }
                }
            }
        }
        proof {
            if !before.withdrawn(number).emitted.dom().is_empty() {
                lemma_withdrawn_first(before);
            }
            lemma_anchored_keeps_linked(before, snapshot);
            if before.on_canonical(snapshot).result is Ok {
                lemma_canonical_keeps_inv(before, snapshot);
                lemma_canonical_well_cut(before, snapshot);
            }
        }
        self.waiting.remove(&number);
        self.anchor = BlockNumHash::new(number, snapshot.hash());
        assert(self@ =~= before.anchored(snapshot));
        let seal = Seal {
            block_number: number,
            block_hash: snapshot.hash(),
            parent_hash: snapshot.parent(),
            transaction_count: snapshot.len(),
        };
        let ghost sealed = before.seal_events(snapshot);
        if start < snapshot.len() {
            deltas.push(Event::Apply(Delta { snapshot, start }));
        }
        // Repair the parent tail, seal it, then release any waiting child.
        deltas.push(Event::Seal(seal));
        assert(deltas@ =~= sealed);
        match self.drain() {
            Err(reason) => Err(reason),
            Ok(mut released) => {
                deltas.append(&mut released);
                Ok(deltas)
            },
        }
    }

    /// Whether canonical blocks are missing between the anchor and the next input.
    pub fn needs_recovery(
        &self,
        next_canonical: Option<&Snapshot<P>>,
        pending_target: Option<u64>,
    ) -> (result: Result<bool, Reason>)
        ensures
            result == self@.recovery(next_canonical, pending_target),
    {
        let target: Option<u64> = match next_canonical {
            Some(snapshot) => snapshot.number().checked_sub(1),
            None => pending_target,
        };
        let target: u64 = match target {
            Some(target) => target,
            None => self.anchor.number,
        };
        let missing: u64 = target.saturating_sub(self.anchor.number);
        if missing > MAX_RECOVERY_BLOCKS {
            return Err(Reason::CanonicalRecoveryLimit);
        }
        Ok(missing != 0)
    }
}

/// Delivering nothing first changes nothing.
proof fn lemma_after_nothing<P>(outcome: Outcome<P>)
    ensures
        outcome.after(Seq::empty()) == outcome,
{
    if let Ok(events) = outcome.result {
        assert(Seq::<Event<Delta<P>>>::empty() + events =~= events);
    }
}

/// Delivering two batches first is delivering them in turn.
proof fn lemma_after_after<P>(
    outcome: Outcome<P>,
    second: Seq<Event<Delta<P>>>,
    first: Seq<Event<Delta<P>>>,
)
    ensures
        outcome.after(second).after(first) == outcome.after(first + second),
{
    if let Ok(events) = outcome.result {
        assert(first + (second + events) =~= (first + second) + events);
    }
}

/// **A call leaves behind and returns what its outcome says.** The anchor and both maps are those
/// of the outcome, and so are the events, in order, or the reason.
pub proof fn outcome_is_what_a_call_comes_to<P>(
    outcome: Outcome<P>,
    after: ReceiptSequence<P>,
    result: Result<Vec<Event<Delta<P>>>, Reason>,
)
    requires
        comes_to(outcome, after, result),
    ensures
        after.anchor == outcome.ledger.anchor,
        after.emitted@ == outcome.ledger.emitted,
        after.waiting@ == outcome.ledger.waiting,
        result is Ok <==> outcome.result is Ok,
        result is Ok ==> result->Ok_0@ == outcome.result->Ok_0,
        result is Err ==> result->Err_0 == outcome.result->Err_0,
{
}

/// **A feed is its anchor and its two maps.**
pub proof fn feed_is_its_fields<P>(sequence: ReceiptSequence<P>)
    ensures
        sequence@.anchor == sequence.anchor,
        sequence@.emitted == sequence.emitted@,
        sequence@.waiting == sequence.waiting@,
{
}

} // verus!
