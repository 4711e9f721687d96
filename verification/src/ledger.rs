//! The ordering rules, over mathematical maps: which blocks wait, which are out, and what each
//! input makes of them.

use crate::ordered::{first_key, last_key, lemma_has_first, lemma_has_last, lemma_total_insert,
    lemma_total_remove, total};
use crate::primitives::{BlockNumHash, B256};
use crate::reason::Reason;
use crate::snapshot::{Snapshot, MAX_BYTES};
use vstd::prelude::*;

verus! {

/// The most blocks that one subscription may hold.
pub const MAX_BLOCKS: usize = 64;

/// The most canonical blocks that are read back before a jumped notification.
pub const MAX_RECOVERY_BLOCKS: u64 = 1024;

/// The confirmation that a block is canonical and that all of it was delivered.
#[derive(Clone, Copy, Debug, PartialEq, Eq, Structural)]
pub struct Seal {
    pub block_number: u64,
    pub block_hash: B256,
    pub parent_hash: B256,
    pub transaction_count: usize,
}

/// One step of the feed.
#[derive(Debug)]
pub enum Event<T> {
    Apply(T),
    Seal(Seal),
}

/// The receipts of a block from the transaction at `start` on.
#[derive(Debug)]
pub struct Delta<P> {
    pub snapshot: Snapshot<P>,
    pub start: usize,
}

/// The state of a feed: the canonical block it stands on, the blocks above it that were delivered,
/// and the blocks that wait for a parent.
#[verifier::ext_equal]
pub struct Ledger<P> {
    pub anchor: BlockNumHash,
    pub emitted: Map<u64, Snapshot<P>>,
    pub waiting: Map<u64, Snapshot<P>>,
}

/// What an input makes of a ledger: the ledger after it, and the events to deliver or the reason
/// to stop.
pub struct Outcome<P> {
    pub ledger: Ledger<P>,
    pub result: Result<Seq<Event<Delta<P>>>, Reason>,
}

/// What the rules say of the lowest waiting block.
pub enum Release {
    /// It stays, or there is none.
    Hold,
    /// It cannot be reconciled with what was delivered.
    Refuse(Reason),
    /// It is delivered from this transaction on.
    From(usize),
}

/// The seal of a canonical block.
pub open spec fn seal_of<P>(snapshot: Snapshot<P>) -> Seal {
    Seal {
        block_number: snapshot.number(),
        block_hash: snapshot.hash(),
        parent_hash: snapshot.parent(),
        transaction_count: snapshot.len(),
    }
}

/// The memory that the snapshots of a map take together.
pub open spec fn bytes_held<P>(m: Map<u64, Snapshot<P>>) -> nat {
    total(m, |snapshot: Snapshot<P>| snapshot.bytes() as nat)
}

impl<P> Outcome<P> {
    /// The same outcome with `events` delivered first.
    pub open spec fn after(self, events: Seq<Event<Delta<P>>>) -> Self {
        Outcome {
            ledger: self.ledger,
            result: match self.result {
                Ok(rest) => Ok(events + rest),
                Err(reason) => Err(reason),
            },
        }
    }
}

impl<P> Ledger<P> {
    /// The ledger of a fresh feed.
    pub open spec fn fresh(anchor: BlockNumHash) -> Self {
        Ledger { anchor, emitted: Map::empty(), waiting: Map::empty() }
    }

    /// The outcome that changes nothing.
    pub open spec fn stays(self, result: Result<Seq<Event<Delta<P>>>, Reason>) -> Outcome<P> {
        Outcome { ledger: self, result }
    }

    /// The height of the newest delivered block, or of the anchor.
    pub open spec fn tip(self) -> u64 {
        if self.emitted.dom().is_empty() {
            self.anchor.number
        } else {
            last_key(self.emitted)
        }
    }

    /// The hash of the newest delivered block, or of the anchor.
    pub open spec fn tip_hash(self) -> B256 {
        if self.emitted.dom().is_empty() {
            self.anchor.hash
        } else {
            self.emitted[last_key(self.emitted)].hash()
        }
    }

    /// The newest snapshot of the block at a height, whether it waits or was delivered.
    pub open spec fn newest(self, number: u64) -> Option<Snapshot<P>> {
        if self.waiting.contains_key(number) {
            Some(self.waiting[number])
        } else if self.emitted.contains_key(number) {
            Some(self.emitted[number])
        } else {
            None
        }
    }

    /// The blocks that the feed holds.
    pub open spec fn blocks_held(self) -> nat {
        self.emitted.dom().len() + self.waiting.dom().len()
    }

    /// The memory that the feed holds.
    pub open spec fn bytes_held(self) -> nat {
        bytes_held(self.emitted) + bytes_held(self.waiting)
    }

    /// Whether the feed holds no more than it may.
    pub open spec fn within_bound(self) -> bool {
        self.blocks_held() <= MAX_BLOCKS && self.bytes_held() <= MAX_BYTES
    }

    /// What becomes of the lowest waiting block.
    ///
    /// A block that was delivered before may only grow, and only while nothing was delivered on
    /// top of it. A new block is delivered on top of the newest one, once the hash of that one is
    /// certain and is the parent hash of the new one.
    pub open spec fn release(self) -> Release {
        let number = first_key(self.waiting);
        let snapshot = self.waiting[number];
        if !self.waiting.dom().finite() || self.waiting.dom().is_empty() {
            Release::Hold
        } else if self.emitted.contains_key(number) {
            let previous = self.emitted[number];
            if !snapshot.continues(&previous) {
                Release::Refuse(Reason::PendingPrefixChanged)
            } else if self.tip() > number && (snapshot.len() != previous.len() || snapshot.hash()
                != previous.hash()) {
                Release::Refuse(Reason::PublishedParentChanged)
            } else {
                Release::From(previous.len())
            }
        } else if number != self.tip() + 1 {
            Release::Hold
        } else if self.emitted.dom().is_empty() {
            if snapshot.parent() != self.anchor.hash {
                Release::Refuse(Reason::PendingParentChanged)
            } else {
                Release::From(0)
            }
        } else if !self.emitted[self.tip()].computed_hash || snapshot.parent()
            != self.tip_hash() {
            Release::Hold
        } else {
            Release::From(0)
        }
    }

    /// The ledger once the lowest waiting block was delivered.
    pub open spec fn advanced(self) -> Self {
        let number = first_key(self.waiting);
        Ledger {
            anchor: self.anchor,
            emitted: self.emitted.insert(number, self.waiting[number]),
            waiting: self.waiting.remove(number),
        }
    }

    /// The event that delivers the lowest waiting block from `start` on. Nothing is said of a
    /// block that was delivered before and has nothing new; the first snapshot of a block is
    /// delivered even when it is empty, so that the client has its context.
    pub open spec fn advance_events(self, start: usize) -> Seq<Event<Delta<P>>> {
        let number = first_key(self.waiting);
        let snapshot = self.waiting[number];
        if !self.emitted.contains_key(number) || start < snapshot.len() {
            seq![Event::Apply(Delta { snapshot, start })]
        } else {
            Seq::empty()
        }
    }

    /// Delivers waiting blocks, lowest first, as far as the rules let it, and then holds the feed
    /// to its bound.
    pub open spec fn drained(self) -> Outcome<P>
        decreases self.waiting.dom().len(),
    {
        match self.release() {
            Release::Refuse(reason) => self.stays(Err(reason)),
            Release::Hold => if self.within_bound() {
                self.stays(Ok(Seq::empty()))
            } else {
                self.stays(Err(Reason::BufferLimit))
            },
            Release::From(start) => {
                proof {
                    lemma_has_first(self.waiting);
                }
                self.advanced().drained().after(self.advance_events(start))
            },
        }
    }

    /// The ledger with a snapshot set to wait.
    pub open spec fn queued(self, snapshot: Snapshot<P>) -> Self {
        Ledger { waiting: self.waiting.insert(snapshot.number(), snapshot), ..self }
    }

    /// What a pending snapshot makes of the ledger. One at or below the anchor says nothing new,
    /// nor does one that is no newer than the snapshot held of the same block.
    pub open spec fn on_pending(self, snapshot: Snapshot<P>) -> Outcome<P> {
        match snapshot.validity() {
            Err(reason) => self.stays(Err(reason)),
            Ok(_) => if snapshot.number() <= self.anchor.number {
                self.stays(Ok(Seq::empty()))
            } else if self.newest(snapshot.number()) matches Some(held) && held.publication_id
                >= snapshot.publication_id {
                self.stays(Ok(Seq::empty()))
            } else {
                self.queued(snapshot).drained()
            },
        }
    }

    /// The ledger with the block at a height taken out of the delivered ones.
    pub open spec fn withdrawn(self, number: u64) -> Self {
        Ledger { emitted: self.emitted.remove(number), ..self }
    }

    /// The ledger that stands on the given canonical block.
    pub open spec fn anchored(self, snapshot: Snapshot<P>) -> Self {
        Ledger {
            anchor: BlockNumHash { number: snapshot.number(), hash: snapshot.hash() },
            emitted: self.emitted.remove(snapshot.number()),
            waiting: self.waiting.remove(snapshot.number()),
        }
    }

    /// The number of transactions that were delivered of the block at a height.
    pub open spec fn delivered(self, number: u64) -> usize {
        if self.emitted.contains_key(number) {
            self.emitted[number].len()
        } else {
            0
        }
    }

    /// The events that repair the tail of a canonical block and seal it.
    pub open spec fn seal_events(self, snapshot: Snapshot<P>) -> Seq<Event<Delta<P>>> {
        let start = self.delivered(snapshot.number());
        let repair = if start < snapshot.len() {
            seq![Event::Apply(Delta { snapshot, start })]
        } else {
            Seq::empty()
        };
        repair.push(Event::Seal(seal_of(snapshot)))
    }

    /// What a canonical block makes of the ledger. The block after the anchor must continue what
    /// was delivered of it; once something was delivered on top of it, it must equal that. The
    /// missing tail is delivered, the block is sealed, and then its children are released.
    pub open spec fn on_canonical(self, snapshot: Snapshot<P>) -> Outcome<P> {
        let number = snapshot.number();
        match snapshot.validity() {
            Err(reason) => self.stays(Err(reason)),
            Ok(_) => if number == self.anchor.number && snapshot.hash() != self.anchor.hash {
                self.stays(Err(Reason::CanonicalReorg))
            } else if number <= self.anchor.number {
                self.stays(Ok(Seq::empty()))
            } else if number != self.anchor.number + 1 {
                self.stays(Err(Reason::CanonicalGap))
            } else if snapshot.parent() != self.anchor.hash {
                self.stays(Err(Reason::CanonicalParentMismatch))
            } else if self.emitted.contains_key(number) && !snapshot.continues(
                &self.emitted[number],
            ) {
                self.withdrawn(number).stays(Err(Reason::ExecutionMismatch))
            } else if self.emitted.contains_key(number) && !self.withdrawn(
                number,
            ).emitted.dom().is_empty() && (self.emitted[number].len() != snapshot.len()
                || self.emitted[first_key(self.withdrawn(number).emitted)].parent()
                != snapshot.hash()) {
                self.withdrawn(number).stays(Err(Reason::PublishedParentChanged))
            } else {
                self.anchored(snapshot).drained().after(self.seal_events(snapshot))
            },
        }
    }

    /// The height up to which canonical blocks have to be read back: just below a queued canonical
    /// block, or what waiting blocks ask for when none is queued.
    pub open spec fn recovery_target(
        self,
        next_canonical: Option<&Snapshot<P>>,
        pending_target: Option<u64>,
    ) -> u64 {
        match next_canonical {
            Some(snapshot) => if snapshot.number() > 0 {
                (snapshot.number() - 1) as u64
            } else {
                self.anchor.number
            },
            None => match pending_target {
                Some(target) => target,
                None => self.anchor.number,
            },
        }
    }

    /// Whether canonical blocks are missing between the anchor and the next input, unless they are
    /// too many to read back.
    pub open spec fn recovery(
        self,
        next_canonical: Option<&Snapshot<P>>,
        pending_target: Option<u64>,
    ) -> Result<bool, Reason> {
        let missing = self.recovery_target(next_canonical, pending_target) - self.anchor.number;
        if missing > MAX_RECOVERY_BLOCKS {
            Err(Reason::CanonicalRecoveryLimit)
        } else {
            Ok(missing > 0)
        }
    }

    /// The hash of the block below a height above the anchor.
    pub open spec fn hash_below(self, number: u64) -> B256 {
        if number == self.anchor.number + 1 {
            self.anchor.hash
        } else {
            self.emitted[(number - 1) as u64].hash()
        }
    }

    /// What holds while waiting blocks are being released: the delivered blocks follow each other
    /// from the anchor to the tip, each is the child of the one below, and every block is valid
    /// and stands under its own height.
    pub open spec fn linked(self) -> bool {
        &&& self.emitted.dom().finite()
        &&& self.waiting.dom().finite()
        &&& forall|k: u64| #[trigger]
            self.emitted.contains_key(k) <==> self.anchor.number < k && k <= self.tip()
        &&& forall|k: u64| #[trigger]
            self.emitted.contains_key(k) ==> self.emitted[k].number() == k
                && self.emitted[k].validity() is Ok && self.emitted[k].parent() == self.hash_below(
                k,
            )
        &&& forall|k: u64| #[trigger]
            self.waiting.contains_key(k) ==> self.anchor.number < k && self.waiting[k].number() == k
                && self.waiting[k].validity() is Ok
    }

    /// What holds of a feed between inputs: it is linked, every waiting block lies above the tip
    /// and has to wait, and the feed holds no more than it may.
    pub open spec fn inv(self) -> bool {
        &&& self.linked()
        &&& forall|k: u64| #[trigger] self.waiting.contains_key(k) ==> self.tip() < k
        &&& self.release() is Hold
        &&& self.within_bound()
    }
}

/// Whether every delivered delta is cut out of a valid block.
pub open spec fn well_cut<P>(events: Seq<Event<Delta<P>>>) -> bool {
    forall|i: int|
        0 <= i < events.len() ==> ((#[trigger] events[i]) matches Event::Apply(delta)
            ==> delta.snapshot.validity() is Ok && delta.start <= delta.snapshot.len())
}

/// Putting a snapshot in adds at most one block and its bytes.
proof fn lemma_bytes_insert<P>(m: Map<u64, Snapshot<P>>, k: u64, snapshot: Snapshot<P>)
    requires
        m.dom().finite(),
    ensures
        bytes_held(m.insert(k, snapshot)) <= bytes_held(m) + snapshot.bytes(),
        m.insert(k, snapshot).dom().len() <= m.dom().len() + 1,
        m.contains_key(k) ==> m.insert(k, snapshot).dom().len() == m.dom().len(),
{
    lemma_total_insert(m, k, snapshot, |s: Snapshot<P>| s.bytes() as nat);
    if m.contains_key(k) {
        assert(m.insert(k, snapshot).dom() =~= m.dom());
    }
}

proof fn lemma_bytes_remove<P>(m: Map<u64, Snapshot<P>>, k: u64)
    requires
        m.dom().finite(),
    ensures
        m.contains_key(k) ==> bytes_held(m) == bytes_held(m.remove(k)) + m[k].bytes(),
        bytes_held(m.remove(k)) <= bytes_held(m),
        m.contains_key(k) ==> m.remove(k).dom().len() + 1 == m.dom().len(),
        m.remove(k).dom().len() <= m.dom().len(),
{
    if m.contains_key(k) {
        lemma_total_remove(m, k, |s: Snapshot<P>| s.bytes() as nat);
    } else {
        assert(m.remove(k) =~= m);
    }
}

/// The highest key after an insertion.
proof fn lemma_last_of_insert<V>(m: Map<u64, V>, k: u64, v: V)
    requires
        m.dom().finite(),
    ensures
        m.dom().is_empty() ==> last_key(m.insert(k, v)) == k,
        !m.dom().is_empty() ==> last_key(m.insert(k, v)) == if k > last_key(m) {
            k
        } else {
            last_key(m)
        },
{
    let inserted = m.insert(k, v);
    assert(inserted.contains_key(k));
    lemma_has_last(inserted);
    if !m.dom().is_empty() {
        lemma_has_last(m);
        assert(inserted.contains_key(last_key(m)));
    } else {
        assert(forall|j: u64| #[trigger] inserted.contains_key(j) ==> j == k);
    }
}

/// Delivering the lowest waiting block keeps the feed linked, on the same anchor, and lets it hold
/// no more than before.
pub proof fn lemma_advance_keeps_linked<P>(ledger: Ledger<P>)
    requires
        ledger.linked(),
        ledger.release() is From,
    ensures
        ledger.advanced().linked(),
        ledger.advanced().blocks_held() <= ledger.blocks_held(),
        ledger.advanced().bytes_held() <= ledger.bytes_held(),
        ledger.advanced().tip() == if first_key(ledger.waiting) > ledger.tip() {
            first_key(ledger.waiting)
        } else {
            ledger.tip()
        },
{
    let number = first_key(ledger.waiting);
    let snapshot = ledger.waiting[number];
    let next = ledger.advanced();
    lemma_has_first(ledger.waiting);
    lemma_last_of_insert(ledger.emitted, number, snapshot);
    lemma_bytes_insert(ledger.emitted, number, snapshot);
    lemma_bytes_remove(ledger.waiting, number);
    assert(next.emitted.contains_key(number));
    if !ledger.emitted.dom().is_empty() {
        lemma_has_last(ledger.emitted);
    }
    assert forall|k: u64| #[trigger] next.emitted.contains_key(k) implies next.emitted[k].number()
        == k && next.emitted[k].validity() is Ok && next.emitted[k].parent() == next.hash_below(
        k,
    ) by {
        if k != number {
            assert(ledger.emitted.contains_key(k));
        }
        if k > ledger.anchor.number + 1 {
            let below = (k - 1) as u64;
            assert(next.emitted.contains_key(below));
        }
    }
}

/// Releasing waiting blocks never moves the anchor, and what it leaves behind, when nothing is
/// refused, is a feed at rest.
pub proof fn lemma_drained_settles<P>(ledger: Ledger<P>)
    requires
        ledger.linked(),
    ensures
        ledger.drained().ledger.linked(),
        ledger.drained().ledger.anchor == ledger.anchor,
        ledger.drained().ledger.tip() >= ledger.tip(),
        ledger.drained().result is Ok ==> ledger.drained().ledger.inv(),
    decreases ledger.waiting.dom().len(),
{
    match ledger.release() {
        Release::Refuse(_) => {},
        Release::Hold => {
            if !ledger.waiting.dom().is_empty() {
                lemma_has_first(ledger.waiting);
            }
        },
        Release::From(_) => {
            lemma_has_first(ledger.waiting);
            lemma_advance_keeps_linked(ledger);
            lemma_drained_settles(ledger.advanced());
        },
    }
}

/// A valid snapshot above the anchor may be set to wait.
pub proof fn lemma_queued_keeps_linked<P>(ledger: Ledger<P>, snapshot: Snapshot<P>)
    requires
        ledger.linked(),
        snapshot.validity() is Ok,
        snapshot.number() > ledger.anchor.number,
    ensures
        ledger.queued(snapshot).linked(),
        ledger.queued(snapshot).blocks_held() <= ledger.blocks_held() + 1,
        ledger.queued(snapshot).bytes_held() <= ledger.bytes_held() + MAX_BYTES,
{
    lemma_bytes_insert(ledger.waiting, snapshot.number(), snapshot);
}

/// A canonical block may become the anchor when it continues what was delivered of it and equals
/// that once something was delivered on top.
pub proof fn lemma_anchored_keeps_linked<P>(ledger: Ledger<P>, snapshot: Snapshot<P>)
    requires
        ledger.inv(),
        snapshot.validity() is Ok,
        snapshot.number() == ledger.anchor.number + 1,
        !ledger.withdrawn(snapshot.number()).emitted.dom().is_empty()
            ==> ledger.emitted.contains_key(snapshot.number()) && ledger.emitted[first_key(
            ledger.withdrawn(snapshot.number()).emitted,
        )].parent() == snapshot.hash(),
    ensures
        ledger.anchored(snapshot).linked(),
        ledger.anchored(snapshot).blocks_held() <= ledger.blocks_held(),
        ledger.anchored(snapshot).bytes_held() <= ledger.bytes_held(),
        ledger.anchored(snapshot).tip() >= ledger.tip(),
{
    let number = snapshot.number();
    let next = ledger.anchored(snapshot);
    lemma_bytes_remove(ledger.emitted, number);
    lemma_bytes_remove(ledger.waiting, number);
    if !next.emitted.dom().is_empty() {
        lemma_has_first(next.emitted);
        lemma_has_last(next.emitted);
        lemma_has_last(ledger.emitted);
        let last = last_key(ledger.emitted);
        assert(next.emitted.contains_key(last_key(next.emitted)));
        assert(ledger.emitted.contains_key(last_key(next.emitted)));
        assert(next.emitted.contains_key(last));
        assert(next.tip() == ledger.tip());
        assert(next.emitted.contains_key((number + 1) as u64));
        assert(first_key(next.emitted) == number + 1);
        assert forall|k: u64| #[trigger]
            next.emitted.contains_key(k) implies next.emitted[k].parent() == next.hash_below(k) by {
            assert(ledger.emitted.contains_key(k));
            if k != number + 1 {
                let below = (k - 1) as u64;
                assert(next.emitted.contains_key(below));
            }
        }
    } else {
        assert forall|k: u64| !(#[trigger] next.emitted.contains_key(k)) by {
            assert(!next.emitted.dom().contains(k));
        }
        if !ledger.emitted.dom().is_empty() {
            lemma_has_last(ledger.emitted);
            assert(!next.emitted.contains_key(last_key(ledger.emitted)));
        }
    }
}

/// In a feed at rest, the block that was delivered on top of the one after the anchor is the next.
pub proof fn lemma_withdrawn_first<P>(ledger: Ledger<P>)
    requires
        ledger.inv(),
        ledger.anchor.number < u64::MAX,
        !ledger.withdrawn((ledger.anchor.number + 1) as u64).emitted.dom().is_empty(),
    ensures
        ledger.emitted.contains_key((ledger.anchor.number + 1) as u64),
        first_key(ledger.withdrawn((ledger.anchor.number + 1) as u64).emitted)
            == ledger.anchor.number + 2,
        ledger.emitted.contains_key((ledger.anchor.number + 2) as u64),
{
    let number = (ledger.anchor.number + 1) as u64;
    let rest = ledger.withdrawn(number).emitted;
    lemma_has_first(rest);
    let first = first_key(rest);
    assert(ledger.emitted.contains_key(first));
    assert(ledger.emitted.contains_key(number));
    assert(ledger.emitted.contains_key((number + 1) as u64));
    assert(rest.contains_key((number + 1) as u64));
}

/// A fresh feed is at rest.
pub proof fn lemma_fresh_inv<P>(anchor: BlockNumHash)
    ensures
        Ledger::<P>::fresh(anchor).inv(),
{
    let ledger = Ledger::<P>::fresh(anchor);
    assert(bytes_held(ledger.emitted) == 0);
}

/// Accepting a pending snapshot leaves the feed at rest, on the same anchor, and its tip where it
/// was or higher.
pub proof fn lemma_pending_keeps_inv<P>(ledger: Ledger<P>, snapshot: Snapshot<P>)
    requires
        ledger.inv(),
        ledger.on_pending(snapshot).result is Ok,
    ensures
        ledger.on_pending(snapshot).ledger.inv(),
        ledger.on_pending(snapshot).ledger.anchor == ledger.anchor,
        ledger.on_pending(snapshot).ledger.tip() >= ledger.tip(),
{
    if snapshot.number() > ledger.anchor.number && snapshot.validity() is Ok {
        lemma_queued_keeps_linked(ledger, snapshot);
        lemma_drained_settles(ledger.queued(snapshot));
    }
}

/// Accepting a canonical block leaves the feed at rest; its anchor stays or becomes that block.
pub proof fn lemma_canonical_keeps_inv<P>(ledger: Ledger<P>, snapshot: Snapshot<P>)
    requires
        ledger.inv(),
        ledger.on_canonical(snapshot).result is Ok,
    ensures
        ledger.on_canonical(snapshot).ledger.inv(),
        ledger.on_canonical(snapshot).ledger.tip() >= ledger.tip(),
        ledger.on_canonical(snapshot).ledger.anchor == if snapshot.number()
            > ledger.anchor.number {
            BlockNumHash { number: snapshot.number(), hash: snapshot.hash() }
        } else {
            ledger.anchor
        },
{
    if snapshot.number() > ledger.anchor.number {
        if !ledger.withdrawn(snapshot.number()).emitted.dom().is_empty() {
            lemma_withdrawn_first(ledger);
        }
        lemma_anchored_keeps_linked(ledger, snapshot);
        lemma_drained_settles(ledger.anchored(snapshot));
    }
}

/// Well-cut batches make a well-cut whole.
pub proof fn lemma_well_cut_concat<P>(now: Seq<Event<Delta<P>>>, later: Seq<Event<Delta<P>>>)
    requires
        well_cut(now),
        well_cut(later),
    ensures
        well_cut(now + later),
{
    assert forall|i: int| 0 <= i < (now + later).len() implies ((
    #[trigger] (now + later)[i]) matches Event::Apply(delta) ==> delta.snapshot.validity() is Ok
        && delta.start <= delta.snapshot.len()) by {
        if i < now.len() {
            assert((now + later)[i] == now[i]);
        } else {
            assert((now + later)[i] == later[i - now.len()]);
        }
    }
}

/// Releasing waiting blocks delivers well-cut deltas.
pub proof fn lemma_drained_well_cut<P>(ledger: Ledger<P>)
    requires
        ledger.linked(),
        ledger.drained().result is Ok,
    ensures
        well_cut(ledger.drained().result->Ok_0),
    decreases ledger.waiting.dom().len(),
{
    if let Release::From(start) = ledger.release() {
        lemma_has_first(ledger.waiting);
        lemma_advance_keeps_linked(ledger);
        lemma_drained_well_cut(ledger.advanced());
        let now = ledger.advance_events(start);
        assert(well_cut(now)) by {
            let number = first_key(ledger.waiting);
            if ledger.emitted.contains_key(number) {
                let before = ledger.emitted[number].data.effects();
                assert(before.len() <= ledger.waiting[number].data.effects().len());
            }
        }
        lemma_well_cut_concat(now, ledger.advanced().drained().result->Ok_0);
    }
}

/// Accepting a pending snapshot delivers well-cut deltas.
pub proof fn lemma_pending_well_cut<P>(ledger: Ledger<P>, snapshot: Snapshot<P>)
    requires
        ledger.inv(),
        ledger.on_pending(snapshot).result is Ok,
    ensures
        well_cut(ledger.on_pending(snapshot).result->Ok_0),
{
    if ledger.on_pending(snapshot).result->Ok_0.len() > 0 {
        lemma_queued_keeps_linked(ledger, snapshot);
        lemma_drained_well_cut(ledger.queued(snapshot));
    }
}

/// Accepting a canonical block delivers well-cut deltas.
pub proof fn lemma_canonical_well_cut<P>(ledger: Ledger<P>, snapshot: Snapshot<P>)
    requires
        ledger.inv(),
        ledger.on_canonical(snapshot).result is Ok,
    ensures
        well_cut(ledger.on_canonical(snapshot).result->Ok_0),
{
    if snapshot.number() > ledger.anchor.number {
        if !ledger.withdrawn(snapshot.number()).emitted.dom().is_empty() {
            lemma_withdrawn_first(ledger);
        }
        lemma_anchored_keeps_linked(ledger, snapshot);
        lemma_drained_well_cut(ledger.anchored(snapshot));
        let now = ledger.seal_events(snapshot);
        lemma_well_cut_concat(now, ledger.anchored(snapshot).drained().result->Ok_0);
    }
}

} // verus!
