//! A client that follows the feed, and what the feed promises it.

use crate::ledger::{lemma_advance_keeps_linked, lemma_anchored_keeps_linked,
    lemma_queued_keeps_linked, lemma_withdrawn_first, seal_of, Delta, Event, Ledger, Release};
use crate::ordered::{first_key, lemma_has_first, lemma_has_last};
use crate::primitives::{BlockNumHash, B256};
use crate::receipt::ReceiptView;
use crate::snapshot::Snapshot;
use vstd::prelude::*;

verus! {

/// What a client has taken in: the executed transactions of every block above the one it started
/// from, in order, and how many of those blocks were sealed.
#[verifier::ext_equal]
pub struct Client {
    pub origin: u64,
    pub blocks: Seq<Seq<(B256, ReceiptView)>>,
    pub sealed: nat,
    pub sealed_hash: B256,
}

impl Client {
    /// A client that has loaded the state of the anchor block and nothing else.
    pub open spec fn at(anchor: BlockNumHash) -> Self {
        Client { origin: anchor.number, blocks: Seq::empty(), sealed: 0, sealed_hash: anchor.hash }
    }

    /// Takes in one event. The client refuses (`None`) what does not continue its list: receipts
    /// may only be appended, to the newest block while it is open or as the start of the next
    /// block; a seal must be that of the lowest open block, on top of the last sealed one, and must
    /// count exactly the transactions applied.
    pub open spec fn take<P>(self, event: Event<Delta<P>>) -> Option<Self> {
        let newest = self.origin + self.blocks.len();
        match event {
            Event::Apply(delta) => {
                let added = delta.snapshot.executed().skip(delta.start as int);
                let number = delta.snapshot.number();
                if number == newest && self.sealed < self.blocks.len() && delta.start
                    == self.blocks.last().len() {
                    Some(
                        Client {
                            blocks: self.blocks.drop_last().push(self.blocks.last() + added),
                            ..self
                        },
                    )
                } else if number == newest + 1 && delta.start == 0 {
                    Some(Client { blocks: self.blocks.push(added), ..self })
                } else {
                    None
                }
            },
            Event::Seal(seal) => {
                let blocks = if self.sealed < self.blocks.len() {
                    self.blocks
                } else {
                    self.blocks.push(Seq::empty())
                };
                let open = blocks[self.sealed as int];
                if seal.block_number == self.origin + self.sealed + 1 && seal.parent_hash
                    == self.sealed_hash && seal.transaction_count == open.len() {
                    Some(
                        Client {
                            blocks,
                            sealed: self.sealed + 1,
                            sealed_hash: seal.block_hash,
                            ..self
                        },
                    )
                } else {
                    None
                }
            },
        }
    }

    /// Takes in events in order, until one is refused.
    pub open spec fn replay<P>(self, events: Seq<Event<Delta<P>>>) -> Option<Self>
        decreases events.len(),
    {
        if events.len() == 0 {
            Some(self)
        } else {
            match self.take(events.first()) {
                Some(next) => next.replay(events.drop_first()),
                None => None,
            }
        }
    }

    /// Whether the client holds exactly what the feed has delivered: it stands on the feed's
    /// anchor, and has the newest snapshot of every block that was delivered above it.
    pub open spec fn in_step<P>(self, ledger: Ledger<P>) -> bool {
        &&& self.origin + self.sealed == ledger.anchor.number
        &&& self.sealed_hash == ledger.anchor.hash
        &&& self.origin + self.blocks.len() == ledger.tip()
        &&& forall|k: u64| #[trigger]
            ledger.emitted.contains_key(k) ==> self.blocks[k - self.origin - 1]
                == ledger.emitted[k].executed()
    }

    /// Whether `later` is this client after more events: what was applied is still there, more may
    /// follow, and sealed blocks are as they were.
    pub open spec fn grows_into(self, later: Self) -> bool {
        &&& later.origin == self.origin
        &&& self.sealed <= later.sealed
        &&& self.blocks.len() <= later.blocks.len()
        &&& forall|i: int|
            0 <= i < self.blocks.len() ==> (#[trigger] self.blocks[i]).is_prefix_of(
                later.blocks[i],
            )
        &&& forall|i: int|
            0 <= i < self.sealed && i < self.blocks.len() ==> #[trigger] self.blocks[i]
                == later.blocks[i]
    }
}

/// Replaying two batches in turn is replaying them as one.
pub proof fn lemma_replay_concat<P>(
    client: Client,
    first: Seq<Event<Delta<P>>>,
    second: Seq<Event<Delta<P>>>,
)
    ensures
        client.replay(first + second) == match client.replay(first) {
            Some(next) => next.replay(second),
            None => None,
        },
    decreases first.len(),
{
    if first.len() == 0 {
        assert(first + second =~= second);
    } else {
        assert((first + second).drop_first() =~= first.drop_first() + second);
        assert((first + second).first() == first.first());
        if let Some(next) = client.take(first.first()) {
            lemma_replay_concat(next, first.drop_first(), second);
        }
    }
}

/// Replaying one event is taking it.
pub proof fn lemma_replay_one<P>(client: Client, event: Event<Delta<P>>)
    ensures
        client.replay(seq![event]) == client.take(event),
{
    assert(seq![event].drop_first() =~= Seq::empty());
    reveal_with_fuel(Client::replay, 2);
}

/// A snapshot that continues another one holds its executed transactions and more.
pub proof fn lemma_continues_executed<P>(snapshot: Snapshot<P>, previous: Snapshot<P>)
    requires
        snapshot.validity() is Ok,
        previous.validity() is Ok,
        snapshot.continues(&previous),
    ensures
        previous.len() <= snapshot.len(),
        previous.executed().len() == previous.len(),
        snapshot.executed().len() == snapshot.len(),
        previous.executed() + snapshot.executed().skip(previous.len() as int)
            == snapshot.executed(),
        previous.len() == snapshot.len() ==> previous.executed() == snapshot.executed(),
{
    let old_part = previous.executed();
    let all = snapshot.executed();
    assert forall|i: int| 0 <= i < old_part.len() implies old_part[i] == all[i] by {
        assert(previous.data.effects()[i] == snapshot.data.effects()[i]);
        assert(snapshot.data.block().transactions@[i].hash
            == previous.data.block().transactions@[i].hash);
    }
    assert(old_part + all.skip(old_part.len() as int) =~= all);
    if previous.len() == snapshot.len() {
        assert(old_part =~= all);
    }
}

/// The client stays in step while one waiting block is released.
proof fn lemma_advance_in_step<P>(client: Client, ledger: Ledger<P>)
    requires
        ledger.linked(),
        client.in_step(ledger),
        ledger.release() is From,
    ensures
        ({
            let start = ledger.release()->From_0;
            let next = client.replay(ledger.advance_events(start));
            next is Some && next->0.in_step(ledger.advanced())
        }),
{
    let start = ledger.release()->From_0;
    let number = first_key(ledger.waiting);
    let snapshot = ledger.waiting[number];
    let next = ledger.advanced();
    lemma_has_first(ledger.waiting);
    lemma_advance_keeps_linked(ledger);
    if !ledger.emitted.dom().is_empty() {
        lemma_has_last(ledger.emitted);
    }
    if ledger.emitted.contains_key(number) {
        let previous = ledger.emitted[number];
        lemma_continues_executed(snapshot, previous);
        if start < snapshot.len() {
            let delta = Delta { snapshot, start };
            lemma_replay_one(client, Event::Apply(delta));
            assert(number == ledger.tip());
        }
    } else {
        let delta = Delta { snapshot, start };
        lemma_replay_one(client, Event::Apply(delta));
        assert(snapshot.executed().skip(0) =~= snapshot.executed());
    }
}

/// The client stays in step while waiting blocks are released.
pub proof fn lemma_drained_in_step<P>(client: Client, ledger: Ledger<P>)
    requires
        ledger.linked(),
        client.in_step(ledger),
        ledger.drained().result is Ok,
    ensures
        ({
            let next = client.replay(ledger.drained().result->Ok_0);
            next is Some && next->0.in_step(ledger.drained().ledger)
        }),
    decreases ledger.waiting.dom().len(),
{
    if let Release::From(start) = ledger.release() {
        lemma_has_first(ledger.waiting);
        lemma_advance_in_step(client, ledger);
        lemma_advance_keeps_linked(ledger);
        let events = ledger.advance_events(start);
        let next = client.replay(events)->0;
        lemma_drained_in_step(next, ledger.advanced());
        lemma_replay_concat(client, events, ledger.advanced().drained().result->Ok_0);
    }
}

/// The client stays in step while a canonical block is repaired and sealed, and then holds exactly
/// the executed transactions of that block.
proof fn lemma_seal_in_step<P>(client: Client, ledger: Ledger<P>, snapshot: Snapshot<P>)
    requires
        ledger.inv(),
        client.in_step(ledger),
        snapshot.number() == ledger.anchor.number + 1,
        ledger.on_canonical(snapshot).result is Ok,
    ensures
        ({
            let next = client.replay(ledger.seal_events(snapshot));
            &&& next is Some
            &&& next->0.in_step(ledger.anchored(snapshot))
            &&& next->0.sealed == client.sealed + 1
            &&& next->0.blocks[client.sealed as int] == snapshot.executed()
        }),
{
    let number = snapshot.number();
    let start = ledger.delivered(number);
    let seal = Event::<Delta<P>>::Seal(seal_of(snapshot));
    if !ledger.emitted.dom().is_empty() {
        lemma_has_last(ledger.emitted);
    }
    if !ledger.withdrawn(number).emitted.dom().is_empty() {
        lemma_withdrawn_first(ledger);
        lemma_has_last(ledger.anchored(snapshot).emitted);
    }
    lemma_anchored_keeps_linked(ledger, snapshot);
    assert(snapshot.executed().len() == snapshot.len());
    if ledger.emitted.contains_key(number) {
        lemma_continues_executed(snapshot, ledger.emitted[number]);
    }
    let repaired = if start < snapshot.len() {
        let apply = Event::Apply(Delta { snapshot, start });
        lemma_replay_one(client, apply);
        assert(snapshot.executed().skip(0) =~= snapshot.executed());
        if ledger.emitted.contains_key(number) {
            assert(ledger.tip() == number) by {
                if ledger.tip() != number {
                    assert(ledger.withdrawn(number).emitted.contains_key(ledger.tip()));
                }
            }
        }
        assert(ledger.seal_events(snapshot) =~= seq![apply] + seq![seal]);
        lemma_replay_concat(client, seq![apply], seq![seal]);
        client.take(apply)->0
    } else {
        assert(ledger.seal_events(snapshot) =~= seq![seal]);
        client
    };
    lemma_replay_one(repaired, seal);
    let next = repaired.take(seal);
    assert(next is Some);
    if snapshot.len() == 0 {
        assert(snapshot.executed() =~= Seq::empty());
    }
    let after = ledger.anchored(snapshot);
    assert forall|k: u64| #[trigger] after.emitted.contains_key(k) implies next->0.blocks[k
        - client.origin - 1] == after.emitted[k].executed() by {
        assert(ledger.emitted.contains_key(k));
    }
}

/// **The client never loses step, pending.** Whatever a pending snapshot makes the feed deliver, a
/// client that is in step can take it, in the order given, and is in step with the feed afterwards.
pub proof fn pending_keeps_step<P>(client: Client, ledger: Ledger<P>, snapshot: Snapshot<P>)
    requires
        ledger.inv(),
        client.in_step(ledger),
        ledger.on_pending(snapshot).result is Ok,
    ensures
        ({
            let next = client.replay(ledger.on_pending(snapshot).result->Ok_0);
            &&& next is Some
            &&& next->0.in_step(ledger.on_pending(snapshot).ledger)
            &&& client.grows_into(next->0)
        }),
{
    if ledger.on_pending(snapshot) == ledger.queued(snapshot).drained() && snapshot.number()
        > ledger.anchor.number {
        lemma_queued_keeps_linked(ledger, snapshot);
        lemma_drained_in_step(client, ledger.queued(snapshot));
    }
    lemma_replay_grows(client, ledger.on_pending(snapshot).result->Ok_0);
}

/// **The client never loses step, canonical.** Whatever a canonical block makes the feed deliver,
/// a client that is in step can take it, in the order given, and is in step with the feed
/// afterwards. When the block becomes the anchor, the client holds exactly its executed
/// transactions: every effect delivered before its seal matches the canonical block.
pub proof fn canonical_keeps_step<P>(client: Client, ledger: Ledger<P>, snapshot: Snapshot<P>)
    requires
        ledger.inv(),
        client.in_step(ledger),
        ledger.on_canonical(snapshot).result is Ok,
    ensures
        ({
            let next = client.replay(ledger.on_canonical(snapshot).result->Ok_0);
            &&& next is Some
            &&& next->0.in_step(ledger.on_canonical(snapshot).ledger)
            &&& client.grows_into(next->0)
            &&& snapshot.number() > ledger.anchor.number ==> next->0.blocks[client.sealed as int]
                == snapshot.executed()
        }),
{
    if snapshot.number() > ledger.anchor.number {
        lemma_seal_in_step(client, ledger, snapshot);
        if !ledger.withdrawn(snapshot.number()).emitted.dom().is_empty() {
            lemma_withdrawn_first(ledger);
        }
        lemma_anchored_keeps_linked(ledger, snapshot);
        let sealed = client.replay(ledger.seal_events(snapshot))->0;
        let released = ledger.anchored(snapshot).drained().result->Ok_0;
        lemma_drained_in_step(sealed, ledger.anchored(snapshot));
        lemma_replay_concat(client, ledger.seal_events(snapshot), released);
        lemma_replay_grows(sealed, released);
    }
    lemma_replay_grows(client, ledger.on_canonical(snapshot).result->Ok_0);
}

/// A client only ever grows: what it has applied stays, and sealed blocks do not change.
pub proof fn lemma_replay_grows<P>(client: Client, events: Seq<Event<Delta<P>>>)
    ensures
        client.replay(events) matches Some(next) ==> client.grows_into(next),
    decreases events.len(),
{
    if events.len() > 0 {
        if let Some(next) = client.take(events.first()) {
            assert(client.grows_into(next));
            lemma_replay_grows(next, events.drop_first());
            if let Some(last) = next.replay(events.drop_first()) {
                assert forall|i: int| 0 <= i < client.blocks.len() implies (
                #[trigger] client.blocks[i]).is_prefix_of(last.blocks[i]) by {
                    assert(client.blocks[i].is_prefix_of(next.blocks[i]));
                    assert(next.blocks[i].is_prefix_of(last.blocks[i]));
                }
            }
        }
    }
}

} // verus!
