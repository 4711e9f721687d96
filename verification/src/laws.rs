//! What the feed promises over several inputs.

use crate::client::{canonical_keeps_step, lemma_replay_concat, pending_keeps_step, Client};
use crate::ledger::{lemma_advance_keeps_linked, lemma_anchored_keeps_linked,
    lemma_canonical_keeps_inv, lemma_canonical_well_cut, lemma_drained_settles, lemma_fresh_inv,
    lemma_pending_keeps_inv, lemma_pending_well_cut, lemma_queued_keeps_linked,
    lemma_well_cut_concat, lemma_withdrawn_first, seal_of, well_cut, Delta, Event, Ledger, Outcome,
    Release};
use crate::ordered::{first_key, last_key, lemma_has_first, lemma_has_last};
use crate::primitives::BlockNumHash;
use crate::reason::Reason;
use crate::recovery::{block_is_confirmed, confirms, is_course, reached, Answer, Ask};
use crate::snapshot::Snapshot;
use vstd::prelude::*;

verus! {

/// What a feed takes in.
pub enum Input<P> {
    Pending(Snapshot<P>),
    Canonical(Snapshot<P>),
}

impl<P> Ledger<P> {
    /// What an input makes of the ledger.
    pub open spec fn on_input(self, input: Input<P>) -> Outcome<P> {
        match input {
            Input::Pending(snapshot) => self.on_pending(snapshot),
            Input::Canonical(snapshot) => self.on_canonical(snapshot),
        }
    }

    /// What inputs make of the ledger one after another, up to the first that is refused.
    pub open spec fn run(self, inputs: Seq<Input<P>>) -> Outcome<P>
        decreases inputs.len(),
    {
        if inputs.len() == 0 {
            self.stays(Ok(Seq::empty()))
        } else {
            let first = self.on_input(inputs.first());
            match first.result {
                Err(_) => first,
                Ok(events) => first.ledger.run(inputs.drop_first()).after(events),
            }
        }
    }
}

/// The height of the block that an event is about.
pub open spec fn event_number<P>(event: Event<Delta<P>>) -> u64 {
    match event {
        Event::Apply(delta) => delta.snapshot.number(),
        Event::Seal(seal) => seal.block_number,
    }
}

/// **One continuous stream.** However pending snapshots and canonical blocks arrive, a client that
/// loads the state of the anchor and takes every event in order is never out of step: each receipt
/// reaches it once, in execution order, without a gap, and each seal counts what it applied.
pub proof fn stream_is_continuous<P>(anchor: BlockNumHash, inputs: Seq<Input<P>>)
    requires
        Ledger::<P>::fresh(anchor).run(inputs).result is Ok,
    ensures
        ({
            let outcome = Ledger::<P>::fresh(anchor).run(inputs);
            let client = Client::at(anchor).replay(outcome.result->Ok_0);
            client is Some && client->0.in_step(outcome.ledger) && outcome.ledger.inv()
        }),
{
    lemma_fresh_inv::<P>(anchor);
    run_keeps_step(Client::at(anchor), Ledger::<P>::fresh(anchor), inputs);
}

/// From any feed at rest, a client in step stays in step over any inputs that are accepted.
pub proof fn run_keeps_step<P>(client: Client, ledger: Ledger<P>, inputs: Seq<Input<P>>)
    requires
        ledger.inv(),
        client.in_step(ledger),
        ledger.run(inputs).result is Ok,
    ensures
        ({
            let outcome = ledger.run(inputs);
            let next = client.replay(outcome.result->Ok_0);
            next is Some && next->0.in_step(outcome.ledger) && outcome.ledger.inv()
        }),
    decreases inputs.len(),
{
    if inputs.len() > 0 {
        let first = ledger.on_input(inputs.first());
        let events = first.result->Ok_0;
        match inputs.first() {
            Input::Pending(snapshot) => {
                pending_keeps_step(client, ledger, snapshot);
                lemma_pending_keeps_inv(ledger, snapshot);
            },
            Input::Canonical(snapshot) => {
                canonical_keeps_step(client, ledger, snapshot);
                lemma_canonical_keeps_inv(ledger, snapshot);
            },
        }
        let rest = inputs.drop_first();
        run_keeps_step(client.replay(events)->0, first.ledger, rest);
        lemma_replay_concat(client, events, first.ledger.run(rest).result->Ok_0);
    }
}

/// The receipts that an event delivers, each by the height of its block and its place in it.
pub open spec fn event_positions<P>(event: Event<Delta<P>>) -> Seq<(u64, int)> {
    match event {
        Event::Apply(delta) => Seq::new(
            if delta.start <= delta.snapshot.len() {
                (delta.snapshot.len() - delta.start) as nat
            } else {
                0
            },
            |i: int| (delta.snapshot.number(), delta.start + i),
        ),
        Event::Seal(_) => Seq::empty(),
    }
}

/// The receipts that a series of events delivers, in order.
pub open spec fn positions<P>(events: Seq<Event<Delta<P>>>) -> Seq<(u64, int)>
    decreases events.len(),
{
    if events.len() == 0 {
        Seq::empty()
    } else {
        event_positions(events.first()) + positions(events.drop_first())
    }
}

/// Whether one receipt comes before another in execution order.
pub open spec fn precedes(left: (u64, int), right: (u64, int)) -> bool {
    left.0 < right.0 || (left.0 == right.0 && left.1 < right.1)
}

/// Whether the receipt at `i` directly follows the one before it in its block.
pub open spec fn follows_on(list: Seq<(u64, int)>, i: int) -> bool {
    i > 0 && list[i - 1] == (list[i].0, list[i].1 - 1)
}

/// What a client can take lists receipts in order, from where the client stands and without a gap.
proof fn lemma_positions_in_order<P>(client: Client, events: Seq<Event<Delta<P>>>)
    requires
        client.replay(events) is Some,
        well_cut(events),
    ensures
        ({
            let list = positions(events);
            let newest = client.origin + client.blocks.len();
            let filled = if client.blocks.len() > 0 {
                client.blocks.last().len()
            } else {
                0
            };
            &&& forall|i: int|
                0 <= i < list.len() ==> (#[trigger] list[i]).0 > newest || (list[i].0 == newest
                    && list[i].1 >= filled)
            &&& forall|i: int, j: int|
                0 <= i < j < list.len() ==> precedes(#[trigger] list[i], #[trigger] list[j])
            &&& forall|i: int|
                0 <= i < list.len() ==> (#[trigger] list[i]).1 == 0 || follows_on(list, i) || (i
                    == 0 && list[0].0 == newest && list[0].1 == filled)
        }),
    decreases events.len(),
{
    if events.len() > 0 {
        let event = events.first();
        let rest = events.drop_first();
        let next = client.take(event)->0;
        let now = event_positions(event);
        let later = positions(rest);
        let list = positions(events);
        assert(well_cut(rest)) by {
            assert forall|i: int| 0 <= i < rest.len() implies ((
            #[trigger] rest[i]) matches Event::Apply(delta) ==> delta.snapshot.validity() is Ok
                && delta.start <= delta.snapshot.len()) by {
                assert(rest[i] == events[i + 1]);
            }
        }
        lemma_positions_in_order(next, rest);
        if let Event::Apply(delta) = event {
            assert(events[0] == event);
            assert(delta.snapshot.executed().len() == delta.snapshot.len());
        }
        assert(list =~= now + later);
        assert forall|i: int| 0 <= i < list.len() implies (#[trigger] list[i]).1 == 0
            || follows_on(list, i) || (i == 0 && list[0].0 == client.origin + client.blocks.len()
            && client.blocks.len() > 0 && list[0].1 == client.blocks.last().len()) by {
            if i < now.len() {
                assert(list[i] == now[i]);
                if i > 0 {
                    assert(list[i - 1] == now[i - 1]);
                }
            } else {
                let k = i - now.len();
                assert(list[i] == later[k]);
                if k > 0 {
                    assert(list[i - 1] == later[k - 1]);
                } else if now.len() > 0 {
                    assert(list[i - 1] == now.last());
                }
            }
        }
        assert forall|i: int, j: int| 0 <= i < j < list.len() implies precedes(
            #[trigger] list[i],
            #[trigger] list[j],
        ) by {
            if j < now.len() {
                assert(list[i] == now[i] && list[j] == now[j]);
            } else if i < now.len() {
                assert(list[i] == now[i] && list[j] == later[j - now.len()]);
            } else {
                assert(list[i] == later[i - now.len()] && list[j] == later[j - now.len()]);
            }
        }
    }
}

/// Accepted inputs deliver well-cut deltas.
proof fn lemma_run_well_cut<P>(ledger: Ledger<P>, inputs: Seq<Input<P>>)
    requires
        ledger.inv(),
        ledger.run(inputs).result is Ok,
    ensures
        well_cut(ledger.run(inputs).result->Ok_0),
    decreases inputs.len(),
{
    if inputs.len() > 0 {
        match inputs.first() {
            Input::Pending(snapshot) => {
                lemma_pending_keeps_inv(ledger, snapshot);
                lemma_pending_well_cut(ledger, snapshot);
            },
            Input::Canonical(snapshot) => {
                lemma_canonical_keeps_inv(ledger, snapshot);
                lemma_canonical_well_cut(ledger, snapshot);
            },
        }
        let first = ledger.on_input(inputs.first());
        let rest = first.ledger.run(inputs.drop_first());
        lemma_run_well_cut(first.ledger, inputs.drop_first());
        lemma_well_cut_concat(first.result->Ok_0, rest.result->Ok_0);
    }
}

/// **No receipt is replayed, reordered or left out.** Over any accepted inputs, the receipts that
/// are delivered strictly increase in execution order, across blocks too; all of them are of blocks
/// above the anchor; and within a block they start with the first and leave none out.
pub proof fn receipts_come_in_order<P>(anchor: BlockNumHash, inputs: Seq<Input<P>>)
    requires
        Ledger::<P>::fresh(anchor).run(inputs).result is Ok,
    ensures
        ({
            let list = positions(Ledger::<P>::fresh(anchor).run(inputs).result->Ok_0);
            &&& forall|i: int, j: int|
                0 <= i < j < list.len() ==> precedes(#[trigger] list[i], #[trigger] list[j])
            &&& forall|i: int| 0 <= i < list.len() ==> (#[trigger] list[i]).0 > anchor.number
            &&& forall|i: int|
                0 <= i < list.len() ==> (#[trigger] list[i]).1 == 0 || follows_on(list, i)
        }),
{
    let ledger = Ledger::<P>::fresh(anchor);
    let events = ledger.run(inputs).result->Ok_0;
    stream_is_continuous(anchor, inputs);
    lemma_fresh_inv::<P>(anchor);
    lemma_run_well_cut(ledger, inputs);
    lemma_positions_in_order(Client::at(anchor), events);
    lemma_replay_above(Client::at(anchor), events);
}

/// What a client can take is about blocks above the one it started from.
proof fn lemma_replay_above<P>(client: Client, events: Seq<Event<Delta<P>>>)
    requires
        client.replay(events) is Some,
    ensures
        forall|i: int|
            0 <= i < positions(events).len() ==> (#[trigger] positions(events)[i]).0
                > client.origin,
    decreases events.len(),
{
    if events.len() > 0 {
        let now = event_positions(events.first());
        let later = positions(events.drop_first());
        lemma_replay_above(client.take(events.first())->0, events.drop_first());
        assert forall|i: int| 0 <= i < positions(events).len() implies (
        #[trigger] positions(events)[i]).0 > client.origin by {
            if i < now.len() {
                assert(positions(events)[i] == now[i]);
            } else {
                assert(positions(events)[i] == later[i - now.len()]);
            }
        }
    }
}

/// Every event of a release delivers a block that waited.
proof fn lemma_drained_events<P>(ledger: Ledger<P>)
    requires
        ledger.linked(),
        ledger.drained().result is Ok,
    ensures
        forall|i: int|
            0 <= i < ledger.drained().result->Ok_0.len() ==> {
                let event = #[trigger] ledger.drained().result->Ok_0[i];
                event is Apply && ledger.waiting.contains_key(event_number(event))
            },
    decreases ledger.waiting.dom().len(),
{
    if let Release::From(start) = ledger.release() {
        lemma_has_first(ledger.waiting);
        lemma_advance_keeps_linked(ledger);
        lemma_drained_events(ledger.advanced());
        let now = ledger.advance_events(start);
        let later = ledger.advanced().drained().result->Ok_0;
        assert forall|i: int| 0 <= i < ledger.drained().result->Ok_0.len() implies {
            let event = #[trigger] ledger.drained().result->Ok_0[i];
            event is Apply && ledger.waiting.contains_key(event_number(event))
        } by {
            if i >= now.len() {
                let event = later[i - now.len()];
                assert(ledger.advanced().waiting.contains_key(event_number(event)));
            }
        }
    }
}

/// **Nothing at or below the anchor is delivered, and pending snapshots seal nothing.**
pub proof fn pending_delivers_above_anchor<P>(ledger: Ledger<P>, snapshot: Snapshot<P>)
    requires
        ledger.inv(),
        ledger.on_pending(snapshot).result is Ok,
    ensures
        forall|i: int|
            0 <= i < ledger.on_pending(snapshot).result->Ok_0.len() ==> {
                let event = #[trigger] ledger.on_pending(snapshot).result->Ok_0[i];
                event is Apply && event_number(event) > ledger.anchor.number
            },
{
    if ledger.on_pending(snapshot).result->Ok_0.len() > 0 {
        lemma_queued_keeps_linked(ledger, snapshot);
        lemma_drained_events(ledger.queued(snapshot));
    }
}

/// **Repair, then seal, then release.** A canonical block that becomes the anchor is sealed exactly
/// once. What was missing of it comes before its seal, and only blocks above it come after.
pub proof fn canonical_repairs_seals_releases<P>(ledger: Ledger<P>, snapshot: Snapshot<P>)
    requires
        ledger.inv(),
        snapshot.number() > ledger.anchor.number,
        ledger.on_canonical(snapshot).result is Ok,
    ensures
        snapshot.number() == ledger.anchor.number + 1,
        ({
            let events = ledger.on_canonical(snapshot).result->Ok_0;
            let repair = ledger.seal_events(snapshot);
            &&& repair.is_prefix_of(events)
            &&& repair.last() == Event::<Delta<P>>::Seal(seal_of(snapshot))
            &&& forall|i: int|
                0 <= i < repair.len() - 1 ==> {
                    &&& #[trigger] repair[i] is Apply
                    &&& event_number(repair[i]) == snapshot.number()
                }
            &&& forall|i: int|
                repair.len() <= i < events.len() ==> {
                    &&& #[trigger] events[i] is Apply
                    &&& event_number(events[i]) > snapshot.number()
                }
        }),
{
    if !ledger.withdrawn(snapshot.number()).emitted.dom().is_empty() {
        lemma_withdrawn_first(ledger);
    }
    lemma_anchored_keeps_linked(ledger, snapshot);
    lemma_drained_events(ledger.anchored(snapshot));
    let events = ledger.on_canonical(snapshot).result->Ok_0;
    let repair = ledger.seal_events(snapshot);
    let released = ledger.anchored(snapshot).drained().result->Ok_0;
    assert(events == repair + released);
    assert(events.subrange(0, repair.len() as int) =~= repair);
    assert forall|i: int| repair.len() <= i < events.len() implies #[trigger] events[i] is Apply
        && event_number(events[i]) > snapshot.number() by {
        let event = released[i - repair.len()];
        assert(ledger.anchored(snapshot).waiting.contains_key(event_number(event)));
    }
}

/// Accepted inputs leave a feed at rest, and its anchor only ever moves up.
proof fn lemma_run_moves_up<P>(ledger: Ledger<P>, inputs: Seq<Input<P>>)
    requires
        ledger.inv(),
        ledger.run(inputs).result is Ok,
    ensures
        ledger.run(inputs).ledger.inv(),
        ledger.run(inputs).ledger.anchor.number >= ledger.anchor.number,
        ledger.run(inputs).ledger.anchor.number == ledger.anchor.number
            ==> ledger.run(inputs).ledger.anchor == ledger.anchor,
    decreases inputs.len(),
{
    if inputs.len() > 0 {
        match inputs.first() {
            Input::Pending(snapshot) => {
                lemma_pending_keeps_inv(ledger, snapshot);
            },
            Input::Canonical(snapshot) => {
                lemma_canonical_keeps_inv(ledger, snapshot);
            },
        }
        lemma_run_moves_up(ledger.on_input(inputs.first()).ledger, inputs.drop_first());
    }
}

/// **Duplicate and delayed canonical input says nothing.** Once a canonical block was accepted, the
/// same block is taken again without an event and without a change, whatever inputs were accepted
/// in the meantime.
pub proof fn canonical_is_taken_once<P>(
    ledger: Ledger<P>,
    snapshot: Snapshot<P>,
    later: Seq<Input<P>>,
)
    requires
        ledger.inv(),
        ledger.on_canonical(snapshot).result is Ok,
        ledger.on_canonical(snapshot).ledger.run(later).result is Ok,
    ensures
        ({
            let after = ledger.on_canonical(snapshot).ledger.run(later).ledger;
            after.on_canonical(snapshot) == after.stays(Ok(Seq::empty()))
        }),
{
    lemma_canonical_keeps_inv(ledger, snapshot);
    lemma_run_moves_up(ledger.on_canonical(snapshot).ledger, later);
}

/// **What lies at or below the anchor says nothing.** A valid snapshot of such a block changes
/// nothing and delivers nothing, unless it is canonical and shows another block at the anchor.
pub proof fn stale_input_is_silent<P>(ledger: Ledger<P>, snapshot: Snapshot<P>)
    requires
        snapshot.validity() is Ok,
        snapshot.number() <= ledger.anchor.number,
    ensures
        ledger.on_pending(snapshot) == ledger.stays(Ok(Seq::empty())),
        snapshot.number() < ledger.anchor.number || snapshot.hash() == ledger.anchor.hash
            ==> ledger.on_canonical(snapshot) == ledger.stays(Ok(Seq::empty())),
        snapshot.number() == ledger.anchor.number && snapshot.hash() != ledger.anchor.hash
            ==> ledger.on_canonical(snapshot) == ledger.stays(Err(Reason::CanonicalReorg)),
{
}

/// Releasing waiting blocks does not change the newest snapshot that is held of any block.
proof fn lemma_drained_newest<P>(ledger: Ledger<P>, number: u64)
    requires
        ledger.linked(),
    ensures
        ledger.drained().ledger.newest(number) == ledger.newest(number),
    decreases ledger.waiting.dom().len(),
{
    if ledger.release() is From {
        lemma_has_first(ledger.waiting);
        lemma_advance_keeps_linked(ledger);
        lemma_drained_newest(ledger.advanced(), number);
    }
}

/// Whether a publication says nothing new: its block is at or below the anchor, or a snapshot of
/// the block is held that is no older.
pub open spec fn is_outdated<P>(ledger: Ledger<P>, number: u64, publication_id: u64) -> bool {
    ||| number <= ledger.anchor.number
    ||| (ledger.newest(number) is Some && ledger.newest(number)->0.publication_id
        >= publication_id)
}

/// A publication that says nothing new never will.
proof fn lemma_stays_outdated<P>(
    ledger: Ledger<P>,
    inputs: Seq<Input<P>>,
    number: u64,
    publication_id: u64,
)
    requires
        ledger.inv(),
        is_outdated(ledger, number, publication_id),
        ledger.run(inputs).result is Ok,
    ensures
        is_outdated(ledger.run(inputs).ledger, number, publication_id),
    decreases inputs.len(),
{
    if inputs.len() > 0 {
        match inputs.first() {
            Input::Pending(snapshot) => {
                lemma_pending_keeps_inv(ledger, snapshot);
                if snapshot.number() > ledger.anchor.number {
                    let queued = ledger.queued(snapshot);
                    lemma_queued_keeps_linked(ledger, snapshot);
                    lemma_drained_settles(queued);
                    lemma_drained_newest(queued, number);
                }
            },
            Input::Canonical(snapshot) => {
                lemma_canonical_keeps_inv(ledger, snapshot);
                if snapshot.number() > ledger.anchor.number {
                    if !ledger.withdrawn(snapshot.number()).emitted.dom().is_empty() {
                        lemma_withdrawn_first(ledger);
                    }
                    lemma_anchored_keeps_linked(ledger, snapshot);
                    lemma_drained_newest(ledger.anchored(snapshot), number);
                }
            },
        }
        let next = ledger.on_input(inputs.first()).ledger;
        lemma_stays_outdated(next, inputs.drop_first(), number, publication_id);
    }
}

/// **A publication is taken once.** After a pending snapshot was accepted, the same snapshot, and
/// every older one of the same block that is valid, is taken without an event and without a change,
/// whatever inputs were accepted in the meantime.
pub proof fn pending_is_taken_once<P>(
    ledger: Ledger<P>,
    snapshot: Snapshot<P>,
    later: Seq<Input<P>>,
    older: Snapshot<P>,
)
    requires
        ledger.inv(),
        ledger.on_pending(snapshot).result is Ok,
        ledger.on_pending(snapshot).ledger.run(later).result is Ok,
        older.validity() is Ok,
        older.number() == snapshot.number(),
        older.publication_id <= snapshot.publication_id,
    ensures
        ({
            let after = ledger.on_pending(snapshot).ledger.run(later).ledger;
            after.on_pending(older) == after.stays(Ok(Seq::empty()))
        }),
{
    let queued = ledger.queued(snapshot);
    let after = ledger.on_pending(snapshot).ledger;
    lemma_pending_keeps_inv(ledger, snapshot);
    if snapshot.number() > ledger.anchor.number && ledger.on_pending(snapshot) == queued.drained() {
        lemma_queued_keeps_linked(ledger, snapshot);
        lemma_drained_settles(queued);
        lemma_drained_newest(queued, snapshot.number());
        assert(queued.newest(snapshot.number()) == Some(snapshot));
    }
    assert(is_outdated(after, snapshot.number(), snapshot.publication_id));
    lemma_stays_outdated(after, later, snapshot.number(), snapshot.publication_id);
}

/// A map whose keys are the heights above `low` up to `high` has as many keys.
pub proof fn lemma_heights_counted<V>(m: Map<u64, V>, low: u64, high: u64)
    requires
        low <= high,
        m.dom().finite(),
        forall|k: u64| #[trigger] m.contains_key(k) <==> low < k && k <= high,
    ensures
        m.dom().len() == high - low,
    decreases high - low,
{
    if low == high {
        assert(m.dom() =~= Set::empty());
    } else {
        let below = (high - 1) as u64;
        let rest = m.remove(high);
        assert(m.contains_key(high));
        assert forall|k: u64| #[trigger] rest.contains_key(k) <==> low < k && k <= below by {
            assert(m.contains_key(k) <==> low < k && k <= high);
        }
        lemma_heights_counted(rest, low, below);
    }
}

/// **The delivered blocks are a chain.** Over any accepted inputs, the delivered blocks above the
/// anchor have the heights that follow it, without a gap, and each is the child of the one below;
/// every waiting block lies above all of them.
pub proof fn delivered_blocks_are_a_chain<P>(anchor: BlockNumHash, inputs: Seq<Input<P>>)
    requires
        Ledger::<P>::fresh(anchor).run(inputs).result is Ok,
    ensures
        ({
            let ledger = Ledger::<P>::fresh(anchor).run(inputs).ledger;
            &&& forall|k: u64| #[trigger]
                ledger.emitted.contains_key(k) <==> ledger.anchor.number < k && k
                    <= ledger.anchor.number + ledger.emitted.dom().len()
            &&& forall|k: u64| #[trigger]
                ledger.emitted.contains_key(k) ==> ledger.emitted[k].number() == k
                    && ledger.emitted[k].parent() == if k == ledger.anchor.number + 1 {
                    ledger.anchor.hash
                } else {
                    ledger.emitted[(k - 1) as u64].hash()
                }
            &&& forall|k: u64| #[trigger]
                ledger.waiting.contains_key(k) ==> ledger.waiting[k].number() == k && k
                    > ledger.anchor.number
            &&& forall|j: u64, k: u64|
                #![trigger ledger.emitted.contains_key(j), ledger.waiting.contains_key(k)]
                ledger.emitted.contains_key(j) && ledger.waiting.contains_key(k) ==> j < k
        }),
{
    lemma_fresh_inv::<P>(anchor);
    lemma_run_moves_up(Ledger::<P>::fresh(anchor), inputs);
    let ledger = Ledger::<P>::fresh(anchor).run(inputs).ledger;
    if !ledger.emitted.dom().is_empty() {
        lemma_has_last(ledger.emitted);
    }
    lemma_heights_counted(ledger.emitted, ledger.anchor.number, ledger.tip());
}

/// **Nothing releasable is left behind.** Over any accepted inputs, the lowest waiting block is not
/// the next one above the anchor when nothing was delivered there, and is no child of the newest
/// delivered block with a hash that is certain. Releasing again would deliver and change nothing.
pub proof fn nothing_releasable_waits<P>(anchor: BlockNumHash, inputs: Seq<Input<P>>)
    requires
        Ledger::<P>::fresh(anchor).run(inputs).result is Ok,
    ensures
        ({
            let ledger = Ledger::<P>::fresh(anchor).run(inputs).ledger;
            let lowest = first_key(ledger.waiting);
            let newest = ledger.emitted[last_key(ledger.emitted)];
            &&& ledger.drained() == ledger.stays(Ok(Seq::empty()))
            &&& !ledger.waiting.dom().is_empty() && ledger.emitted.dom().is_empty() ==> lowest
                != ledger.anchor.number + 1
            &&& !ledger.waiting.dom().is_empty() && !ledger.emitted.dom().is_empty() && lowest
                == last_key(ledger.emitted) + 1 ==> !newest.computed_hash
                || ledger.waiting[lowest].parent() != newest.hash()
        }),
{
    lemma_fresh_inv::<P>(anchor);
    lemma_run_moves_up(Ledger::<P>::fresh(anchor), inputs);
    let ledger = Ledger::<P>::fresh(anchor).run(inputs).ledger;
    if !ledger.waiting.dom().is_empty() {
        lemma_has_first(ledger.waiting);
        assert(ledger.waiting.contains_key(first_key(ledger.waiting)));
    }
}

/// **A child needs a certified parent.** A block is delivered for the first time only on top of the
/// tip, as the child of the tip's hash, and, above the anchor, only when that hash was calculated
/// locally.
pub proof fn child_needs_certified_parent<P>(ledger: Ledger<P>)
    requires
        ledger.linked(),
        ledger.release() is From,
        !ledger.emitted.contains_key(first_key(ledger.waiting)),
    ensures
        first_key(ledger.waiting) == ledger.tip() + 1,
        ledger.waiting[first_key(ledger.waiting)].parent() == ledger.tip_hash(),
        ledger.tip() > ledger.anchor.number ==> ledger.emitted[ledger.tip()].computed_hash,
        ledger.release() == Release::From(0),
{
}

/// **Blocks without news are not repeated.** A newer snapshot that adds nothing to a delivered
/// block, and leaves its hash alone once something was delivered on top, is accepted; if anything
/// is delivered because of it, that is about blocks above it.
pub proof fn no_news_is_not_delivered<P>(ledger: Ledger<P>, snapshot: Snapshot<P>)
    requires
        ledger.inv(),
        snapshot.validity() is Ok,
        ledger.emitted.contains_key(snapshot.number()),
        snapshot.continues(&ledger.emitted[snapshot.number()]),
        snapshot.len() == ledger.emitted[snapshot.number()].len(),
        snapshot.hash() == ledger.emitted[snapshot.number()].hash() || snapshot.number()
            == ledger.tip(),
        ledger.on_pending(snapshot).result is Ok,
    ensures
        forall|i: int|
            0 <= i < ledger.on_pending(snapshot).result->Ok_0.len() ==> {
                let event = #[trigger] ledger.on_pending(snapshot).result->Ok_0[i];
                event is Apply && event_number(event) > ledger.tip()
            },
{
    let number = snapshot.number();
    let queued = ledger.queued(snapshot);
    if ledger.on_pending(snapshot).result->Ok_0.len() > 0 {
        lemma_queued_keeps_linked(ledger, snapshot);
        lemma_has_first(queued.waiting);
        assert(queued.waiting.contains_key(number));
        assert(first_key(queued.waiting) == number);
        assert(queued.tip() == ledger.tip());
        assert(queued.release() == Release::From(snapshot.len()));
        lemma_advance_keeps_linked(queued);
        lemma_drained_events(queued.advanced());
        let later = queued.advanced().drained().result->Ok_0;
        assert(ledger.on_pending(snapshot).result->Ok_0 =~= later);
    }
}

/// Whether a pending snapshot has news for the tip of a feed: it is the first one of a block on top
/// of the tip, whose hash is certain, or a later one of the tip itself with more transactions.
pub open spec fn has_news<P>(ledger: Ledger<P>, snapshot: Snapshot<P>) -> bool {
    let number = snapshot.number();
    if ledger.emitted.contains_key(number) {
        let held = ledger.emitted[number];
        &&& number == ledger.tip()
        &&& snapshot.continues(&held)
        &&& snapshot.len() > held.len()
        &&& snapshot.publication_id > held.publication_id
    } else {
        &&& number == ledger.tip() + 1
        &&& snapshot.parent() == ledger.tip_hash()
        &&& ledger.tip() > ledger.anchor.number ==> ledger.emitted[ledger.tip()].computed_hash
        &&& ledger.waiting.contains_key(number) ==> ledger.waiting[number].publication_id
            < snapshot.publication_id
    }
}

/// **News is delivered at once.** A pending snapshot with news for the tip is delivered before
/// anything else, from the first transaction that was not delivered on; the first one of a block is
/// delivered even when it is empty. It is refused only when the feed would hold too much.
pub proof fn news_is_delivered<P>(ledger: Ledger<P>, snapshot: Snapshot<P>)
    requires
        ledger.inv(),
        snapshot.validity() is Ok,
        has_news(ledger, snapshot),
    ensures
        match ledger.on_pending(snapshot).result {
            Ok(events) => events.len() > 0 && events.first() == Event::Apply(
                Delta { snapshot, start: ledger.delivered(snapshot.number()) },
            ),
            Err(reason) => reason == Reason::BufferLimit,
        },
{
    let number = snapshot.number();
    let queued = ledger.queued(snapshot);
    if !ledger.emitted.dom().is_empty() {
        lemma_has_last(ledger.emitted);
    }
    lemma_queued_keeps_linked(ledger, snapshot);
    assert(queued.waiting.contains_key(number));
    lemma_has_first(queued.waiting);
    assert(first_key(queued.waiting) == number);
    lemma_advance_keeps_linked(queued);
    lemma_settled_above(queued.advanced());
}

/// Releasing blocks that wait above the tip of a feed with something delivered can only fail for
/// want of room.
proof fn lemma_settled_above<P>(ledger: Ledger<P>)
    requires
        ledger.linked(),
        !ledger.emitted.dom().is_empty(),
        forall|k: u64| #[trigger] ledger.waiting.contains_key(k) ==> ledger.tip() < k,
    ensures
        ledger.drained().result matches Err(reason) ==> reason == Reason::BufferLimit,
    decreases ledger.waiting.dom().len(),
{
    if !ledger.waiting.dom().is_empty() {
        lemma_has_first(ledger.waiting);
    }
    if ledger.release() is From {
        let next = ledger.advanced();
        lemma_advance_keeps_linked(ledger);
        assert(next.emitted.contains_key(first_key(ledger.waiting)));
        assert forall|k: u64| #[trigger] next.waiting.contains_key(k) implies next.tip() < k by {
            assert(ledger.waiting.contains_key(k));
        }
        lemma_settled_above(next);
    }
}

/// **A conflict confirms nothing.** A canonical block that disagrees with what was delivered of it
/// moves no anchor, seals nothing and releases nothing.
pub proof fn conflict_confirms_nothing<P>(ledger: Ledger<P>, snapshot: Snapshot<P>)
    requires
        ledger.inv(),
        snapshot.validity() is Ok,
        snapshot.number() == ledger.anchor.number + 1,
        snapshot.parent() == ledger.anchor.hash,
        ledger.emitted.contains_key(snapshot.number()),
        !snapshot.continues(&ledger.emitted[snapshot.number()]),
    ensures
        ledger.on_canonical(snapshot).result == Err::<Seq<Event<Delta<P>>>, Reason>(
            Reason::ExecutionMismatch,
        ),
        ledger.on_canonical(snapshot).ledger.anchor == ledger.anchor,
        ledger.on_canonical(snapshot).ledger.waiting == ledger.waiting,
        ledger.on_canonical(snapshot).ledger.emitted.dom().subset_of(ledger.emitted.dom()),
{
}

/// **A block read back is the next one.** A block that recovery gives back is the child of the
/// anchor, and both were canonical before it was read and again after; the feed on that anchor
/// finds no gap, no other parent and no other branch in it.
pub proof fn recovered_block_is_next<P>(
    ledger: Ledger<P>,
    answers: Seq<Answer<P>>,
    snapshot: Snapshot<P>,
)
    requires
        is_course(ledger.anchor, answers),
        reached(ledger.anchor, answers).1 == Ask::<P>::Done(Ok(Some(snapshot))),
    ensures
        confirms(ledger.anchor, answers, snapshot),
        ledger.on_canonical(snapshot).result matches Err(reason) ==> reason != Reason::CanonicalGap
            && reason != Reason::CanonicalParentMismatch && reason != Reason::CanonicalReorg,
{
    block_is_confirmed(ledger.anchor, answers, snapshot);
    lemma_drained_reasons(ledger.anchored(snapshot));
}

/// The reasons for which releasing waiting blocks is refused.
proof fn lemma_drained_reasons<P>(ledger: Ledger<P>)
    ensures
        ledger.drained().result matches Err(reason) ==> reason == Reason::PendingPrefixChanged
            || reason == Reason::PublishedParentChanged || reason == Reason::PendingParentChanged
            || reason == Reason::BufferLimit,
    decreases ledger.waiting.dom().len(),
{
    if ledger.release() is From {
        lemma_has_first(ledger.waiting);
        lemma_drained_reasons(ledger.advanced());
    }
}

/// **Recovery makes headway.** While blocks below the next input are missing, each canonical block
/// that is taken on top of the anchor leaves one less to read.
pub proof fn recovery_makes_headway<P>(
    ledger: Ledger<P>,
    snapshot: Snapshot<P>,
    next_canonical: Option<&Snapshot<P>>,
    pending_target: Option<u64>,
)
    requires
        ledger.inv(),
        ledger.recovery(next_canonical, pending_target) == Ok::<bool, Reason>(true),
        snapshot.number() > ledger.anchor.number,
        ledger.on_canonical(snapshot).result is Ok,
    ensures
        ({
            let after = ledger.on_canonical(snapshot).ledger;
            let target = ledger.recovery_target(next_canonical, pending_target);
            &&& after.anchor.number == ledger.anchor.number + 1
            &&& after.recovery_target(next_canonical, pending_target) == target
            &&& after.recovery(next_canonical, pending_target) == Ok::<bool, Reason>(
                target - ledger.anchor.number > 1,
            )
        }),
{
    lemma_canonical_keeps_inv(ledger, snapshot);
}

} // verus!
