//! What each signal makes of a subscription, said of what the feed makes of blocks.

use crate::ledger::{lemma_pending_keeps_inv, Delta, Event, Ledger, Outcome};
use crate::ordered::{last_key, lemma_has_last};
use crate::primitives::BlockNumHash;
use crate::reason::Reason;
use crate::receipt::sum;
use crate::recovery::Failure;
use crate::session::{enqueued, Position, ResetContext, Session, Signal, Turn};
use crate::snapshot::Snapshot;
use vstd::prelude::*;

verus! {

/// Which block a snapshot is of.
pub open spec fn place<P>(snapshot: Snapshot<P>) -> Position {
    Position {
        number: snapshot.data.block().number,
        hash: snapshot.data.block().hash,
        parent: snapshot.data.block().parent_hash,
    }
}

/// Whether a context tells where a subscription stands: its anchor, the last canonical block that
/// it took up, the next one in its queue, and the height above the anchor up to which blocks are to
/// be read back, just below that next one or else as waiting blocks need it.
pub open spec fn tells<P>(at: Session<P>, context: ResetContext) -> bool {
    let target = if at.queue.len() > 0 && at.queue[0].number() > 0 {
        Some((at.queue[0].number() - 1) as u64)
    } else {
        at.repair_to
    };
    &&& context.anchor == at.ledger.anchor
    &&& context.last_canonical_input == at.canonical_input
    &&& context.queued_canonical == if at.queue.len() > 0 {
        Some(place(at.queue[0]))
    } else {
        None
    }
    &&& context.repair_target == if target is Some && target->0 > at.ledger.anchor.number {
        target
    } else {
        None
    }
}

/// Whether a subscription ends where it stands: with a reset under the next number that gives the
/// reason and tells where that is.
pub open spec fn ends<P>(
    at: Session<P>,
    reason: Failure<String>,
    after: (Session<P>, Turn<P>),
) -> bool {
    &&& after.0 == (Session { sequence: (at.sequence + 1) as u64, closed: true, ..at })
    &&& after.1 is Reset
    &&& after.1->Reset_0.sequence == (at.sequence + 1) as u64
    &&& after.1->Reset_0.reason == reason
    &&& tells(at, after.1->Reset_0.context)
}

/// Whether a subscription deals with what the feed makes of an input: a refusal ends it, events are
/// sent under the next number, and without any it goes on.
pub open spec fn deals_with<P>(
    at: Session<P>,
    result: Result<Seq<Event<Delta<P>>>, Reason>,
    after: (Session<P>, Turn<P>),
) -> bool {
    match result {
        Err(reason) => ends(at, Failure::Rule(reason), after),
        Ok(events) => if events.len() > 0 {
            after == (at, Turn::Send { sequence: (at.sequence + 1) as u64, events })
        } else {
            after == at.step(Signal::Started)
        },
    }
}

/// Whether a height is the one up to which waiting blocks need their parents: just below the
/// highest of them, and none when no block waits.
pub open spec fn aims_below_highest<P>(ledger: Ledger<P>, to: Option<u64>) -> bool {
    match to {
        None => forall|k: u64| !(#[trigger] ledger.waiting.contains_key(k)),
        Some(below) => {
            &&& below < u64::MAX
            &&& ledger.waiting.contains_key((below + 1) as u64)
            &&& forall|k: u64| #[trigger] ledger.waiting.contains_key(k) ==> k <= below + 1
        },
    }
}

/// Whether a height is where a subscription aims once the feed took a pending block, or as before
/// when that was refused.
pub open spec fn aims_after<P>(at: Session<P>, outcome: Outcome<P>, to: Option<u64>) -> bool {
    if outcome.result is Ok {
        aims_below_highest(outcome.ledger, to)
    } else {
        to == at.repair_to
    }
}

/// Whether a subscription takes a pending block: it deals with what the feed makes of it and,
/// unless that is a refusal, means to read the parents that are then missing.
pub open spec fn takes_pending<P>(
    at: Session<P>,
    outcome: Outcome<P>,
    after: (Session<P>, Turn<P>),
) -> bool {
    exists|to: Option<u64>|
        {
            &&& #[trigger] aims_after(at, outcome, to)
            &&& deals_with(
                Session { ledger: outcome.ledger, repair_to: to, ..at },
                outcome.result,
                after,
            )
        }
}

/// **A subscription starts with nothing.** No message was sent but the first, nothing is delivered,
/// queued or to be read back, and the pending block as it stands is still to be taken.
pub proof fn subscription_starts_empty<P>(anchor: BlockNumHash, first: Option<Snapshot<P>>)
    ensures
        ({
            let session = Session::fresh(anchor, first);
            &&& session.sequence == 0
            &&& session.ledger.anchor == anchor
            &&& session.ledger.emitted == Map::<u64, Snapshot<P>>::empty()
            &&& session.ledger.waiting == Map::<u64, Snapshot<P>>::empty()
            &&& session.queue == Seq::<Snapshot<P>>::empty()
            &&& session.repair_to is None
            &&& session.canonical_input is None
            &&& session.first == first
            &&& !session.closed
        }),
{
}

/// **What fails outside ends a subscription, each failure with its reason.** A client that leaves
/// ends it without a message.
pub proof fn failures_end_it<P>(session: Session<P>, signal: Signal<P>)
    requires
        !session.closed,
    ensures
        ({
            let after = session.step(signal);
            match signal {
                Signal::PublicationsLagged => ends(
                    session,
                    Failure::Rule(Reason::PublicationGap),
                    after,
                ),
                Signal::PublicationsClosed => ends(
                    session,
                    Failure::Rule(Reason::PublicationStreamClosed),
                    after,
                ),
                Signal::CanonicalLost => ends(
                    session,
                    Failure::Rule(Reason::CanonicalStreamGap),
                    after,
                ),
                Signal::SendTimedOut => ends(
                    session,
                    Failure::Rule(Reason::ClientTooSlow),
                    after,
                ),
                Signal::SendFailed => ends(
                    session,
                    Failure::Rule(Reason::ClientDisconnected),
                    after,
                ),
                Signal::Failed(reason) => ends(session, reason, after),
                Signal::Committed { reverted, blocks } => reverted ==> ends(
                    session,
                    Failure::Rule(Reason::CanonicalReorg),
                    after,
                ),
                Signal::Recovered(None) => session.queue.len() > 0 ==> ends(
                    session,
                    Failure::Rule(Reason::CanonicalBlockUnavailable),
                    after,
                ),
                Signal::ClientClosed => after == (
                    Session { closed: true, ..session },
                    Turn::<P>::Close,
                ),
                _ => true,
            }
        }),
{
}

/// **A block that was read back is delivered.** It is taken as a canonical block, whatever it
/// holds: the subscription sends exactly the events that the feed has for it, and stays open,
/// unless the feed refuses it.
pub proof fn recovered_block_is_delivered<P>(session: Session<P>, snapshot: Snapshot<P>)
    requires
        !session.closed,
    ensures
        ({
            let outcome = session.ledger.on_canonical(snapshot);
            let at = Session {
                ledger: outcome.ledger,
                canonical_input: Some(place(snapshot)),
                ..session
            };
            deals_with(at, outcome.result, session.step(Signal::Recovered(Some(snapshot))))
        }),
{
}

/// **A published block is delivered.** The subscription sends exactly the events that the feed has
/// for it, and stays open, unless the feed refuses it.
pub proof fn published_block_is_delivered<P>(session: Session<P>, snapshot: Snapshot<P>)
    requires
        session.inv(),
        !session.closed,
    ensures
        takes_pending(
            session,
            session.ledger.on_pending(snapshot),
            session.step(Signal::Published(snapshot)),
        ),
{
    lemma_takes_pending(session, snapshot);
}

proof fn lemma_takes_pending<P>(session: Session<P>, snapshot: Snapshot<P>)
    requires
        session.ledger.inv(),
        !session.closed,
    ensures
        takes_pending(
            session,
            session.ledger.on_pending(snapshot),
            session.step(Signal::Published(snapshot)),
        ),
{
    let outcome = session.ledger.on_pending(snapshot);
    let to = session.took_pending(snapshot).0.repair_to;
    if outcome.result is Ok {
        lemma_pending_keeps_inv(session.ledger, snapshot);
        if !outcome.ledger.waiting.dom().is_empty() {
            lemma_has_last(outcome.ledger.waiting);
            let last = last_key(outcome.ledger.waiting);
            assert(outcome.ledger.waiting.contains_key(last));
        }
        assert(aims_below_highest(outcome.ledger, to));
    }
    let at = Session { ledger: outcome.ledger, repair_to: to, ..session };
    assert(session.took_pending(snapshot).0 == at);
    assert(deals_with(at, outcome.result, session.step(Signal::Published(snapshot))));
    assert(aims_after(session, outcome, to));
}

/// **A batch that was sent counts, and the subscription goes on.**
pub proof fn sent_batch_counts<P>(session: Session<P>)
    requires
        !session.closed,
    ensures
        session.step(Signal::Sent) == (Session {
            sequence: (session.sequence + 1) as u64,
            ..session
        }).step(Signal::Started),
{
}

/// **A parent that is not there yet is waited for.** Without a queued block, nothing more is read
/// back until a new input comes.
pub proof fn absent_parent_is_waited_for<P>(session: Session<P>)
    requires
        !session.closed,
        session.queue.len() == 0,
    ensures
        session.step(Signal::Recovered(None)) == (Session { repair_to: None, ..session }).step(
            Signal::Started,
        ),
{
}

/// The memory of the first `count` blocks.
pub open spec fn weight_of<P>(blocks: Seq<Snapshot<P>>, count: int) -> nat {
    sum(Seq::new(count as nat, |i: int| blocks[i].bytes() as nat))
}

/// Whether the first `count` announced blocks fit: the queue then holds no more than 1024 blocks,
/// and they take no more than 64 MiB.
pub open spec fn fit<P>(queue: Seq<Snapshot<P>>, blocks: Seq<Snapshot<P>>, count: int) -> bool {
    count == 0 || (queue.len() + count <= 1024 && weight_of(blocks, count) <= 67_108_864)
}

proof fn lemma_weight_step<P>(blocks: Seq<Snapshot<P>>, count: int)
    requires
        0 <= count,
    ensures
        weight_of(blocks, count + 1) == weight_of(blocks, count) + blocks[count].bytes(),
        weight_of(blocks, 0) == 0,
{
    let parts = Seq::new((count + 1) as nat, |i: int| blocks[i].bytes() as nat);
    assert(parts.drop_last() =~= Seq::new(count as nat, |i: int| blocks[i].bytes() as nat));
}

proof fn lemma_weight_grows<P>(blocks: Seq<Snapshot<P>>, count: int, more: int)
    requires
        0 <= count <= more,
    ensures
        weight_of(blocks, count) <= weight_of(blocks, more),
    decreases more,
{
    if count < more {
        lemma_weight_grows(blocks, count, more - 1);
        lemma_weight_step(blocks, more - 1);
    }
}

proof fn lemma_enqueued_fits<P>(queue: Seq<Snapshot<P>>, blocks: Seq<Snapshot<P>>, done: int) -> (
    count: int)
    requires
        0 <= done <= blocks.len(),
        fit(queue, blocks, done),
    ensures
        done <= count <= blocks.len(),
        fit(queue, blocks, count),
        count < blocks.len() ==> !fit(queue, blocks, count + 1),
        enqueued(queue + blocks.take(done), blocks.skip(done), weight_of(blocks, done)) == (
            queue + blocks.take(count),
            if count == blocks.len() {
                Ok::<(), Reason>(())
            } else {
                Err(Reason::BufferLimit)
            },
        ),
    decreases blocks.len() - done,
{
    lemma_weight_step(blocks, done);
    if done == blocks.len() {
        done
    } else if fit(queue, blocks, done + 1) {
        assert(blocks.skip(done).first() == blocks[done]);
        assert((queue + blocks.take(done)).push(blocks[done]) =~= queue + blocks.take(done + 1));
        assert(blocks.skip(done).drop_first() =~= blocks.skip(done + 1));
        lemma_enqueued_fits(queue, blocks, done + 1)
    } else {
        assert(blocks.skip(done).first() == blocks[done]);
        done
    }
}

/// **Announced blocks are queued as far as they fit.** When all of them fit, they are put at the
/// end of the queue in order and the subscription goes on. Otherwise it ends, with those in the
/// queue that do fit.
pub proof fn announced_blocks_are_queued<P>(session: Session<P>, blocks: Vec<Snapshot<P>>)
    requires
        !session.closed,
    ensures
        ({
            let after = session.step(Signal::Committed { reverted: false, blocks });
            if fit(session.queue, blocks@, blocks@.len() as int) {
                after == (Session { queue: session.queue + blocks@, ..session }).step(
                    Signal::Started,
                )
            } else {
                exists|count: int|
                    {
                        &&& 0 <= count < blocks@.len()
                        &&& #[trigger] fit(session.queue, blocks@, count)
                        &&& !fit(session.queue, blocks@, count + 1)
                        &&& ends(
                            Session { queue: session.queue + blocks@.take(count), ..session },
                            Failure::Rule(Reason::BufferLimit),
                            after,
                        )
                    }
            }
        }),
{
    lemma_weight_step(blocks@, 0);
    let count = lemma_enqueued_fits(session.queue, blocks@, 0);
    assert(session.queue + blocks@.take(0) =~= session.queue);
    assert(blocks@.skip(0) =~= blocks@);
    if count == blocks@.len() {
        assert(blocks@.take(count) =~= blocks@);
    } else {
        lemma_weight_grows(blocks@, count + 1, blocks@.len() as int);
    }
    assert(fit(session.queue, blocks@, count));
}

/// **Queued blocks come first, and none before its predecessors.** While blocks are missing below
/// the next one in the queue, the block after the anchor is read back, and has to be there; more
/// than 1024 missing blocks end the subscription. With none missing, the next one is taken as a
/// canonical block.
pub proof fn queued_blocks_come_first<P>(session: Session<P>)
    requires
        !session.closed,
        session.queue.len() > 0,
    ensures
        ({
            let next = session.queue[0];
            let missing = next.number() - 1 - session.ledger.anchor.number;
            let at = Session { canonical_input: Some(place(next)), ..session };
            let after = session.step(Signal::Started);
            if missing > 1024 {
                ends(at, Failure::Rule(Reason::CanonicalRecoveryLimit), after)
            } else if missing > 0 {
                after == (
                    at,
                    Turn::<P>::Recover { anchor: session.ledger.anchor, required: true },
                )
            } else {
                let outcome = session.ledger.on_canonical(next);
                deals_with(
                    Session {
                        ledger: outcome.ledger,
                        queue: session.queue.drop_first(),
                        ..at
                    },
                    outcome.result,
                    after,
                )
            }
        }),
{
}

/// **With nothing queued, parents are read, then the first pending block is taken, then the
/// subscription waits.** Parents of waiting blocks need not be there; more than 1024 missing ones
/// end the subscription.
pub proof fn parents_come_before_waiting<P>(session: Session<P>)
    requires
        session.inv(),
        !session.closed,
        session.queue.len() == 0,
    ensures
        ({
            let missing = if session.repair_to is Some {
                session.repair_to->0 - session.ledger.anchor.number
            } else {
                0
            };
            let after = session.step(Signal::Started);
            if missing > 1024 {
                ends(session, Failure::Rule(Reason::CanonicalRecoveryLimit), after)
            } else if missing > 0 {
                after == (
                    session,
                    Turn::<P>::Recover { anchor: session.ledger.anchor, required: false },
                )
            } else if session.first is Some {
                takes_pending(
                    Session { first: None, ..session },
                    session.ledger.on_pending(session.first->0),
                    after,
                )
            } else {
                after == (session, Turn::<P>::Wait)
            }
        }),
{
    if session.first is Some {
        lemma_takes_pending(Session { first: None, ..session }, session.first->0);
    }
}

/// Whether the feed came to this ledger by refusing an input for a reason.
pub open spec fn feed_refused<P>(ledger: Ledger<P>, reason: Reason) -> bool {
    exists|before: Ledger<P>, snapshot: Snapshot<P>|
        {
            let refusal = Outcome { ledger, result: Err(reason) };
            #[trigger] before.on_canonical(snapshot) == refusal || before.on_pending(snapshot)
                == refusal
        }
}

/// Whether more than 1024 blocks are missing before the next input.
pub open spec fn misses_too_many<P>(session: Session<P>) -> bool {
    if session.queue.len() > 0 {
        session.queue[0].number() - 1 - session.ledger.anchor.number > 1024
    } else {
        session.repair_to is Some && session.repair_to->0 - session.ledger.anchor.number > 1024
    }
}

/// Whether a signal alone ends a subscription.
pub open spec fn is_fatal<P>(session: Session<P>, signal: Signal<P>) -> bool {
    match signal {
        Signal::PublicationsLagged | Signal::PublicationsClosed | Signal::CanonicalLost => true,
        Signal::SendTimedOut | Signal::SendFailed | Signal::Failed(_) => true,
        Signal::Committed { reverted, blocks } => reverted || !fit(
            session.queue,
            blocks@,
            blocks@.len() as int,
        ),
        Signal::Recovered(None) => session.queue.len() > 0,
        _ => false,
    }
}

/// Whether a reset has a cause besides the signal: the feed refused an input, or too many blocks
/// are missing.
pub open spec fn has_cause<P>(after: (Session<P>, Turn<P>)) -> bool {
    after.1 matches Turn::Reset(reset) ==> {
        ||| reset.reason == Failure::<String>::Rule(Reason::CanonicalRecoveryLimit)
            && misses_too_many(after.0)
        ||| reset.reason is Rule && feed_refused(after.0.ledger, reset.reason->Rule_0)
    }
}

proof fn lemma_going_on_has_cause<P>(session: Session<P>)
    requires
        !session.closed,
    ensures
        has_cause(session.go_on()),
    decreases
            session.queue.len(),
            if session.first is Some {
                1int
            } else {
                0
            },
{
    let now = session.noted();
    if session.ledger.recovery(session.front(), session.repair_to) == Ok::<bool, Reason>(false) {
        if session.queue.len() > 0 {
            let rest = Session { queue: session.queue.drop_first(), ..now };
            let outcome = session.ledger.on_canonical(session.queue[0]);
            let next = rest.took_canonical(session.queue[0]).0;
            if outcome.result is Ok {
                lemma_going_on_has_cause(next);
            } else {
                assert(feed_refused(outcome.ledger, outcome.result->Err_0));
            }
        } else if let Some(snapshot) = session.first {
            lemma_taking_pending_has_cause(Session { first: None, ..now }, snapshot);
            let rest = Session { first: None, ..now };
            let (next, result) = rest.took_pending(snapshot);
            if result is Ok {
                lemma_going_on_has_cause(next);
            }
        }
    }
}

proof fn lemma_taking_pending_has_cause<P>(session: Session<P>, snapshot: Snapshot<P>)
    ensures
        session.took_pending(snapshot).1 matches Err(reason) ==> feed_refused(
            session.took_pending(snapshot).0.ledger,
            reason,
        ),
{
    let outcome = session.ledger.on_pending(snapshot);
    if outcome.result is Err {
        let refusal = Outcome { ledger: outcome.ledger, result: outcome.result };
        assert(session.ledger.on_canonical(snapshot) == refusal || session.ledger.on_pending(
            snapshot,
        ) == refusal);
    }
}

/// **A subscription resets only for a cause.** Either the signal is a loss, a failure, a revert, an
/// announcement that does not fit or a required block that is missing; or the feed refused an
/// input; or more blocks are missing than may be read back.
pub proof fn resets_have_a_cause<P>(session: Session<P>, signal: Signal<P>)
    requires
        !session.closed,
    ensures
        is_fatal(session, signal) || has_cause(session.step(signal)),
{
    match signal {
        Signal::Started => {
            lemma_going_on_has_cause(session);
        },
        Signal::Recovered(Some(snapshot)) => {
            let at = Session { canonical_input: Some(place(snapshot)), ..session };
            let outcome = session.ledger.on_canonical(snapshot);
            if outcome.result is Ok {
                lemma_going_on_has_cause(at.took_canonical(snapshot).0);
            } else {
                assert(feed_refused(outcome.ledger, outcome.result->Err_0));
            }
        },
        Signal::Recovered(None) => {
            lemma_going_on_has_cause(Session { repair_to: None, ..session });
        },
        Signal::Published(snapshot) => {
            lemma_taking_pending_has_cause(session, snapshot);
            let (next, result) = session.took_pending(snapshot);
            if result is Ok {
                lemma_going_on_has_cause(next);
            }
        },
        Signal::Committed { reverted, blocks } => {
            if !is_fatal(session, signal) {
                announced_blocks_are_queued(session, blocks);
                lemma_going_on_has_cause(Session { queue: session.queue + blocks@, ..session });
            }
        },
        Signal::Sent => {
            lemma_going_on_has_cause(
                Session { sequence: (session.sequence + 1) as u64, ..session },
            );
        },
        _ => {},
    }
}

} // verus!
