//! One subscription: what to do after each thing that happens.

use crate::ledger::{well_cut, Delta, Event, MAX_RECOVERY_BLOCKS};
use crate::ordered::highest;
use crate::primitives::BlockNumHash;
use crate::reason::Reason;
use crate::recovery::Failure;
use crate::sequence::ReceiptSequence;
use crate::session::{enqueued, position_of, Position, Reset, ResetContext, Session, Signal, Turn};
use crate::snapshot::{Snapshot, MAX_BYTES};
use std::collections::VecDeque;
use vstd::prelude::*;

verus! {

broadcast use vstd::std_specs::btree::group_btree_axioms;

/// Events for the client, under the number of their message.
#[derive(Debug)]
pub struct Batch<P> {
    pub sequence: u64,
    pub events: Vec<Event<Delta<P>>>,
}

/// What is to be done next.
#[derive(Debug)]
pub enum Action<P> {
    /// Read the canonical block after `anchor`. When `required`, there has to be one.
    Recover { anchor: BlockNumHash, required: bool },
    /// Wait for the next signal.
    Wait,
    /// Send the client a batch.
    Send(Batch<P>),
    /// Tell the client that the subscription is over.
    Reset(Reset),
    /// Do nothing more.
    Close,
}

impl<P> View for Action<P> {
    type V = Turn<P>;

    open spec fn view(&self) -> Turn<P> {
        match *self {
            Action::Recover { anchor, required } => Turn::Recover { anchor, required },
            Action::Wait => Turn::Wait,
            Action::Send(batch) => Turn::Send { sequence: batch.sequence, events: batch.events@ },
            Action::Reset(reset) => Turn::Reset(reset),
            Action::Close => Turn::Close,
        }
    }
}

/// The state of one subscription. It does no input or output: it is told what happened, and says
/// what to do.
#[derive(Debug)]
pub struct Subscription<P> {
    sequence: u64,
    state: ReceiptSequence<P>,
    canonical_blocks: VecDeque<Snapshot<P>>,
    repair_to: Option<u64>,
    canonical_input: Option<Position>,
    first: Option<Snapshot<P>>,
    closed: bool,
}

impl<P> View for Subscription<P> {
    type V = Session<P>;

    closed spec fn view(&self) -> Session<P> {
        Session {
            sequence: self.sequence,
            ledger: self.state@,
            queue: self.canonical_blocks@,
            repair_to: self.repair_to,
            canonical_input: self.canonical_input,
            first: self.first,
            closed: self.closed,
        }
    }
}

fn position<P>(snapshot: &Snapshot<P>) -> (position: Position)
    ensures
        position == position_of(*snapshot),
{
    Position { number: snapshot.number(), hash: snapshot.hash(), parent: snapshot.parent() }
}

/// Whether a turn is what a call decided on.
pub open spec fn turns_to<P>(
    turn: Result<Option<Turn<P>>, Reason>,
    result: Result<Option<Action<P>>, Reason>,
) -> bool {
    turn == match result {
        Ok(Some(action)) => Ok::<Option<Turn<P>>, Reason>(Some(action@)),
        Ok(None) => Ok(None),
        Err(reason) => Err(reason),
    }
}

/// Whether an action that sends deltas sends well-cut ones.
pub open spec fn sends_well_cut<P>(action: Action<P>) -> bool {
    action matches Action::Send(batch) ==> well_cut(batch.events@) && batch.events@.len() > 0
}

impl<P> Subscription<P> {
    /// A subscription that starts at `anchor`, with the pending block as it stands.
    pub fn new(anchor: BlockNumHash, first: Option<Snapshot<P>>) -> (subscription: Self)
        ensures
            subscription@ == Session::fresh(anchor, first),
            subscription@.inv(),
    {
        let subscription = Self {
            sequence: 0,
            state: ReceiptSequence::new(anchor),
            canonical_blocks: VecDeque::new(),
            repair_to: None,
            canonical_input: None,
            first,
            closed: false,
        };
        assert(subscription@ =~= Session::fresh(anchor, first));
        subscription
    }

    /// The number of the last message that was sent.
    pub fn sequence(&self) -> (sequence: u64)
        ensures
            sequence == self@.sequence,
    {
        self.sequence
    }

    /// The batch of what came of an input, or `None` when that is nothing.
    fn batch(&self, events: Vec<Event<Delta<P>>>) -> (action: Option<Action<P>>)
        requires
            self@.sequence < u64::MAX,
            well_cut(events@),
        ensures
            match action {
                None => events@.len() == 0,
                Some(action) => {
                    &&& events@.len() > 0
                    &&& action@ == (Turn::Send {
                        sequence: (self@.sequence + 1) as u64,
                        events: events@,
                    })
                    &&& sends_well_cut(action)
                },
            },
    {
        if events.is_empty() {
            None
        } else {
            Some(Action::Send(Batch { sequence: self.sequence + 1, events }))
        }
    }

    fn take_canonical(&mut self, snapshot: Snapshot<P>) -> (result: Result<
        Option<Action<P>>,
        Reason,
    >)
        requires
            old(self)@.ledger.inv(),
            old(self)@.sequence < u64::MAX,
        ensures
            final(self)@ == old(self)@.took_canonical(snapshot).0,
            turns_to(old(self)@.took_canonical(snapshot).1, result),
            result is Ok ==> final(self)@.ledger.inv(),
            result matches Ok(Some(action)) ==> sends_well_cut(action),
    {
        match self.state.canonical(snapshot) {
            Err(reason) => Err(reason),
            Ok(events) => Ok(self.batch(events)),
        }
    }

    fn take_pending(&mut self, snapshot: Snapshot<P>) -> (result: Result<
        Option<Action<P>>,
        Reason,
    >)
        requires
            old(self)@.ledger.inv(),
            old(self)@.sequence < u64::MAX,
        ensures
            final(self)@ == old(self)@.took_pending(snapshot).0,
            turns_to(old(self)@.took_pending(snapshot).1, result),
            result is Ok ==> final(self)@.ledger.inv(),
            result matches Ok(Some(action)) ==> sends_well_cut(action),
    {
        match self.state.pending(snapshot) {
            Err(reason) => Err(reason),
            Ok(events) => {
                // Readable canonical parents need not wait for their notification.
                self.repair_to = match highest(&self.state.waiting) {
                    Some(number) => Some(number.saturating_sub(1)),
                    None => None,
                };
                Ok(self.batch(events))
            },
        }
    }

    /// The next canonical block in the queue.
    fn front(&self) -> (front: Option<&Snapshot<P>>)
        ensures
            front == self@.front(),
    {
        if self.canonical_blocks.len() > 0 {
            Some(&self.canonical_blocks[0])
        } else {
            None
        }
    }

    /// Goes on with what is at hand.
    fn advance(&mut self) -> (result: Result<Action<P>, Reason>)
        requires
            old(self)@.ledger.inv(),
            old(self)@.sequence < u64::MAX,
        ensures
            final(self)@ == old(self)@.advance().0,
            match result {
                Ok(action) => old(self)@.advance().1 == Ok::<Turn<P>, Reason>(action@),
                Err(reason) => old(self)@.advance().1 == Err::<Turn<P>, Reason>(reason),
            },
            final(self)@.sequence == old(self)@.sequence,
            result is Ok ==> final(self)@.ledger.inv(),
            result matches Ok(action) ==> sends_well_cut(action),
    {
        loop
            invariant
                self@.ledger.inv(),
                self@.sequence == old(self)@.sequence,
                self@.sequence < u64::MAX,
                old(self)@.advance() == self@.advance(),
            decreases
                    self@.queue.len(),
                    if self@.first is Some {
                        1int
                    } else {
                        0
                    },
        {
            let ghost before = self@;
            // Keep a jumped notification queued until its predecessors have been applied and sent.
            // Each round reads at most one missing block.
            let noted = match self.front() {
                Some(snapshot) => Some(position(snapshot)),
                None => self.canonical_input,
            };
            let recovery = self.state.needs_recovery(self.front(), self.repair_to);
            self.canonical_input = noted;
            assert(self@ =~= before.noted());
            match recovery {
                Err(reason) => {
                    return Err(reason);
                },
                Ok(true) => {
                    return Ok(
                        Action::Recover {
                            anchor: self.state.anchor,
                            required: self.canonical_blocks.len() > 0,
                        },
                    );
                },
                Ok(false) => {},
            }
            let taken = if let Some(snapshot) = self.canonical_blocks.pop_front() {
                assert(self@ =~= (Session { queue: before.queue.drop_first(), ..before.noted() }));
                self.take_canonical(snapshot)
            } else if let Some(snapshot) = self.first.take() {
                assert(self@ =~= (Session { first: None, ..before.noted() }));
                self.take_pending(snapshot)
            } else {
                assert(self@ =~= before.noted());
                return Ok(Action::Wait);
            };
            match taken {
                Err(reason) => {
                    return Err(reason);
                },
                Ok(Some(action)) => {
                    return Ok(action);
                },
                Ok(None) => {},
            }
        }
    }

    /// Where the subscription stands.
    fn context(&self) -> (context: ResetContext)
        ensures
            context == self@.context(),
    {
        let front = self.front();
        let below: Option<u64> = match front {
            Some(snapshot) => snapshot.number().checked_sub(1),
            None => None,
        };
        let target: Option<u64> = match below {
            Some(to) => Some(to),
            None => self.repair_to,
        };
        ResetContext {
            anchor: self.state.anchor,
            last_canonical_input: self.canonical_input,
            queued_canonical: match front {
                Some(snapshot) => Some(position(snapshot)),
                None => None,
            },
            repair_target: match target {
                Some(to) => if to > self.state.anchor.number {
                    Some(to)
                } else {
                    None
                },
                None => None,
            },
        }
    }

    /// Ends the subscription with a last message.
    fn stop(&mut self, reason: Failure<String>) -> (action: Action<P>)
        requires
            old(self)@.sequence < u64::MAX,
        ensures
            (final(self)@, action@) == old(self)@.stop(reason),
            sends_well_cut(action),
    {
        let context = self.context();
        self.sequence = self.sequence + 1;
        self.closed = true;
        Action::Reset(Reset { sequence: self.sequence, reason, context })
    }

    fn go_on(&mut self) -> (action: Action<P>)
        requires
            old(self)@.ledger.inv(),
            old(self)@.sequence < u64::MAX,
        ensures
            (final(self)@, action@) == old(self)@.go_on(),
            final(self)@.inv(),
            sends_well_cut(action),
    {
        match self.advance() {
            Err(reason) => self.stop(Failure::Rule(reason)),
            Ok(action) => action,
        }
    }

    fn follow(&mut self, result: Result<Option<Action<P>>, Reason>) -> (action: Action<P>)
        requires
            result is Ok ==> old(self)@.ledger.inv(),
            result matches Ok(Some(action)) ==> sends_well_cut(action),
            old(self)@.sequence < u64::MAX,
        ensures
            forall|turn: Result<Option<Turn<P>>, Reason>|
                turns_to(turn, result) ==> (final(self)@, action@) == #[trigger] old(self)@.follow(
                    turn,
                ),
            final(self)@.inv(),
            sends_well_cut(action),
    {
        match result {
            Err(reason) => self.stop(Failure::Rule(reason)),
            Ok(Some(action)) => action,
            Ok(None) => self.go_on(),
        }
    }

    /// Puts announced blocks into the queue.
    fn enqueue(&mut self, blocks: Vec<Snapshot<P>>) -> (result: Result<(), Reason>)
        ensures
            (final(self)@.queue, result) == enqueued(old(self)@.queue, blocks@, 0),
            final(self)@ == (Session { queue: final(self)@.queue, ..old(self)@ }),
    {
        let mut bytes: usize = 0;
        assert(blocks@.skip(0) =~= blocks@);
        for i in 0..blocks.len()
            invariant
                bytes <= MAX_BYTES,
                self@ == (Session { queue: self@.queue, ..old(self)@ }),
                enqueued(old(self)@.queue, blocks@, 0) == enqueued(
                    self@.queue,
                    blocks@.skip(i as int),
                    bytes as nat,
                ),
        {
            let snapshot = &blocks[i];
            assert(blocks@.skip(i as int).drop_first() =~= blocks@.skip(i + 1));
            if self.canonical_blocks.len() as u64 >= MAX_RECOVERY_BLOCKS || snapshot.bytes()
                > MAX_BYTES - bytes {
                return Err(Reason::BufferLimit);
            }
            bytes += snapshot.bytes();
            self.canonical_blocks.push_back(snapshot.clone());
        }
        Ok(())
    }

    /// Deals with a signal and says what to do next.
    pub fn step(&mut self, signal: Signal<P>) -> (action: Action<P>)
        requires
            old(self)@.inv(),
            old(self)@.sequence < u64::MAX - 1,
        ensures
            (final(self)@, action@) == old(self)@.step(signal),
            final(self)@.inv(),
            sends_well_cut(action),
    {
        if self.closed {
            return Action::Close;
        }
        let ghost before = self@;
        match signal {
            Signal::Started => self.go_on(),
            Signal::Recovered(Some(snapshot)) => {
                self.canonical_input = Some(position(&snapshot));
                let taken = self.take_canonical(snapshot);
                self.follow(taken)
            },
            Signal::Recovered(None) => {
                if self.canonical_blocks.len() > 0 {
                    self.stop(Failure::Rule(Reason::CanonicalBlockUnavailable))
                } else {
                    // A pending child can precede its canonical parent. Wait for a new input
                    // rather than polling the database in a tight loop.
                    self.repair_to = None;
                    self.go_on()
                }
            },
            Signal::Published(snapshot) => {
                let taken = self.take_pending(snapshot);
                self.follow(taken)
            },
            Signal::PublicationsLagged => self.stop(Failure::Rule(Reason::PublicationGap)),
            Signal::PublicationsClosed => self.stop(Failure::Rule(Reason::PublicationStreamClosed)),
            Signal::Committed { reverted, blocks } => {
                if reverted {
                    self.stop(Failure::Rule(Reason::CanonicalReorg))
                } else {
                    match self.enqueue(blocks) {
                        Err(reason) => self.stop(Failure::Rule(reason)),
                        Ok(_) => self.go_on(),
                    }
                }
            },
            Signal::CanonicalLost => self.stop(Failure::Rule(Reason::CanonicalStreamGap)),
            Signal::Sent => {
                self.sequence = self.sequence + 1;
                self.go_on()
            },
            Signal::SendTimedOut => self.stop(Failure::Rule(Reason::ClientTooSlow)),
            Signal::SendFailed => self.stop(Failure::Rule(Reason::ClientDisconnected)),
            Signal::ClientClosed => {
                self.closed = true;
                Action::Close
            },
            Signal::Failed(reason) => self.stop(reason),
        }
    }
}

/// **An action is its turn.** Each is what it says, with the same anchor, number, events or reset.
pub proof fn action_is_its_turn<P>(action: Action<P>)
    ensures
        action is Recover <==> action@ is Recover,
        action is Wait <==> action@ is Wait,
        action is Send <==> action@ is Send,
        action is Reset <==> action@ is Reset,
        action is Close <==> action@ is Close,
        action is Recover ==> action@->anchor == action->anchor && action@->required
            == action->required,
        action is Send ==> action@->sequence == action->Send_0.sequence && action@->events
            == action->Send_0.events@,
        action is Reset ==> action@->Reset_0 == action->Reset_0,
{
}

} // verus!
