//! The course of one subscription, over mathematical values: what each signal makes of it, and what
//! is to be done next.

use crate::client::{canonical_keeps_step, lemma_replay_concat, pending_keeps_step, Client};
use crate::ledger::{lemma_canonical_keeps_inv, lemma_fresh_inv, lemma_pending_keeps_inv, Delta,
    Event, Ledger, Outcome, MAX_RECOVERY_BLOCKS};
use crate::ordered::{first_key, last_key, lemma_has_first, lemma_has_last};
use crate::primitives::{BlockNumHash, B256};
use crate::reason::Reason;
use crate::recovery::Failure;
use crate::snapshot::{Snapshot, MAX_BYTES};
use vstd::prelude::*;

verus! {

/// Which block a canonical input was about.
#[derive(Clone, Copy, Debug, PartialEq, Eq, Structural)]
pub struct Position {
    pub number: u64,
    pub hash: B256,
    pub parent: B256,
}

/// Where a subscription stood when it ended.
#[derive(Clone, Copy, Debug, PartialEq, Eq, Structural)]
pub struct ResetContext {
    pub anchor: BlockNumHash,
    /// The last canonical block that was taken up.
    pub last_canonical_input: Option<Position>,
    /// The next canonical block in the queue.
    pub queued_canonical: Option<Position>,
    /// The height above the anchor up to which blocks were to be read back.
    pub repair_target: Option<u64>,
}

/// The last message of a subscription that broke a rule or failed.
#[derive(Debug)]
pub struct Reset {
    pub sequence: u64,
    pub reason: Failure<String>,
    pub context: ResetContext,
}

/// What happened outside.
#[derive(Debug)]
pub enum Signal<P> {
    /// The client was told where the feed starts.
    Started,
    /// The canonical block after the anchor was read, or there is none.
    Recovered(Option<Snapshot<P>>),
    /// A pending block was published.
    Published(Snapshot<P>),
    /// Publications were lost.
    PublicationsLagged,
    /// No more publications will come.
    PublicationsClosed,
    /// The canonical chain changed: blocks were added, or taken back first.
    Committed { reverted: bool, blocks: Vec<Snapshot<P>> },
    /// Notifications of the canonical chain were lost or ended.
    CanonicalLost,
    /// The batch was handed to the client.
    Sent,
    /// The client did not take the batch in time.
    SendTimedOut,
    /// The client is gone.
    SendFailed,
    /// The client closed the subscription.
    ClientClosed,
    /// Outside work failed.
    Failed(Failure<String>),
}

/// What is to be done next.
pub enum Turn<P> {
    /// Read the canonical block after `anchor`. When `required`, there has to be one.
    Recover { anchor: BlockNumHash, required: bool },
    /// Wait for the next signal.
    Wait,
    /// Send the client a batch.
    Send { sequence: u64, events: Seq<Event<Delta<P>>> },
    /// Tell the client that the subscription is over.
    Reset(Reset),
    /// Do nothing more.
    Close,
}

/// The state of one subscription.
#[verifier::ext_equal]
pub struct Session<P> {
    /// The number of the last message that was sent.
    pub sequence: u64,
    pub ledger: Ledger<P>,
    /// Canonical blocks that were announced and not taken up yet.
    pub queue: Seq<Snapshot<P>>,
    /// The height up to which waiting blocks need their parents read.
    pub repair_to: Option<u64>,
    pub canonical_input: Option<Position>,
    /// The pending block as it stood when the subscription began.
    pub first: Option<Snapshot<P>>,
    pub closed: bool,
}

pub open spec fn position_of<P>(snapshot: Snapshot<P>) -> Position {
    Position { number: snapshot.number(), hash: snapshot.hash(), parent: snapshot.parent() }
}

impl<P> Ledger<P> {
    /// The height up to which waiting blocks need their parents read: just below the highest.
    pub open spec fn repair_target(self) -> Option<u64> {
        if self.waiting.dom().is_empty() {
            None
        } else {
            let last = last_key(self.waiting);
            Some(
                if last > 0 {
                    (last - 1) as u64
                } else {
                    0
                },
            )
        }
    }
}

/// Puts announced blocks into the queue, in order, as long as the queue is not full and the
/// announcement, which holds `used` bytes so far, fits the byte budget.
pub open spec fn enqueued<P>(queue: Seq<Snapshot<P>>, blocks: Seq<Snapshot<P>>, used: nat) -> (
    Seq<Snapshot<P>>,
    Result<(), Reason>,
)
    decreases blocks.len(),
{
    if blocks.len() == 0 {
        (queue, Ok(()))
    } else {
        let bytes = used + blocks.first().bytes() as nat;
        if queue.len() >= MAX_RECOVERY_BLOCKS || bytes > MAX_BYTES {
            (queue, Err(Reason::BufferLimit))
        } else {
            enqueued(queue.push(blocks.first()), blocks.drop_first(), bytes)
        }
    }
}

impl<P> Session<P> {
    /// A subscription that starts at `anchor`, with the pending block as it stands.
    pub open spec fn fresh(anchor: BlockNumHash, first: Option<Snapshot<P>>) -> Self {
        Session {
            sequence: 0,
            ledger: Ledger::fresh(anchor),
            queue: Seq::empty(),
            repair_to: None,
            canonical_input: None,
            first,
            closed: false,
        }
    }

    /// What holds of a subscription between signals.
    pub open spec fn inv(self) -> bool {
        self.closed || self.ledger.inv()
    }

    pub open spec fn front(&self) -> Option<&Snapshot<P>> {
        if self.queue.len() > 0 {
            Some(&self.queue[0])
        } else {
            None
        }
    }

    /// Where the subscription stands, for a reset.
    pub open spec fn context(self) -> ResetContext {
        let target = match self.front() {
            Some(snapshot) => if snapshot.number() > 0 {
                Some((snapshot.number() - 1) as u64)
            } else {
                self.repair_to
            },
            None => self.repair_to,
        };
        ResetContext {
            anchor: self.ledger.anchor,
            last_canonical_input: self.canonical_input,
            queued_canonical: match self.front() {
                Some(snapshot) => Some(position_of(*snapshot)),
                None => None,
            },
            repair_target: match target {
                Some(to) => if to > self.ledger.anchor.number {
                    Some(to)
                } else {
                    None
                },
                None => None,
            },
        }
    }

    /// The subscription with the next queued block noted as the last canonical input.
    pub open spec fn noted(self) -> Self {
        match self.front() {
            Some(snapshot) => Session { canonical_input: Some(position_of(*snapshot)), ..self },
            None => self,
        }
    }

    /// The subscription after the feed took an input, and what comes of it: the reason to stop, a
    /// batch to send, or nothing (`None`).
    pub open spec fn took(self, outcome: Outcome<P>) -> (Self, Result<Option<Turn<P>>, Reason>) {
        let next = Session { ledger: outcome.ledger, ..self };
        match outcome.result {
            Err(reason) => (next, Err(reason)),
            Ok(events) => (
                next,
                Ok(
                    if events.len() == 0 {
                        None
                    } else {
                        Some(Turn::Send { sequence: (self.sequence + 1) as u64, events })
                    },
                ),
            ),
        }
    }

    /// Takes a canonical block.
    pub open spec fn took_canonical(self, snapshot: Snapshot<P>) -> (
        Self,
        Result<Option<Turn<P>>, Reason>,
    ) {
        self.took(self.ledger.on_canonical(snapshot))
    }

    /// Takes a pending block, and sees which parents have to be read.
    pub open spec fn took_pending(self, snapshot: Snapshot<P>) -> (
        Self,
        Result<Option<Turn<P>>, Reason>,
    ) {
        let (next, result) = self.took(self.ledger.on_pending(snapshot));
        if result is Ok {
            (Session { repair_to: next.ledger.repair_target(), ..next }, result)
        } else {
            (next, result)
        }
    }

    /// Goes on with what is at hand: a jumped canonical block waits in the queue until its
    /// predecessors were read, then queued blocks are taken, then the first pending block; with
    /// nothing at hand the subscription waits.
    pub open spec fn advance(self) -> (Self, Result<Turn<P>, Reason>)
        decreases
                self.queue.len(),
                if self.first is Some {
                    1int
                } else {
                    0
                },
    {
        let now = self.noted();
        match self.ledger.recovery(self.front(), self.repair_to) {
            Err(reason) => (now, Err(reason)),
            Ok(true) => (
                now,
                Ok(
                    Turn::Recover {
                        anchor: self.ledger.anchor,
                        required: self.queue.len() > 0,
                    },
                ),
            ),
            Ok(false) => if self.queue.len() > 0 {
                let rest = Session { queue: self.queue.drop_first(), ..now };
                let (next, result) = rest.took_canonical(self.queue[0]);
                match result {
                    Err(reason) => (next, Err(reason)),
                    Ok(Some(turn)) => (next, Ok(turn)),
                    Ok(None) => next.advance(),
                }
            } else {
                match self.first {
                    Some(snapshot) => {
                        let rest = Session { first: None, ..now };
                        let (next, result) = rest.took_pending(snapshot);
                        match result {
                            Err(reason) => (next, Err(reason)),
                            Ok(Some(turn)) => (next, Ok(turn)),
                            Ok(None) => next.advance(),
                        }
                    },
                    None => (now, Ok(Turn::Wait)),
                }
            },
        }
    }

    /// The end of a subscription, with a last message.
    pub open spec fn stop(self, reason: Failure<String>) -> (Self, Turn<P>) {
        let sequence = (self.sequence + 1) as u64;
        (
            Session { sequence, closed: true, ..self },
            Turn::Reset(Reset { sequence, reason, context: self.context() }),
        )
    }

    /// Goes on after a signal was dealt with.
    pub open spec fn go_on(self) -> (Self, Turn<P>) {
        let (next, result) = self.advance();
        match result {
            Err(reason) => next.stop(Failure::Rule(reason)),
            Ok(turn) => (next, turn),
        }
    }

    /// Sends what came of an input, or goes on.
    pub open spec fn follow(self, result: Result<Option<Turn<P>>, Reason>) -> (Self, Turn<P>) {
        match result {
            Err(reason) => self.stop(Failure::Rule(reason)),
            Ok(Some(turn)) => (self, turn),
            Ok(None) => self.go_on(),
        }
    }

    /// What a signal makes of the subscription, and what is to be done next.
    pub open spec fn step(self, signal: Signal<P>) -> (Self, Turn<P>) {
        if self.closed {
            (self, Turn::Close)
        } else {
            match signal {
                Signal::Started => self.go_on(),
                Signal::Recovered(Some(snapshot)) => {
                    let (next, result) = (Session {
                        canonical_input: Some(position_of(snapshot)),
                        ..self
                    }).took_canonical(snapshot);
                    next.follow(result)
                },
                // A pending child can precede its canonical parent: wait for a new input. A
                // block below a queued one has to be there.
                Signal::Recovered(None) => if self.queue.len() > 0 {
                    self.stop(Failure::Rule(Reason::CanonicalBlockUnavailable))
                } else {
                    (Session { repair_to: None, ..self }).go_on()
                },
                Signal::Published(snapshot) => {
                    let (next, result) = self.took_pending(snapshot);
                    next.follow(result)
                },
                Signal::PublicationsLagged => self.stop(Failure::Rule(Reason::PublicationGap)),
                Signal::PublicationsClosed => self.stop(
                    Failure::Rule(Reason::PublicationStreamClosed),
                ),
                Signal::Committed { reverted, blocks } => if reverted {
                    self.stop(Failure::Rule(Reason::CanonicalReorg))
                } else {
                    let (queue, result) = enqueued(self.queue, blocks@, 0);
                    let next = Session { queue, ..self };
                    match result {
                        Err(reason) => next.stop(Failure::Rule(reason)),
                        Ok(_) => next.go_on(),
                    }
                },
                Signal::CanonicalLost => self.stop(Failure::Rule(Reason::CanonicalStreamGap)),
                Signal::Sent => (Session { sequence: (self.sequence + 1) as u64, ..self }).go_on(),
                Signal::SendTimedOut => self.stop(Failure::Rule(Reason::ClientTooSlow)),
                Signal::SendFailed => self.stop(Failure::Rule(Reason::ClientDisconnected)),
                Signal::ClientClosed => (Session { closed: true, ..self }, Turn::Close),
                Signal::Failed(reason) => self.stop(reason),
            }
        }
    }
}

/// What holds of a turn for a client that was in step: it can take the batch that is sent and is
/// in step after it; without a batch it is in step as it is.
pub open spec fn turn_keeps_step<P>(client: Client, next: Session<P>, turn: Turn<P>) -> bool {
    match turn {
        Turn::Send { sequence, events } => {
            &&& sequence == next.sequence + 1
            &&& client.replay(events) is Some
            &&& client.replay(events)->0.in_step(next.ledger)
        },
        Turn::Recover { .. } => client.in_step(next.ledger),
        Turn::Wait => client.in_step(next.ledger),
        Turn::Reset(reset) => reset.sequence == next.sequence && next.closed,
        Turn::Close => next.closed,
    }
}

proof fn lemma_took_keeps_step<P>(client: Client, session: Session<P>, outcome: Outcome<P>)
    requires
        session.sequence < u64::MAX,
        outcome.result is Ok ==> {
            &&& client.replay(outcome.result->Ok_0) is Some
            &&& client.replay(outcome.result->Ok_0)->0.in_step(outcome.ledger)
        },
    ensures
        ({
            let (next, result) = session.took(outcome);
            match result {
                Ok(Some(turn)) => turn is Send && turn_keeps_step(client, next, turn),
                Ok(None) => client.in_step(next.ledger),
                Err(_) => true,
            }
        }),
{
}

proof fn lemma_took_canonical<P>(client: Client, session: Session<P>, snapshot: Snapshot<P>)
    requires
        session.ledger.inv(),
        session.sequence < u64::MAX,
        client.in_step(session.ledger),
    ensures
        ({
            let (next, result) = session.took_canonical(snapshot);
            &&& result is Ok ==> next.ledger.inv()
            &&& match result {
                Ok(Some(turn)) => turn is Send && turn_keeps_step(client, next, turn),
                Ok(None) => client.in_step(next.ledger),
                Err(_) => true,
            }
        }),
{
    let outcome = session.ledger.on_canonical(snapshot);
    if outcome.result is Ok {
        canonical_keeps_step(client, session.ledger, snapshot);
        lemma_canonical_keeps_inv(session.ledger, snapshot);
    }
    lemma_took_keeps_step(client, session, outcome);
}

proof fn lemma_took_pending<P>(client: Client, session: Session<P>, snapshot: Snapshot<P>)
    requires
        session.ledger.inv(),
        session.sequence < u64::MAX,
        client.in_step(session.ledger),
    ensures
        ({
            let (next, result) = session.took_pending(snapshot);
            &&& result is Ok ==> next.ledger.inv()
            &&& match result {
                Ok(Some(turn)) => turn is Send && turn_keeps_step(client, next, turn),
                Ok(None) => client.in_step(next.ledger),
                Err(_) => true,
            }
        }),
{
    let outcome = session.ledger.on_pending(snapshot);
    if outcome.result is Ok {
        pending_keeps_step(client, session.ledger, snapshot);
        lemma_pending_keeps_inv(session.ledger, snapshot);
    }
    lemma_took_keeps_step(client, session, outcome);
}

proof fn lemma_advance_keeps_step<P>(client: Client, session: Session<P>)
    requires
        session.ledger.inv(),
        session.sequence < u64::MAX,
        client.in_step(session.ledger),
    ensures
        ({
            let (next, result) = session.advance();
            &&& next.sequence == session.sequence
            &&& next.closed == session.closed
            &&& result matches Ok(turn) ==> next.ledger.inv() && turn_keeps_step(
                client,
                next,
                turn,
            ) && (turn is Send || turn is Wait || turn is Recover)
        }),
    decreases
            session.queue.len(),
            if session.first is Some {
                1int
            } else {
                0
            },
{
    let now = session.noted();
    if session.ledger.recovery(session.front(), session.repair_to) == Ok::<bool, Reason>(false) {
        if session.queue.len() > 0 {
            let rest = Session { queue: session.queue.drop_first(), ..now };
            lemma_took_canonical(client, rest, session.queue[0]);
            let (next, result) = rest.took_canonical(session.queue[0]);
            if result == Ok::<Option<Turn<P>>, Reason>(None) {
                lemma_advance_keeps_step(client, next);
            }
        } else if let Some(snapshot) = session.first {
            let rest = Session { first: None, ..now };
            lemma_took_pending(client, rest, snapshot);
            let (next, result) = rest.took_pending(snapshot);
            if result == Ok::<Option<Turn<P>>, Reason>(None) {
                lemma_advance_keeps_step(client, next);
            }
        }
    }
}

/// What a step comes to for a client that was in step, when `count` messages were sent before.
pub open spec fn step_is_sound<P>(
    client: Client,
    count: int,
    after: (Session<P>, Turn<P>),
) -> bool {
    let (next, turn) = after;
    &&& next.inv()
    &&& turn_keeps_step(client, next, turn)
    &&& next.closed == (turn is Reset || turn is Close)
    &&& next.sequence == count + (if turn is Reset {
        1int
    } else {
        0
    })
}

proof fn lemma_go_on_sound<P>(client: Client, session: Session<P>)
    requires
        session.ledger.inv(),
        !session.closed,
        session.sequence < u64::MAX,
        client.in_step(session.ledger),
    ensures
        step_is_sound(client, session.sequence as int, session.go_on()),
{
    lemma_advance_keeps_step(client, session);
}

proof fn lemma_follow_sound<P>(
    client: Client,
    session: Session<P>,
    result: Result<Option<Turn<P>>, Reason>,
)
    requires
        !session.closed,
        session.sequence < u64::MAX,
        result is Ok ==> session.ledger.inv(),
        match result {
            Ok(Some(turn)) => turn is Send && turn_keeps_step(client, session, turn),
            Ok(None) => client.in_step(session.ledger),
            Err(_) => true,
        },
    ensures
        step_is_sound(client, session.sequence as int, session.follow(result)),
{
    if result == Ok::<Option<Turn<P>>, Reason>(None) {
        lemma_go_on_sound(client, session);
    }
}

/// **A subscription keeps its client in step.** Whatever happens outside, a client in step with the
/// feed can take the next batch in the order given and is in step after it. Batches and resets are
/// numbered one by one, and a reset closes the subscription.
pub proof fn step_keeps_step<P>(client: Client, session: Session<P>, signal: Signal<P>)
    requires
        session.inv(),
        !session.closed,
        session.sequence < u64::MAX - 1,
        client.in_step(session.ledger),
    ensures
        step_is_sound(
            client,
            session.sequence + (if signal is Sent {
                1int
            } else {
                0
            }),
            session.step(signal),
        ),
{
    match signal {
        Signal::Started => {
            lemma_go_on_sound(client, session);
        },
        Signal::Recovered(Some(snapshot)) => {
            let at = Session { canonical_input: Some(position_of(snapshot)), ..session };
            lemma_took_canonical(client, at, snapshot);
            let (next, result) = at.took_canonical(snapshot);
            lemma_follow_sound(client, next, result);
        },
        Signal::Recovered(None) => {
            lemma_go_on_sound(client, Session { repair_to: None, ..session });
        },
        Signal::Published(snapshot) => {
            lemma_took_pending(client, session, snapshot);
            let (next, result) = session.took_pending(snapshot);
            lemma_follow_sound(client, next, result);
        },
        Signal::Committed { reverted, blocks } => {
            let (queue, _) = enqueued(session.queue, blocks@, 0);
            lemma_go_on_sound(client, Session { queue, ..session });
        },
        Signal::Sent => {
            lemma_go_on_sound(
                client,
                Session { sequence: (session.sequence + 1) as u64, ..session },
            );
        },
        _ => {},
    }
}

/// **A reset is terminal.** Once a subscription is closed, every signal is answered with nothing to
/// do, and nothing changes.
pub proof fn closed_stays_closed<P>(session: Session<P>, signal: Signal<P>)
    requires
        session.closed,
    ensures
        session.step(signal) == (session, Turn::<P>::Close),
{
}

/// Whether the next message is numbered one above the `count` messages before it.
pub open spec fn is_numbered<P>(count: int, after: (Session<P>, Turn<P>)) -> bool {
    let (next, turn) = after;
    match turn {
        Turn::Send { sequence, events } => sequence == count + 1 && next.sequence == count,
        Turn::Reset(reset) => reset.sequence == count + 1 && next.sequence == count + 1,
        _ => next.sequence == count,
    }
}

proof fn lemma_advance_is_numbered<P>(session: Session<P>)
    requires
        session.sequence < u64::MAX,
    ensures
        session.advance().0.sequence == session.sequence,
        session.advance().0.closed == session.closed,
        session.advance().1 matches Ok(turn) ==> !(turn is Reset) && !(turn is Close)
            && is_numbered(session.sequence as int, (session.advance().0, turn)),
    decreases
            session.queue.len(),
            if session.first is Some {
                1int
            } else {
                0
            },
{
    let now = session.noted();
    if session.ledger.recovery(session.front(), session.repair_to) == Ok::<bool, Reason>(false) {
        if session.queue.len() > 0 {
            let rest = Session { queue: session.queue.drop_first(), ..now };
            lemma_advance_is_numbered(rest.took_canonical(session.queue[0]).0);
        } else if let Some(snapshot) = session.first {
            lemma_advance_is_numbered((Session { first: None, ..now }).took_pending(snapshot).0);
        }
    }
}

/// **Messages are numbered one by one.** The first message is 0. A message that was handed to the
/// client counts once that is known, and every batch and every reset has the number after the last
/// message that counts. A reset closes the subscription, and so does a client that leaves.
pub proof fn messages_are_numbered<P>(session: Session<P>, signal: Signal<P>)
    requires
        !session.closed,
        session.sequence < u64::MAX - 1,
    ensures
        is_numbered(
            session.sequence + (if signal is Sent {
                1int
            } else {
                0
            }),
            session.step(signal),
        ),
        session.step(signal).0.closed == (session.step(signal).1 is Reset || session.step(
            signal,
        ).1 is Close),
{
    match signal {
        Signal::Started => {
            lemma_advance_is_numbered(session);
        },
        Signal::Recovered(Some(snapshot)) => {
            let at = Session { canonical_input: Some(position_of(snapshot)), ..session };
            lemma_advance_is_numbered(at.took_canonical(snapshot).0);
        },
        Signal::Recovered(None) => {
            lemma_advance_is_numbered(Session { repair_to: None, ..session });
        },
        Signal::Published(snapshot) => {
            lemma_advance_is_numbered(session.took_pending(snapshot).0);
        },
        Signal::Committed { reverted, blocks } => {
            let (queue, _) = enqueued(session.queue, blocks@, 0);
            lemma_advance_is_numbered(Session { queue, ..session });
        },
        Signal::Sent => {
            lemma_advance_is_numbered(
                Session { sequence: (session.sequence + 1) as u64, ..session },
            );
        },
        _ => {},
    }
}

/// Whether a subscription does what is at hand: it reads back only what is missing and no more than
/// it may, one block after the anchor at a time, and waits only when nothing is left to do.
pub open spec fn turn_is_due<P>(after: (Session<P>, Turn<P>)) -> bool {
    let (next, turn) = after;
    match turn {
        Turn::Recover { anchor, required } => {
            let target = next.ledger.recovery_target(next.front(), next.repair_to);
            &&& anchor == next.ledger.anchor
            &&& required == (next.queue.len() > 0)
            &&& 0 < target - anchor.number <= MAX_RECOVERY_BLOCKS
        },
        Turn::Wait => {
            &&& next.queue.len() == 0
            &&& next.first is None
            &&& next.ledger.recovery(None, next.repair_to) == Ok::<bool, Reason>(false)
        },
        Turn::Send { sequence, events } => events.len() > 0,
        _ => true,
    }
}

proof fn lemma_advance_is_due<P>(session: Session<P>)
    ensures
        session.advance().1 matches Ok(turn) ==> turn_is_due((session.advance().0, turn)),
    decreases
            session.queue.len(),
            if session.first is Some {
                1int
            } else {
                0
            },
{
    let now = session.noted();
    if session.ledger.recovery(session.front(), session.repair_to) == Ok::<bool, Reason>(false) {
        if session.queue.len() > 0 {
            let rest = Session { queue: session.queue.drop_first(), ..now };
            lemma_advance_is_due(rest.took_canonical(session.queue[0]).0);
        } else if let Some(snapshot) = session.first {
            lemma_advance_is_due((Session { first: None, ..now }).took_pending(snapshot).0);
        }
    }
}

/// **Only what is due is asked for.** Recovery reads the block after the anchor, while blocks below
/// the next input are missing and no more than may be read back; the subscription waits only when
/// its queue is empty and nothing is missing; no empty batch is sent.
pub proof fn turns_are_due<P>(session: Session<P>, signal: Signal<P>)
    ensures
        turn_is_due(session.step(signal)),
{
    match signal {
        Signal::Started => {
            lemma_advance_is_due(session);
        },
        Signal::Recovered(Some(snapshot)) => {
            let at = Session { canonical_input: Some(position_of(snapshot)), ..session };
            lemma_advance_is_due(at.took_canonical(snapshot).0);
        },
        Signal::Recovered(None) => {
            lemma_advance_is_due(Session { repair_to: None, ..session });
        },
        Signal::Published(snapshot) => {
            lemma_advance_is_due(session.took_pending(snapshot).0);
        },
        Signal::Committed { reverted, blocks } => {
            let (queue, _) = enqueued(session.queue, blocks@, 0);
            lemma_advance_is_due(Session { queue, ..session });
        },
        Signal::Sent => {
            lemma_advance_is_due(Session { sequence: (session.sequence + 1) as u64, ..session });
        },
        _ => {},
    }
}

impl<P> Session<P> {
    /// Whether the subscription means to read the parents of every block that waits.
    pub open spec fn seeks_parents(self) -> bool {
        forall|k: u64| #[trigger]
            self.ledger.waiting.contains_key(k) ==> self.repair_to is Some && k <= self.repair_to->0
                + 1
    }
}

/// Releasing waiting blocks sets no other block to wait.
proof fn lemma_drained_waiting<P>(ledger: Ledger<P>)
    ensures
        forall|k: u64| #[trigger]
            ledger.drained().ledger.waiting.contains_key(k) ==> ledger.waiting.contains_key(k),
    decreases ledger.waiting.dom().len(),
{
    if ledger.release() is From {
        lemma_has_first(ledger.waiting);
        lemma_drained_waiting(ledger.advanced());
        assert forall|k: u64| #[trigger]
            ledger.drained().ledger.waiting.contains_key(k) implies ledger.waiting.contains_key(
            k,
        ) by {
            assert(ledger.advanced().waiting.contains_key(k));
        }
    }
}

proof fn lemma_canonical_seeks<P>(session: Session<P>, snapshot: Snapshot<P>)
    requires
        session.ledger.inv(),
        session.seeks_parents(),
        session.took_canonical(snapshot).1 is Ok,
    ensures
        session.took_canonical(snapshot).0.ledger.inv(),
        session.took_canonical(snapshot).0.seeks_parents(),
{
    let ledger = session.ledger;
    lemma_canonical_keeps_inv(ledger, snapshot);
    lemma_drained_waiting(ledger.anchored(snapshot));
    assert forall|k: u64| #[trigger]
        ledger.on_canonical(snapshot).ledger.waiting.contains_key(
            k,
        ) implies ledger.waiting.contains_key(k) by {
        if ledger.anchored(snapshot).drained().ledger.waiting.contains_key(k) {
            assert(ledger.anchored(snapshot).waiting.contains_key(k));
        }
    }
}

proof fn lemma_pending_seeks<P>(session: Session<P>, snapshot: Snapshot<P>)
    requires
        session.ledger.inv(),
        session.took_pending(snapshot).1 is Ok,
    ensures
        session.took_pending(snapshot).0.ledger.inv(),
        session.took_pending(snapshot).0.seeks_parents(),
{
    lemma_pending_keeps_inv(session.ledger, snapshot);
    let next = session.took_pending(snapshot).0;
    if !next.ledger.waiting.dom().is_empty() {
        lemma_has_last(next.ledger.waiting);
    }
}

proof fn lemma_advance_seeks<P>(session: Session<P>)
    requires
        session.ledger.inv(),
        session.seeks_parents(),
    ensures
        session.advance().1 matches Ok(turn) ==> {
            let next = session.advance().0;
            &&& next.seeks_parents()
            &&& turn is Wait ==> next.ledger.waiting.dom().is_empty()
        },
    decreases
            session.queue.len(),
            if session.first is Some {
                1int
            } else {
                0
            },
{
    let now = session.noted();
    if session.ledger.recovery(session.front(), session.repair_to) == Ok::<bool, Reason>(false) {
        if session.queue.len() > 0 {
            let rest = Session { queue: session.queue.drop_first(), ..now };
            let (next, result) = rest.took_canonical(session.queue[0]);
            if result is Ok {
                lemma_canonical_seeks(rest, session.queue[0]);
                lemma_advance_seeks(next);
            }
        } else if let Some(snapshot) = session.first {
            let rest = Session { first: None, ..now };
            let (next, result) = rest.took_pending(snapshot);
            if result is Ok {
                lemma_pending_seeks(rest, snapshot);
                lemma_advance_seeks(next);
            }
        } else {
            lemma_nothing_waits(session);
        }
    }
}

/// A block that waits although nothing is missing above the anchor would have been released.
proof fn lemma_nothing_waits<P>(session: Session<P>)
    requires
        session.ledger.inv(),
        session.seeks_parents(),
        session.ledger.recovery(None, session.repair_to) == Ok::<bool, Reason>(false),
    ensures
        session.ledger.waiting.dom().is_empty(),
{
    let ledger = session.ledger;
    if !ledger.waiting.dom().is_empty() {
        lemma_has_first(ledger.waiting);
        if !ledger.emitted.dom().is_empty() {
            lemma_has_last(ledger.emitted);
        }
        assert(ledger.waiting.contains_key(first_key(ledger.waiting)));
    }
}

/// **Parents are read without waiting for their notification.** Once a block was published, the
/// subscription waits for the next signal only when no block is held back: it has read the missing
/// parents, or was told that one cannot be read yet.
pub proof fn missing_parents_are_read<P>(session: Session<P>, signal: Signal<P>)
    requires
        session.inv(),
        !session.closed,
        session.seeks_parents() || signal is Published,
        signal != Signal::<P>::Recovered(None),
    ensures
        ({
            let (next, turn) = session.step(signal);
            &&& !next.closed ==> next.seeks_parents()
            &&& turn is Wait ==> next.ledger.waiting.dom().is_empty()
        }),
{
    match signal {
        Signal::Started => {
            lemma_advance_seeks(session);
        },
        Signal::Recovered(Some(snapshot)) => {
            let at = Session { canonical_input: Some(position_of(snapshot)), ..session };
            if at.took_canonical(snapshot).1 is Ok {
                lemma_canonical_seeks(at, snapshot);
                lemma_advance_seeks(at.took_canonical(snapshot).0);
            }
        },
        Signal::Published(snapshot) => {
            if session.took_pending(snapshot).1 is Ok {
                lemma_pending_seeks(session, snapshot);
                lemma_advance_seeks(session.took_pending(snapshot).0);
            }
        },
        Signal::Committed { reverted, blocks } => {
            let (queue, _) = enqueued(session.queue, blocks@, 0);
            lemma_advance_seeks(Session { queue, ..session });
        },
        Signal::Sent => {
            lemma_advance_seeks(Session { sequence: (session.sequence + 1) as u64, ..session });
        },
        _ => {},
    }
}

proof fn lemma_enqueued_bounded<P>(queue: Seq<Snapshot<P>>, blocks: Seq<Snapshot<P>>, used: nat)
    requires
        queue.len() <= MAX_RECOVERY_BLOCKS,
    ensures
        enqueued(queue, blocks, used).0.len() <= MAX_RECOVERY_BLOCKS,
    decreases blocks.len(),
{
    let bytes = used + blocks.first().bytes() as nat;
    if blocks.len() > 0 && queue.len() < MAX_RECOVERY_BLOCKS && bytes <= MAX_BYTES {
        lemma_enqueued_bounded(queue.push(blocks.first()), blocks.drop_first(), bytes);
    }
}

proof fn lemma_advance_shrinks_queue<P>(session: Session<P>)
    ensures
        session.advance().0.queue.len() <= session.queue.len(),
    decreases
            session.queue.len(),
            if session.first is Some {
                1int
            } else {
                0
            },
{
    let now = session.noted();
    if session.ledger.recovery(session.front(), session.repair_to) == Ok::<bool, Reason>(false) {
        if session.queue.len() > 0 {
            let rest = Session { queue: session.queue.drop_first(), ..now };
            lemma_advance_shrinks_queue(rest.took_canonical(session.queue[0]).0);
        } else if let Some(snapshot) = session.first {
            lemma_advance_shrinks_queue((Session { first: None, ..now }).took_pending(snapshot).0);
        }
    }
}

/// **The queue is bounded.** However many canonical blocks are announced, no more of them are kept
/// than may be read back.
pub proof fn queue_is_bounded<P>(session: Session<P>, signal: Signal<P>)
    requires
        session.queue.len() <= MAX_RECOVERY_BLOCKS,
    ensures
        session.step(signal).0.queue.len() <= MAX_RECOVERY_BLOCKS,
{
    match signal {
        Signal::Started => {
            lemma_advance_shrinks_queue(session);
        },
        Signal::Recovered(Some(snapshot)) => {
            let at = Session { canonical_input: Some(position_of(snapshot)), ..session };
            lemma_advance_shrinks_queue(at.took_canonical(snapshot).0);
        },
        Signal::Recovered(None) => {
            lemma_advance_shrinks_queue(Session { repair_to: None, ..session });
        },
        Signal::Published(snapshot) => {
            lemma_advance_shrinks_queue(session.took_pending(snapshot).0);
        },
        Signal::Committed { reverted, blocks } => {
            lemma_enqueued_bounded(session.queue, blocks@, 0);
            let (queue, _) = enqueued(session.queue, blocks@, 0);
            lemma_advance_shrinks_queue(Session { queue, ..session });
        },
        Signal::Sent => {
            lemma_advance_shrinks_queue(
                Session { sequence: (session.sequence + 1) as u64, ..session },
            );
        },
        _ => {},
    }
}

impl<P> Session<P> {
    /// The subscription after a series of signals, and all the events that it sent on the way.
    pub open spec fn run(self, signals: Seq<Signal<P>>) -> (Self, Seq<Event<Delta<P>>>)
        decreases signals.len(),
    {
        if signals.len() == 0 {
            (self, Seq::empty())
        } else {
            let (next, turn) = self.step(signals.first());
            let sent = match turn {
                Turn::Send { sequence, events } => events,
                _ => Seq::empty(),
            };
            let (last, rest) = next.run(signals.drop_first());
            (last, sent + rest)
        }
    }
}

proof fn lemma_closed_run<P>(session: Session<P>, signals: Seq<Signal<P>>)
    requires
        session.closed,
    ensures
        session.run(signals) == (session, Seq::<Event<Delta<P>>>::empty()),
    decreases signals.len(),
{
    if signals.len() > 0 {
        lemma_closed_run(session, signals.drop_first());
        assert(Seq::<Event<Delta<P>>>::empty() + Seq::<Event<Delta<P>>>::empty() =~= Seq::empty());
    }
}

proof fn lemma_run_keeps_step<P>(client: Client, session: Session<P>, signals: Seq<Signal<P>>)
    requires
        session.inv(),
        !session.closed,
        client.in_step(session.ledger),
        session.sequence + signals.len() < u64::MAX,
    ensures
        ({
            let (last, events) = session.run(signals);
            &&& last.inv()
            &&& client.replay(events) is Some
            &&& !last.closed ==> client.replay(events)->0.in_step(last.ledger)
        }),
    decreases signals.len(),
{
    if signals.len() > 0 {
        let (next, turn) = session.step(signals.first());
        step_keeps_step(client, session, signals.first());
        let rest = next.run(signals.drop_first()).1;
        let sent = match turn {
            Turn::Send { sequence, events } => events,
            _ => Seq::empty(),
        };
        lemma_replay_concat(client, sent, rest);
        if next.closed {
            lemma_closed_run(next, signals.drop_first());
        } else {
            lemma_run_keeps_step(client.replay(sent)->0, next, signals.drop_first());
        }
    }
}

/// **The subscription is one continuous stream.** Whatever happens outside, a client that loads the
/// state of the anchor can take every event that is sent, in order; while the subscription is open
/// it then holds exactly what was delivered.
pub proof fn subscription_is_continuous<P>(
    anchor: BlockNumHash,
    first: Option<Snapshot<P>>,
    signals: Seq<Signal<P>>,
)
    requires
        signals.len() < u64::MAX,
    ensures
        ({
            let (last, events) = Session::fresh(anchor, first).run(signals);
            let client = Client::at(anchor).replay(events);
            &&& client is Some
            &&& !last.closed ==> client->0.in_step(last.ledger)
        }),
{
    lemma_fresh_inv::<P>(anchor);
    lemma_run_keeps_step(Client::at(anchor), Session::fresh(anchor, first), signals);
}

/// A message that reached the client.
pub enum Notice<P> {
    /// Where the feed starts.
    Ready { sequence: u64, anchor: BlockNumHash },
    /// Events.
    Batch { sequence: u64, events: Seq<Event<Delta<P>>> },
    /// The end.
    Reset(Reset),
}

impl<P> Notice<P> {
    /// The number of the message.
    pub open spec fn sequence(self) -> u64 {
        match self {
            Notice::Ready { sequence, anchor } => sequence,
            Notice::Batch { sequence, events } => sequence,
            Notice::Reset(reset) => reset.sequence,
        }
    }
}

/// The message that a turn sends for good: a reset, which nothing follows.
pub open spec fn last_notice<P>(turn: Turn<P>) -> Seq<Notice<P>> {
    match turn {
        Turn::Reset(reset) => seq![Notice::Reset(reset)],
        _ => Seq::empty(),
    }
}

/// The batch that is known to have reached the client when `signal` comes after `turn`.
pub open spec fn batch_notice<P>(turn: Turn<P>, signal: Signal<P>) -> Seq<Notice<P>> {
    match (turn, signal) {
        (Turn::Send { sequence, events }, Signal::Sent) => seq![Notice::Batch { sequence, events }],
        _ => Seq::empty(),
    }
}

impl<P> Session<P> {
    /// The messages that reach the client from here on, when `turn` was the last thing to do and
    /// `signals` are what happens.
    pub open spec fn notices(self, turn: Turn<P>, signals: Seq<Signal<P>>) -> Seq<Notice<P>>
        decreases signals.len(),
    {
        if signals.len() == 0 {
            Seq::empty()
        } else {
            let signal = signals.first();
            let (next, next_turn) = self.step(signal);
            batch_notice(turn, signal) + last_notice(next_turn) + next.notices(
                next_turn,
                signals.drop_first(),
            )
        }
    }

    /// Whether a batch is only reported as sent right after it was to be sent.
    pub open spec fn reports_truly(self, turn: Turn<P>, signals: Seq<Signal<P>>) -> bool
        decreases signals.len(),
    {
        signals.len() > 0 ==> {
            let (next, next_turn) = self.step(signals.first());
            &&& signals.first() is Sent ==> turn is Send
            &&& next.reports_truly(next_turn, signals.drop_first())
        }
    }
}

/// The messages of a subscription that starts at `anchor`: it begins once the client was told so.
pub open spec fn all_notices<P>(
    anchor: BlockNumHash,
    first: Option<Snapshot<P>>,
    signals: Seq<Signal<P>>,
) -> Seq<Notice<P>> {
    let (session, turn) = Session::fresh(anchor, first).step(Signal::Started);
    seq![Notice::Ready { sequence: 0, anchor }] + last_notice(turn) + session.notices(turn, signals)
}

/// Whether the messages from number `from` on are as they should be: numbered one by one, batches
/// with something in them, and a reset only at the end.
pub open spec fn well_numbered<P>(notices: Seq<Notice<P>>, from: int) -> bool {
    forall|k: int|
        0 <= k < notices.len() ==> {
            &&& (#[trigger] notices[k]).sequence() == from + k
            &&& notices[k] !is Ready
            &&& notices[k] matches Notice::Batch { sequence, events } ==> events.len() > 0
            &&& notices[k] is Reset ==> k == notices.len() - 1
        }
}

proof fn lemma_closed_is_silent<P>(session: Session<P>, turn: Turn<P>, signals: Seq<Signal<P>>)
    requires
        session.closed,
        turn !is Send,
    ensures
        session.notices(turn, signals) == Seq::<Notice<P>>::empty(),
    decreases signals.len(),
{
    if signals.len() > 0 {
        lemma_closed_is_silent(session, Turn::Close, signals.drop_first());
        assert(session.notices(turn, signals) =~= Seq::empty());
    }
}

proof fn lemma_notices_well_numbered<P>(
    session: Session<P>,
    turn: Turn<P>,
    signals: Seq<Signal<P>>,
)
    requires
        !session.closed,
        turn_is_due((session, turn)),
        turn matches Turn::Send { sequence, events } ==> sequence == session.sequence + 1,
        session.reports_truly(turn, signals),
        session.sequence + signals.len() < u64::MAX - 1,
    ensures
        well_numbered(session.notices(turn, signals), session.sequence + 1),
    decreases signals.len(),
{
    if signals.len() > 0 {
        let signal = signals.first();
        let rest = signals.drop_first();
        let (next, next_turn) = session.step(signal);
        messages_are_numbered(session, signal);
        turns_are_due(session, signal);
        let now = batch_notice(turn, signal);
        let last = last_notice(next_turn);
        let later = next.notices(next_turn, rest);
        let all = session.notices(turn, signals);
        assert(all == now + last + later);
        if next.closed {
            lemma_closed_is_silent(next, next_turn, rest);
            assert(all =~= now + last);
        } else {
            lemma_notices_well_numbered(next, next_turn, rest);
            assert(all =~= now + later);
            assert forall|k: int| 0 <= k < all.len() implies {
                &&& (#[trigger] all[k]).sequence() == session.sequence + 1 + k
                &&& all[k] !is Ready
                &&& all[k] matches Notice::Batch { sequence, events } ==> events.len() > 0
                &&& all[k] is Reset ==> k == all.len() - 1
            } by {
                if k < now.len() {
                    assert(all[k] == now[k]);
                } else {
                    assert(all[k] == later[k - now.len()]);
                }
            }
        }
    }
}

/// **The messages of a subscription are numbered from 0.** Whatever happens outside, the first
/// message says where the feed starts; the message at every place has that place as its number; all
/// others are batches, none of them empty, and at most one reset, which is the last message.
pub proof fn notices_are_numbered<P>(
    anchor: BlockNumHash,
    first: Option<Snapshot<P>>,
    signals: Seq<Signal<P>>,
)
    requires
        signals.len() < u64::MAX - 1,
        ({
            let (session, turn) = Session::fresh(anchor, first).step(Signal::Started);
            session.reports_truly(turn, signals)
        }),
    ensures
        ({
            let notices = all_notices(anchor, first, signals);
            &&& notices.len() > 0
            &&& notices[0] == Notice::<P>::Ready { sequence: 0, anchor }
            &&& forall|k: int|
                0 <= k < notices.len() ==> (#[trigger] notices[k]).sequence() == k
            &&& well_numbered(notices.drop_first(), 1)
        }),
{
    let fresh = Session::fresh(anchor, first);
    let (session, turn) = fresh.step(Signal::Started);
    let notices = all_notices(anchor, first, signals);
    messages_are_numbered(fresh, Signal::Started);
    turns_are_due(fresh, Signal::Started);
    if session.closed {
        lemma_closed_is_silent(session, turn, signals);
        assert(notices.drop_first() =~= last_notice(turn));
    } else {
        lemma_notices_well_numbered(session, turn, signals);
        assert(notices.drop_first() =~= session.notices(turn, signals));
    }
    assert forall|k: int| 0 <= k < notices.len() implies (#[trigger] notices[k]).sequence()
        == k by {
        if k > 0 {
            assert(notices[k] == notices.drop_first()[k - 1]);
        }
    }
}

} // verus!
