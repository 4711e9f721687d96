//! Reading back canonical blocks whose notification was missed.

use crate::primitives::{BlockNumHash, B256};
use crate::reason::Reason;
use crate::snapshot::Snapshot;
use vstd::prelude::*;

verus! {

/// Why an operation failed: a rule was broken, or the outside work that it asked for failed.
#[derive(Debug)]
pub enum Failure<E> {
    Rule(Reason),
    Outside(E),
}

/// What the first read says: the height to read next.
pub open spec fn next_height(anchor: BlockNumHash, found: Option<B256>) -> Result<u64, Reason> {
    match found {
        None => Err(Reason::CanonicalAnchorUnavailable),
        Some(hash) => if hash != anchor.hash {
            Err(Reason::CanonicalAnchorChanged)
        } else if anchor.number == u64::MAX {
            Err(Reason::CanonicalHeightOverflow)
        } else {
            Ok((anchor.number + 1) as u64)
        },
    }
}

/// Checks that the anchor is still canonical, and gives the height above it.
pub fn check_anchor(anchor: BlockNumHash, found: Option<B256>) -> (result: Result<u64, Reason>)
    ensures
        result == next_height(anchor, found),
{
    let hash = match found {
        Some(hash) => hash,
        None => {
            return Err(Reason::CanonicalAnchorUnavailable);
        },
    };
    if hash != anchor.hash {
        return Err(Reason::CanonicalAnchorChanged);
    }
    match anchor.number.checked_add(1) {
        Some(number) => Ok(number),
        None => Err(Reason::CanonicalHeightOverflow),
    }
}

/// Whether a snapshot is the block of the given hash on top of the anchor.
pub open spec fn is_successor<P>(anchor: BlockNumHash, hash: B256, snapshot: Snapshot<P>) -> bool {
    &&& snapshot.number() == anchor.number + 1
    &&& snapshot.hash() == hash
    &&& snapshot.parent() == anchor.hash
}

/// Checks that a block which was read is on top of the anchor.
pub fn check_successor<P>(anchor: BlockNumHash, hash: B256, snapshot: &Snapshot<P>) -> (result:
    Result<(), Reason>)
    requires
        anchor.number < u64::MAX,
    ensures
        result == if is_successor(anchor, hash, *snapshot) {
            Ok::<(), Reason>(())
        } else {
            Err(Reason::CanonicalParentMismatch)
        },
{
    if snapshot.number() != anchor.number + 1 || snapshot.hash() != hash || snapshot.parent()
        != anchor.hash {
        return Err(Reason::CanonicalParentMismatch);
    }
    Ok(())
}

/// Whether a recovery step is worth making. A block below a queued one has to be there; without
/// one, pending publications may precede the execution of their parent, and the newest canonical
/// block tells whether anything lies above the anchor.
pub fn is_worth_reading(anchor: BlockNumHash, required: bool, head: Option<u64>) -> (worth: bool)
    ensures
        worth == (required || (head is Some && head->0 > anchor.number)),
{
    required || match head {
        Some(number) => number > anchor.number,
        None => false,
    }
}

/// What a recovery step asks for next, or what it has come to.
#[derive(Debug)]
pub enum Ask<P> {
    /// The canonical hash at a height, if there is one.
    Hash(u64),
    /// The block of a hash with its receipts.
    Block(B256),
    /// Nothing more: the block after the anchor, or none, or the rule that was broken.
    Done(Result<Option<Snapshot<P>>, Reason>),
}

/// How far a recovery step has come.
#[derive(Debug)]
pub enum Stage<P> {
    /// It awaits the hash at the height of the anchor.
    Anchor,
    /// It awaits the hash one above the anchor.
    Successor,
    /// It awaits the block of this hash.
    Block(B256),
    /// It has the block, and awaits the hash at the height of the anchor a second time.
    AnchorAgain(B256, Snapshot<P>),
    /// It has the block, and awaits the hash one above the anchor a second time.
    SuccessorAgain(B256, Snapshot<P>),
    /// It awaits nothing more.
    Over,
}

/// One recovery step: the search for the canonical block after the anchor. It reads nothing itself;
/// it says what to read, and is told what was found.
///
/// Hash-based reads keep a block and its receipts together. Whether the anchor and the block are
/// canonical is asked again after the block was read, in case the chain changed branches meanwhile.
#[derive(Debug)]
pub struct Recovery<P> {
    pub anchor: BlockNumHash,
    pub stage: Stage<P>,
}

impl<P> Recovery<P> {
    /// Whether a hash is awaited. Past the first one, there is a height above the anchor.
    pub open spec fn awaits_hash(self) -> bool {
        match self.stage {
            Stage::Anchor => true,
            Stage::Successor => self.anchor.number < u64::MAX,
            Stage::AnchorAgain(..) => self.anchor.number < u64::MAX,
            Stage::SuccessorAgain(..) => self.anchor.number < u64::MAX,
            _ => false,
        }
    }

    /// The end of a recovery step.
    pub open spec fn over(self, result: Result<Option<Snapshot<P>>, Reason>) -> (Self, Ask<P>) {
        (Recovery { stage: Stage::Over, ..self }, Ask::Done(result))
    }

    /// What the canonical hash that was found makes of the step, and what is asked for next.
    pub open spec fn after_hash(self, found: Option<B256>) -> (Self, Ask<P>) {
        match self.stage {
            Stage::Anchor => match next_height(self.anchor, found) {
                Err(reason) => self.over(Err(reason)),
                Ok(number) => (Recovery { stage: Stage::Successor, ..self }, Ask::Hash(number)),
            },
            Stage::Successor => match found {
                None => self.over(Ok(None)),
                Some(hash) => (
                    Recovery { stage: Stage::Block(hash), ..self },
                    Ask::Block(hash),
                ),
            },
            Stage::AnchorAgain(hash, snapshot) => if found != Some(self.anchor.hash) {
                self.over(Err(Reason::CanonicalAnchorChanged))
            } else {
                (
                    Recovery { stage: Stage::SuccessorAgain(hash, snapshot), ..self },
                    Ask::Hash((self.anchor.number + 1) as u64),
                )
            },
            Stage::SuccessorAgain(hash, snapshot) => if found != Some(hash) {
                self.over(Err(Reason::CanonicalSuccessorChanged))
            } else if !is_successor(self.anchor, hash, snapshot) {
                self.over(Err(Reason::CanonicalParentMismatch))
            } else {
                self.over(Ok(Some(snapshot)))
            },
            Stage::Block(hash) => (self, Ask::Block(hash)),
            Stage::Over => (self, Ask::Done(Ok(None))),
        }
    }

    /// What the block that was read makes of the step, and what is asked for next.
    pub open spec fn after_block(self, snapshot: Snapshot<P>) -> (Self, Ask<P>) {
        (
            Recovery { stage: Stage::AnchorAgain(self.stage->Block_0, snapshot), ..self },
            Ask::Hash(self.anchor.number),
        )
    }

    /// Starts the search for the canonical block after the anchor.
    pub fn start(anchor: BlockNumHash) -> (next: (Self, Ask<P>))
        ensures
            next.0.anchor == anchor,
            next.0.stage is Anchor,
            next.1 == Ask::<P>::Hash(anchor.number),
    {
        (Recovery { anchor, stage: Stage::Anchor }, Ask::Hash(anchor.number))
    }

    /// Takes the canonical hash that was asked for.
    pub fn on_hash(self, found: Option<B256>) -> (next: (Self, Ask<P>))
        requires
            self.awaits_hash(),
        ensures
            next == self.after_hash(found),
    {
        let anchor = self.anchor;
        match self.stage {
            Stage::Anchor => match check_anchor(anchor, found) {
                Err(reason) => (Recovery { anchor, stage: Stage::Over }, Ask::Done(Err(reason))),
                Ok(number) => (Recovery { anchor, stage: Stage::Successor }, Ask::Hash(number)),
            },
            Stage::Successor => match found {
                None => (Recovery { anchor, stage: Stage::Over }, Ask::Done(Ok(None))),
                Some(hash) => (Recovery { anchor, stage: Stage::Block(hash) }, Ask::Block(hash)),
            },
            Stage::AnchorAgain(hash, snapshot) => {
                if found != Some(anchor.hash) {
                    let changed = Err(Reason::CanonicalAnchorChanged);
                    return (Recovery { anchor, stage: Stage::Over }, Ask::Done(changed));
                }
                let stage = Stage::SuccessorAgain(hash, snapshot);
                (Recovery { anchor, stage }, Ask::Hash(anchor.number + 1))
            },
            Stage::SuccessorAgain(hash, snapshot) => {
                let result = if found != Some(hash) {
                    Err(Reason::CanonicalSuccessorChanged)
                } else {
                    match check_successor(anchor, hash, &snapshot) {
                        Err(reason) => Err(reason),
                        Ok(_) => Ok(Some(snapshot)),
                    }
                };
                (Recovery { anchor, stage: Stage::Over }, Ask::Done(result))
            },
            Stage::Block(hash) => (
                Recovery { anchor, stage: Stage::Block(hash) },
                Ask::Block(hash),
            ),
            Stage::Over => (Recovery { anchor, stage: Stage::Over }, Ask::Done(Ok(None))),
        }
    }

    /// Takes the block that was asked for.
    pub fn on_block(self, snapshot: Snapshot<P>) -> (next: (Self, Ask<P>))
        requires
            self.stage is Block,
        ensures
            next == self.after_block(snapshot),
            next.0.anchor == self.anchor,
            next.0.stage == Stage::AnchorAgain(self.stage->Block_0, snapshot),
            next.1 == Ask::<P>::Hash(self.anchor.number),
    {
        let anchor = self.anchor;
        let hash = match self.stage {
            Stage::Block(hash) => hash,
            _ => anchor.hash,
        };
        let stage = Stage::AnchorAgain(hash, snapshot);
        (Recovery { anchor, stage }, Ask::Hash(anchor.number))
    }
}

/// What a read brought back.
pub enum Answer<P> {
    Hash(Option<B256>),
    Block(Snapshot<P>),
}

/// Whether an answer is one to what was asked.
pub open spec fn fits<P>(ask: Ask<P>, answer: Answer<P>) -> bool {
    match ask {
        Ask::Hash(_) => answer is Hash,
        Ask::Block(_) => answer is Block,
        Ask::Done(_) => false,
    }
}

/// Where a recovery step stands after a series of answers, and what it then asks for.
pub open spec fn reached<P>(anchor: BlockNumHash, answers: Seq<Answer<P>>) -> (
    Recovery<P>,
    Ask<P>,
)
    decreases answers.len(),
{
    if answers.len() == 0 {
        (Recovery { anchor, stage: Stage::Anchor }, Ask::Hash(anchor.number))
    } else {
        let (recovery, _) = reached(anchor, answers.drop_last());
        match answers.last() {
            Answer::Hash(found) => recovery.after_hash(found),
            Answer::Block(snapshot) => recovery.after_block(snapshot),
        }
    }
}

/// What was asked for after the first `i` answers.
pub open spec fn asked<P>(anchor: BlockNumHash, answers: Seq<Answer<P>>, i: int) -> Ask<P> {
    reached(anchor, answers.take(i)).1
}

/// Whether a series of answers can be given: each is one to what was asked just before.
pub open spec fn is_course<P>(anchor: BlockNumHash, answers: Seq<Answer<P>>) -> bool {
    forall|i: int|
        0 <= i < answers.len() ==> fits(#[trigger] asked(anchor, answers, i), answers[i])
}

proof fn lemma_course_grows<P>(anchor: BlockNumHash, answers: Seq<Answer<P>>, answer: Answer<P>)
    requires
        is_course(anchor, answers),
        fits(reached(anchor, answers).1, answer),
    ensures
        is_course(anchor, answers.push(answer)),
        forall|i: int|
            0 <= i < answers.len() ==> #[trigger] asked(anchor, answers.push(answer), i) == asked(
                anchor,
                answers,
                i,
            ),
        asked(anchor, answers.push(answer), answers.len() as int) == reached(anchor, answers).1,
        reached(anchor, answers.push(answer)) == match answer {
            Answer::Hash(found) => reached(anchor, answers).0.after_hash(found),
            Answer::Block(snapshot) => reached(anchor, answers).0.after_block(snapshot),
        },
{
    let more = answers.push(answer);
    assert(more.drop_last() =~= answers);
    assert(more.take(answers.len() as int) =~= answers);
    assert forall|i: int| 0 <= i < more.len() implies fits(
        #[trigger] asked(anchor, more, i),
        more[i],
    ) && (i < answers.len() ==> asked(anchor, more, i) == asked(anchor, answers, i)) by {
        if i < answers.len() {
            assert(more.take(i) =~= answers.take(i));
            assert(fits(asked(anchor, answers, i), answers[i]));
        }
    }
}

/// Whether the readers could have given these answers to what was asked.
pub open spec fn may_answer<P, E, H, S>(
    anchor: BlockNumHash,
    read_hash: H,
    read_snapshot: S,
    answers: Seq<Answer<P>>,
) -> bool where
    H: FnMut(u64) -> Result<Option<B256>, E>,
    S: FnOnce(B256) -> Result<Snapshot<P>, E>,
 {
    forall|i: int|
        0 <= i < answers.len() ==> match (#[trigger] asked(anchor, answers, i), answers[i]) {
            (Ask::Hash(number), Answer::Hash(found)) => call_ensures(
                read_hash,
                (number,),
                Ok::<Option<B256>, E>(found),
            ),
            (Ask::Block(hash), Answer::Block(snapshot)) => call_ensures(
                read_snapshot,
                (hash,),
                Ok::<Snapshot<P>, E>(snapshot),
            ),
            _ => false,
        }
}

/// Whether the readers could have failed with `e` on what was asked.
pub open spec fn may_fail<P, E, H, S>(
    read_hash: H,
    read_snapshot: S,
    ask: Ask<P>,
    e: E,
) -> bool where
    H: FnMut(u64) -> Result<Option<B256>, E>,
    S: FnOnce(B256) -> Result<Snapshot<P>, E>,
 {
    match ask {
        Ask::Hash(number) => call_ensures(read_hash, (number,), Err::<Option<B256>, E>(e)),
        Ask::Block(hash) => call_ensures(read_snapshot, (hash,), Err::<Snapshot<P>, E>(e)),
        Ask::Done(_) => false,
    }
}

/// Reads one canonical successor without retaining the entire recovery range. Receipt counts and
/// memory bounds are checked when the sequence accepts the snapshot.
///
/// It does the reads that a [`Recovery`] asks for, until one fails or the recovery is done. The
/// contract of a closure does not tell its calls apart: which answer is that of which call, and
/// what each of them leads to, is stated of [`Recovery`].
pub fn read_canonical_successor<P, E, H, S>(
    anchor: BlockNumHash,
    read_hash: H,
    read_snapshot: S,
) -> (result: Result<Option<Snapshot<P>>, Failure<E>>) where
    H: FnMut(u64) -> Result<Option<B256>, E>,
    S: FnOnce(B256) -> Result<Snapshot<P>, E>,

    requires
        forall|number: u64| #[trigger] call_requires(read_hash, (number,)),
        forall|hash: B256| #[trigger] call_requires(read_snapshot, (hash,)),
    ensures
        exists|answers: Seq<Answer<P>>|
            {
                &&& is_course(anchor, answers)
                &&& #[trigger] may_answer(anchor, read_hash, read_snapshot, answers)
                &&& match result {
                    Ok(found) => reached(anchor, answers).1 == Ask::<P>::Done(Ok(found)),
                    Err(Failure::Rule(reason)) => reached(anchor, answers).1 == Ask::<P>::Done(
                        Err(reason),
                    ),
                    Err(Failure::Outside(e)) => may_fail(
                        read_hash,
                        read_snapshot,
                        reached(anchor, answers).1,
                        e,
                    ),
                }
            },
{
    let ghost mut answers: Seq<Answer<P>> = Seq::empty();
    let mut hashes = read_hash;
    let mut blocks = Some(read_snapshot);
    let (mut recovery, mut ask) = Recovery::<P>::start(anchor);
    loop
        invariant
            hashes == read_hash,
            forall|number: u64| #[trigger] call_requires(read_hash, (number,)),
            forall|hash: B256| #[trigger] call_requires(read_snapshot, (hash,)),
            is_course(anchor, answers),
            may_answer(anchor, read_hash, read_snapshot, answers),
            (recovery, ask) == reached(anchor, answers),
            ask is Hash ==> recovery.awaits_hash(),
            ask is Block ==> recovery.stage is Block && recovery.anchor.number < u64::MAX,
            recovery.stage is Anchor || recovery.stage is Successor || recovery.stage is Block
                ==> blocks == Some(read_snapshot),
        decreases
            match recovery.stage {
                Stage::Anchor => 5nat,
                Stage::Successor => 4,
                Stage::Block(_) => 3,
                Stage::AnchorAgain(..) => 2,
                Stage::SuccessorAgain(..) => 1,
                Stage::Over => 0,
            },
    {
        let next = match ask {
            Ask::Done(Ok(found)) => {
                return Ok(found);
            },
            Ask::Done(Err(reason)) => {
                return Err(Failure::Rule(reason));
            },
            Ask::Hash(number) => match hashes(number) {
                Err(e) => {
                    return Err(Failure::Outside(e));
                },
                Ok(found) => {
                    proof {
                        lemma_course_grows(anchor, answers, Answer::Hash(found));
                        answers = answers.push(Answer::Hash(found));
                    }
                    recovery.on_hash(found)
                },
            },
            Ask::Block(hash) => {
                let read = blocks.take().unwrap();
                match read(hash) {
                    Err(e) => {
                        return Err(Failure::Outside(e));
                    },
                    Ok(snapshot) => {
                        proof {
                            lemma_course_grows(anchor, answers, Answer::Block(snapshot));
                            answers = answers.push(Answer::Block(snapshot));
                        }
                        recovery.on_block(snapshot)
                    },
                }
            },
        };
        recovery = next.0;
        ask = next.1;
    }
}

/// What a course of answers looks like, by its length, and where it leads.
spec fn in_shape<P>(anchor: BlockNumHash, answers: Seq<Answer<P>>) -> bool {
    let at = |stage: Stage<P>| Recovery { anchor, stage };
    let hash = answers[1]->Hash_0->0;
    let snapshot = answers[2]->Block_0;
    &&& answers.len() <= 5
    &&& answers.len() == 0 ==> reached(anchor, answers) == (
        at(Stage::Anchor),
        Ask::<P>::Hash(anchor.number),
    )
    &&& answers.len() >= 1 ==> answers[0] is Hash
    &&& answers.len() == 1 ==> reached(anchor, answers) == at(Stage::Anchor).after_hash(
        answers[0]->Hash_0,
    )
    &&& answers.len() >= 2 ==> {
        &&& anchor.number < u64::MAX
        &&& answers[0] == Answer::<P>::Hash(Some(anchor.hash))
        &&& answers[1] is Hash
    }
    &&& answers.len() == 2 ==> reached(anchor, answers) == at(Stage::Successor).after_hash(
        answers[1]->Hash_0,
    )
    &&& answers.len() >= 3 ==> answers[1]->Hash_0 is Some && answers[2] is Block
    &&& answers.len() == 3 ==> reached(anchor, answers) == at(Stage::Block(hash)).after_block(
        snapshot,
    )
    &&& answers.len() >= 4 ==> answers[3] is Hash
    &&& answers.len() == 4 ==> reached(anchor, answers) == at(
        Stage::AnchorAgain(hash, snapshot),
    ).after_hash(answers[3]->Hash_0)
    &&& answers.len() == 5 ==> {
        &&& answers[3] == Answer::<P>::Hash(Some(anchor.hash))
        &&& answers[4] is Hash
        &&& reached(anchor, answers) == at(Stage::SuccessorAgain(hash, snapshot)).after_hash(
            answers[4]->Hash_0,
        )
    }
}

proof fn lemma_course_prefix<P>(anchor: BlockNumHash, answers: Seq<Answer<P>>, count: int)
    requires
        is_course(anchor, answers),
        0 <= count <= answers.len(),
    ensures
        is_course(anchor, answers.take(count)),
{
    assert forall|i: int| 0 <= i < count implies fits(
        #[trigger] asked(anchor, answers.take(count), i),
        answers.take(count)[i],
    ) by {
        assert(answers.take(count).take(i) =~= answers.take(i));
        assert(fits(asked(anchor, answers, i), answers[i]));
    }
}

proof fn lemma_course_in_shape<P>(anchor: BlockNumHash, answers: Seq<Answer<P>>)
    requires
        is_course(anchor, answers),
    ensures
        in_shape(anchor, answers),
    decreases answers.len(),
{
    if answers.len() > 0 {
        let before = answers.drop_last();
        assert(before =~= answers.take(answers.len() - 1));
        lemma_course_prefix(anchor, answers, answers.len() - 1);
        lemma_course_in_shape(anchor, before);
        assert(fits(asked(anchor, answers, answers.len() - 1), answers.last()));
    }
}

/// Whether answers are those of a block that was read and confirmed: the anchor is canonical, the
/// block has the hash that is canonical above it and is its child, and after the block was read
/// both hashes are canonical still.
pub open spec fn confirms<P>(
    anchor: BlockNumHash,
    answers: Seq<Answer<P>>,
    snapshot: Snapshot<P>,
) -> bool {
    &&& snapshot.data.block().number == anchor.number + 1
    &&& snapshot.data.block().parent_hash == anchor.hash
    &&& answers == seq![
        Answer::Hash(Some(anchor.hash)),
        Answer::Hash(Some(snapshot.hash())),
        Answer::Block(snapshot),
        Answer::Hash(Some(anchor.hash)),
        Answer::Hash(Some(snapshot.hash())),
    ]
}

/// **A block comes back only when it was confirmed.** A recovery step gives back a block exactly
/// when both hashes agree with it, before it was read and again after. It has then asked for the
/// hash of the anchor, the hash above, the block, and both hashes once more, in this order.
pub proof fn block_is_confirmed<P>(
    anchor: BlockNumHash,
    answers: Seq<Answer<P>>,
    snapshot: Snapshot<P>,
)
    requires
        is_course(anchor, answers),
    ensures
        reached(anchor, answers).1 == Ask::<P>::Done(Ok(Some(snapshot))) <==> confirms(
            anchor,
            answers,
            snapshot,
        ),
        confirms(anchor, answers, snapshot) ==> {
            let next = (anchor.number + 1) as u64;
            &&& asked(anchor, answers, 0) == Ask::<P>::Hash(anchor.number)
            &&& asked(anchor, answers, 1) == Ask::<P>::Hash(next)
            &&& asked(anchor, answers, 2) == Ask::<P>::Block(snapshot.hash())
            &&& asked(anchor, answers, 3) == Ask::<P>::Hash(anchor.number)
            &&& asked(anchor, answers, 4) == Ask::<P>::Hash(next)
        },
{
    lemma_course_in_shape(anchor, answers);
    if reached(anchor, answers).1 == Ask::<P>::Done(Ok(Some(snapshot))) {
        assert(answers.len() == 5);
        assert(answers =~= seq![
            Answer::Hash(Some(anchor.hash)),
            Answer::Hash(Some(snapshot.hash())),
            Answer::Block(snapshot),
            Answer::Hash(Some(anchor.hash)),
            Answer::Hash(Some(snapshot.hash())),
        ]);
    }
    if confirms(anchor, answers, snapshot) {
        lemma_course_prefix(anchor, answers, 0);
        lemma_course_in_shape(anchor, answers.take(0));
        lemma_course_prefix(anchor, answers, 1);
        lemma_course_in_shape(anchor, answers.take(1));
        lemma_course_prefix(anchor, answers, 2);
        lemma_course_in_shape(anchor, answers.take(2));
        lemma_course_prefix(anchor, answers, 3);
        lemma_course_in_shape(anchor, answers.take(3));
        lemma_course_prefix(anchor, answers, 4);
        lemma_course_in_shape(anchor, answers.take(4));
    }
}

/// **A missing successor is no error.** A recovery step finds nothing exactly when the anchor is
/// canonical and no hash is canonical above it. It has then asked for these two hashes, and for no
/// block.
pub proof fn absence_is_no_error<P>(anchor: BlockNumHash, answers: Seq<Answer<P>>)
    requires
        is_course(anchor, answers),
    ensures
        reached(anchor, answers).1 == Ask::<P>::Done(Ok(None)) <==> {
            &&& anchor.number < u64::MAX
            &&& answers == seq![Answer::<P>::Hash(Some(anchor.hash)), Answer::Hash(None)]
        },
        reached(anchor, answers).1 == Ask::<P>::Done(Ok(None)) ==> {
            &&& asked(anchor, answers, 0) == Ask::<P>::Hash(anchor.number)
            &&& asked(anchor, answers, 1) == Ask::<P>::Hash((anchor.number + 1) as u64)
        },
{
    lemma_course_in_shape(anchor, answers);
    if reached(anchor, answers).1 == Ask::<P>::Done(Ok(None)) {
        assert(answers.len() == 2);
        assert(answers =~= seq![Answer::<P>::Hash(Some(anchor.hash)), Answer::Hash(None)]);
        lemma_course_prefix(anchor, answers, 0);
        lemma_course_in_shape(anchor, answers.take(0));
        lemma_course_prefix(anchor, answers, 1);
        lemma_course_in_shape(anchor, answers.take(1));
    }
}

/// The answers on which a recovery step breaks off with a reason: the last of them is the first
/// that is not as it has to be.
pub open spec fn refuses<P>(
    anchor: BlockNumHash,
    answers: Seq<Answer<P>>,
    reason: Reason,
) -> bool {
    let canonical = Answer::<P>::Hash(Some(anchor.hash));
    match reason {
        Reason::CanonicalAnchorUnavailable => answers.len() == 1 && answers[0] == Answer::<P>::Hash(
            None,
        ),
        Reason::CanonicalAnchorChanged => {
            ||| answers.len() == 1 && answers[0] != canonical && answers[0] != Answer::<P>::Hash(
                None,
            )
            ||| answers.len() == 4 && answers[3] != canonical
        },
        Reason::CanonicalHeightOverflow => answers.len() == 1 && answers[0] == canonical
            && anchor.number == u64::MAX,
        Reason::CanonicalSuccessorChanged => answers.len() == 5 && answers[4] != answers[1],
        Reason::CanonicalParentMismatch => answers.len() == 5 && answers[4] == answers[1]
            && {
            let block = answers[2]->Block_0.data.block();
            ||| block.number != anchor.number + 1
            ||| Some(block.hash) != answers[1]->Hash_0
            ||| block.parent_hash != anchor.hash
        },
        _ => false,
    }
}

/// **Each wrong answer has its error.** A recovery step breaks off as soon as an answer is wrong,
/// and with the reason for it: a first answer for the anchor that is missing or another hash, any
/// second answer for the anchor but its hash, any second answer above it but the first one, or a
/// block that is not the child of the anchor.
pub proof fn wrong_answers_are_refused<P>(
    anchor: BlockNumHash,
    answers: Seq<Answer<P>>,
    reason: Reason,
)
    requires
        is_course(anchor, answers),
    ensures
        reached(anchor, answers).1 == Ask::<P>::Done(Err(reason)) <==> refuses(
            anchor,
            answers,
            reason,
        ),
{
    lemma_course_in_shape(anchor, answers);
}

/// **A recovery step ends.** It asks for at most four hashes and one block.
pub proof fn recovery_ends<P>(anchor: BlockNumHash, answers: Seq<Answer<P>>)
    requires
        is_course(anchor, answers),
    ensures
        answers.len() <= 5,
        answers.len() == 5 ==> reached(anchor, answers).1 is Done,
{
    lemma_course_in_shape(anchor, answers);
}

/// **The checks of a recovery step say what is wrong.** A height comes after the anchor exactly
/// when the hash that was found is that of the anchor and the height exists; a block is the
/// successor exactly when its height, its hash and its parent are the ones expected.
pub proof fn checks_say_what_is_wrong<P>(
    anchor: BlockNumHash,
    found: Option<B256>,
    hash: B256,
    snapshot: Snapshot<P>,
)
    ensures
        next_height(anchor, found) is Ok <==> found == Some(anchor.hash) && anchor.number
            < u64::MAX,
        next_height(anchor, found) is Ok ==> next_height(anchor, found)->Ok_0 == anchor.number + 1,
        next_height(anchor, found) == Err::<u64, Reason>(Reason::CanonicalAnchorUnavailable)
            <==> found is None,
        next_height(anchor, found) == Err::<u64, Reason>(Reason::CanonicalAnchorChanged)
            <==> found is Some && found->0 != anchor.hash,
        next_height(anchor, found) == Err::<u64, Reason>(Reason::CanonicalHeightOverflow)
            <==> found == Some(anchor.hash) && anchor.number == u64::MAX,
        is_successor(anchor, hash, snapshot) <==> {
            &&& snapshot.data.block().number == anchor.number + 1
            &&& snapshot.data.block().hash == hash
            &&& snapshot.data.block().parent_hash == anchor.hash
        },
{
}

/// **Answers come from the readers.** Every answer is one that the reader could give to what was
/// asked at its place, and so is every failure.
pub proof fn answers_come_from_the_readers<P, E, H, S>(
    anchor: BlockNumHash,
    read_hash: H,
    read_snapshot: S,
    answers: Seq<Answer<P>>,
    i: int,
    ask: Ask<P>,
    e: E,
) where
    H: FnMut(u64) -> Result<Option<B256>, E>,
    S: FnOnce(B256) -> Result<Snapshot<P>, E>,

    requires
        may_answer(anchor, read_hash, read_snapshot, answers),
        0 <= i < answers.len(),
    ensures
        asked(anchor, answers, i) matches Ask::Hash(number) ==> answers[i] is Hash && call_ensures(
            read_hash,
            (number,),
            Ok::<Option<B256>, E>(answers[i]->Hash_0),
        ),
        asked(anchor, answers, i) matches Ask::Block(hash) ==> answers[i] is Block && call_ensures(
            read_snapshot,
            (hash,),
            Ok::<Snapshot<P>, E>(answers[i]->Block_0),
        ),
        asked(anchor, answers, i) !is Done,
        may_fail(read_hash, read_snapshot, ask, e) ==> match ask {
            Ask::Hash(number) => call_ensures(read_hash, (number,), Err::<Option<B256>, E>(e)),
            Ask::Block(hash) => call_ensures(read_snapshot, (hash,), Err::<Snapshot<P>, E>(e)),
            Ask::Done(_) => false,
        },
{
}

} // verus!
