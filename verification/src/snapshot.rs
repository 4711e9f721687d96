//! Blocks with the receipts of their executed transactions.

use crate::primitives::{Address, B256};
use crate::reason::Reason;
use crate::receipt::{capped, sum, Receipt, ReceiptView};
use std::sync::Arc;
use vstd::prelude::*;

verus! {

/// The most bytes of blocks and receipts that one subscription may hold.
pub const MAX_BYTES: usize = 64 * 1024 * 1024;

/// What the feed reads of a transaction.
#[derive(Clone, Copy, Debug, PartialEq, Eq, Structural)]
pub struct Transaction {
    pub hash: B256,
    pub sender: Address,
}

/// What the feed reads of a block.
///
/// `size` is the memory that the block takes, as measured where it was made. The payload rides
/// along for whoever made the block; nothing here looks at it.
#[derive(Debug)]
pub struct Block<P> {
    pub number: u64,
    pub hash: B256,
    pub parent_hash: B256,
    pub timestamp: u64,
    pub base_fee_per_gas: Option<u64>,
    pub excess_blob_gas: Option<u64>,
    pub transactions: Vec<Transaction>,
    pub size: usize,
    pub payload: P,
}

/// The bytes that the given receipts take together.
pub open spec fn receipts_footprint(receipts: Seq<ReceiptView>) -> nat
    decreases receipts.len(),
{
    if receipts.len() == 0 {
        0
    } else {
        receipts_footprint(receipts.drop_last()) + receipts.last().footprint()
    }
}

/// A block, its receipts, and the memory that both take, measured once.
#[derive(Debug)]
pub struct BlockAndReceipts<P> {
    block: Block<P>,
    receipts: Vec<Receipt>,
    bytes: usize,
}

impl<P> BlockAndReceipts<P> {
    pub closed spec fn spec_block(&self) -> &Block<P> {
        &self.block
    }

    pub closed spec fn spec_receipts(&self) -> &Vec<Receipt> {
        &self.receipts
    }

    /// The effects of the executed transactions, in order.
    pub open spec fn effects(&self) -> Seq<ReceiptView> {
        self.receipts()@.map_values(|receipt: Receipt| receipt@)
    }

    /// The memory that the block and the receipts take, held at `usize::MAX`.
    pub open spec fn spec_bytes(&self) -> usize {
        capped(self.block().size as nat + receipts_footprint(self.effects())) as usize
    }

    #[verifier::type_invariant]
    closed spec fn measured(&self) -> bool {
        self.bytes == self.spec_bytes()
    }

    /// Puts a block and its receipts together and measures them.
    pub fn new(block: Block<P>, receipts: Vec<Receipt>) -> (data: Self)
        ensures
            *data.block() == block,
            *data.receipts() == receipts,
    {
        let mut bytes: usize = block.size;
        let ghost effects = receipts@.map_values(|receipt: Receipt| receipt@);
        for i in 0..receipts.len()
            invariant
                effects == receipts@.map_values(|receipt: Receipt| receipt@),
                bytes == capped(block.size as nat + receipts_footprint(effects.take(i as int))),
        {
            assert(effects.take(i + 1).drop_last() =~= effects.take(i as int));
            assert(effects.take(i + 1).last() == receipts@[i as int]@);
            bytes = bytes.saturating_add(receipts[i].size());
        }
        assert(effects.take(receipts.len() as int) =~= effects);
        Self { block, receipts, bytes }
    }

    #[verifier::when_used_as_spec(spec_block)]
    pub fn block(&self) -> (block: &Block<P>)
        ensures
            block == self.spec_block(),
    {
        &self.block
    }

    #[verifier::when_used_as_spec(spec_receipts)]
    pub fn receipts(&self) -> (receipts: &Vec<Receipt>)
        ensures
            receipts == self.spec_receipts(),
    {
        &self.receipts
    }

    #[verifier::when_used_as_spec(spec_bytes)]
    pub fn bytes(&self) -> (bytes: usize)
        ensures
            bytes == self.spec_bytes(),
    {
        proof {
            use_type_invariant(self);
        }
        self.bytes
    }
}

/// A block as it stood at one moment, pending or canonical.
#[derive(Debug)]
pub struct Snapshot<P> {
    pub data: Arc<BlockAndReceipts<P>>,
    pub canonical: bool,
    /// Only a locally calculated root can certify a speculative parent's full header hash.
    pub computed_hash: bool,
    pub publication_id: u64,
}

impl<P> Clone for Snapshot<P> {
    fn clone(&self) -> (copy: Self)
        ensures
            copy == *self,
    {
        Self {
            data: self.data.clone(),
            canonical: self.canonical,
            computed_hash: self.computed_hash,
            publication_id: self.publication_id,
        }
    }
}

impl<P> Snapshot<P> {
    pub open spec fn spec_number(&self) -> u64 {
        self.data.block().number
    }

    pub open spec fn spec_hash(&self) -> B256 {
        self.data.block().hash
    }

    pub open spec fn spec_parent(&self) -> B256 {
        self.data.block().parent_hash
    }

    pub open spec fn spec_len(&self) -> usize {
        self.data.receipts().len()
    }

    pub open spec fn spec_bytes(&self) -> usize {
        self.data.bytes()
    }

    #[verifier::when_used_as_spec(spec_number)]
    pub fn number(&self) -> (number: u64)
        ensures
            number == self.spec_number(),
    {
        self.data.block().number
    }

    #[verifier::when_used_as_spec(spec_hash)]
    pub fn hash(&self) -> (hash: B256)
        ensures
            hash == self.spec_hash(),
    {
        self.data.block().hash
    }

    #[verifier::when_used_as_spec(spec_parent)]
    pub fn parent(&self) -> (parent: B256)
        ensures
            parent == self.spec_parent(),
    {
        self.data.block().parent_hash
    }

    /// The number of executed transactions.
    #[verifier::when_used_as_spec(spec_len)]
    pub fn len(&self) -> (len: usize)
        ensures
            len == self.spec_len(),
            len == self.data.receipts()@.len(),
    {
        self.data.receipts().len()
    }

    /// The memory that the block and its receipts take.
    #[verifier::when_used_as_spec(spec_bytes)]
    pub fn bytes(&self) -> (bytes: usize)
        ensures
            bytes == self.spec_bytes(),
    {
        self.data.bytes()
    }

    /// A snapshot of a block that is still being built.
    pub fn pending(
        data: Arc<BlockAndReceipts<P>>,
        has_computed_state_root: bool,
        publication_id: u64,
    ) -> (snapshot: Self)
        ensures
            snapshot == (Self {
                data,
                canonical: false,
                computed_hash: has_computed_state_root,
                publication_id,
            }),
    {
        Self { data, canonical: false, computed_hash: has_computed_state_root, publication_id }
    }

    /// A snapshot of a block of the canonical chain.
    pub fn canonical(data: Arc<BlockAndReceipts<P>>) -> (snapshot: Self)
        ensures
            snapshot == (Self { data, canonical: true, computed_hash: true, publication_id: 0 }),
    {
        Self { data, canonical: true, computed_hash: true, publication_id: 0 }
    }

    /// What is wrong with a snapshot on its own, if anything.
    pub open spec fn validity(&self) -> Result<(), Reason> {
        if self.data.block().transactions@.len() != self.len() {
            Err(Reason::ReceiptCountMismatch)
        } else if self.bytes() > MAX_BYTES {
            Err(Reason::BufferLimit)
        } else {
            Ok(())
        }
    }

    /// Checks that every transaction has its receipt and that the block fits the byte budget.
    pub fn validate(&self) -> (result: Result<(), Reason>)
        ensures
            result == self.validity(),
    {
        if self.data.block().transactions.len() != self.len() {
            return Err(Reason::ReceiptCountMismatch);
        }
        if self.bytes() > MAX_BYTES {
            return Err(Reason::BufferLimit);
        }
        Ok(())
    }

    /// Whether this snapshot continues `previous`: it has the same parent, and it starts with the
    /// same effects and with transactions of the same hashes.
    pub open spec fn continues(&self, previous: &Self) -> bool {
        &&& self.parent() == previous.parent()
        &&& previous.data.effects().is_prefix_of(self.data.effects())
        &&& forall|i: int|
            #![trigger self.data.block().transactions@[i]]
            #![trigger previous.data.block().transactions@[i]]
            0 <= i < self.data.block().transactions@.len() && i
                < previous.data.block().transactions@.len()
                ==> self.data.block().transactions@[i].hash
                == previous.data.block().transactions@[i].hash
    }

    /// Whether this snapshot continues `previous` without changing anything that was executed.
    pub fn extends(&self, previous: &Self) -> (extends: bool)
        ensures
            extends == self.continues(previous),
    {
        if self.parent() != previous.parent() || self.len() < previous.len() {
            return false;
        }
        let receipts = self.data.receipts();
        let previous_receipts = previous.data.receipts();
        for i in 0..previous_receipts.len()
            invariant
                receipts == self.data.receipts(),
                previous_receipts == previous.data.receipts(),
                previous_receipts@.len() <= receipts@.len(),
                forall|j: int| 0 <= j < i ==> receipts@[j]@ == previous_receipts@[j]@,
        {
            if !receipts[i].same(&previous_receipts[i]) {
                assert(self.data.effects()[i as int] != previous.data.effects()[i as int]);
                return false;
            }
        }
        assert(previous.data.effects() =~= self.data.effects().subrange(
            0,
            previous.data.effects().len() as int,
        ));
        let transactions = &self.data.block().transactions;
        let previous_transactions = &previous.data.block().transactions;
        let shared: usize = if transactions.len() < previous_transactions.len() {
            transactions.len()
        } else {
            previous_transactions.len()
        };
        for i in 0..shared
            invariant
                transactions == self.data.block().transactions,
                previous_transactions == previous.data.block().transactions,
                shared <= transactions@.len(),
                shared <= previous_transactions@.len(),
                forall|j: int|
                    0 <= j < i ==> transactions@[j].hash == previous_transactions@[j].hash,
        {
            if transactions[i].hash != previous_transactions[i].hash {
                return false;
            }
        }
        true
    }

    /// The executed transactions: each with its hash and its effects, in order.
    pub open spec fn executed(&self) -> Seq<(B256, ReceiptView)> {
        Seq::new(
            self.data.effects().len(),
            |i: int| (self.data.block().transactions@[i].hash, self.data.effects()[i]),
        )
    }
}

/// The memory of a block and of each of its receipts, added up.
pub open spec fn weight<P>(data: &BlockAndReceipts<P>) -> nat {
    data.block().size as nat + sum(
        Seq::new(data.receipts()@.len(), |i: int| data.receipts()@[i]@.footprint()),
    )
}

proof fn lemma_receipts_footprint_is_sum(effects: Seq<ReceiptView>, parts: Seq<nat>)
    requires
        parts.len() == effects.len(),
        forall|i: int| 0 <= i < effects.len() ==> #[trigger] parts[i] == effects[i].footprint(),
    ensures
        receipts_footprint(effects) == sum(parts),
    decreases effects.len(),
{
    if effects.len() > 0 {
        lemma_receipts_footprint_is_sum(effects.drop_last(), parts.drop_last());
        assert(parts.last() == parts[effects.len() - 1]);
    }
}

/// **A snapshot is what its block says.** Its height, hashes and receipts are those of the block.
pub proof fn snapshot_is_its_block<P>(snapshot: Snapshot<P>)
    ensures
        snapshot.number() == snapshot.data.block().number,
        snapshot.hash() == snapshot.data.block().hash,
        snapshot.parent() == snapshot.data.block().parent_hash,
        snapshot.len() == snapshot.data.receipts()@.len(),
        snapshot.data.effects().len() == snapshot.data.receipts()@.len(),
        forall|i: int|
            0 <= i < snapshot.data.receipts()@.len() ==> #[trigger] snapshot.data.effects()[i]
                == snapshot.data.receipts()@[i]@,
{
}

/// **Only counts and bytes make a snapshot invalid.** A snapshot is valid exactly when there is one
/// receipt for each transaction and the block takes with its receipts at most 64 MiB, however many
/// transactions it has. Of the two faults, the missing receipt is named first.
pub proof fn validity_is_counted<P>(snapshot: Snapshot<P>)
    ensures
        snapshot.validity() is Ok <==> {
            &&& snapshot.data.block().transactions@.len() == snapshot.data.receipts()@.len()
            &&& weight(&snapshot.data) <= 67_108_864
        },
        snapshot.validity() == Err::<(), Reason>(Reason::ReceiptCountMismatch)
            <==> snapshot.data.block().transactions@.len() != snapshot.data.receipts()@.len(),
        snapshot.validity() == Err::<(), Reason>(Reason::BufferLimit) <==> {
            &&& snapshot.data.block().transactions@.len() == snapshot.data.receipts()@.len()
            &&& weight(&snapshot.data) > 67_108_864
        },
        snapshot.bytes() == if weight(&snapshot.data) <= usize::MAX {
            weight(&snapshot.data)
        } else {
            usize::MAX as nat
        },
{
    lemma_receipts_footprint_is_sum(
        snapshot.data.effects(),
        Seq::new(
            snapshot.data.receipts()@.len(),
            |i: int| snapshot.data.receipts()@[i]@.footprint(),
        ),
    );
}

/// **A block is extended by what keeps all that was executed.** The longer snapshot has the same
/// parent, at least as many receipts, the same receipts as far as the shorter one has any, and the
/// same transaction hashes as far as both have transactions. Nothing else is asked of it.
pub proof fn extension_keeps_what_was_executed<P>(snapshot: Snapshot<P>, previous: Snapshot<P>)
    ensures
        snapshot.continues(&previous) <==> {
            let (receipts, old_receipts) = (snapshot.data.receipts()@, previous.data.receipts()@);
            let transactions = snapshot.data.block().transactions@;
            let old_transactions = previous.data.block().transactions@;
            &&& snapshot.data.block().parent_hash == previous.data.block().parent_hash
            &&& old_receipts.len() <= receipts.len()
            &&& forall|i: int|
                0 <= i < old_receipts.len() ==> (#[trigger] old_receipts[i])@ == receipts[i]@
            &&& forall|i: int|
                0 <= i < old_transactions.len() && i < transactions.len() ==> (
                #[trigger] old_transactions[i]).hash == transactions[i].hash
        },
{
    let (receipts, old_receipts) = (snapshot.data.receipts()@, previous.data.receipts()@);
    let (effects, old_effects) = (snapshot.data.effects(), previous.data.effects());
    if snapshot.continues(&previous) {
        assert forall|i: int| 0 <= i < old_receipts.len() implies (#[trigger] old_receipts[i])@
            == receipts[i]@ by {
            assert(old_effects[i] == effects.subrange(0, old_effects.len() as int)[i]);
        }
    }
    if old_receipts.len() <= receipts.len() && (forall|i: int|
        0 <= i < old_receipts.len() ==> (#[trigger] old_receipts[i])@ == receipts[i]@) {
        assert(old_effects =~= effects.subrange(0, old_effects.len() as int));
    }
}

} // verus!
