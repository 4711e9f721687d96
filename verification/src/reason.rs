//! Why a subscription ends.

use vstd::prelude::*;

verus! {

/// The rule that an input broke. Each is terminal for the subscription that meets it.
#[derive(Clone, Copy, Debug, PartialEq, Eq, Structural)]
pub enum Reason {
    ReceiptCountMismatch,
    BufferLimit,
    CanonicalReorg,
    CanonicalGap,
    CanonicalParentMismatch,
    ExecutionMismatch,
    PublishedParentChanged,
    PendingPrefixChanged,
    PendingParentChanged,
    CanonicalRecoveryLimit,
    CanonicalAnchorUnavailable,
    CanonicalAnchorChanged,
    CanonicalHeightOverflow,
    CanonicalSuccessorChanged,
    CanonicalBlockUnavailable,
    CanonicalReceiptsUnavailable,
    InvalidCumulativeGas,
    PublicationGap,
    PublicationStreamClosed,
    CanonicalStreamGap,
    ClientTooSlow,
    ClientDisconnected,
}

impl Reason {
    /// The word by which clients know this reason.
    pub open spec fn word(self) -> Seq<char> {
        match self {
            Reason::ReceiptCountMismatch => "receipt_count_mismatch"@,
            Reason::BufferLimit => "buffer_limit"@,
            Reason::CanonicalReorg => "canonical_reorg"@,
            Reason::CanonicalGap => "canonical_gap"@,
            Reason::CanonicalParentMismatch => "canonical_parent_mismatch"@,
            Reason::ExecutionMismatch => "execution_mismatch"@,
            Reason::PublishedParentChanged => "published_parent_changed"@,
            Reason::PendingPrefixChanged => "pending_prefix_changed"@,
            Reason::PendingParentChanged => "pending_parent_changed"@,
            Reason::CanonicalRecoveryLimit => "canonical_recovery_limit"@,
            Reason::CanonicalAnchorUnavailable => "canonical_anchor_unavailable"@,
            Reason::CanonicalAnchorChanged => "canonical_anchor_changed"@,
            Reason::CanonicalHeightOverflow => "canonical_height_overflow"@,
            Reason::CanonicalSuccessorChanged => "canonical_successor_changed"@,
            Reason::CanonicalBlockUnavailable => "canonical_block_unavailable"@,
            Reason::CanonicalReceiptsUnavailable => "canonical_receipts_unavailable"@,
            Reason::InvalidCumulativeGas => "invalid_cumulative_gas"@,
            Reason::PublicationGap => "publication_gap"@,
            Reason::PublicationStreamClosed => "publication_stream_closed"@,
            Reason::CanonicalStreamGap => "canonical_stream_gap"@,
            Reason::ClientTooSlow => "client_too_slow"@,
            Reason::ClientDisconnected => "client_disconnected"@,
        }
    }

    /// The word by which clients know this reason.
    pub fn as_str(self) -> (word: &'static str)
        ensures
            word@ == self.word(),
    {
        match self {
            Reason::ReceiptCountMismatch => "receipt_count_mismatch",
            Reason::BufferLimit => "buffer_limit",
            Reason::CanonicalReorg => "canonical_reorg",
            Reason::CanonicalGap => "canonical_gap",
            Reason::CanonicalParentMismatch => "canonical_parent_mismatch",
            Reason::ExecutionMismatch => "execution_mismatch",
            Reason::PublishedParentChanged => "published_parent_changed",
            Reason::PendingPrefixChanged => "pending_prefix_changed",
            Reason::PendingParentChanged => "pending_parent_changed",
            Reason::CanonicalRecoveryLimit => "canonical_recovery_limit",
            Reason::CanonicalAnchorUnavailable => "canonical_anchor_unavailable",
            Reason::CanonicalAnchorChanged => "canonical_anchor_changed",
            Reason::CanonicalHeightOverflow => "canonical_height_overflow",
            Reason::CanonicalSuccessorChanged => "canonical_successor_changed",
            Reason::CanonicalBlockUnavailable => "canonical_block_unavailable",
            Reason::CanonicalReceiptsUnavailable => "canonical_receipts_unavailable",
            Reason::InvalidCumulativeGas => "invalid_cumulative_gas",
            Reason::PublicationGap => "publication_gap",
            Reason::PublicationStreamClosed => "publication_stream_closed",
            Reason::CanonicalStreamGap => "canonical_stream_gap",
            Reason::ClientTooSlow => "client_too_slow",
            Reason::ClientDisconnected => "client_disconnected",
        }
    }
}

} // verus!
