//! How a subscription is asked for, named and written.

use execution_receipts::convert::{Source, Update};
use execution_receipts::identity::session_id;
use execution_receipts::ledger::{Event, Seal};
use execution_receipts::params::{check_params, Rejection, INVALID_PARAMS, UNAVAILABLE};
use execution_receipts::primitives::{BlockNumHash, B256};
use execution_receipts::reason::Reason;
use execution_receipts::recovery::Failure;
use execution_receipts::session::{Position, Reset, ResetContext};
use execution_receipts::wire::{batch_message, context_json, ready_message, reset_message, Json};
use serde_json::Value;

fn hash(low: u128) -> B256 {
    B256 { high: 0, low }
}

/// A hash stands here as its last half.
fn to_value(json: &Json<u64>) -> Value {
    match json {
        Json::Null => Value::Null,
        Json::Number(n) => Value::from(*n),
        Json::Text(text) => Value::from(text.as_str()),
        Json::Hash(hash) => Value::from(format!("#{}", hash.low)),
        Json::Receipt(receipt) => Value::from(*receipt),
        Json::Array(items) => Value::Array(items.iter().map(to_value).collect()),
        Json::Object(fields) => {
            Value::Object(fields.iter().map(|(k, v)| (k.to_string(), to_value(v))).collect())
        }
    }
}

fn parsed(text: &str) -> Value {
    serde_json::from_str(text).unwrap()
}

#[test]
fn an_empty_request_may_be_written_in_several_ways() {
    for raw in ["[]", "[ ]", " [\t\r\n] ", "null", "\u{a0}null\u{3000}", "\n[]\u{2028}"] {
        assert!(check_params(Some(raw)).is_ok(), "{raw:?}");
    }
}

#[test]
fn anything_else_is_refused_with_a_complaint() {
    let refused = [
        "", " ", "[", "]", "[]]", "[[]]", "[,]", "[0]", "{\"a\":[]}", "nul", "nullnull", "NULL",
        "true", "0", "\"\"", "[\u{a0}]", "[] []",
    ];
    for raw in refused {
        let rejection = check_params(Some(raw)).unwrap_err();
        assert_eq!(rejection.code, INVALID_PARAMS, "{raw:?}");
        assert_eq!(rejection.message, "Invalid params", "{raw:?}");
        let complaint: String = serde_json::from_str(&rejection.data.unwrap()).unwrap();
        assert!(!complaint.is_empty(), "{raw:?}");
    }
}

#[test]
fn a_complaint_says_what_is_wrong() {
    let rejection = check_params(Some("[1,2]")).unwrap_err();
    assert_eq!(rejection.data.unwrap(), "\"trailing characters at line 1 column 2\"");
    // It depends on the text alone.
    let again = check_params(Some("[1,2]")).unwrap_err();
    assert_eq!(again.data.unwrap(), "\"trailing characters at line 1 column 2\"");
}

#[test]
fn a_node_says_what_it_lacks() {
    let disabled = Rejection::flashblocks_disabled();
    assert_eq!(disabled.code, UNAVAILABLE);
    assert_eq!(disabled.code, -32000);
    assert_eq!(disabled.message, "Flashblocks is disabled");
    assert_eq!(disabled.data, None);
    let unavailable = Rejection::anchor_unavailable();
    assert_eq!(unavailable.code, -32000);
    assert_eq!(unavailable.message, "Canonical anchor unavailable");
    assert_eq!(unavailable.data, None);
}

#[test]
fn a_session_is_named_after_process_time_and_ordinal() {
    assert_eq!(session_id(0, 0, 0), "0-0-0");
    assert_eq!(session_id(4711, 1_700_000_000_123_456_789, 1), "4711-1700000000123456789-1");
    assert_eq!(
        session_id(u32::MAX, u128::MAX, u64::MAX),
        format!("{}-{}-{}", u32::MAX, u128::MAX, u64::MAX)
    );
}

#[test]
fn sessions_have_distinct_names() {
    let triples = [(1, 11, 1), (11, 1, 1), (1, 1, 11), (1, 1, 1), (111, 1, 1), (1, 111, 1)];
    for (i, a) in triples.iter().enumerate() {
        for b in &triples[i + 1..] {
            assert_ne!(session_id(a.0, a.1, a.2), session_id(b.0, b.1, b.2));
        }
    }
}

#[test]
fn every_reason_has_its_word() {
    let words = [
        (Reason::ReceiptCountMismatch, "receipt_count_mismatch"),
        (Reason::BufferLimit, "buffer_limit"),
        (Reason::CanonicalReorg, "canonical_reorg"),
        (Reason::CanonicalGap, "canonical_gap"),
        (Reason::CanonicalParentMismatch, "canonical_parent_mismatch"),
        (Reason::ExecutionMismatch, "execution_mismatch"),
        (Reason::PublishedParentChanged, "published_parent_changed"),
        (Reason::PendingPrefixChanged, "pending_prefix_changed"),
        (Reason::PendingParentChanged, "pending_parent_changed"),
        (Reason::CanonicalRecoveryLimit, "canonical_recovery_limit"),
        (Reason::CanonicalAnchorUnavailable, "canonical_anchor_unavailable"),
        (Reason::CanonicalAnchorChanged, "canonical_anchor_changed"),
        (Reason::CanonicalHeightOverflow, "canonical_height_overflow"),
        (Reason::CanonicalSuccessorChanged, "canonical_successor_changed"),
        (Reason::CanonicalBlockUnavailable, "canonical_block_unavailable"),
        (Reason::CanonicalReceiptsUnavailable, "canonical_receipts_unavailable"),
        (Reason::InvalidCumulativeGas, "invalid_cumulative_gas"),
        (Reason::PublicationGap, "publication_gap"),
        (Reason::PublicationStreamClosed, "publication_stream_closed"),
        (Reason::CanonicalStreamGap, "canonical_stream_gap"),
        (Reason::ClientTooSlow, "client_too_slow"),
        (Reason::ClientDisconnected, "client_disconnected"),
    ];
    for (reason, word) in words {
        assert_eq!(reason.as_str(), word);
    }
}

#[test]
fn the_first_message_names_chain_and_anchor() {
    let ready = ready_message("1-2-3", 91342, hash(5), BlockNumHash::new(100, hash(6)));
    assert_eq!(
        to_value(&ready),
        parsed(
            r##"{"type":"ready","sessionId":"1-2-3","sequence":0,"chainId":91342,
                "genesisHash":"#5","anchor":{"blockNumber":100,"blockHash":"#6"}}"##
        )
    );
}

#[test]
fn a_batch_holds_its_events_in_order() {
    let update = Update {
        block_number: 101,
        parent_hash: hash(1),
        block_hash: hash(2),
        source: Source::Pending,
        from_transaction_index: 20,
        receipts: vec![77, 78],
    };
    let seal =
        Seal { block_number: 100, block_hash: hash(1), parent_hash: hash(0), transaction_count: 3 };
    let batch = batch_message("s", 9, vec![Event::Seal(seal), Event::Apply(update)]);
    assert_eq!(
        to_value(&batch),
        parsed(
            r##"{"type":"batch","sessionId":"s","sequence":9,"events":[
                {"type":"seal","blockNumber":100,"blockHash":"#1","parentHash":"#0",
                 "transactionCount":3},
                {"type":"apply","blockNumber":101,"parentHash":"#1","blockHash":"#2",
                 "source":"pending","fromTransactionIndex":20,"receipts":[77,78]}]}"##
        )
    );
}

#[test]
fn a_reset_says_why_and_where() {
    let context = ResetContext {
        anchor: BlockNumHash::new(99, hash(1)),
        last_canonical_input: Some(Position { number: 100, hash: hash(2), parent: hash(1) }),
        queued_canonical: Some(Position { number: 105, hash: hash(4), parent: hash(3) }),
        repair_target: Some(104),
    };
    let reset = Reset { sequence: 2, reason: Failure::Rule(Reason::ExecutionMismatch), context };
    assert_eq!(
        to_value(&reset_message("s", &reset)),
        parsed(
            r##"{"type":"reset","sessionId":"s","sequence":2,"reason":"execution_mismatch",
                "context":{"anchor":{"blockNumber":99,"blockHash":"#1"},
                "lastCanonicalInput":{"blockNumber":100,"blockHash":"#2","parentHash":"#1"},
                "queuedCanonical":{"blockNumber":105,"blockHash":"#4","parentHash":"#3"},
                "repairTarget":104}}"##
        )
    );
}

#[test]
fn a_reset_leaves_out_what_it_does_not_know() {
    let context = ResetContext {
        anchor: BlockNumHash::new(99, hash(1)),
        last_canonical_input: None,
        queued_canonical: None,
        repair_target: None,
    };
    let expected = parsed(
        r##"{"anchor":{"blockNumber":99,"blockHash":"#1"},"lastCanonicalInput":null,
            "queuedCanonical":null,"repairTarget":null}"##,
    );
    assert_eq!(to_value(&context_json(&context)), expected);
    let reset = Reset { sequence: 1, reason: Failure::Outside("disk full".to_string()), context };
    let message = to_value(&reset_message("s", &reset));
    assert_eq!(message["reason"], "disk full");
    assert_eq!(message["context"], expected);
}
