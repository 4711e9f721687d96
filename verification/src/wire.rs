//! The messages of a subscription, as JSON trees.

use crate::convert::{Source, Update};
use crate::ledger::{Event, Seal};
use crate::primitives::{BlockNumHash, B256};
use crate::recovery::Failure;
use crate::session::{Position, Reset, ResetContext};
use vstd::prelude::*;

verus! {

/// A JSON value. Hashes are written as hexadecimal text; a written-out receipt stands for itself.
#[derive(Debug)]
pub enum Json<R> {
    Null,
    Number(u64),
    Text(String),
    Hash(B256),
    Receipt(R),
    Array(Vec<Json<R>>),
    Object(Vec<(&'static str, Json<R>)>),
}

/// The contents of a [`Json`] value.
pub enum Tree<R> {
    Null,
    Number(u64),
    Text(Seq<char>),
    Hash(B256),
    Receipt(R),
    Array(Seq<Tree<R>>),
    Object(Seq<(Seq<char>, Tree<R>)>),
}

impl<R> Json<R> {
    pub open spec fn tree(self) -> Tree<R>
        decreases self,
    {
        match self {
            Json::Null => Tree::Null,
            Json::Number(n) => Tree::Number(n),
            Json::Text(text) => Tree::Text(text@),
            Json::Hash(hash) => Tree::Hash(hash),
            Json::Receipt(receipt) => Tree::Receipt(receipt),
            Json::Array(items) => Tree::Array(
                Seq::new(
                    items@.len(),
                    |i: int|
                        if 0 <= i < items@.len() {
                            items@[i].tree()
                        } else {
                            Tree::Null
                        },
                ),
            ),
            Json::Object(fields) => Tree::Object(
                Seq::new(
                    fields@.len(),
                    |i: int|
                        if 0 <= i < fields@.len() {
                            (fields@[i].0@, fields@[i].1.tree())
                        } else {
                            (Seq::empty(), Tree::Null)
                        },
                ),
            ),
        }
    }
}

impl<R> View for Json<R> {
    type V = Tree<R>;

    open spec fn view(&self) -> Tree<R> {
        self.tree()
    }
}

/// One field of an object.
pub type Field<R> = (&'static str, Json<R>);

/// The contents of fields.
pub open spec fn field_trees<R>(fields: Seq<Field<R>>) -> Seq<(Seq<char>, Tree<R>)> {
    fields.map_values(|field: Field<R>| (field.0@, field.1@))
}

/// The contents of array items.
pub open spec fn item_trees<R>(items: Seq<Json<R>>) -> Seq<Tree<R>> {
    items.map_values(|item: Json<R>| item@)
}

impl<R> Json<R> {
    fn number(n: u64) -> (json: Self)
        ensures
            json@ == Tree::<R>::Number(n),
    {
        Json::Number(n)
    }

    fn text(text: &str) -> (json: Self)
        ensures
            json@ == Tree::<R>::Text(text@),
    {
        Json::Text(text.to_string())
    }

    fn hash(hash: B256) -> (json: Self)
        ensures
            json@ == Tree::<R>::Hash(hash),
    {
        Json::Hash(hash)
    }

    fn null() -> (json: Self)
        ensures
            json@ == Tree::<R>::Null,
    {
        Json::Null
    }

    fn receipt(receipt: R) -> (json: Self)
        ensures
            json@ == Tree::<R>::Receipt(receipt),
    {
        Json::Receipt(receipt)
    }

    fn array(items: Vec<Json<R>>) -> (json: Self)
        ensures
            json@ == Tree::<R>::Array(item_trees(items@)),
    {
        let json = Json::Array(items);
        assert(json.tree()->Array_0 =~= item_trees(items@));
        json
    }

    fn object(fields: Vec<Field<R>>) -> (json: Self)
        ensures
            json@ == Tree::<R>::Object(field_trees(fields@)),
    {
        let json = Json::Object(fields);
        assert(json.tree()->Object_0 =~= field_trees(fields@));
        json
    }
}

/// A block by height and hash.
pub open spec fn anchor_tree<R>(anchor: BlockNumHash) -> Tree<R> {
    Tree::Object(
        seq![
            ("blockNumber"@, Tree::Number(anchor.number)),
            ("blockHash"@, Tree::Hash(anchor.hash)),
        ],
    )
}

fn anchor_json<R>(anchor: BlockNumHash) -> (json: Json<R>)
    ensures
        json@ == anchor_tree::<R>(anchor),
{
    let fields = vec![
        ("blockNumber", Json::number(anchor.number)),
        ("blockHash", Json::hash(anchor.hash)),
    ];
    assert(field_trees(fields@) =~= anchor_tree::<R>(anchor)->Object_0);
    Json::object(fields)
}

/// A block by height, hash and parent hash, or null.
pub open spec fn position_tree<R>(position: Option<Position>) -> Tree<R> {
    match position {
        Some(position) => Tree::Object(
            seq![
                ("blockNumber"@, Tree::Number(position.number)),
                ("blockHash"@, Tree::Hash(position.hash)),
                ("parentHash"@, Tree::Hash(position.parent)),
            ],
        ),
        None => Tree::Null,
    }
}

fn position_json<R>(position: Option<Position>) -> (json: Json<R>)
    ensures
        json@ == position_tree::<R>(position),
{
    match position {
        Some(block) => {
            let fields = vec![
                ("blockNumber", Json::number(block.number)),
                ("blockHash", Json::hash(block.hash)),
                ("parentHash", Json::hash(block.parent)),
            ];
            assert(field_trees(fields@) =~= position_tree::<R>(position)->Object_0);
            Json::object(fields)
        },
        None => Json::null(),
    }
}

/// The first message: the chain, and the block to load state at.
pub open spec fn ready_tree<R>(
    session_id: Seq<char>,
    chain_id: u64,
    genesis_hash: B256,
    anchor: BlockNumHash,
) -> Tree<R> {
    Tree::Object(
        seq![
            ("type"@, Tree::Text("ready"@)),
            ("sessionId"@, Tree::Text(session_id)),
            ("sequence"@, Tree::Number(0)),
            ("chainId"@, Tree::Number(chain_id)),
            ("genesisHash"@, Tree::Hash(genesis_hash)),
            ("anchor"@, anchor_tree(anchor)),
        ],
    )
}

/// Writes the first message.
pub fn ready_message<R>(
    session_id: &str,
    chain_id: u64,
    genesis_hash: B256,
    anchor: BlockNumHash,
) -> (json: Json<R>)
    ensures
        json@ == ready_tree::<R>(session_id@, chain_id, genesis_hash, anchor),
{
    let fields = vec![
        ("type", Json::text("ready")),
        ("sessionId", Json::text(session_id)),
        ("sequence", Json::number(0)),
        ("chainId", Json::number(chain_id)),
        ("genesisHash", Json::hash(genesis_hash)),
        ("anchor", anchor_json(anchor)),
    ];
    assert(field_trees(fields@) =~= ready_tree::<R>(
        session_id@,
        chain_id,
        genesis_hash,
        anchor,
    )->Object_0);
    Json::object(fields)
}

/// The word for where receipts come from.
pub open spec fn source_word(source: Source) -> Seq<char> {
    match source {
        Source::Canonical => "canonical"@,
        Source::Pending => "pending"@,
    }
}

/// One event of a batch. The fields of an update or a seal stand beside the type of the event.
pub open spec fn event_tree<R>(event: Event<Update<R>>) -> Tree<R> {
    match event {
        Event::Apply(update) => Tree::Object(
            seq![
                ("type"@, Tree::Text("apply"@)),
                ("blockNumber"@, Tree::Number(update.block_number)),
                ("parentHash"@, Tree::Hash(update.parent_hash)),
                ("blockHash"@, Tree::Hash(update.block_hash)),
                ("source"@, Tree::Text(source_word(update.source))),
                ("fromTransactionIndex"@, Tree::Number(update.from_transaction_index as u64)),
                (
                    "receipts"@,
                    Tree::Array(update.receipts@.map_values(|receipt: R| Tree::Receipt(receipt))),
                ),
            ],
        ),
        Event::Seal(seal) => Tree::Object(
            seq![
                ("type"@, Tree::Text("seal"@)),
                ("blockNumber"@, Tree::Number(seal.block_number)),
                ("blockHash"@, Tree::Hash(seal.block_hash)),
                ("parentHash"@, Tree::Hash(seal.parent_hash)),
                ("transactionCount"@, Tree::Number(seal.transaction_count as u64)),
            ],
        ),
    }
}

fn receipts_json<R>(receipts: Vec<R>) -> (json: Json<R>)
    ensures
        json@ == Tree::Array(receipts@.map_values(|receipt: R| Tree::Receipt(receipt))),
{
    let ghost trees = receipts@.map_values(|receipt: R| Tree::Receipt(receipt));
    let mut items: Vec<Json<R>> = Vec::with_capacity(receipts.len());
    for receipt in it: receipts
        invariant
            it.seq() == receipts@,
            items@.len() == it.index(),
            trees == receipts@.map_values(|receipt: R| Tree::Receipt(receipt)),
            forall|i: int| 0 <= i < items@.len() ==> (#[trigger] items@[i])@ == trees[i],
    {
        items.push(Json::receipt(receipt));
    }
    assert(item_trees(items@) =~= trees);
    Json::array(items)
}

fn event_json<R>(event: Event<Update<R>>) -> (json: Json<R>)
    ensures
        json@ == event_tree(event),
{
    let ghost tree = event_tree(event);
    match event {
        Event::Apply(update) => {
            let source = match update.source {
                Source::Canonical => "canonical",
                Source::Pending => "pending",
            };
            let fields = vec![
                ("type", Json::text("apply")),
                ("blockNumber", Json::number(update.block_number)),
                ("parentHash", Json::hash(update.parent_hash)),
                ("blockHash", Json::hash(update.block_hash)),
                ("source", Json::text(source)),
                ("fromTransactionIndex", Json::number(update.from_transaction_index as u64)),
                ("receipts", receipts_json(update.receipts)),
            ];
            assert(field_trees(fields@) =~= tree->Object_0);
            Json::object(fields)
        },
        Event::Seal(seal) => {
            let fields = vec![
                ("type", Json::text("seal")),
                ("blockNumber", Json::number(seal.block_number)),
                ("blockHash", Json::hash(seal.block_hash)),
                ("parentHash", Json::hash(seal.parent_hash)),
                ("transactionCount", Json::number(seal.transaction_count as u64)),
            ];
            assert(field_trees(fields@) =~= tree->Object_0);
            Json::object(fields)
        },
    }
}

/// A batch of events, in order.
pub open spec fn batch_tree<R>(
    session_id: Seq<char>,
    sequence: u64,
    events: Seq<Event<Update<R>>>,
) -> Tree<R> {
    Tree::Object(
        seq![
            ("type"@, Tree::Text("batch"@)),
            ("sessionId"@, Tree::Text(session_id)),
            ("sequence"@, Tree::Number(sequence)),
            (
                "events"@,
                Tree::Array(events.map_values(|event: Event<Update<R>>| event_tree(event))),
            ),
        ],
    )
}

/// Writes a batch.
pub fn batch_message<R>(session_id: &str, sequence: u64, events: Vec<Event<Update<R>>>) -> (json:
    Json<R>)
    ensures
        json@ == batch_tree(session_id@, sequence, events@),
{
    let ghost trees = events@.map_values(|event: Event<Update<R>>| event_tree(event));
    let mut items: Vec<Json<R>> = Vec::with_capacity(events.len());
    for event in it: events
        invariant
            it.seq() == events@,
            items@.len() == it.index(),
            trees == events@.map_values(|event: Event<Update<R>>| event_tree(event)),
            forall|i: int| 0 <= i < items@.len() ==> (#[trigger] items@[i])@ == trees[i],
    {
        items.push(event_json(event));
    }
    assert(item_trees(items@) =~= trees);
    let fields = vec![
        ("type", Json::text("batch")),
        ("sessionId", Json::text(session_id)),
        ("sequence", Json::number(sequence)),
        ("events", Json::array(items)),
    ];
    assert(field_trees(fields@) =~= batch_tree(session_id@, sequence, events@)->Object_0);
    Json::object(fields)
}

/// The words for why a subscription ended.
pub open spec fn reason_words(reason: Failure<String>) -> Seq<char> {
    match reason {
        Failure::Rule(reason) => reason.word(),
        Failure::Outside(words) => words@,
    }
}

/// Where a subscription stood when it ended.
pub open spec fn context_tree<R>(context: ResetContext) -> Tree<R> {
    Tree::Object(
        seq![
            ("anchor"@, anchor_tree(context.anchor)),
            ("lastCanonicalInput"@, position_tree(context.last_canonical_input)),
            ("queuedCanonical"@, position_tree(context.queued_canonical)),
            (
                "repairTarget"@,
                match context.repair_target {
                    Some(to) => Tree::Number(to),
                    None => Tree::Null,
                },
            ),
        ],
    )
}

/// Writes where a subscription stood when it ended.
pub fn context_json<R>(context: &ResetContext) -> (json: Json<R>)
    ensures
        json@ == context_tree::<R>(*context),
{
    let fields = vec![
        ("anchor", anchor_json(context.anchor)),
        ("lastCanonicalInput", position_json(context.last_canonical_input)),
        ("queuedCanonical", position_json(context.queued_canonical)),
        (
            "repairTarget",
            match context.repair_target {
                Some(to) => Json::number(to),
                None => Json::null(),
            },
        ),
    ];
    assert(field_trees(fields@) =~= context_tree::<R>(*context)->Object_0);
    Json::object(fields)
}

/// The last message of a subscription that broke a rule or failed.
pub open spec fn reset_tree<R>(session_id: Seq<char>, reset: Reset) -> Tree<R> {
    Tree::Object(
        seq![
            ("type"@, Tree::Text("reset"@)),
            ("sessionId"@, Tree::Text(session_id)),
            ("sequence"@, Tree::Number(reset.sequence)),
            ("reason"@, Tree::Text(reason_words(reset.reason))),
            ("context"@, context_tree(reset.context)),
        ],
    )
}

/// Writes the last message of a subscription that broke a rule or failed.
pub fn reset_message<R>(session_id: &str, reset: &Reset) -> (json: Json<R>)
    ensures
        json@ == reset_tree::<R>(session_id@, *reset),
{
    let words = match &reset.reason {
        Failure::Rule(reason) => reason.as_str(),
        Failure::Outside(words) => words.as_str(),
    };
    let fields = vec![
        ("type", Json::text("reset")),
        ("sessionId", Json::text(session_id)),
        ("sequence", Json::number(reset.sequence)),
        ("reason", Json::text(words)),
        ("context", context_json(&reset.context)),
    ];
    assert(field_trees(fields@) =~= reset_tree::<R>(session_id@, *reset)->Object_0);
    Json::object(fields)
}

/// Whether a message starts with what kind of message it is, its session and its number.
pub open spec fn is_headed<R>(
    message: Tree<R>,
    kind: Seq<char>,
    session_id: Seq<char>,
    sequence: u64,
) -> bool {
    &&& message is Object
    &&& message->Object_0.len() >= 3
    &&& message->Object_0[0] == ("type"@, Tree::<R>::Text(kind))
    &&& message->Object_0[1] == ("sessionId"@, Tree::<R>::Text(session_id))
    &&& message->Object_0[2] == ("sequence"@, Tree::<R>::Number(sequence))
}

/// **Every message names its session and its number.** The first message has number 0.
pub proof fn messages_are_headed<R>(
    session_id: Seq<char>,
    chain_id: u64,
    genesis_hash: B256,
    anchor: BlockNumHash,
    sequence: u64,
    events: Seq<Event<Update<R>>>,
    reset: Reset,
)
    ensures
        is_headed(
            ready_tree::<R>(session_id, chain_id, genesis_hash, anchor),
            "ready"@,
            session_id,
            0,
        ),
        is_headed(batch_tree(session_id, sequence, events), "batch"@, session_id, sequence),
        is_headed(reset_tree::<R>(session_id, reset), "reset"@, session_id, reset.sequence),
{
}

/// Whether a message can be read: it has exactly one value under this name, and it is this one.
pub open spec fn reads<R>(message: Tree<R>, name: Seq<char>, value: Tree<R>) -> bool {
    &&& message is Object
    &&& exists|i: int|
        0 <= i < message->Object_0.len() && #[trigger] message->Object_0[i] == (name, value)
    &&& forall|i: int|
        0 <= i < message->Object_0.len() && (#[trigger] message->Object_0[i]).0 == name
            ==> message->Object_0[i].1 == value
}

/// **A JSON value is its tree.** Numbers, texts, hashes and receipts stand for themselves, arrays
/// and objects for what they hold, in order.
pub proof fn values_are_their_trees<R>(
    n: u64,
    text: String,
    hash: B256,
    receipt: R,
    items: Vec<Json<R>>,
    fields: Vec<Field<R>>,
)
    ensures
        Json::<R>::Null@ == Tree::<R>::Null,
        Json::<R>::Number(n)@ == Tree::<R>::Number(n),
        Json::<R>::Text(text)@ == Tree::<R>::Text(text@),
        Json::<R>::Hash(hash)@ == Tree::<R>::Hash(hash),
        Json::Receipt(receipt)@ == Tree::Receipt(receipt),
        Json::Array(items)@ is Array,
        Json::Array(items)@->Array_0.len() == items@.len(),
        forall|i: int|
            0 <= i < items@.len() ==> #[trigger] Json::Array(items)@->Array_0[i] == items@[i]@,
        Json::Object(fields)@ is Object,
        Json::Object(fields)@->Object_0.len() == fields@.len(),
        forall|i: int|
            0 <= i < fields@.len() ==> #[trigger] Json::Object(fields)@->Object_0[i] == (
                fields@[i].0@,
                fields@[i].1@,
            ),
{
}

/// **A written block id reads back.**
pub proof fn anchor_reads_back<R>(anchor: BlockNumHash)
    ensures
        anchor_tree::<R>(anchor)->Object_0.len() == 2,
        reads(anchor_tree::<R>(anchor), "blockNumber"@, Tree::Number(anchor.number)),
        reads(anchor_tree::<R>(anchor), "blockHash"@, Tree::Hash(anchor.hash)),
{
    reveal_strlit("blockNumber");
    reveal_strlit("blockHash");
    let fields = anchor_tree::<R>(anchor)->Object_0;
    assert(fields[0].0 == "blockNumber"@);
    assert(fields[1].0 == "blockHash"@);
}

/// **A written position reads back**, and one that is not known is null.
pub proof fn position_reads_back<R>(position: Position)
    ensures
        position_tree::<R>(None) is Null,
        position_tree::<R>(Some(position))->Object_0.len() == 3,
        reads(position_tree::<R>(Some(position)), "blockNumber"@, Tree::Number(position.number)),
        reads(position_tree::<R>(Some(position)), "blockHash"@, Tree::Hash(position.hash)),
        reads(position_tree::<R>(Some(position)), "parentHash"@, Tree::Hash(position.parent)),
{
    reveal_strlit("blockNumber");
    reveal_strlit("blockHash");
    reveal_strlit("parentHash");
    let fields = position_tree::<R>(Some(position))->Object_0;
    assert(fields[0].0 == "blockNumber"@);
    assert(fields[1].0 == "blockHash"@);
    assert(fields[2].0 == "parentHash"@);
}

/// **A written update reads back.** Every field of it stands under its name, whatever its value,
/// and its receipts stand in their order.
pub proof fn apply_event_reads_back<R>(update: Update<R>, from: u64)
    requires
        from == update.from_transaction_index,
    ensures
        ({
            let message = event_tree(Event::Apply(update));
            let receipts = Tree::Array(
                Seq::new(update.receipts@.len(), |i: int| Tree::Receipt(update.receipts@[i])),
            );
            &&& message->Object_0.len() == 7
            &&& reads(message, "type"@, Tree::Text("apply"@))
            &&& reads(message, "blockNumber"@, Tree::Number(update.block_number))
            &&& reads(message, "parentHash"@, Tree::Hash(update.parent_hash))
            &&& reads(message, "blockHash"@, Tree::Hash(update.block_hash))
            &&& reads(
                message,
                "source"@,
                Tree::Text(
                    if update.source is Canonical {
                        "canonical"@
                    } else {
                        "pending"@
                    },
                ),
            )
            &&& reads(message, "fromTransactionIndex"@, Tree::Number(from))
            &&& reads(message, "receipts"@, receipts)
        }),
{
    reveal_strlit("type");
    reveal_strlit("blockNumber");
    reveal_strlit("parentHash");
    reveal_strlit("blockHash");
    reveal_strlit("source");
    reveal_strlit("fromTransactionIndex");
    reveal_strlit("receipts");
    let fields = event_tree(Event::Apply(update))->Object_0;
    assert(fields[0].0 == "type"@);
    assert(fields[1].0 == "blockNumber"@);
    assert(fields[2].0 == "parentHash"@);
    assert(fields[3].0 == "blockHash"@);
    assert(fields[4].0 == "source"@);
    assert(fields[5].0 == "fromTransactionIndex"@);
    assert(fields[6].0 == "receipts"@);
    assert(update.receipts@.map_values(|receipt: R| Tree::Receipt(receipt)) =~= Seq::new(
        update.receipts@.len(),
        |i: int| Tree::Receipt(update.receipts@[i]),
    ));
}

/// **Updates that differ are written differently.** From a written update, all of it is known.
pub proof fn updates_are_told_apart<R>(left: Update<R>, right: Update<R>)
    requires
        event_tree(Event::Apply(left)) == event_tree(Event::Apply(right)),
    ensures
        left.block_number == right.block_number,
        left.parent_hash == right.parent_hash,
        left.block_hash == right.block_hash,
        left.source == right.source,
        left.from_transaction_index == right.from_transaction_index,
        left.receipts@ == right.receipts@,
{
    reveal_strlit("canonical");
    reveal_strlit("pending");
    let (fields, others) = (
        event_tree(Event::Apply(left))->Object_0,
        event_tree(Event::Apply(right))->Object_0,
    );
    assert(fields[1] == others[1]);
    assert(fields[2] == others[2]);
    assert(fields[3] == others[3]);
    assert(fields[4] == others[4]);
    assert("canonical"@.len() == 9 && "pending"@.len() == 7);
    assert(source_word(left.source) == source_word(right.source));
    assert(fields[5] == others[5]);
    assert(fields[6] == others[6]);
    let (items, other_items) = (fields[6].1->Array_0, others[6].1->Array_0);
    assert(items.len() == left.receipts@.len());
    assert(other_items.len() == right.receipts@.len());
    assert forall|i: int| 0 <= i < left.receipts@.len() implies left.receipts@[i]
        == right.receipts@[i] by {
        assert(items[i] == Tree::Receipt(left.receipts@[i]));
        assert(other_items[i] == Tree::Receipt(right.receipts@[i]));
    }
    assert(left.receipts@ =~= right.receipts@);
}

/// **A written seal reads back.**
pub proof fn seal_event_reads_back<R>(seal: Seal, count: u64)
    requires
        count == seal.transaction_count,
    ensures
        ({
            let message = event_tree::<R>(Event::Seal(seal));
            &&& message->Object_0.len() == 5
            &&& reads(message, "type"@, Tree::Text("seal"@))
            &&& reads(message, "blockNumber"@, Tree::Number(seal.block_number))
            &&& reads(message, "blockHash"@, Tree::Hash(seal.block_hash))
            &&& reads(message, "parentHash"@, Tree::Hash(seal.parent_hash))
            &&& reads(message, "transactionCount"@, Tree::Number(count))
        }),
{
    reveal_strlit("type");
    reveal_strlit("blockNumber");
    reveal_strlit("blockHash");
    reveal_strlit("parentHash");
    reveal_strlit("transactionCount");
    let fields = event_tree::<R>(Event::Seal(seal))->Object_0;
    assert(fields[0].0 == "type"@);
    assert(fields[1].0 == "blockNumber"@);
    assert(fields[2].0 == "blockHash"@);
    assert(fields[3].0 == "parentHash"@);
    assert(fields[4].0 == "transactionCount"@);
}

/// **The first message reads back.**
pub proof fn ready_reads_back<R>(
    session_id: Seq<char>,
    chain_id: u64,
    genesis_hash: B256,
    anchor: BlockNumHash,
)
    ensures
        ({
            let message = ready_tree::<R>(session_id, chain_id, genesis_hash, anchor);
            &&& message->Object_0.len() == 6
            &&& reads(message, "type"@, Tree::Text("ready"@))
            &&& reads(message, "sessionId"@, Tree::Text(session_id))
            &&& reads(message, "sequence"@, Tree::Number(0))
            &&& reads(message, "chainId"@, Tree::Number(chain_id))
            &&& reads(message, "genesisHash"@, Tree::Hash(genesis_hash))
            &&& reads(message, "anchor"@, anchor_tree(anchor))
        }),
{
    reveal_strlit("type");
    reveal_strlit("sessionId");
    reveal_strlit("sequence");
    reveal_strlit("chainId");
    reveal_strlit("genesisHash");
    reveal_strlit("anchor");
    let fields = ready_tree::<R>(session_id, chain_id, genesis_hash, anchor)->Object_0;
    assert(fields[0].0 == "type"@);
    assert(fields[1].0 == "sessionId"@);
    assert(fields[2].0 == "sequence"@);
    assert(fields[3].0 == "chainId"@);
    assert(fields[4].0 == "genesisHash"@);
    assert(fields[5].0 == "anchor"@);
}

/// **A batch reads back**: its session, its number, and every event in its place.
pub proof fn batch_reads_back<R>(
    session_id: Seq<char>,
    sequence: u64,
    events: Seq<Event<Update<R>>>,
)
    ensures
        ({
            let message = batch_tree(session_id, sequence, events);
            let written = Tree::Array(Seq::new(events.len(), |i: int| event_tree(events[i])));
            &&& message->Object_0.len() == 4
            &&& reads(message, "type"@, Tree::Text("batch"@))
            &&& reads(message, "sessionId"@, Tree::Text(session_id))
            &&& reads(message, "sequence"@, Tree::Number(sequence))
            &&& reads(message, "events"@, written)
        }),
{
    reveal_strlit("type");
    reveal_strlit("sessionId");
    reveal_strlit("sequence");
    reveal_strlit("events");
    let fields = batch_tree(session_id, sequence, events)->Object_0;
    assert(fields[0].0 == "type"@);
    assert(fields[1].0 == "sessionId"@);
    assert(fields[2].0 == "sequence"@);
    assert(fields[3].0 == "events"@);
    assert(events.map_values(|event: Event<Update<R>>| event_tree(event)) =~= Seq::new(
        events.len(),
        |i: int| event_tree(events[i]),
    ));
}

/// **A reset reads back**: its session and number, the word of the broken rule or what a failure
/// said, and where the subscription stood.
pub proof fn reset_reads_back<R>(session_id: Seq<char>, reset: Reset)
    ensures
        ({
            let message = reset_tree::<R>(session_id, reset);
            let words = match reset.reason {
                Failure::Rule(reason) => reason.word(),
                Failure::Outside(text) => text@,
            };
            &&& message->Object_0.len() == 5
            &&& reads(message, "type"@, Tree::Text("reset"@))
            &&& reads(message, "sessionId"@, Tree::Text(session_id))
            &&& reads(message, "sequence"@, Tree::Number(reset.sequence))
            &&& reads(message, "reason"@, Tree::Text(words))
            &&& reads(message, "context"@, context_tree(reset.context))
        }),
{
    reveal_strlit("type");
    reveal_strlit("sessionId");
    reveal_strlit("sequence");
    reveal_strlit("reason");
    reveal_strlit("context");
    let fields = reset_tree::<R>(session_id, reset)->Object_0;
    assert(fields[0].0 == "type"@);
    assert(fields[1].0 == "sessionId"@);
    assert(fields[2].0 == "sequence"@);
    assert(fields[3].0 == "reason"@);
    assert(fields[4].0 == "context"@);
}

/// **The context of a reset reads back**; what is not known of it is null.
pub proof fn context_reads_back<R>(context: ResetContext)
    ensures
        ({
            let message = context_tree::<R>(context);
            let target = if context.repair_target is Some {
                Tree::Number(context.repair_target->0)
            } else {
                Tree::Null
            };
            &&& message->Object_0.len() == 4
            &&& reads(message, "anchor"@, anchor_tree(context.anchor))
            &&& reads(
                message,
                "lastCanonicalInput"@,
                position_tree(context.last_canonical_input),
            )
            &&& reads(message, "queuedCanonical"@, position_tree(context.queued_canonical))
            &&& reads(message, "repairTarget"@, target)
        }),
{
    reveal_strlit("anchor");
    reveal_strlit("lastCanonicalInput");
    reveal_strlit("queuedCanonical");
    reveal_strlit("repairTarget");
    let fields = context_tree::<R>(context)->Object_0;
    assert(fields[0].0 == "anchor"@);
    assert(fields[1].0 == "lastCanonicalInput"@);
    assert(fields[2].0 == "queuedCanonical"@);
    assert(fields[3].0 == "repairTarget"@);
}

} // verus!
