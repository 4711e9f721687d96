//! How a subscription is asked for, and when the request is refused.

use jsonrpsee_types::Params;
use serde_json::Value;
use vstd::prelude::*;

verus! {

/// The code for parameters that a method does not take.
pub const INVALID_PARAMS: i32 = -32602;

/// The code for a request that the node cannot serve as it is set up.
pub const UNAVAILABLE: i32 = -32000;

/// The error that a refused request is answered with. The data, if any, is JSON text.
#[derive(Debug)]
pub struct Rejection {
    pub code: i32,
    pub message: String,
    pub data: Option<String>,
}

/// Unicode white space.
pub open spec fn is_blank(c: char) -> bool {
    let n = c as u32;
    ||| 0x9 <= n <= 0xd
    ||| n == 0x20
    ||| n == 0x85
    ||| n == 0xa0
    ||| n == 0x1680
    ||| 0x2000 <= n <= 0x200a
    ||| n == 0x2028
    ||| n == 0x2029
    ||| n == 0x202f
    ||| n == 0x205f
    ||| n == 0x3000
}

/// White space between JSON tokens.
pub open spec fn is_json_blank(c: char) -> bool {
    c == ' ' || c == '\t' || c == '\n' || c == '\r'
}

/// A text without the white space around it.
pub open spec fn trimmed(text: Seq<char>) -> Seq<char>
    decreases text.len(),
{
    if text.len() == 0 {
        text
    } else if is_blank(text.first()) {
        trimmed(text.drop_first())
    } else if is_blank(text.last()) {
        trimmed(text.drop_last())
    } else {
        text
    }
}

/// Whether a text is an empty JSON array.
pub open spec fn is_empty_array(text: Seq<char>) -> bool {
    &&& text.len() >= 2
    &&& text.first() == '['
    &&& text.last() == ']'
    &&& forall|i: int| 0 < i < text.len() - 1 ==> is_json_blank(#[trigger] text[i])
}

/// Whether a request has no parameters: none at all, `null`, or an empty array.
pub open spec fn has_no_params(raw: Option<Seq<char>>) -> bool {
    match raw {
        None => true,
        Some(text) => trimmed(text) == seq!['n', 'u', 'l', 'l'] || is_empty_array(trimmed(text)),
    }
}

/// The contents of an optional text.
pub open spec fn text_of(raw: Option<&str>) -> Option<Seq<char>> {
    match raw {
        Some(text) => Some(text@),
        None => None,
    }
}

/// The data of the error with which `jsonrpsee_types::Params::parse` refuses parameters: the words
/// of the JSON parser, as JSON text.
pub uninterp spec fn params_complaint(raw: Option<Seq<char>>) -> Seq<char>;

/// Calls `jsonrpsee_types::Params::parse` for an optional array of no values. Claimed of it: it
/// succeeds on no parameters, on `null` and on an empty array, and on nothing else; it fails with
/// the code and the message for invalid parameters, and with data that depends on the text alone.
#[verifier::external_body]
fn parse_no_params(raw: Option<&str>) -> (result: Result<(), Rejection>)
    ensures
        match result {
            Ok(_) => has_no_params(text_of(raw)),
            Err(rejection) => {
                &&& !has_no_params(text_of(raw))
                &&& rejection.code == INVALID_PARAMS
                &&& rejection.message@ == "Invalid params"@
                &&& rejection.data is Some
                &&& rejection.data->0@ == params_complaint(text_of(raw))
            },
        },
{
    match Params::new(raw).parse::<Option<[Value; 0]>>() {
        Ok(_) => Ok(()),
        Err(error) => Err(
            Rejection {
                code: error.code(),
                message: error.message().to_string(),
                data: error.data().map(|data| data.get().to_string()),
            },
        ),
    }
}

/// Checks that a subscription is asked for without options.
pub fn check_params(raw: Option<&str>) -> (result: Result<(), Rejection>)
    ensures
        match result {
            Ok(_) => has_no_params(text_of(raw)),
            Err(rejection) => {
                &&& !has_no_params(text_of(raw))
                &&& rejection.code == INVALID_PARAMS
                &&& rejection.message@ == "Invalid params"@
                &&& rejection.data is Some
                &&& rejection.data->0@ == params_complaint(text_of(raw))
            },
        },
{
    parse_no_params(raw)
}

impl Rejection {
    /// The answer of a node that publishes no pending blocks.
    pub fn flashblocks_disabled() -> (rejection: Self)
        ensures
            rejection.code == UNAVAILABLE,
            rejection.message@ == "Flashblocks is disabled"@,
            rejection.data is None,
    {
        Rejection {
            code: UNAVAILABLE,
            message: "Flashblocks is disabled".to_string(),
            data: None,
        }
    }

    /// The answer of a node that cannot tell its newest canonical block.
    pub fn anchor_unavailable() -> (rejection: Self)
        ensures
            rejection.code == UNAVAILABLE,
            rejection.message@ == "Canonical anchor unavailable"@,
            rejection.data is None,
    {
        Rejection {
            code: UNAVAILABLE,
            message: "Canonical anchor unavailable".to_string(),
            data: None,
        }
    }
}

/// **Options are refused.** Named parameters, and an array that holds anything, are no request for
/// a subscription.
pub proof fn options_are_refused(text: Seq<char>)
    requires
        trimmed(text).len() > 0,
        trimmed(text).first() == '{' || trimmed(text).first() == '[' && exists|i: int|
            0 < i < trimmed(text).len() - 1 && !is_json_blank(#[trigger] trimmed(text)[i]),
    ensures
        !has_no_params(Some(text)),
{
    assert(seq!['n', 'u', 'l', 'l'].first() == 'n');
}

proof fn lemma_trimmed(before: Seq<char>, core: Seq<char>, after: Seq<char>)
    requires
        forall|i: int| 0 <= i < before.len() ==> is_blank(#[trigger] before[i]),
        forall|i: int| 0 <= i < after.len() ==> is_blank(#[trigger] after[i]),
        core.len() > 0,
        !is_blank(core.first()),
        !is_blank(core.last()),
    ensures
        trimmed(before + core + after) == core,
    decreases before.len() + after.len(),
{
    let text = before + core + after;
    if before.len() > 0 {
        assert(text.first() == before[0]);
        assert(text.drop_first() =~= before.drop_first() + core + after);
        lemma_trimmed(before.drop_first(), core, after);
    } else if after.len() > 0 {
        assert(text.first() == core.first());
        assert(text.last() == after.last());
        assert(text.drop_last() =~= before + core + after.drop_last());
        lemma_trimmed(before, core, after.drop_last());
    } else {
        assert(text =~= core);
    }
}

/// **A request without parameters is accepted.** It has none at all, or `null`, or an array with
/// nothing but white space in it, with any white space around.
pub proof fn empty_requests_are_accepted(before: Seq<char>, inside: Seq<char>, after: Seq<char>)
    requires
        forall|i: int| 0 <= i < before.len() ==> is_blank(#[trigger] before[i]),
        forall|i: int| 0 <= i < inside.len() ==> is_json_blank(#[trigger] inside[i]),
        forall|i: int| 0 <= i < after.len() ==> is_blank(#[trigger] after[i]),
    ensures
        has_no_params(None),
        has_no_params(Some(before + seq!['n', 'u', 'l', 'l'] + after)),
        has_no_params(Some(before + (seq!['['] + inside + seq![']']) + after)),
{
    lemma_trimmed(before, seq!['n', 'u', 'l', 'l'], after);
    let array = seq!['['] + inside + seq![']'];
    lemma_trimmed(before, array, after);
    assert forall|i: int| 0 < i < array.len() - 1 implies is_json_blank(#[trigger] array[i]) by {
        assert(array[i] == inside[i - 1]);
    }
}

/// Whether a text is `core` with white space around it.
pub open spec fn is_wrapped(
    text: Seq<char>,
    before: Seq<char>,
    core: Seq<char>,
    after: Seq<char>,
) -> bool {
    &&& text == before + core + after
    &&& forall|i: int| 0 <= i < before.len() ==> is_blank(#[trigger] before[i])
    &&& forall|i: int| 0 <= i < after.len() ==> is_blank(#[trigger] after[i])
}

proof fn lemma_trimmed_is_wrapped(text: Seq<char>) -> (around: (Seq<char>, Seq<char>))
    ensures
        is_wrapped(text, around.0, trimmed(text), around.1),
    decreases text.len(),
{
    let empty = Seq::<char>::empty();
    if text.len() > 0 && is_blank(text.first()) {
        let (before, after) = lemma_trimmed_is_wrapped(text.drop_first());
        let more = seq![text.first()] + before;
        assert(text =~= seq![text.first()] + text.drop_first());
        assert(text =~= more + trimmed(text) + after);
        assert forall|i: int| 0 <= i < more.len() implies is_blank(#[trigger] more[i]) by {
            if i > 0 {
                assert(more[i] == before[i - 1]);
            }
        }
        (more, after)
    } else if text.len() > 0 && is_blank(text.last()) {
        let (before, after) = lemma_trimmed_is_wrapped(text.drop_last());
        let more = after.push(text.last());
        assert(text =~= text.drop_last().push(text.last()));
        assert(text =~= before + trimmed(text) + more);
        assert forall|i: int| 0 <= i < more.len() implies is_blank(#[trigger] more[i]) by {
            if i < after.len() {
                assert(more[i] == after[i]);
            }
        }
        (before, more)
    } else {
        assert(text =~= empty + text + empty);
        (empty, empty)
    }
}

/// **Nothing else is accepted.** Parameters that are accepted are `null`, or brackets with nothing
/// but white space in between, and white space around.
pub proof fn only_empty_requests_are_accepted(text: Seq<char>)
    requires
        has_no_params(Some(text)),
    ensures
        exists|before: Seq<char>, core: Seq<char>, after: Seq<char>|
            {
                &&& #[trigger] is_wrapped(text, before, core, after)
                &&& core == seq!['n', 'u', 'l', 'l'] || (core.len() >= 2 && core[0] == '['
                    && core[core.len() - 1] == ']' && forall|i: int|
                    0 < i < core.len() - 1 ==> is_json_blank(#[trigger] core[i]))
            },
{
    let (before, after) = lemma_trimmed_is_wrapped(text);
    assert(is_wrapped(text, before, trimmed(text), after));
}

} // verus!
