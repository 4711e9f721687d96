//! Names of subscriptions.

use vstd::prelude::*;

verus! {

/// A decimal digit.
pub open spec fn digit(d: nat) -> char {
    seq!['0', '1', '2', '3', '4', '5', '6', '7', '8', '9'][d as int]
}

/// A number in decimal.
pub open spec fn decimal(n: nat) -> Seq<char>
    decreases n,
{
    if n < 10 {
        seq![digit(n)]
    } else {
        decimal(n / 10).push(digit(n % 10))
    }
}

/// The name of a subscription: the process, the time and the ordinal of the subscription within the
/// process.
pub open spec fn session_name(process: nat, nanos: nat, ordinal: nat) -> Seq<char> {
    decimal(process) + seq!['-'] + decimal(nanos) + seq!['-'] + decimal(ordinal)
}

fn digit_text(d: u128) -> (text: &'static str)
    requires
        d < 10,
    ensures
        text@ == seq![digit(d as nat)],
{
    proof {
        reveal_strlit("0");
        reveal_strlit("1");
        reveal_strlit("2");
        reveal_strlit("3");
        reveal_strlit("4");
        reveal_strlit("5");
        reveal_strlit("6");
        reveal_strlit("7");
        reveal_strlit("8");
        reveal_strlit("9");
    }
    let text = match d {
        0 => "0",
        1 => "1",
        2 => "2",
        3 => "3",
        4 => "4",
        5 => "5",
        6 => "6",
        7 => "7",
        8 => "8",
        _ => "9",
    };
    assert(text@ =~= seq![digit(d as nat)]);
    text
}

fn push_decimal(text: &mut String, n: u128)
    ensures
        final(text)@ == old(text)@ + decimal(n as nat),
    decreases n,
{
    if n >= 10 {
        push_decimal(text, n / 10);
    }
    text.append(digit_text(n % 10));
    assert(text@ =~= old(text)@ + decimal(n as nat));
}

/// Names a subscription.
pub fn session_id(process: u32, nanos: u128, ordinal: u64) -> (id: String)
    ensures
        id@ == session_name(process as nat, nanos as nat, ordinal as nat),
{
    let mut id = String::new();
    proof {
        reveal_strlit("-");
        assert("-"@ =~= seq!['-']);
    }
    push_decimal(&mut id, process as u128);
    id.append("-");
    push_decimal(&mut id, nanos);
    id.append("-");
    push_decimal(&mut id, ordinal as u128);
    assert(id@ =~= session_name(process as nat, nanos as nat, ordinal as nat));
    id
}

proof fn lemma_decimal_digits(n: nat, i: int)
    requires
        0 <= i < decimal(n).len(),
    ensures
        decimal(n)[i] != '-',
    decreases n,
{
    if n >= 10 && i < decimal(n).len() - 1 {
        lemma_decimal_digits(n / 10, i);
    }
}

proof fn lemma_decimal_not_empty(n: nat)
    ensures
        decimal(n).len() > 0,
{
}

proof fn lemma_decimal_injective(m: nat, n: nat)
    requires
        decimal(m) == decimal(n),
    ensures
        m == n,
    decreases m,
{
    assert(decimal(m).last() == digit(m % 10));
    assert(decimal(n).last() == digit(n % 10));
    assert(m % 10 == n % 10);
    if m >= 10 {
        lemma_decimal_not_empty(m / 10);
        assert(n >= 10);
        assert(decimal(m).drop_last() =~= decimal(m / 10));
        assert(decimal(n).drop_last() =~= decimal(n / 10));
        lemma_decimal_injective(m / 10, n / 10);
    } else if n >= 10 {
        lemma_decimal_not_empty(n / 10);
    }
}

/// A number in decimal is told from what follows its hyphen.
proof fn lemma_split(m: nat, m_rest: Seq<char>, n: nat, n_rest: Seq<char>)
    requires
        decimal(m) + seq!['-'] + m_rest == decimal(n) + seq!['-'] + n_rest,
    ensures
        m == n,
        m_rest == n_rest,
{
    let left = decimal(m) + seq!['-'] + m_rest;
    let right = decimal(n) + seq!['-'] + n_rest;
    let i = decimal(m).len() as int;
    let j = decimal(n).len() as int;
    assert(left[i] == '-');
    assert(right[j] == '-');
    if i < j {
        lemma_decimal_digits(n, i);
        assert(right[i] == decimal(n)[i]);
    }
    if j < i {
        lemma_decimal_digits(m, j);
        assert(left[j] == decimal(m)[j]);
    }
    assert(decimal(m) =~= left.take(i));
    assert(decimal(n) =~= right.take(j));
    lemma_decimal_injective(m, n);
    assert(m_rest =~= left.skip(i + 1));
    assert(n_rest =~= right.skip(j + 1));
}

/// **Subscriptions are told apart.** Two subscriptions have the same name only when they are of the
/// same process, time and ordinal.
pub proof fn names_are_distinct(
    process: nat,
    nanos: nat,
    ordinal: nat,
    other_process: nat,
    other_nanos: nat,
    other_ordinal: nat,
)
    requires
        session_name(process, nanos, ordinal) == session_name(
            other_process,
            other_nanos,
            other_ordinal,
        ),
    ensures
        process == other_process,
        nanos == other_nanos,
        ordinal == other_ordinal,
{
    let rest = decimal(nanos) + seq!['-'] + decimal(ordinal);
    let other_rest = decimal(other_nanos) + seq!['-'] + decimal(other_ordinal);
    assert(session_name(process, nanos, ordinal) =~= decimal(process) + seq!['-'] + rest);
    assert(session_name(other_process, other_nanos, other_ordinal) =~= decimal(other_process)
        + seq!['-'] + other_rest);
    lemma_split(process, rest, other_process, other_rest);
    lemma_split(nanos, decimal(ordinal), other_nanos, decimal(other_ordinal));
    lemma_decimal_injective(ordinal, other_ordinal);
}

/// The value of a text of digits, read as a number.
pub open spec fn value_of(text: Seq<char>) -> nat
    decreases text.len(),
{
    if text.len() == 0 {
        0
    } else {
        10 * value_of(text.drop_last()) + (text.last() as u32 - '0' as u32) as nat
    }
}

/// Whether a text is a number in decimal: digits alone, no needless zero in front, and the value.
pub open spec fn is_decimal(text: Seq<char>, n: nat) -> bool {
    &&& text.len() > 0
    &&& forall|i: int| 0 <= i < text.len() ==> '0' <= #[trigger] text[i] && text[i] <= '9'
    &&& text.len() > 1 ==> text[0] != '0'
    &&& value_of(text) == n
}

proof fn lemma_decimal_reads_back(n: nat)
    ensures
        is_decimal(decimal(n), n),
    decreases n,
{
    let text = decimal(n);
    reveal_with_fuel(value_of, 2);
    if n >= 10 {
        lemma_decimal_reads_back(n / 10);
        assert(text.drop_last() =~= decimal(n / 10));
        assert(text.last() == digit(n % 10));
        assert forall|i: int| 0 <= i < text.len() implies '0' <= #[trigger] text[i] && text[i]
            <= '9' by {
            if i < text.len() - 1 {
                assert(text[i] == decimal(n / 10)[i]);
            }
        }
        if decimal(n / 10).len() == 1 {
            assert(decimal(n / 10).drop_last() =~= Seq::empty());
            assert(value_of(decimal(n / 10)) == n / 10);
        }
    } else {
        assert(text.drop_last() =~= Seq::empty());
    }
}

/// **A name reads back.** It is the process, the time and the ordinal, in this order, each in
/// decimal and with a hyphen in between.
pub proof fn name_reads_back(process: nat, nanos: nat, ordinal: nat)
    ensures
        exists|a: Seq<char>, b: Seq<char>, c: Seq<char>|
            {
                &&& #[trigger] is_decimal(a, process)
                &&& #[trigger] is_decimal(b, nanos)
                &&& #[trigger] is_decimal(c, ordinal)
                &&& session_name(process, nanos, ordinal) == a + seq!['-'] + b + seq!['-'] + c
            },
{
    lemma_decimal_reads_back(process);
    lemma_decimal_reads_back(nanos);
    lemma_decimal_reads_back(ordinal);
}

} // verus!
