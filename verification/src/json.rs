//! The JSON texts of the values that the messages hold.
use vstd::prelude::*;

verus! {

/// The digit of a value below sixteen, with lower-case letters.
pub open spec fn digit(d: int) -> char {
    if d < 10 {
        (d + 48) as char
    } else {
        (d + 87) as char
    }
}

/// A number in decimal, without leading zeros.
pub open spec fn nat_text(n: nat) -> Seq<char>
    decreases n,
{
    if n < 10 {
        seq![digit(n as int)]
    } else {
        nat_text(n / 10).push(digit((n % 10) as int))
    }
}

/// An integer in decimal, with a minus sign where it is negative.
pub open spec fn int_text(i: int) -> Seq<char> {
    if i < 0 {
        seq!['-'] + nat_text((-i) as nat)
    } else {
        nat_text(i as nat)
    }
}

/// A character as it stands inside a JSON string: quotes, backslashes and control
/// characters are escaped.
pub open spec fn escaped(c: char) -> Seq<char> {
    if c == '"' || c == '\\' {
        seq!['\\', c]
    } else if c as int == 8 {
        seq!['\\', 'b']
    } else if c as int == 9 {
        seq!['\\', 't']
    } else if c as int == 10 {
        seq!['\\', 'n']
    } else if c as int == 12 {
        seq!['\\', 'f']
    } else if c as int == 13 {
        seq!['\\', 'r']
    } else if (c as int) < 32 {
        seq!['\\', 'u', '0', '0', digit(c as int / 16), digit(c as int % 16)]
    } else {
        seq![c]
    }
}

/// All characters of a text, each escaped.
pub open spec fn all_escaped(text: Seq<char>) -> Seq<char>
    decreases text.len(),
{
    if text.len() == 0 {
        Seq::empty()
    } else {
        escaped(text.first()) + all_escaped(text.drop_first())
    }
}

/// A text as a JSON string.
pub open spec fn quoted(text: Seq<char>) -> Seq<char> {
    seq!['"'] + all_escaped(text) + seq!['"']
}

/// A pair of integers as a JSON array.
pub open spec fn pair_text(pair: (i64, i64)) -> Seq<char> {
    seq!['['] + int_text(pair.0 as int) + seq![','] + int_text(pair.1 as int) + seq![']']
}

/// The texts of the pairs, with commas between them.
pub open spec fn listed(pairs: Seq<(i64, i64)>) -> Seq<char>
    decreases pairs.len(),
{
    if pairs.len() == 0 {
        Seq::empty()
    } else if pairs.len() == 1 {
        pair_text(pairs.first())
    } else {
        pair_text(pairs.first()) + seq![','] + listed(pairs.drop_first())
    }
}

/// A list of pairs as a JSON array of arrays.
pub open spec fn pairs_text(pairs: Seq<(i64, i64)>) -> Seq<char> {
    seq!['['] + listed(pairs) + seq![']']
}

/// Calls `serde_json::to_string` on a string. It is trusted to write the string
/// between quotes, with quotes, backslashes and control characters escaped.
#[verifier::external_body]
pub(crate) fn string_to_json(text: &str) -> (r: String)
    ensures
        r@ == quoted(text@),
{
    serde_json::to_string(text).unwrap()
}

/// Calls `serde_json::to_string` on an unsigned integer. It is trusted to write the
/// integer in decimal.
#[verifier::external_body]
pub(crate) fn number_to_json(n: u64) -> (r: String)
    ensures
        r@ == nat_text(n as nat),
{
    serde_json::to_string(&n).unwrap()
}

/// Calls `serde_json::to_string` on a list of pairs of integers. It is trusted to
/// write an array with one array of two decimal integers for each pair, in order and
/// without white space.
#[verifier::external_body]
pub(crate) fn pairs_to_json(pairs: &Vec<(i64, i64)>) -> (r: String)
    ensures
        r@ == pairs_text(pairs@),
{
    serde_json::to_string(pairs).unwrap()
}

} // verus!
