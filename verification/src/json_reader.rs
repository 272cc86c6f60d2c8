//! How JSON is read: strings, integers, arrays and objects, without white space between
//! the tokens; and that the texts of values read back as the values.
use vstd::prelude::*;

use crate::json::{
    all_escaped, digit, escaped, int_text, listed, nat_text, pair_text, pairs_text, quoted,
};

verus! {

/// A JSON value.
pub enum Json {
    Text(Seq<char>),
    Number(int),
    List(Seq<Json>),
    Object(Seq<(Seq<char>, Json)>),
}

pub open spec fn is_digit(c: char) -> bool {
    48 <= c as int <= 57
}

/// The value of a hexadecimal digit.
pub open spec fn hex_value(c: char) -> Option<int> {
    if is_digit(c) {
        Some(c as int - 48)
    } else if 97 <= c as int <= 102 {
        Some(c as int - 87)
    } else if 65 <= c as int <= 70 {
        Some(c as int - 55)
    } else {
        None
    }
}

/// The character that a backslash and the given one stand for.
pub open spec fn short_escape(c: char) -> Option<char> {
    if c == '"' || c == '\\' || c == '/' {
        Some(c)
    } else if c == 'b' {
        Some(8 as char)
    } else if c == 't' {
        Some(9 as char)
    } else if c == 'n' {
        Some(10 as char)
    } else if c == 'f' {
        Some(12 as char)
    } else if c == 'r' {
        Some(13 as char)
    } else {
        None
    }
}

/// The first character of what follows inside a string, and the rest behind it.
/// Surrogates are not read.
pub open spec fn read_char(text: Seq<char>) -> Option<(char, Seq<char>)> {
    if text.len() == 0 || text[0] == '"' || (text[0] as int) < 32 {
        None
    } else if text[0] != '\\' {
        Some((text[0], text.skip(1)))
    } else if text.len() < 2 {
        None
    } else if text[1] == 'u' {
        if text.len() < 6 {
            None
        } else {
            match (hex_value(text[2]), hex_value(text[3]), hex_value(text[4]), hex_value(text[5])) {
                (Some(a), Some(b), Some(c), Some(d)) => {
                    let code = 4096 * a + 256 * b + 16 * c + d;
                    if 0xd800 <= code <= 0xdfff {
                        None
                    } else {
                        Some((code as char, text.skip(6)))
                    }
                },
                _ => None,
            }
        }
    } else {
        match short_escape(text[1]) {
            Some(c) => Some((c, text.skip(2))),
            None => None,
        }
    }
}

/// The string whose opening quote was read, and the rest behind its closing quote.
pub open spec fn read_text(text: Seq<char>) -> Option<(Seq<char>, Seq<char>)>
    decreases text.len(),
{
    if text.len() == 0 {
        None
    } else if text[0] == '"' {
        Some((Seq::empty(), text.skip(1)))
    } else {
        match read_char(text) {
            Some((c, rest)) => if rest.len() < text.len() {
                match read_text(rest) {
                    Some((more, behind)) => Some((seq![c] + more, behind)),
                    None => None,
                }
            } else {
                None
            },
            None => None,
        }
    }
}

/// The number of digits that the text begins with.
pub open spec fn digit_count(text: Seq<char>) -> nat
    decreases text.len(),
{
    if text.len() == 0 || !is_digit(text.first()) {
        0
    } else {
        1 + digit_count(text.drop_first())
    }
}

/// The value of decimal digits.
pub open spec fn digits_value(digits: Seq<char>) -> int
    decreases digits.len(),
{
    if digits.len() == 0 {
        0
    } else {
        10 * digits_value(digits.drop_last()) + (digits.last() as int - 48)
    }
}

/// The number that the text begins with, and the rest behind its last digit. Only zero
/// begins with a zero.
pub open spec fn read_nat(text: Seq<char>) -> Option<(int, Seq<char>)> {
    let n = digit_count(text) as int;
    if n == 0 || (n > 1 && text[0] == '0') {
        None
    } else {
        Some((digits_value(text.take(n)), text.skip(n)))
    }
}

/// The value that the text begins with, and the rest behind it.
pub open spec fn read_value(text: Seq<char>) -> Option<(Json, Seq<char>)>
    decreases text.len(), 0nat,
{
    if text.len() == 0 {
        None
    } else if text[0] == '"' {
        match read_text(text.skip(1)) {
            Some((plain, rest)) => Some((Json::Text(plain), rest)),
            None => None,
        }
    } else if text[0] == '-' {
        match read_nat(text.skip(1)) {
            Some((number, rest)) => Some((Json::Number(-number), rest)),
            None => None,
        }
    } else if is_digit(text[0]) {
        match read_nat(text) {
            Some((number, rest)) => Some((Json::Number(number), rest)),
            None => None,
        }
    } else if text[0] == '[' {
        if text.len() > 1 && text[1] == ']' {
            Some((Json::List(Seq::empty()), text.skip(2)))
        } else {
            match read_items(text.skip(1)) {
                Some((items, rest)) => Some((Json::List(items), rest)),
                None => None,
            }
        }
    } else if text[0] == '{' {
        if text.len() > 1 && text[1] == '}' {
            Some((Json::Object(Seq::empty()), text.skip(2)))
        } else {
            match read_members(text.skip(1)) {
                Some((members, rest)) => Some((Json::Object(members), rest)),
                None => None,
            }
        }
    } else {
        None
    }
}

/// The items of an array from here on, and the rest behind its closing bracket.
pub open spec fn read_items(text: Seq<char>) -> Option<(Seq<Json>, Seq<char>)>
    decreases text.len(), 1nat,
{
    match read_value(text) {
        Some((item, rest)) => if 0 < rest.len() < text.len() {
            if rest[0] == ']' {
                Some((seq![item], rest.skip(1)))
            } else if rest[0] == ',' {
                match read_items(rest.skip(1)) {
                    Some((more, behind)) => Some((seq![item] + more, behind)),
                    None => None,
                }
            } else {
                None
            }
        } else {
            None
        },
        None => None,
    }
}

/// The members of an object from here on, and the rest behind its closing brace.
pub open spec fn read_members(text: Seq<char>) -> Option<(Seq<(Seq<char>, Json)>, Seq<char>)>
    decreases text.len(), 1nat,
{
    match read_member(text) {
        Some((member, rest)) => if 0 < rest.len() < text.len() {
            if rest[0] == '}' {
                Some((seq![member], rest.skip(1)))
            } else if rest[0] == ',' {
                match read_members(rest.skip(1)) {
                    Some((more, behind)) => Some((seq![member] + more, behind)),
                    None => None,
                }
            } else {
                None
            }
        } else {
            None
        },
        None => None,
    }
}

/// The name and the value that the text begins with, and the rest behind them.
pub open spec fn read_member(text: Seq<char>) -> Option<((Seq<char>, Json), Seq<char>)>
    decreases text.len(), 0nat,
{
    if text.len() == 0 || text[0] != '"' {
        None
    } else {
        match read_text(text.skip(1)) {
            Some((name, rest)) => if 0 < rest.len() < text.len() && rest[0] == ':' {
                match read_value(rest.skip(1)) {
                    Some((value, behind)) => Some(((name, value), behind)),
                    None => None,
                }
            } else {
                None
            },
            None => None,
        }
    }
}

/// The value that the whole text holds.
pub open spec fn read_json(text: Seq<char>) -> Option<Json> {
    match read_value(text) {
        Some((value, rest)) => if rest.len() == 0 {
            Some(value)
        } else {
            None
        },
        None => None,
    }
}

/// The array of two numbers that stands for a pair.
pub open spec fn pair_json(pair: (i64, i64)) -> Json {
    Json::List(seq![Json::Number(pair.0 as int), Json::Number(pair.1 as int)])
}

/// The array of arrays that stands for a list of pairs.
pub open spec fn pairs_json(pairs: Seq<(i64, i64)>) -> Json {
    Json::List(pairs.map_values(|pair: (i64, i64)| pair_json(pair)))
}

proof fn lemma_behind(a: Seq<char>, x: Seq<char>)
    ensures
        (a + x).skip(a.len() as int) == x,
        a.len() > 0 ==> (a + x)[0] == a[0],
        a.len() == 0 ==> a + x == x,
{
    assert((a + x).skip(a.len() as int) =~= x);
    if a.len() == 0 {
        assert(a + x =~= x);
    }
}

/// An escaped character reads back.
proof fn lemma_read_char(c: char, x: Seq<char>)
    ensures
        read_char(escaped(c) + x) == Some((c, x)),
        escaped(c).len() > 0,
        escaped(c)[0] != '"',
{
    let text = escaped(c) + x;
    lemma_behind(escaped(c), x);
    assert(text[0] == escaped(c)[0]);
    if escaped(c).len() >= 2 {
        assert(text[1] == escaped(c)[1]);
        if escaped(c).len() == 6 {
            assert(text[2] == '0' && text[3] == '0');
            assert(text[4] == digit(c as int / 16));
            assert(text[5] == digit(c as int % 16));
            assert(hex_value(text[4]) == Some(c as int / 16));
            assert(hex_value(text[5]) == Some(c as int % 16));
            assert(16 * (c as int / 16) + c as int % 16 == c as int);
        }
    }
}

/// An escaped text reads back, up to the quote that closes it.
proof fn lemma_read_text(plain: Seq<char>, x: Seq<char>)
    ensures
        read_text(all_escaped(plain) + (seq!['"'] + x)) == Some((plain, x)),
    decreases plain.len(),
{
    let text = all_escaped(plain) + (seq!['"'] + x);
    if plain.len() == 0 {
        assert(text =~= seq!['"'] + x);
        assert(text.skip(1) =~= x);
        assert(plain =~= Seq::<char>::empty());
    } else {
        let rest = all_escaped(plain.drop_first()) + (seq!['"'] + x);
        assert(text =~= escaped(plain.first()) + rest);
        lemma_read_char(plain.first(), rest);
        lemma_read_text(plain.drop_first(), x);
        assert(text[0] == escaped(plain.first())[0]);
        assert(seq![plain.first()] + plain.drop_first() =~= plain);
    }
}

/// A JSON string reads back.
pub proof fn lemma_read_quoted(plain: Seq<char>, x: Seq<char>)
    ensures
        read_value(quoted(plain) + x) == Some((Json::Text(plain), x)),
        read_text((quoted(plain) + x).skip(1)) == Some((plain, x)),
        quoted(plain).len() > 0,
        (quoted(plain) + x)[0] == '"',
{
    let text = quoted(plain) + x;
    assert(text.skip(1) =~= all_escaped(plain) + (seq!['"'] + x));
    lemma_read_text(plain, x);
}

proof fn lemma_nat_text(n: nat)
    ensures
        nat_text(n).len() > 0,
        forall|i: int| 0 <= i < nat_text(n).len() ==> is_digit(#[trigger] nat_text(n)[i]),
        digits_value(nat_text(n)) == n,
        n > 0 ==> nat_text(n)[0] != '0',
        n == 0 ==> nat_text(n).len() == 1,
    decreases n,
{
    if n >= 10 {
        lemma_nat_text(n / 10);
        assert(nat_text(n).drop_last() =~= nat_text(n / 10));
    } else {
        assert(nat_text(n).drop_last() =~= Seq::<char>::empty());
        assert(digits_value(nat_text(n).drop_last()) == 0);
    }
}

proof fn lemma_digit_count(digits: Seq<char>, x: Seq<char>)
    requires
        forall|i: int| 0 <= i < digits.len() ==> is_digit(#[trigger] digits[i]),
        x.len() > 0 ==> !is_digit(x[0]),
    ensures
        digit_count(digits + x) == digits.len(),
    decreases digits.len(),
{
    if digits.len() == 0 {
        assert(digits + x =~= x);
    } else {
        let rest = digits.drop_first();
        assert forall|i: int| 0 <= i < rest.len() implies is_digit(#[trigger] rest[i]) by {
            assert(rest[i] == digits[i + 1]);
        }
        lemma_digit_count(rest, x);
        assert((digits + x).drop_first() =~= rest + x);
        assert((digits + x).first() == digits[0]);
    }
}

/// A number reads back, where no further digit follows.
pub proof fn lemma_read_nat(n: nat, x: Seq<char>)
    requires
        x.len() > 0 ==> !is_digit(x[0]),
    ensures
        read_nat(nat_text(n) + x) == Some((n as int, x)),
        read_value(nat_text(n) + x) == Some((Json::Number(n as int), x)),
        nat_text(n).len() > 0,
        is_digit((nat_text(n) + x)[0]),
{
    lemma_nat_text(n);
    lemma_digit_count(nat_text(n), x);
    lemma_behind(nat_text(n), x);
    assert((nat_text(n) + x).take(nat_text(n).len() as int) =~= nat_text(n));
}

proof fn lemma_read_int(i: int, x: Seq<char>)
    requires
        x.len() > 0 ==> !is_digit(x[0]),
    ensures
        read_value(int_text(i) + x) == Some((Json::Number(i), x)),
        int_text(i).len() > 0,
        (int_text(i) + x)[0] == '-' || is_digit((int_text(i) + x)[0]),
{
    if i < 0 {
        lemma_read_nat((-i) as nat, x);
        assert((int_text(i) + x).skip(1) =~= nat_text((-i) as nat) + x);
        assert((int_text(i) + x)[0] == '-');
    } else {
        lemma_read_nat(i as nat, x);
    }
}

proof fn lemma_read_pair(pair: (i64, i64), x: Seq<char>)
    ensures
        read_value(pair_text(pair) + x) == Some((pair_json(pair), x)),
        pair_text(pair).len() > 0,
        (pair_text(pair) + x)[0] == '[',
{
    let text = pair_text(pair) + x;
    let second = int_text(pair.1 as int) + (seq![']'] + x);
    let first = int_text(pair.0 as int) + (seq![','] + second);
    assert(text.skip(1) =~= first);
    lemma_read_int(pair.1 as int, seq![']'] + x);
    assert((seq![']'] + x).skip(1) =~= x);
    assert(read_items(second) == Some((seq![Json::Number(pair.1 as int)], x)));
    lemma_read_int(pair.0 as int, seq![','] + second);
    assert((seq![','] + second).skip(1) =~= second);
    let items = seq![Json::Number(pair.0 as int)] + seq![Json::Number(pair.1 as int)];
    assert(read_items(first) == Some((items, x)));
    assert(items =~= seq![Json::Number(pair.0 as int), Json::Number(pair.1 as int)]);
    assert(text[1] == first[0]);
}

proof fn lemma_read_listed(pairs: Seq<(i64, i64)>, x: Seq<char>)
    requires
        pairs.len() > 0,
    ensures
        read_items(listed(pairs) + (seq![']'] + x)) == Some(
            (pairs.map_values(|pair: (i64, i64)| pair_json(pair)), x),
        ),
        (listed(pairs) + (seq![']'] + x))[0] == '[',
    decreases pairs.len(),
{
    let text = listed(pairs) + (seq![']'] + x);
    let values = pairs.map_values(|pair: (i64, i64)| pair_json(pair));
    if pairs.len() == 1 {
        lemma_read_pair(pairs.first(), seq![']'] + x);
        assert((seq![']'] + x).skip(1) =~= x);
        assert(values =~= seq![pair_json(pairs.first())]);
    } else {
        let rest = pairs.drop_first();
        let more = listed(rest) + (seq![']'] + x);
        assert(text =~= pair_text(pairs.first()) + (seq![','] + more));
        lemma_read_pair(pairs.first(), seq![','] + more);
        assert((seq![','] + more).skip(1) =~= more);
        lemma_read_listed(rest, x);
        assert(values =~= seq![pair_json(pairs.first())] + rest.map_values(
            |pair: (i64, i64)| pair_json(pair),
        ));
    }
}

/// A list of pairs reads back.
pub proof fn lemma_read_pairs(pairs: Seq<(i64, i64)>, x: Seq<char>)
    ensures
        read_value(pairs_text(pairs) + x) == Some((pairs_json(pairs), x)),
        pairs_text(pairs).len() > 0,
{
    let text = pairs_text(pairs) + x;
    assert(text.skip(1) =~= listed(pairs) + (seq![']'] + x));
    if pairs.len() == 0 {
        assert(text =~= seq!['[', ']'] + x);
        assert(text.skip(2) =~= x);
        assert(pairs.map_values(|pair: (i64, i64)| pair_json(pair)) =~= Seq::<Json>::empty());
    } else {
        lemma_read_listed(pairs, x);
        assert(text[1] == (listed(pairs) + (seq![']'] + x))[0]);
    }
}

} // verus!
