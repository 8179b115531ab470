//! Reading of text: characters, fields between separators, and decimal
//! numbers.

use vstd::prelude::*;

verus! {

broadcast use vstd::string::group_string_axioms;

/// Whether `c` is one of the digits `0` to `9`.
pub open spec fn is_digit(c: char) -> bool {
    '0' <= c <= '9'
}

/// The number that a digit stands for.
pub open spec fn digit_value(c: char) -> int {
    c as int - '0' as int
}

/// Whether `text` holds digits only.
pub open spec fn all_digits(text: Seq<char>) -> bool {
    forall|i: int| 0 <= i < text.len() ==> is_digit(#[trigger] text[i])
}

/// The number that a string of digits stands for in base ten; zero for the
/// empty string.
pub open spec fn decimal_value(digits: Seq<char>) -> int
    decreases digits.len(),
{
    if digits.len() == 0 {
        0
    } else {
        10 * decimal_value(digits.drop_last()) + digit_value(digits.last())
    }
}

/// The number that `text` stands for: an optional `+`, then one digit or
/// more, and a value of at most `limit`.  Any other text stands for no
/// number.
pub open spec fn spec_parse_number(text: Seq<char>, limit: int) -> Option<int> {
    let digits = if text.len() > 0 && text[0] == '+' {
        text.skip(1)
    } else {
        text
    };
    if digits.len() > 0 && all_digits(digits) && decimal_value(digits) <= limit {
        Some(decimal_value(digits))
    } else {
        None
    }
}

/// The fields of `text` between the occurrences of `separator`, in order.
/// Text without a separator is one field; two separators in a row, or one
/// at either end, bound an empty field.
pub open spec fn spec_split(text: Seq<char>, separator: char) -> Seq<Seq<char>>
    decreases text.len(),
{
    if text.len() == 0 {
        seq![Seq::<char>::empty()]
    } else {
        let fields = spec_split(text.drop_last(), separator);
        if text.last() == separator {
            fields.push(Seq::<char>::empty())
        } else {
            fields.update(fields.len() - 1, fields.last().push(text.last()))
        }
    }
}

/// The fields of each of a list of texts.
pub open spec fn texts_of(fields: Seq<Vec<char>>) -> Seq<Seq<char>> {
    Seq::new(fields.len(), |i: int| fields[i]@)
}

/// A string of digits stands for a number that is not negative and not
/// below the number any of its beginnings stands for.
pub proof fn lemma_decimal_value_grows(digits: Seq<char>, n: int)
    requires
        all_digits(digits),
        0 <= n <= digits.len(),
    ensures
        0 <= decimal_value(digits.take(n)) <= decimal_value(digits),
    decreases digits.len() - n,
{
    lemma_decimal_value_not_negative(digits.take(n));
    if n < digits.len() {
        lemma_decimal_value_grows(digits, n + 1);
        assert(digits.take(n + 1).drop_last() =~= digits.take(n));
        assert(is_digit(digits[n]));
    } else {
        assert(digits.take(n) =~= digits);
    }
}

/// A string of digits stands for a number that is not negative.
proof fn lemma_decimal_value_not_negative(digits: Seq<char>)
    requires
        all_digits(digits),
    ensures
        0 <= decimal_value(digits),
    decreases digits.len(),
{
    if digits.len() > 0 {
        lemma_decimal_value_not_negative(digits.drop_last());
        assert(is_digit(digits[digits.len() - 1]));
    }
}

/// The characters of a string.
pub fn chars_of(text: &str) -> (r: Vec<char>)
    ensures
        r@ == text@,
{
    let mut out: Vec<char> = Vec::new();
    for c in it: text.chars()
        invariant
            it.seq() == text@,
            out@ == text@.take(it.index() as int),
    {
        out.push(c);
        assert(text@.take(it.index() + 1) =~= text@.take(it.index() as int).push(c));
    }
    assert(text@.take(text@.len() as int) =~= text@);
    out
}

/// Whether two lists of characters are the same.
pub fn same_chars(a: &Vec<char>, b: &Vec<char>) -> (r: bool)
    ensures
        r == (a@ == b@),
{
    if a.len() != b.len() {
        return false;
    }
    let mut i: usize = 0;
    while i < a.len()
        invariant
            i <= a.len(),
            a.len() == b.len(),
            forall|k: int| 0 <= k < i ==> a@[k] == b@[k],
        decreases a.len() - i,
    {
        if a[i] != b[i] {
            return false;
        }
        i += 1;
    }
    assert(a@ =~= b@);
    true
}

/// Splits `text` at every occurrence of `separator`.
pub fn split(text: &Vec<char>, separator: char) -> (fields: Vec<Vec<char>>)
    ensures
        texts_of(fields@) == spec_split(text@, separator),
{
    let mut fields: Vec<Vec<char>> = Vec::new();
    let mut current: Vec<char> = Vec::new();
    let mut i: usize = 0;
    assert(text@.take(0) =~= Seq::<char>::empty());
    assert(texts_of(fields@).push(current@) =~= spec_split(text@.take(0), separator));
    while i < text.len()
        invariant
            i <= text.len(),
            texts_of(fields@).push(current@) == spec_split(text@.take(i as int), separator),
        decreases text.len() - i,
    {
        let c: char = text[i];
        let ghost before = spec_split(text@.take(i as int), separator);
        assert(text@.take(i + 1).drop_last() =~= text@.take(i as int));
        if c == separator {
            fields.push(current);
            current = Vec::new();
            assert(texts_of(fields@).push(current@) =~= before.push(Seq::<char>::empty()));
        } else {
            current.push(c);
            assert(texts_of(fields@).push(current@) =~= before.update(
                before.len() - 1,
                before.last().push(c),
            ));
        }
        i += 1;
    }
    assert(text@.take(i as int) =~= text@);
    let ghost done = texts_of(fields@).push(current@);
    fields.push(current);
    assert(texts_of(fields@) =~= done);
    fields
}

/// Reads a number of at most `limit` from `text`.
pub fn parse_number(text: &Vec<char>, limit: u32) -> (r: Option<u32>)
    ensures
        match r {
            Some(value) => spec_parse_number(text@, limit as int) == Some(value as int),
            None => spec_parse_number(text@, limit as int).is_none(),
        },
{
    let start: usize = if text.len() > 0 && text[0] == '+' {
        1
    } else {
        0
    };
    let ghost digits = if start == 1 {
        text@.skip(1)
    } else {
        text@
    };
    if start == text.len() {
        return None;
    }
    let mut value: u64 = 0;
    let mut i: usize = start;
    while i < text.len()
        invariant
            start <= i <= text.len(),
            start <= 1,
            start == 1 <==> text.len() > 0 && text@[0] == '+',
            digits == if start == 1 {
                text@.skip(1)
            } else {
                text@
            },
            digits.len() == text.len() - start,
            forall|k: int| 0 <= k < digits.len() ==> digits[k] == text@[k + start],
            all_digits(digits.take(i - start)),
            value == decimal_value(digits.take(i - start)),
            value <= limit,
        decreases text.len() - i,
    {
        let c: char = text[i];
        if c < '0' || c > '9' {
            assert(!is_digit(digits[i - start]));
            return None;
        }
        let d: u64 = (c as u32 - '0' as u32) as u64;
        let ghost longer = digits.take(i - start + 1);
        assert(longer.drop_last() =~= digits.take(i - start));
        assert(longer.last() == c);
        assert(all_digits(longer)) by {
            assert forall|k: int| 0 <= k < longer.len() implies is_digit(#[trigger] longer[k]) by {
                if k < longer.len() - 1 {
                    assert(digits.take(i - start)[k] == longer[k]);
                }
            }
        }
        value = value * 10 + d;
        if value > limit as u64 {
            proof {
                if all_digits(digits) {
                    lemma_decimal_value_grows(digits, i - start + 1);
                }
            }
            return None;
        }
        i += 1;
    }
    assert(digits.take(i - start) =~= digits);
    Some(value as u32)
}

} // verus!
