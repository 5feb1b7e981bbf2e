//! Reading the rank out of a cell of text.

use vstd::prelude::*;

verus! {

/// What `char::is_numeric` answers for a character: whether Unicode puts it in
/// one of its categories for numbers.
pub uninterp spec fn is_numeric_char(c: char) -> bool;

/// `char::is_numeric`. The contract names the answer. Of the ASCII characters
/// it says which ones are numeric: the digits `0` to `9`, which Unicode counts
/// as decimal digits, and no other.
#[verifier::external_body]
fn is_numeric(c: char) -> (numeric: bool)
    ensures
        numeric == is_numeric_char(c),
        c <= '\x7f' ==> numeric == is_digit(c),
{
    c.is_numeric()
}

/// Whether `c` is one of the digits `0` to `9`.
pub open spec fn is_digit(c: char) -> bool {
    '0' <= c <= '9'
}

/// The number that a sequence of the digits `0` to `9` writes in base ten.
pub open spec fn decimal(digits: Seq<char>) -> nat
    decreases digits.len(),
{
    if digits.len() == 0 {
        0
    } else {
        (decimal(digits.drop_last()) * 10 + (digits.last() as u32 - '0' as u32)) as nat
    }
}

/// The number that `numerals` write, read together in base ten. There is none
/// where there is no numeral, where one of them is not a digit `0` to `9`, and
/// where the number is above `i32::MAX`.
pub open spec fn number_of(numerals: Seq<char>) -> Option<i32> {
    if numerals.len() > 0 && (forall|i: int|
        0 <= i < numerals.len() ==> is_digit(#[trigger] numerals[i])) && decimal(numerals)
        <= i32::MAX {
        Some(decimal(numerals) as i32)
    } else {
        None
    }
}

/// The numeric characters of `text`, in order.
pub open spec fn numerals(text: Seq<char>) -> Seq<char> {
    text.filter(|c: char| is_numeric_char(c))
}

/// The number in `text`: the one that its numeric characters write.
pub open spec fn number_in(text: Seq<char>) -> Option<i32> {
    number_of(numerals(text))
}

/// Whether every character of `text` is an ASCII character.
pub open spec fn is_plain(text: Seq<char>) -> bool {
    forall|i: int| 0 <= i < text.len() ==> #[trigger] text[i] <= '\x7f'
}

/// Digits written after others make the number no smaller.
proof fn lemma_decimal_grows(digits: Seq<char>, n: int)
    requires
        0 <= n <= digits.len(),
        forall|i: int| 0 <= i < digits.len() ==> is_digit(#[trigger] digits[i]),
    ensures
        decimal(digits.take(n)) <= decimal(digits),
    decreases digits.len() - n,
{
    if n < digits.len() {
        let front = digits.drop_last();
        assert(is_digit(digits[digits.len() - 1]));
        lemma_decimal_grows(front, n);
        assert(front.take(n) =~= digits.take(n));
    } else {
        assert(digits.take(n) =~= digits);
    }
}

/// Reads numerals together as one number in base ten.
pub fn read_decimal(numerals: &Vec<char>) -> (number: Option<i32>)
    ensures
        number == number_of(numerals@),
{
    let ghost digits = numerals@;
    let mut value: i32 = 0;
    let mut i: usize = 0;
    while i < numerals.len()
        invariant
            i <= numerals@.len(),
            digits == numerals@,
            forall|j: int| 0 <= j < i ==> is_digit(#[trigger] digits[j]),
            value == decimal(digits.take(i as int)),
        decreases numerals@.len() - i,
    {
        let c = numerals[i];
        proof {
            assert(digits.take(i + 1).drop_last() =~= digits.take(i as int));
            assert(digits.take(i + 1).last() == c);
        }
        if !('0' <= c && c <= '9') {
            return None;
        }
        let digit: i32 = (c as u32 - '0' as u32) as i32;
        if value > (i32::MAX - digit) / 10 {
            proof {
                if forall|j: int| 0 <= j < digits.len() ==> is_digit(#[trigger] digits[j]) {
                    lemma_decimal_grows(digits, i + 1);
                }
            }
            return None;
        }
        value = value * 10 + digit;
        i += 1;
    }
    proof {
        assert(digits.take(i as int) =~= digits);
    }
    if i > 0 {
        Some(value)
    } else {
        None
    }
}

/// Extracts the number from a cell: the numeric characters are kept, the rest is
/// dropped, and what is kept is read as one number in base ten. In a cell of
/// ASCII characters the digits `0` to `9` are what is kept.
pub fn extract_number(entry: &str) -> (number: Option<i32>)
    ensures
        number == number_in(entry@),
        is_plain(entry@) ==> number == number_of(entry@.filter(|c: char| is_digit(c))),
{
    let ghost text = entry@;
    let ghost numeric = |c: char| is_numeric_char(c);
    let ghost digit = |c: char| is_digit(c);
    let length = entry.unicode_len();
    let mut kept: Vec<char> = Vec::new();
    let mut i: usize = 0;
    proof {
        reveal(Seq::filter);
        assert(text.take(0) =~= Seq::<char>::empty());
    }
    while i < length
        invariant
            i <= length,
            length == text.len(),
            text == entry@,
            numeric == |c: char| is_numeric_char(c),
            digit == |c: char| is_digit(c),
            kept@ == text.take(i as int).filter(numeric),
            is_plain(text) ==> kept@ == text.take(i as int).filter(digit),
        decreases length - i,
    {
        let c = entry.get_char(i);
        proof {
            assert(text.take(i + 1) =~= text.take(i as int).push(c));
            text.take(i as int).lemma_filter_push(c, numeric);
            text.take(i as int).lemma_filter_push(c, digit);
        }
        if is_numeric(c) {
            kept.push(c);
        }
        i += 1;
    }
    proof {
        assert(text.take(i as int) =~= text);
    }
    read_decimal(&kept)
}

} // verus!
