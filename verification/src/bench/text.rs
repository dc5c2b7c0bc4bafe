//! Reading and writing decimal numbers.

use vstd::prelude::*;
use vstd::string::StrSliceExecFns;

verus! {

/// `String::push`: appends one character.
pub assume_specification[ String::push ](text: &mut String, c: char)
    ensures
        final(text)@ == old(text)@.push(c),
;

/// The character is a decimal digit.
pub open spec fn is_digit(c: char) -> bool {
    '0' <= c <= '9'
}

pub open spec fn digit_value(c: char) -> int {
    c as int - '0' as int
}

pub open spec fn all_digits(text: Seq<char>) -> bool {
    forall|i: int| 0 <= i < text.len() ==> is_digit(#[trigger] text[i])
}

/// The number that a string of digits denotes.
pub open spec fn decimal_value(digits: Seq<char>) -> int
    decreases digits.len(),
{
    if digits.len() == 0 {
        0
    } else {
        decimal_value(digits.drop_last()) * 10 + digit_value(digits.last())
    }
}

/// The digits of a number text: what follows an optional plus sign.
pub open spec fn unsigned_part(text: Seq<char>) -> Seq<char> {
    if text.len() > 0 && text[0] == '+' {
        text.skip(1)
    } else {
        text
    }
}

/// What a text denotes as an unsigned 32-bit number: one digit or more, after
/// an optional plus sign, and no larger than fits.
pub open spec fn number_of(text: Seq<char>) -> Option<u32> {
    let digits = unsigned_part(text);
    if digits.len() > 0 && all_digits(digits) && decimal_value(digits) <= u32::MAX {
        Some(decimal_value(digits) as u32)
    } else {
        None
    }
}

proof fn lemma_value_grows(digits: Seq<char>, n: int)
    requires
        all_digits(digits),
        0 <= n <= digits.len(),
    ensures
        0 <= decimal_value(digits.take(n)) <= decimal_value(digits),
    decreases digits.len() - n,
{
    if n < digits.len() {
        lemma_value_grows(digits, n + 1);
        assert(digits.take(n + 1).drop_last() =~= digits.take(n));
        assert(is_digit(digits[n]));
        lemma_value_is_not_negative(digits, n);
    } else {
        assert(digits.take(n) =~= digits);
        lemma_value_is_not_negative(digits, n);
    }
}

proof fn lemma_value_is_not_negative(digits: Seq<char>, n: int)
    requires
        all_digits(digits),
        0 <= n <= digits.len(),
    ensures
        0 <= decimal_value(digits.take(n)),
    decreases n,
{
    if n > 0 {
        lemma_value_is_not_negative(digits, n - 1);
        assert(digits.take(n).drop_last() =~= digits.take(n - 1));
        assert(is_digit(digits[n - 1]));
    }
}

/// The value of a digit.
fn digit_of(c: char) -> (d: Option<u32>)
    ensures
        d == if is_digit(c) {
            Some(digit_value(c) as u32)
        } else {
            None
        },
{
    if '0' <= c && c <= '9' {
        Some(c as u32 - '0' as u32)
    } else {
        None
    }
}

/// Reads an unsigned 32-bit number.
pub fn parse_number(text: &str) -> (number: Option<u32>)
    ensures
        number == number_of(text@),
{
    let n: usize = text.unicode_len();
    let ghost all = text@;
    let start: usize = if n > 0 && text.get_char(0) == '+' {
        1
    } else {
        0
    };
    let ghost digits = unsigned_part(all);
    assert(digits =~= all.skip(start as int));
    if start == n {
        return None;
    }
    let mut value: u32 = 0;
    let mut i: usize = start;
    while i < n
        invariant
            all == text@,
            n == all.len(),
            start <= i <= n,
            start < n,
            digits == all.skip(start as int),
            digits == unsigned_part(all),
            forall|k: int| 0 <= k < i - start ==> is_digit(#[trigger] digits[k]),
            value == decimal_value(digits.take(i - start)),
        decreases n - i,
    {
        proof {
            assert(digits[i - start] == all[i as int]);
            assert(digits.take(i - start + 1).drop_last() =~= digits.take(i - start));
        }
        match digit_of(text.get_char(i)) {
            None => {
                assert(!is_digit(digits[i - start]));
                return None;
            },
            Some(d) => {
                if value > 429_496_729 || (value == 429_496_729 && d > 5) {
                    proof {
                        assert(decimal_value(digits.take(i - start + 1)) > u32::MAX);
                        if all_digits(digits) {
                            lemma_value_grows(digits, i - start + 1);
                        }
                    }
                    return None;
                }
                value = value * 10 + d;
            },
        }
        i = i + 1;
    }
    assert(digits.take(n - start) =~= digits);
    Some(value)
}

/// The character of a digit.
pub open spec fn digit_char(d: int) -> char {
    (d + 48) as char
}

/// The decimal digits of a number, without leading zeros.
pub open spec fn decimal(n: nat) -> Seq<char>
    decreases n,
{
    if n < 10 {
        seq![digit_char(n as int)]
    } else {
        decimal(n / 10).push(digit_char((n % 10) as int))
    }
}

fn push_digit(text: &mut String, d: u32)
    requires
        d < 10,
    ensures
        final(text)@ == old(text)@.push(digit_char(d as int)),
{
    let c: char = match d {
        0 => '0',
        1 => '1',
        2 => '2',
        3 => '3',
        4 => '4',
        5 => '5',
        6 => '6',
        7 => '7',
        8 => '8',
        _ => '9',
    };
    text.push(c);
}

/// Appends a number in decimal.
pub fn append_number(text: &mut String, n: u64)
    ensures
        final(text)@ == old(text)@ + decimal(n as nat),
    decreases n,
{
    if n >= 10 {
        append_number(text, n / 10);
    }
    push_digit(text, (n % 10) as u32);
    assert(text@ =~= old(text)@ + decimal(n as nat));
}

proof fn lemma_decimal_is_digits(n: nat)
    ensures
        all_digits(decimal(n)),
        decimal(n).len() > 0,
        decimal_value(decimal(n)) == n,
        decimal(n)[0] != '+',
    decreases n,
{
    if n < 10 {
        assert(decimal(n).drop_last() =~= Seq::<char>::empty());
        assert(decimal_value(decimal(n).drop_last()) == 0);
    } else {
        lemma_decimal_is_digits(n / 10);
        assert(decimal(n).drop_last() =~= decimal(n / 10));
    }
}

/// Reading what was written gives the number back.
pub proof fn lemma_numbers_read_back(n: u32)
    ensures
        number_of(decimal(n as nat)) == Some(n),
{
    lemma_decimal_is_digits(n as nat);
}


/// The value of digits is that of each of them at its place: a digit more at the
/// end counts ones and moves the others up by ten.
pub proof fn lemma_places_count_tens(digits: Seq<char>, c: char)
    ensures
        decimal_value(Seq::empty()) == 0,
        decimal_value(digits.push(c)) == 10 * decimal_value(digits) + (c as int - 48),
{
    assert(digits.push(c).drop_last() =~= digits);
}

/// A text is a number exactly where it is digits, one or more, behind an optional
/// plus sign, and their value fits into 32 bits; then it is that value.
pub proof fn lemma_numbers_are_digits(text: Seq<char>, digits: Seq<char>)
    requires
        text == digits && !(text.len() > 0 && text[0] == '+') || text == seq!['+'] + digits,
    ensures
        number_of(text) is Some <==> {
            &&& digits.len() > 0
            &&& forall|i: int| 0 <= i < digits.len() ==> 48 <= (#[trigger] digits[i]) as int <= 57
            &&& decimal_value(digits) < 0x1_0000_0000
        },
        number_of(text) matches Some(n) ==> n == decimal_value(digits),
{
    if text == seq!['+'] + digits {
        assert(text.skip(1) =~= digits);
    }
    assert(unsigned_part(text) == digits);
    assert forall|i: int| 0 <= i < digits.len() implies (is_digit(#[trigger] digits[i]) <==> 48
        <= digits[i] as int <= 57) by {}
    if forall|i: int| 0 <= i < digits.len() ==> 48 <= (#[trigger] digits[i]) as int <= 57 {
        assert(all_digits(digits));
        lemma_value_is_not_negative(digits, digits.len() as int);
        assert(digits.take(digits.len() as int) =~= digits);
    }
    if all_digits(digits) {
        assert forall|i: int| 0 <= i < digits.len() implies 48 <= (
        #[trigger] digits[i]) as int <= 57 by {
            assert(is_digit(digits[i]));
        }
        lemma_value_is_not_negative(digits, digits.len() as int);
        assert(digits.take(digits.len() as int) =~= digits);
    }
}

/// A number is written with its digits and no others: they denote it, and the
/// first is zero only where it is the only one.
pub proof fn lemma_numbers_are_written_without_leading_zeros(n: nat)
    ensures
        all_digits(decimal(n)),
        decimal_value(decimal(n)) == n,
        decimal(n).len() > 0,
        decimal(n)[0] == '0' ==> decimal(n).len() == 1,
    decreases n,
{
    lemma_decimal_is_digits(n);
    if n >= 10 {
        lemma_numbers_are_written_without_leading_zeros(n / 10);
        lemma_decimal_is_digits(n / 10);
        assert(decimal(n)[0] == decimal(n / 10)[0]);
        if decimal(n / 10)[0] == '0' {
            assert(decimal_value(decimal(n / 10).drop_last()) == 0) by {
                assert(decimal(n / 10).drop_last() =~= Seq::<char>::empty());
            }
        }
    }
}

} // verus!
