//! Decimal digits as characters.
use vstd::prelude::*;

use crate::numeral;
use crate::text::chars_of;

verus! {

/// Whether a character is one of the digits `0` to `9`.
pub open spec fn is_digit(c: char) -> bool {
    '0' <= c && c <= '9'
}

/// Whether a text is made of digits.
pub open spec fn all_digits(text: Seq<char>) -> bool {
    forall|i: int| 0 <= i < text.len() ==> is_digit(#[trigger] text[i])
}

/// The number that a digit character stands for.
pub open spec fn digit_value(c: char) -> nat {
    (c as u32 - '0' as u32) as nat
}

/// The character of a digit.
pub open spec fn digit_char(d: nat) -> char {
    ('0' as u32 + d) as char
}

/// The digits of a text as numbers.
pub open spec fn digit_values(text: Seq<char>) -> Seq<nat> {
    text.map_values(|c: char| digit_value(c))
}

/// The number that a text of digits stands for.
pub open spec fn number_of(text: Seq<char>) -> nat {
    numeral::value(digit_values(text), 10)
}

/// The last `len` decimal digits of a number, with leading zeros.
pub open spec fn padded(n: nat, len: nat) -> Seq<char> {
    numeral::digits(n, 10, len).map_values(|d: nat| digit_char(d))
}

/// How many decimal digits a number has.
pub open spec fn width(n: nat) -> nat
    decreases n,
{
    if n < 10 {
        1
    } else {
        width(n / 10) + 1
    }
}

/// The decimal form of a number.
pub open spec fn decimal(n: nat) -> Seq<char> {
    padded(n, width(n))
}

pub proof fn lemma_padded_len(n: nat, len: nat)
    ensures
        padded(n, len).len() == len,
        all_digits(padded(n, len)),
{
    numeral::lemma_digits_len(n, 10, len);
    let d = numeral::digits(n, 10, len);
    assert forall|i: int| 0 <= i < len implies is_digit(#[trigger] padded(n, len)[i]) by {
        assert(d[i] < 10);
    }
}

/// A padded number reads back as the number.
pub proof fn lemma_number_of_padded(n: nat, len: nat)
    requires
        n < numeral::power(10, len),
    ensures
        number_of(padded(n, len)) == n,
{
    numeral::lemma_digits_len(n, 10, len);
    numeral::lemma_value_of_digits(n, 10, len);
    let d = numeral::digits(n, 10, len);
    assert forall|i: int| 0 <= i < len implies digit_values(padded(n, len))[i] == d[i] by {
        assert(d[i] < 10);
    }
    assert(digit_values(padded(n, len)) =~= d);
}

/// A text of digits is the padded form of its number.
pub proof fn lemma_padded_number_of(text: Seq<char>)
    requires
        all_digits(text),
    ensures
        padded(number_of(text), text.len()) == text,
        number_of(text) < numeral::power(10, text.len()),
{
    let d = digit_values(text);
    assert forall|i: int| 0 <= i < d.len() implies d[i] < 10 && digit_char(d[i]) == text[i] by {
        assert(is_digit(text[i]));
    }
    numeral::lemma_digits_of_value(d, 10);
    assert(padded(number_of(text), text.len()) =~= text);
}

/// Every number is below the power of ten that its width says.
pub proof fn lemma_width(n: nat)
    ensures
        n < numeral::power(10, width(n)),
        number_of(decimal(n)) == n,
        decimal(n).len() == width(n) >= 1,
        all_digits(decimal(n)),
{
    lemma_width_bound(n);
    lemma_number_of_padded(n, width(n));
    lemma_padded_len(n, width(n));
}

proof fn lemma_width_bound(n: nat)
    ensures
        n < numeral::power(10, width(n)),
        width(n) >= 1,
    decreases n,
{
    reveal_with_fuel(numeral::power, 2);
    if n >= 10 {
        lemma_width_bound(n / 10);
    }
}

/// The powers of ten of the fixed-width fields.
pub proof fn lemma_small_powers()
    ensures
        numeral::power(10, 2) == 100,
        numeral::power(10, 4) == 10_000,
{
    reveal_with_fuel(numeral::power, 5);
}

/// Appends the last `len` decimal digits of `n`.
pub fn push_padded(out: &mut Vec<char>, n: u32, len: usize)
    ensures
        final(out)@ == old(out)@ + padded(n as nat, len as nat),
    decreases len,
{
    if len == 0 {
        assert(padded(n as nat, 0) =~= Seq::empty());
        assert(old(out)@ + padded(n as nat, 0) =~= old(out)@);
    } else {
        push_padded(out, n / 10, len - 1);
        let c: char = ('0' as u8 + (n % 10) as u8) as char;
        out.push(c);
        proof {
            let front = padded((n / 10) as nat, (len - 1) as nat);
            assert(padded(n as nat, len as nat) =~= front.push(c));
        }
    }
}

/// Appends the decimal form of `n`.
pub fn push_decimal(out: &mut Vec<char>, n: u64)
    ensures
        final(out)@ == old(out)@ + decimal(n as nat),
    decreases n,
{
    let c: char = ('0' as u8 + (n % 10) as u8) as char;
    if n >= 10 {
        push_decimal(out, n / 10);
    }
    out.push(c);
    proof {
        let full = numeral::digits(n as nat, 10, width(n as nat));
        if n >= 10 {
            assert(decimal(n as nat) =~= decimal((n / 10) as nat).push(c));
        } else {
            assert(numeral::digits((n / 10) as nat, 10, 0) =~= Seq::empty());
            assert(decimal(n as nat) =~= seq![c]);
        }
    }
}

/// Whether a text is made of digits.
pub fn is_number(text: &str) -> (number: bool)
    ensures
        number == all_digits(text@),
{
    let chars = chars_of(text);
    let mut i: usize = 0;
    while i < chars.len()
        invariant
            i <= chars@.len(),
            chars@ == text@,
            forall|k: int| 0 <= k < i ==> is_digit(#[trigger] chars@[k]),
        decreases chars@.len() - i,
    {
        if chars[i] < '0' || chars[i] > '9' {
            assert(!is_digit(text@[i as int]));
            return false;
        }
        i = i + 1;
    }
    true
}

/// The number that `len` digits starting at `from` stand for, or `None` if one of them is not a
/// digit.
pub fn read_digits(chars: &[char], from: usize, len: usize) -> (number: Option<u32>)
    requires
        from + len <= chars@.len(),
        len <= 9,
    ensures
        match number {
            Some(n) => {
                &&& all_digits(chars@.subrange(from as int, from + len))
                &&& n == number_of(chars@.subrange(from as int, from + len))
            },
            None => !all_digits(chars@.subrange(from as int, from + len)),
        },
{
    let mut n: u32 = 0;
    let mut i: usize = 0;
    let ghost text = chars@.subrange(from as int, from + len);
    assert(number_of(text.take(0)) == 0);
    while i < len
        invariant
            i <= len <= 9,
            from + len <= chars.len(),
            text == chars@.subrange(from as int, from + len),
            all_digits(text.take(i as int)),
            n == number_of(text.take(i as int)),
        decreases len - i,
    {
        let c = chars[from + i];
        assert(c == text[i as int]);
        if c < '0' || c > '9' {
            assert(!is_digit(text[i as int]));
            return None;
        }
        let digit: u32 = c as u32 - '0' as u32;
        proof {
            let front = text.take(i as int);
            let next = text.take(i + 1);
            assert(next =~= front.push(c));
            assert(digit_values(next) =~= digit_values(front).push(digit as nat));
            numeral::lemma_value_push(digit_values(front), digit as nat, 10);
            assert(all_digits(next));
            lemma_padded_number_of(next);
            numeral::lemma_power_monotonic(10, (i + 1) as nat, 9);
            assert(numeral::power(10, 9) == 1_000_000_000) by {
                reveal_with_fuel(numeral::power, 10);
            }
        }
        n = n * 10 + digit;
        i = i + 1;
    }
    assert(text.take(len as int) =~= text);
    Some(n)
}

/// A number is written with its own digits and no zero in front: the last digit is what remains of it by ten,
/// and what comes before is its tenth.
pub proof fn law_decimal_is_shortest(n: nat)
    ensures
        number_of(decimal(n)) == n,
        all_digits(decimal(n)),
        n < 10 ==> decimal(n).len() == 1 && decimal(n)[0] as int == 0x30 + n,
        n >= 10 ==> decimal(n) == decimal(n / 10) + decimal(n % 10),
        n > 0 ==> decimal(n)[0] != '0',
    decreases n,
{
    lemma_width(n);
    reveal_with_fuel(numeral::digits, 2);
    if n < 10 {
        assert(numeral::digits(n, 10, 1) =~= seq![n]);
    } else {
        law_decimal_is_shortest(n / 10);
        law_decimal_is_shortest(n % 10);
        lemma_padded_len(n / 10, width(n / 10));
        assert(decimal(n) =~= decimal(n / 10) + decimal(n % 10));
        lemma_width(n / 10);
    }
}

/// Digits stand for a number place by place: another digit at the end makes it ten times the number and the
/// digit, and zeros in front do not count.
pub proof fn law_digits_count_by_place(text: Seq<char>, c: char)
    requires
        is_digit(c),
    ensures
        number_of(Seq::empty()) == 0,
        number_of(text.push(c)) == 10 * number_of(text) + (c as int - 0x30),
        number_of(seq!['0'] + text) == number_of(text),
    decreases text.len(),
{
    assert(digit_values(Seq::empty()) =~= Seq::empty());
    assert(digit_values(text.push(c)) =~= digit_values(text).push(digit_value(c)));
    numeral::lemma_value_push(digit_values(text), digit_value(c), 10);
    if text.len() > 0 {
        let front = text.drop_last();
        law_digits_count_by_place(front, c);
        assert(digit_values(text) =~= digit_values(front).push(digit_value(text.last())));
        assert(digit_values(seq!['0'] + text) =~= digit_values(seq!['0'] + front).push(
            digit_value(text.last()),
        ));
        numeral::lemma_value_push(digit_values(front), digit_value(text.last()), 10);
        numeral::lemma_value_push(digit_values(seq!['0'] + front), digit_value(text.last()), 10);
    } else {
        reveal_with_fuel(numeral::value, 2);
        assert(seq!['0'] + text =~= seq!['0']);
        assert(digit_values(seq!['0']) =~= seq![0nat]);
        assert(seq![0nat].drop_last() =~= Seq::empty());
        assert(digit_values(text) =~= Seq::empty());
    }
}

} // verus!
