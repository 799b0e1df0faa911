//! Signed integers as texts.
use vstd::prelude::*;

use crate::decimal;
use crate::decimal::push_decimal;
use crate::numeral;
use crate::text;
use crate::text::{chars_of, starts_at};

verus! {

/// What a hexadecimal integer starts with.
pub const HEX_PREFIX: &'static str = "0x";

/// An integer in decimal.
pub open spec fn signed_text(n: int) -> Seq<char> {
    if n < 0 {
        seq!['-'] + decimal::decimal((-n) as nat)
    } else {
        decimal::decimal(n as nat)
    }
}

/// Appends an integer in decimal.
pub fn push_signed(out: &mut Vec<char>, n: i64)
    ensures
        final(out)@ == old(out)@ + signed_text(n as int),
{
    if n < 0 {
        out.push('-');
        let magnitude: u64 = (-(n + 1)) as u64 + 1;
        push_decimal(out, magnitude);
        assert(out@ =~= old(out)@ + signed_text(n as int));
    } else {
        push_decimal(out, n as u64);
    }
}

/// The number that a digit of up to sixteen stands for.
pub open spec fn digit_of(c: char) -> Option<nat> {
    if '0' <= c <= '9' {
        Some((c as nat - '0' as nat) as nat)
    } else if 'a' <= c <= 'f' {
        Some((c as nat - 'a' as nat + 10) as nat)
    } else if 'A' <= c <= 'F' {
        Some((c as nat - 'A' as nat + 10) as nat)
    } else {
        None
    }
}

/// Whether a text is made of digits below a base, at least one.
pub open spec fn are_digits(s: Seq<char>, base: nat) -> bool {
    &&& s.len() > 0
    &&& forall|i: int|
        0 <= i < s.len() ==> digit_of(#[trigger] s[i]) is Some && digit_of(s[i]).unwrap() < base
}

/// The numbers that digits stand for.
pub open spec fn digit_values(s: Seq<char>) -> Seq<nat> {
    s.map_values(|c: char| digit_of(c).unwrap())
}

/// The integer that a text with an optional sign stands for in a base, if it is one.
pub open spec fn signed_value(s: Seq<char>, base: nat) -> Option<int> {
    let has_sign = s.len() > 0 && (s[0] == '-' || s[0] == '+');
    let digits = if has_sign {
        s.drop_first()
    } else {
        s
    };
    if are_digits(digits, base) {
        let magnitude = numeral::value(digit_values(digits), base) as int;
        Some(
            if has_sign && s[0] == '-' {
                -magnitude
            } else {
                magnitude
            },
        )
    } else {
        None
    }
}

/// The integer that a text stands for: in hexadecimal behind `0x`, else in decimal. It has to fit in
/// 64 bits.
pub open spec fn integer_value(s: Seq<char>) -> Option<int> {
    let value = if text::has_at(s, 0, HEX_PREFIX@) {
        signed_value(s.skip(2), 16)
    } else {
        signed_value(s, 10)
    };
    match value {
        Some(n) => if i64::MIN <= n <= i64::MAX {
            Some(n)
        } else {
            None
        },
        None => None,
    }
}

/// The number that a digit stands for.
fn read_digit(c: char) -> (digit: Option<u64>)
    ensures
        match digit {
            Some(digit) => digit_of(c) == Some(digit as nat) && digit < 16,
            None => digit_of(c) is None,
        },
{
    if '0' <= c && c <= '9' {
        Some(c as u64 - '0' as u64)
    } else if 'a' <= c && c <= 'f' {
        Some(c as u64 - 'a' as u64 + 10)
    } else if 'A' <= c && c <= 'F' {
        Some(c as u64 - 'A' as u64 + 10)
    } else {
        None
    }
}

/// The integer that a text with an optional sign stands for in a base, if it is one that fits in 64
/// bits.
fn read_signed(chars: &[char], base: u64) -> (value: Option<i64>)
    requires
        base == 10 || base == 16,
    ensures
        value == match signed_value(chars@, base as nat) {
            Some(n) => if i64::MIN <= n <= i64::MAX {
                Some(n as i64)
            } else {
                None
            },
            None => None,
        },
{
    let has_sign: bool = chars.len() > 0 && (chars[0] == '-' || chars[0] == '+');
    let is_negative: bool = has_sign && chars[0] == '-';
    let from: usize = if has_sign {
        1
    } else {
        0
    };
    let ghost digits = chars@.skip(from as int);
    let ghost base_value = base as nat;
    assert(digits =~= if has_sign {
        chars@.drop_first()
    } else {
        chars@
    });
    if from == chars.len() {
        return None;
    }
    let limit: u128 = 0x8000_0000_0000_0000;
    let mut magnitude: u128 = 0;
    let mut is_large: bool = false;
    let mut i: usize = from;
    assert(digits.take(0) =~= Seq::empty());
    while i < chars.len()
        invariant
            from <= i <= chars@.len(),
            base == 10 || base == 16,
            base_value == base,
            limit == 0x8000_0000_0000_0000,
            digits == chars@.skip(from as int),
            has_sign == (chars@.len() > 0 && (chars@[0] == '-' || chars@[0] == '+')),
            digits == if has_sign {
                chars@.drop_first()
            } else {
                chars@
            },
            magnitude <= limit,
            forall|k: int|
                0 <= k < i - from ==> digit_of(#[trigger] digits[k]) is Some && digit_of(
                    digits[k],
                ).unwrap() < base,
            !is_large ==> magnitude == numeral::value(
                digit_values(digits.take(i - from)),
                base_value,
            ),
            is_large ==> numeral::value(digit_values(digits.take(i - from)), base_value) > limit,
        decreases chars@.len() - i,
    {
        let c = chars[i];
        let ghost k = i - from;
        assert(c == digits[k]);
        let digit: u64 = match read_digit(c) {
            Some(digit) => digit,
            None => {
                assert(!are_digits(digits, base_value));
                return None;
            },
        };
        if digit >= base {
            assert(!are_digits(digits, base_value));
            return None;
        }
        proof {
            let front = digit_values(digits.take(k));
            assert(digit_values(digits.take(k + 1)) =~= front.push(digit as nat));
            numeral::lemma_value_push(front, digit as nat, base_value);
            let before = numeral::value(front, base_value);
            assert(before * base_value >= before) by (nonlinear_arith)
                requires
                    base_value >= 1,
            ;
        }
        if !is_large {
            let next: u128 = magnitude * (base as u128) + digit as u128;
            if next > limit {
                is_large = true;
            } else {
                magnitude = next;
            }
        }
        i = i + 1;
    }
    assert(digits.take(digits.len() as int) =~= digits);
    assert(are_digits(digits, base_value));
    if is_large {
        return None;
    }
    if is_negative {
        Some((-(magnitude as i128)) as i64)
    } else if magnitude == limit {
        None
    } else {
        Some(magnitude as i64)
    }
}

/// The integer that a text stands for: in hexadecimal behind `0x`, else in decimal.
pub fn read_integer(s: &str) -> (value: Option<i64>)
    ensures
        match value {
            Some(n) => integer_value(s@) == Some(n as int),
            None => integer_value(s@) is None,
        },
{
    let chars = chars_of(s);
    if starts_at(&chars, 0, HEX_PREFIX) {
        proof {
            reveal_strlit("0x");
        }
        let digits = vstd::slice::slice_subrange(&chars, 2, chars.len());
        assert(digits@ =~= s@.skip(2));
        read_signed(digits, 16)
    } else {
        read_signed(&chars, 10)
    }
}

/// An integer that is written and then read is the same.
pub proof fn law_integer_reads_back(n: int)
    requires
        i64::MIN <= n <= i64::MAX,
    ensures
        integer_value(signed_text(n)) == Some(n),
{
    let magnitude = if n < 0 {
        (-n) as nat
    } else {
        n as nat
    };
    let written = decimal::decimal(magnitude);
    decimal::lemma_width(magnitude);
    decimal::lemma_padded_len(magnitude, decimal::width(magnitude));
    decimal::lemma_number_of_padded(magnitude, decimal::width(magnitude));
    assert(written.len() > 0);
    assert forall|i: int| 0 <= i < written.len() implies digit_of(#[trigger] written[i]) is Some
        && digit_of(written[i]).unwrap() < 10 by {
        assert(decimal::is_digit(written[i]));
    }
    assert(digit_values(written) =~= decimal::digit_values(written)) by {
        assert forall|i: int| 0 <= i < written.len() implies digit_values(written)[i]
            == decimal::digit_values(written)[i] by {
            assert(decimal::is_digit(written[i]));
        }
    }
    reveal_strlit("0x");
    let s = signed_text(n);
    if n < 0 {
        assert(s.drop_first() =~= written);
    } else {
        assert(decimal::is_digit(written[0]));
    }
    if text::has_at(s, 0, HEX_PREFIX@) {
        assert(s.subrange(0, 2)[1] == HEX_PREFIX@[1]);
        if n >= 0 {
            assert(decimal::is_digit(written[1]));
        } else {
            assert(s.subrange(0, 2)[0] == HEX_PREFIX@[0]);
        }
    }
}

/// A text of decimal digits is read as the number that they stand for, or as its negative behind a minus sign;
/// a plus sign makes no difference. It is no integer if the number takes more than 64 bits with its sign.
pub proof fn law_digits_read_as_integers(digits: Seq<char>)
    requires
        digits.len() > 0,
        decimal::all_digits(digits),
    ensures
        ({
            let n = decimal::number_of(digits) as int;
            let positive = if n < 0x8000_0000_0000_0000 {
                Some(n)
            } else {
                None
            };
            &&& integer_value(digits) == positive
            &&& integer_value(seq!['+'] + digits) == positive
            &&& integer_value(seq!['-'] + digits) == if n <= 0x8000_0000_0000_0000 {
                Some(-n)
            } else {
                None
            }
        }),
{
    reveal_strlit("0x");
    assert(HEX_PREFIX@ =~= seq!['0', 'x']);
    assert(decimal::is_digit(digits[0]));
    assert(!text::has_at(digits, 0, HEX_PREFIX@)) by {
        if digits.len() >= 2 {
            assert(decimal::is_digit(digits[1]));
            assert(digits.subrange(0, 2)[1] == digits[1]);
        }
    }
    assert((seq!['+'] + digits).drop_first() =~= digits);
    assert((seq!['-'] + digits).drop_first() =~= digits);
    assert((seq!['+'] + digits)[0] == '+' && (seq!['-'] + digits)[0] == '-');
    assert(!text::has_at(seq!['+'] + digits, 0, HEX_PREFIX@)) by {
        assert((seq!['+'] + digits).subrange(0, 2)[0] == '+');
    }
    assert(!text::has_at(seq!['-'] + digits, 0, HEX_PREFIX@)) by {
        assert((seq!['-'] + digits).subrange(0, 2)[0] == '-');
    }
    assert(are_digits(digits, 10)) by {
        assert forall|i: int| 0 <= i < digits.len() implies digit_of(#[trigger] digits[i]) is Some
            && digit_of(digits[i]).unwrap() < 10 by {
            assert(decimal::is_digit(digits[i]));
        }
    }
    assert(digit_values(digits) =~= decimal::digit_values(digits)) by {
        assert forall|i: int| 0 <= i < digits.len() implies digit_values(digits)[i]
            == decimal::digit_values(digits)[i] by {
            assert(decimal::is_digit(digits[i]));
        }
    }
}

/// A text with the prefix `0x` is read in base 16, with letters of either case for the digits from ten on: a
/// digit more at the end makes it sixteen times the number and the digit.
pub proof fn law_hexadecimal_integers(digits: Seq<char>, c: char)
    requires
        digits.len() > 0,
        digit_of(digits[0]) is Some,
        '0' <= c <= '9' || 'a' <= c <= 'f' || 'A' <= c <= 'F',
    ensures
        ({
            let value: int = if '0' <= c <= '9' {
                c as int - '0' as int
            } else if 'a' <= c <= 'f' {
                c as int - 'a' as int + 10
            } else {
                c as int - 'A' as int + 10
            };
            let before = signed_value(digits, 16);
            let after = signed_value(digits.push(c), 16);
            &&& signed_value(seq![c], 16) == Some(value)
            &&& after is Some <==> before is Some
            &&& before matches Some(n) ==> after == Some(16 * n + value)
            &&& integer_value(seq!['0', 'x'] + digits) == match before {
                Some(n) => if n < 0x8000_0000_0000_0000 {
                    Some(n)
                } else {
                    None
                },
                None => None,
            }
        }),
{
    reveal_strlit("0x");
    assert(HEX_PREFIX@ =~= seq!['0', 'x']);
    let more = digits.push(c);
    assert(more[0] == digits[0]);
    assert(digit_values(more) =~= digit_values(digits).push(digit_of(c).unwrap()));
    numeral::lemma_value_push(digit_values(digits), digit_of(c).unwrap(), 16);
    if are_digits(digits, 16) {
        assert forall|i: int| 0 <= i < more.len() implies digit_of(#[trigger] more[i]) is Some && digit_of(
            more[i],
        ).unwrap() < 16 by {
            if i < digits.len() {
                assert(more[i] == digits[i]);
            }
        }
    }
    if are_digits(more, 16) {
        assert forall|i: int| 0 <= i < digits.len() implies digit_of(#[trigger] digits[i]) is Some
            && digit_of(digits[i]).unwrap() < 16 by {
            assert(more[i] == digits[i]);
        }
    }
    let one = seq![c];
    assert(digit_values(one) =~= Seq::<nat>::empty().push(digit_of(c).unwrap()));
    numeral::lemma_value_push(Seq::empty(), digit_of(c).unwrap(), 16);
    assert(are_digits(one, 16));
    let all = seq!['0', 'x'] + digits;
    assert(all.subrange(0, 2) =~= HEX_PREFIX@);
    assert(all.skip(2) =~= digits);
}

} // verus!
