//! Positional numerals: numbers as digit sequences of a fixed base, most significant digit first.
use vstd::prelude::*;

verus! {

/// `base` multiplied by itself `len` times.
pub open spec fn power(base: nat, len: nat) -> nat
    decreases len,
{
    if len == 0 {
        1
    } else {
        power(base, (len - 1) as nat) * base
    }
}

/// The last `len` digits of `n` in `base`.
pub open spec fn digits(n: nat, base: nat, len: nat) -> Seq<nat>
    decreases len,
{
    if len == 0 {
        Seq::empty()
    } else {
        digits(n / base, base, (len - 1) as nat).push(n % base)
    }
}

/// The number that a digit sequence stands for.
pub open spec fn value(d: Seq<nat>, base: nat) -> nat
    decreases d.len(),
{
    if d.len() == 0 {
        0
    } else {
        value(d.drop_last(), base) * base + d.last()
    }
}

/// Whether every digit is below the base.
pub open spec fn all_below(d: Seq<nat>, base: nat) -> bool {
    forall|i: int| 0 <= i < d.len() ==> d[i] < base
}

pub proof fn lemma_digits_len(n: nat, base: nat, len: nat)
    requires
        base > 0,
    ensures
        digits(n, base, len).len() == len,
        all_below(digits(n, base, len), base),
    decreases len,
{
    if len > 0 {
        lemma_digits_len(n / base, base, (len - 1) as nat);
        assert(n % base < base) by (nonlinear_arith)
            requires
                base > 0,
        ;
    }
}

/// Reading back the digits of a number gives the number.
pub proof fn lemma_value_of_digits(n: nat, base: nat, len: nat)
    requires
        base > 0,
        n < power(base, len),
    ensures
        value(digits(n, base, len), base) == n,
    decreases len,
{
    if len > 0 {
        let rest = power(base, (len - 1) as nat);
        assert(n / base < rest) by (nonlinear_arith)
            requires
                base > 0,
                n < rest * base,
        ;
        lemma_value_of_digits(n / base, base, (len - 1) as nat);
        lemma_digits_len(n / base, base, (len - 1) as nat);
        let d = digits(n, base, len);
        assert(d.drop_last() =~= digits(n / base, base, (len - 1) as nat));
        assert((n / base) * base + n % base == n) by (nonlinear_arith)
            requires
                base > 0,
        ;
    }
}

/// Writing out the number of a digit sequence gives the sequence.
pub proof fn lemma_digits_of_value(d: Seq<nat>, base: nat)
    requires
        base > 0,
        all_below(d, base),
    ensures
        digits(value(d, base), base, d.len()) == d,
        value(d, base) < power(base, d.len()),
    decreases d.len(),
{
    if d.len() > 0 {
        let front = d.drop_last();
        assert(all_below(front, base)) by {
            assert forall|i: int| 0 <= i < front.len() implies front[i] < base by {
                assert(front[i] == d[i]);
            }
        }
        lemma_digits_of_value(front, base);
        let v = value(front, base);
        let last = d.last();
        assert((v * base + last) / base == v && (v * base + last) % base == last) by {
            vstd::arithmetic::div_mod::lemma_fundamental_div_mod_converse(
                (v * base + last) as int,
                base as int,
                v as int,
                last as int,
            );
        }
        let rest = power(base, front.len());
        assert(v * base + last < rest * base) by (nonlinear_arith)
            requires
                v < rest,
                last < base,
        ;
        assert(front.push(last) =~= d);
    }
}

/// A numeral extended by one digit.
pub proof fn lemma_value_push(d: Seq<nat>, x: nat, base: nat)
    ensures
        value(d.push(x), base) == value(d, base) * base + x,
{
    assert(d.push(x).drop_last() =~= d);
}

/// More digits of a smaller number only add leading zeros, so a longer power is never smaller.
pub proof fn lemma_power_monotonic(base: nat, short: nat, long: nat)
    requires
        base > 0,
        short <= long,
    ensures
        power(base, short) <= power(base, long),
        power(base, long) > 0,
    decreases long,
{
    if long > 0 {
        if short == long {
            lemma_power_monotonic(base, (short - 1) as nat, (long - 1) as nat);
            assert(power(base, (long - 1) as nat) * base > 0) by (nonlinear_arith)
                requires
                    power(base, (long - 1) as nat) > 0,
                    base > 0,
            ;
        } else {
            lemma_power_monotonic(base, short, (long - 1) as nat);
            assert(power(base, (long - 1) as nat) <= power(base, (long - 1) as nat) * base) by (nonlinear_arith)
                requires
                    base > 0,
            ;
        }
    }
}

} // verus!
