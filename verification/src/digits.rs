//! Decimal digits of a number: the digit sequence, the digit at a position
//! counted from the least significant end, and how both relate to division
//! by powers of ten.

use vstd::arithmetic::div_mod::{
    lemma_basic_div, lemma_breakdown, lemma_div_denominator, lemma_small_mod,
};
use vstd::arithmetic::power::{
    lemma_pow0, lemma_pow1, lemma_pow_adds, lemma_pow_increases, lemma_pow_positive, pow,
};
use vstd::prelude::*;

verus! {

/// The decimal digits of `n`, most significant first. Zero has the one
/// digit `0`; no other number starts with a `0`.
pub open spec fn decimal_digits(n: nat) -> Seq<u32>
    decreases n,
{
    if n < 10 {
        seq![n as u32]
    } else {
        decimal_digits(n / 10).push((n % 10) as u32)
    }
}

/// The digit at `position`, where position 0 is the last digit of the
/// sequence, 1 the one before it, and so on. Past the first digit every
/// position holds 0, as if the sequence were padded with zeros on the left.
pub open spec fn digit_from_end(digits: Seq<u32>, position: nat) -> u32 {
    if position < digits.len() {
        digits[digits.len() - 1 - position]
    } else {
        0
    }
}

/// The number that a sequence of decimal digits spells, most significant
/// digit first.
pub open spec fn decimal_value(digits: Seq<u32>) -> nat
    decreases digits.len(),
{
    if digits.len() == 0 {
        0
    } else {
        decimal_value(digits.drop_last()) * 10 + digits.last() as nat
    }
}

/// The digit of `n` that stands for `10^position`.
pub open spec fn digit_of(n: nat, position: nat) -> int {
    (n as int / pow(10, position)) % 10
}

/// What the digits of `n` below `position` amount to.
pub open spec fn low_part(n: nat, position: nat) -> int {
    n as int % pow(10, position)
}

/// The digit sequence of a number is not empty, holds decimal digits only,
/// and is just long enough for the number: `n` is below `10^len`, and only
/// zero has a leading digit 0.
pub proof fn lemma_decimal_digits(n: nat)
    ensures
        decimal_digits(n).len() >= 1,
        forall|i: int| 0 <= i < decimal_digits(n).len() ==> decimal_digits(n)[i] < 10,
        n < pow(10, decimal_digits(n).len()),
        n > 0 ==> decimal_digits(n)[0] != 0,
    decreases n,
{
    if n < 10 {
        lemma_pow1(10);
    } else {
        let upper = decimal_digits(n / 10);
        lemma_decimal_digits(n / 10);
        lemma_pow_adds(10, upper.len(), 1);
        lemma_pow1(10);
        assert(n < 10 * (n / 10) + 10);
        assert(pow(10, upper.len() + 1) == pow(10, upper.len()) * 10);
        assert(decimal_digits(n)[0] == upper[0]);
    }
}

/// The digit sequence of a number spells that number.
pub proof fn lemma_decimal_value(n: nat)
    ensures
        decimal_value(decimal_digits(n)) == n,
    decreases n,
{
    if n < 10 {
        assert(decimal_digits(n).drop_last() =~= Seq::<u32>::empty());
        assert(decimal_value(Seq::<u32>::empty()) == 0);
    } else {
        lemma_decimal_value(n / 10);
        assert(decimal_digits(n).drop_last() =~= decimal_digits(n / 10));
    }
}

/// A number that fits in 32 bits has at most ten decimal digits.
pub proof fn lemma_digit_count_u32(n: u32)
    ensures
        decimal_digits(n as nat).len() <= 10,
{
    reveal_with_fuel(decimal_digits, 11);
}

/// Looking a position up in the digit sequence of `n` gives the digit that
/// division finds: the quotient of `n` by `10^position`, modulo ten.
pub proof fn lemma_digit_from_end(n: nat, position: nat)
    ensures
        digit_from_end(decimal_digits(n), position) == digit_of(n, position),
    decreases position,
{
    if position == 0 {
        lemma_pow0(10);
    } else {
        let below = (position - 1) as nat;
        lemma_pow_positive(10, below);
        lemma_pow_adds(10, 1, below);
        lemma_pow1(10);
        lemma_div_denominator(n as int, 10, pow(10, below));
        assert((n as int / 10) / pow(10, below) == n as int / pow(10, position));
        if n < 10 {
            lemma_basic_div(n as int, 10);
            lemma_basic_div(0, pow(10, below));
        } else {
            lemma_digit_from_end(n / 10, below);
        }
    }
}

/// The low part grows by one digit at a time, and stays below its power of
/// ten.
pub proof fn lemma_low_part_step(n: nat, position: nat)
    ensures
        0 <= low_part(n, position) < pow(10, position),
        low_part(n, position + 1) == digit_of(n, position) * pow(10, position) + low_part(
            n,
            position,
        ),
{
    let unit = pow(10, position);
    lemma_pow_positive(10, position);
    lemma_pow_adds(10, position, 1);
    lemma_pow1(10);
    lemma_breakdown(n as int, unit, 10);
    assert(unit * digit_of(n, position) == digit_of(n, position) * unit) by (nonlinear_arith);
}

/// Numbers compare by their low parts one digit further as they compare by
/// that digit first and by their low parts so far second.
pub proof fn lemma_low_part_order(a: nat, b: nat, position: nat)
    requires
        digit_of(a, position) < digit_of(b, position) || (digit_of(a, position) == digit_of(
            b,
            position,
        ) && low_part(a, position) <= low_part(b, position)),
    ensures
        low_part(a, position + 1) <= low_part(b, position + 1),
{
    let unit = pow(10, position);
    let da = digit_of(a, position);
    let db = digit_of(b, position);
    lemma_low_part_step(a, position);
    lemma_low_part_step(b, position);
    if da < db {
        assert((da + 1) * unit <= db * unit) by (nonlinear_arith)
            requires
                da + 1 <= db,
                0 < unit,
        ;
        assert((da + 1) * unit == da * unit + unit) by (nonlinear_arith);
    }
}

/// A number with no more than `width` digits is all low part below `width`.
pub proof fn lemma_low_part_whole(n: nat, width: nat)
    requires
        decimal_digits(n).len() <= width,
    ensures
        low_part(n, width) == n,
{
    lemma_decimal_digits(n);
    lemma_pow_increases(10, decimal_digits(n).len(), width);
    lemma_small_mod(n, pow(10, width) as nat);
}

/// The decimal digits of `n`, most significant first, found by dividing by
/// ten until nothing is left above the last digit.
pub fn digits(n: u32) -> (d: Vec<u32>)
    ensures
        d@ == decimal_digits(n as nat),
        1 <= d@.len() <= 10,
        forall|i: int| 0 <= i < d@.len() ==> d@[i] < 10,
    decreases n,
{
    proof {
        lemma_decimal_digits(n as nat);
        lemma_digit_count_u32(n);
    }
    if n < 10 {
        let mut d: Vec<u32> = Vec::new();
        d.push(n);
        d
    } else {
        let mut d: Vec<u32> = digits(n / 10);
        d.push(n % 10);
        d
    }
}

/// The digit at `position` of a digit sequence that is written most
/// significant digit first: position 0 is its last digit. A position that
/// the sequence does not reach holds 0.
pub fn digit_at(digits: &[u32], position: usize) -> (digit: u32)
    ensures
        digit == digit_from_end(digits@, position as nat),
        position >= digits@.len() ==> digit == 0,
{
    let len: usize = digits.len();
    if position < len {
        digits[len - 1 - position]
    } else {
        0
    }
}

} // verus!
