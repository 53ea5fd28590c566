//! Decimal text of small unsigned integers, written straight into a sink.

use crate::sink::{fits_in, offered, write_all, ByteSink, SinkError};
use vstd::prelude::*;

verus! {

/// The byte `'0'`; the digit `d` is the byte `UTF8_ZERO + d`.
pub const UTF8_ZERO: u8 = 48;

/// The line terminator, `'\n'`.
pub const NEWLINE: u8 = 10;

/// The byte that stands for the decimal digit `d`.
pub open spec fn digit(d: nat) -> u8
    recommends
        d < 10,
{
    (UTF8_ZERO + d) as u8
}

/// The decimal text of `n`: its base-10 digits, most significant first, with
/// no leading zero. The text of zero is the single digit `'0'`.
pub open spec fn decimal(n: nat) -> Seq<u8>
    decreases n,
{
    if n < 10 {
        seq![digit(n)]
    } else {
        decimal(n / 10).push(digit(n % 10))
    }
}

/// The number that a run of decimal digits stands for, read most significant
/// digit first.
pub open spec fn decimal_value(text: Seq<u8>) -> nat
    decreases text.len(),
{
    if text.len() == 0 {
        0
    } else {
        10 * decimal_value(text.drop_last()) + (text.last() - UTF8_ZERO) as nat
    }
}

/// Reading the decimal text of a number back gives that number.
pub proof fn lemma_decimal_round_trip(n: nat)
    ensures
        decimal_value(decimal(n)) == n,
    decreases n,
{
    if n < 10 {
        let text = decimal(n);
        assert(text.drop_last() =~= Seq::<u8>::empty());
        assert(decimal_value(text.drop_last()) == 0);
    } else {
        lemma_decimal_round_trip(n / 10);
        let text = decimal(n);
        assert(text.drop_last() =~= decimal(n / 10));
        assert(text.last() == digit(n % 10));
    }
}

/// Decimal text is never empty, holds digits only, and starts with `'0'`
/// only where the number is zero.
pub proof fn lemma_decimal_is_digits(n: nat)
    ensures
        decimal(n).len() >= 1,
        forall|i: int|
            0 <= i < decimal(n).len() ==> UTF8_ZERO <= #[trigger] decimal(n)[i] <= UTF8_ZERO + 9,
        decimal(n)[0] == UTF8_ZERO <==> n == 0,
    decreases n,
{
    if n >= 10 {
        lemma_decimal_is_digits(n / 10);
    }
}

/// The decimal text of a byte, case by case: one digit below 10, tens then
/// ones below 100, and hundreds, tens, ones from 100 on.
pub proof fn lemma_decimal_of_byte(x: u8)
    ensures
        x < 10 ==> decimal(x as nat) == seq![digit(x as nat)],
        10 <= x < 100 ==> decimal(x as nat) == seq![digit(x as nat / 10), digit(x as nat % 10)],
        100 <= x ==> decimal(x as nat) == seq![
            digit(x as nat / 100),
            digit(x as nat / 10 % 10),
            digit(x as nat % 10),
        ],
        decimal(0) == seq![UTF8_ZERO],
        1 <= decimal(x as nat).len() <= 3,
{
    let n: nat = x as nat;
    if 10 <= x < 100 {
        assert(decimal(n) == decimal(n / 10).push(digit(n % 10)));
        assert(decimal(n / 10) == seq![digit(n / 10)]);
        assert(decimal(n) =~= seq![digit(n / 10), digit(n % 10)]);
    } else if 100 <= x {
        assert(decimal(n) == decimal(n / 10).push(digit(n % 10)));
        assert(decimal(n / 10) == decimal(n / 10 / 10).push(digit(n / 10 % 10)));
        assert(decimal(n / 100) == seq![digit(n / 100)]);
        assert(decimal(n) =~= seq![digit(n / 100), digit(n / 10 % 10), digit(n % 10)]);
    }
}

/// Division by a power of ten that is held in a variable, brought back to
/// division by a literal.
proof fn lemma_div_by_weight(x: u8, weight: u8)
    requires
        weight == 1 || weight == 10 || weight == 100,
    ensures
        weight == 1 ==> x / weight == x,
        weight == 10 ==> x / weight == x / 10,
        weight == 100 ==> x / weight == x / 100,
{
    if weight == 1 {
        assert(x / weight == x) by (nonlinear_arith)
            requires
                weight == 1,
        ;
    } else if weight == 10 {
        assert(x / weight == x / 10) by (nonlinear_arith)
            requires
                weight == 10,
        ;
    } else {
        assert(x / weight == x / 100) by (nonlinear_arith)
            requires
                weight == 100,
        ;
    }
}

/// The decimal text of `x`, by the general method: find the weight of the
/// leading digit, then take the digits off one by one from the top. Works for
/// every byte, at the price of an allocation.
pub fn format_decimal(x: u8) -> (text: Vec<u8>)
    ensures
        text@ == decimal(x as nat),
{
    let mut weight: u8 = 1;
    proof {
        lemma_div_by_weight(x, weight);
    }
    while x / weight >= 10
        invariant
            weight == 1 || weight == 10 || weight == 100,
            x / weight >= 1 || weight == 1,
        decreases 100 - weight,
    {
        proof {
            lemma_div_by_weight(x, weight);
        }
        weight = weight * 10;
        proof {
            lemma_div_by_weight(x, weight);
        }
    }
    let mut text: Vec<u8> = Vec::new();
    text.push(UTF8_ZERO + x / weight);
    while weight > 1
        invariant
            weight == 1 || weight == 10 || weight == 100,
            1 <= x / weight || weight == 1,
            text@ == decimal((x / weight) as nat),
        decreases weight,
    {
        let ghost heavier = weight;
        let ghost above = (x / heavier) as nat;
        weight = weight / 10;
        let rest: u8 = x / weight;
        assert(rest >= 10 && rest as nat / 10 == above) by {
            lemma_div_by_weight(x, heavier);
            lemma_div_by_weight(x, weight);
            if heavier == 100 {
                assert(rest == x / 10);
                assert(x as nat / 10 / 10 == x as nat / 100);
            } else {
                assert(rest == x);
            }
        }
        text.push(UTF8_ZERO + rest % 10);
        assert(decimal(rest as nat) == decimal(above).push(digit(rest as nat % 10)));
    }
    text
}

/// Writes the decimal text of `x` to `buf`: one byte below 10, two below 100,
/// and by the general method from 100 on. The text goes out in one write,
/// taken whole or reported as an error.
pub fn write_u8_as_utf8<W: ByteSink>(x: u8, buf: &mut W) -> (r: Result<(), SinkError>)
    requires
        fits_in(old(buf).room(), decimal(x as nat).len()),
    ensures
        offered(*old(buf), *final(buf), decimal(x as nat), r),
{
    proof {
        lemma_decimal_of_byte(x);
    }
    if x < 10 {
        let text: [u8; 1] = [UTF8_ZERO + x];
        assert(text@ =~= decimal(x as nat));
        write_all(buf, text.as_slice())
    } else if x < 100 {
        let ones: u8 = x % 10;
        let tens: u8 = x / 10;
        let text: [u8; 2] = [UTF8_ZERO + tens, UTF8_ZERO + ones];
        assert(text@ =~= decimal(x as nat));
        write_all(buf, text.as_slice())
    } else {
        let text = format_decimal(x);
        write_all(buf, text.as_slice())
    }
}

/// Writes the decimal text of a number below 100 to `buf`, in one write.
pub fn write_1_or_2_digit_u8_as_utf8<W: ByteSink>(x: u8, buf: &mut W) -> (r: Result<(), SinkError>)
    requires
        x < 100,
        fits_in(old(buf).room(), decimal(x as nat).len()),
    ensures
        offered(*old(buf), *final(buf), decimal(x as nat), r),
{
    proof {
        lemma_decimal_of_byte(x);
    }
    if x < 10 {
        let text: [u8; 1] = [UTF8_ZERO + x];
        assert(text@ =~= decimal(x as nat));
        write_all(buf, text.as_slice())
    } else {
        let ones: u8 = x % 10;
        let tens: u8 = x / 10;
        let text: [u8; 2] = [UTF8_ZERO + tens, UTF8_ZERO + ones];
        assert(text@ =~= decimal(x as nat));
        write_all(buf, text.as_slice())
    }
}

} // verus!
