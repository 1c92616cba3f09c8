use vstd::prelude::*;

use crate::biginteger::{
    bound256, lemma_bound_large, lemma_pow_nat_step, pow10, shift128, u256_checked_multiply_ratio,
    BigInteger,
};
use crate::errors::NumericError;

verus! {

/// The numerator of `one()`: 10^18 atomic units make one whole unit.
pub const DECIMAL_FRACTIONAL: u128 = 1000000000000000000;

/// The fixed denominator of every decimal value, 10^18.
pub open spec fn denom() -> nat {
    DECIMAL_FRACTIONAL as nat
}

/// The fixed denominator is the eighteenth power of ten.
pub proof fn lemma_pow10_18()
    ensures
        pow10(0) == 1,
        pow10(16) == 10000000000000000,
        pow10(18) == denom(),
{
    lemma_pow_nat_step(10, 0);
    lemma_pow_nat_step(10, 1);
    lemma_pow_nat_step(10, 2);
    lemma_pow_nat_step(10, 3);
    lemma_pow_nat_step(10, 4);
    lemma_pow_nat_step(10, 5);
    lemma_pow_nat_step(10, 6);
    lemma_pow_nat_step(10, 7);
    lemma_pow_nat_step(10, 8);
    lemma_pow_nat_step(10, 9);
    lemma_pow_nat_step(10, 10);
    lemma_pow_nat_step(10, 11);
    lemma_pow_nat_step(10, 12);
    lemma_pow_nat_step(10, 13);
    lemma_pow_nat_step(10, 14);
    lemma_pow_nat_step(10, 15);
    lemma_pow_nat_step(10, 16);
    lemma_pow_nat_step(10, 17);
}

/// A fixed-point decimal value: an integer count of atomic units over the
/// fixed denominator 10^18.
///
/// The represented rational value is `atomics / 10^18`; no operation ever
/// changes the implicit denominator. The derived ordering agrees with the
/// ordering of the represented values.
#[derive(Clone, Copy, Debug, PartialEq, Eq, Structural, PartialOrd, Ord, Hash, Default)]
pub struct BigDecimal {
    atomics: BigInteger,
}

impl BigDecimal {
    /// The numerator of this value at the fixed denominator 10^18.
    pub closed spec fn value(&self) -> nat {
        self.atomics.value()
    }

    /// Every numerator lies below 2^256.
    pub proof fn lemma_value_bound(&self)
        ensures
            self.value() < bound256(),
    {
        self.atomics.lemma_value_bound();
    }

    /// Two decimals are the same structure exactly when they hold the same
    /// numerator.
    pub proof fn lemma_value_injective(a: BigDecimal, b: BigDecimal)
        ensures
            (a == b) <==> (a.value() == b.value()),
    {
        BigInteger::lemma_value_injective(a.atomics, b.atomics);
    }

    /// Builds a decimal directly from a raw numerator, without scaling:
    /// the result represents `numerator / 10^18`.
    pub fn new(numerator: BigInteger) -> (r: BigDecimal)
        ensures
            r.value() == numerator.value(),
    {
        BigDecimal { atomics: numerator }
    }

    /// The decimal zero.
    pub fn zero() -> (r: BigDecimal)
        ensures
            r.value() == 0,
    {
        BigDecimal { atomics: BigInteger::zero() }
    }

    /// The decimal one: 10^18 atomic units.
    pub fn one() -> (r: BigDecimal)
        ensures
            r.value() == denom(),
    {
        BigDecimal { atomics: BigInteger::from_u128(DECIMAL_FRACTIONAL) }
    }

    /// The smallest representable decimal; equal to `zero()`.
    pub fn min_value() -> (r: BigDecimal)
        ensures
            r.value() == 0,
    {
        BigDecimal::zero()
    }

    /// The largest representable decimal, (2^256 - 1) / 10^18.
    pub fn max_value() -> (r: BigDecimal)
        ensures
            r.value() == bound256() - 1,
    {
        BigDecimal { atomics: BigInteger::max_value() }
    }

    /// The raw numerator of this decimal, as an integer.
    pub fn numerator(&self) -> (r: BigInteger)
        ensures
            r.value() == self.value(),
    {
        self.atomics
    }

    /// True exactly on the decimal zero.
    pub fn is_zero(&self) -> (r: bool)
        ensures
            r <==> self.value() == 0,
    {
        self.atomics.is_zero()
    }

    /// `x` percent: exactly `x * 10^16` atomic units, the same value that
    /// `from_ratio(x, 100)` constructs; never fails.
    pub fn percent(x: u64) -> (r: BigDecimal)
        ensures
            r.value() == (x as nat) * pow10(16),
    {
        proof {
            lemma_pow10_18();
        }
        BigDecimal { atomics: BigInteger::from_u128((x as u128) * 10000000000000000) }
    }

    /// Builds `numerator / denominator` as a decimal, flooring at the
    /// eighteenth decimal place: `DivideByZero` on a zero denominator,
    /// `Overflow` when the scaled numerator exceeds the representable range.
    pub fn from_ratio(numerator: &BigInteger, denominator: &BigInteger) -> (r: Result<
        BigDecimal,
        NumericError,
    >)
        ensures
            r is Ok <==> (denominator.value() != 0 && numerator.value() * denom()
                / denominator.value() < bound256()),
            r matches Ok(c) ==> c.value() == numerator.value() * denom() / denominator.value(),
            denominator.value() == 0 ==> r == Err::<BigDecimal, NumericError>(
                NumericError::DivideByZero,
            ),
            denominator.value() != 0 && r is Err ==> r == Err::<BigDecimal, NumericError>(
                NumericError::Overflow,
            ),
    {
        let scale = BigInteger::from_u128(DECIMAL_FRACTIONAL);
        if denominator.is_zero() {
            return Err(NumericError::DivideByZero);
        }
        match u256_checked_multiply_ratio(numerator, &scale, denominator) {
            Some(c) => Ok(BigDecimal { atomics: c }),
            None => Err(NumericError::Overflow),
        }
    }

    /// Checked addition of two decimals.
    pub fn add(&self, rhs: &BigDecimal) -> (r: Result<BigDecimal, NumericError>)
        ensures
            r is Ok <==> self.value() + rhs.value() < bound256(),
            r matches Ok(c) ==> c.value() == self.value() + rhs.value(),
            r matches Err(e) ==> e == NumericError::Overflow,
    {
        match self.atomics.add(&rhs.atomics) {
            Ok(c) => Ok(BigDecimal { atomics: c }),
            Err(e) => Err(e),
        }
    }

    /// Checked subtraction of two decimals: `Underflow` when the
    /// subtrahend exceeds the minuend.
    pub fn sub(&self, rhs: &BigDecimal) -> (r: Result<BigDecimal, NumericError>)
        ensures
            r is Ok <==> rhs.value() <= self.value(),
            r matches Ok(c) ==> c.value() == self.value() - rhs.value(),
            r matches Err(e) ==> e == NumericError::Underflow,
    {
        match self.atomics.sub(&rhs.atomics) {
            Ok(c) => Ok(BigDecimal { atomics: c }),
            Err(e) => Err(e),
        }
    }

    /// Subtraction that clamps to zero instead of failing when the
    /// subtrahend exceeds the minuend.
    pub fn saturating_sub(&self, rhs: &BigDecimal) -> (r: BigDecimal)
        ensures
            rhs.value() <= self.value() ==> r.value() == self.value() - rhs.value(),
            rhs.value() > self.value() ==> r.value() == 0,
    {
        BigDecimal { atomics: self.atomics.saturating_sub(&rhs.atomics) }
    }

    /// Checked multiplication of two decimals: the double-width product of
    /// the numerators rescaled back to the fixed denominator, flooring.
    pub fn mul(&self, rhs: &BigDecimal) -> (r: Result<BigDecimal, NumericError>)
        ensures
            r is Ok <==> self.value() * rhs.value() / denom() < bound256(),
            r matches Ok(c) ==> c.value() == self.value() * rhs.value() / denom(),
            r matches Err(e) ==> e == NumericError::Overflow,
    {
        let scale = BigInteger::from_u128(DECIMAL_FRACTIONAL);
        match u256_checked_multiply_ratio(&self.atomics, &rhs.atomics, &scale) {
            Some(c) => Ok(BigDecimal { atomics: c }),
            None => Err(NumericError::Overflow),
        }
    }

    /// Checked division of two decimals: the numerator is rescaled by the
    /// fixed denominator with a double-width intermediate, flooring;
    /// `DivideByZero` on a zero divisor.
    pub fn div(&self, rhs: &BigDecimal) -> (r: Result<BigDecimal, NumericError>)
        ensures
            r is Ok <==> (rhs.value() != 0 && self.value() * denom() / rhs.value() < bound256()),
            r matches Ok(c) ==> c.value() == self.value() * denom() / rhs.value(),
            rhs.value() == 0 ==> r == Err::<BigDecimal, NumericError>(NumericError::DivideByZero),
            rhs.value() != 0 && r is Err ==> r == Err::<BigDecimal, NumericError>(
                NumericError::Overflow,
            ),
    {
        let scale = BigInteger::from_u128(DECIMAL_FRACTIONAL);
        if rhs.is_zero() {
            return Err(NumericError::DivideByZero);
        }
        match u256_checked_multiply_ratio(&self.atomics, &scale, &rhs.atomics) {
            Some(c) => Ok(BigDecimal { atomics: c }),
            None => Err(NumericError::Overflow),
        }
    }

    /// In-place checked addition: replaces the receiver with the sum, or
    /// leaves it unchanged and reports `Overflow`.
    pub fn add_assign(&mut self, rhs: &BigDecimal) -> (r: Result<(), NumericError>)
        ensures
            r is Ok <==> old(self).value() + rhs.value() < bound256(),
            r is Ok ==> final (self).value() == old(self).value() + rhs.value(),
            r is Err ==> *final (self) == *old(self) && r == Err::<(), NumericError>(
                NumericError::Overflow,
            ),
    {
        match self.add(rhs) {
            Ok(c) => {
                *self = c;
                Ok(())
            },
            Err(e) => Err(e),
        }
    }

    /// In-place checked subtraction: replaces the receiver with the
    /// difference, or leaves it unchanged and reports `Underflow`.
    pub fn sub_assign(&mut self, rhs: &BigDecimal) -> (r: Result<(), NumericError>)
        ensures
            r is Ok <==> rhs.value() <= old(self).value(),
            r is Ok ==> final (self).value() == old(self).value() - rhs.value(),
            r is Err ==> *final (self) == *old(self) && r == Err::<(), NumericError>(
                NumericError::Underflow,
            ),
    {
        match self.sub(rhs) {
            Ok(c) => {
                *self = c;
                Ok(())
            },
            Err(e) => Err(e),
        }
    }

    /// In-place checked multiplication at the fixed scale: replaces the
    /// receiver with the rescaled product, or leaves it unchanged and
    /// reports `Overflow`.
    pub fn mul_assign(&mut self, rhs: &BigDecimal) -> (r: Result<(), NumericError>)
        ensures
            r is Ok <==> old(self).value() * rhs.value() / denom() < bound256(),
            r is Ok ==> final (self).value() == old(self).value() * rhs.value() / denom(),
            r is Err ==> *final (self) == *old(self) && r == Err::<(), NumericError>(
                NumericError::Overflow,
            ),
    {
        match self.mul(rhs) {
            Ok(c) => {
                *self = c;
                Ok(())
            },
            Err(e) => Err(e),
        }
    }

    /// True exactly when this value lies in the closed interval [0, 1].
    pub fn is_ratio(&self) -> (r: bool)
        ensures
            r <==> self.value() <= denom(),
    {
        let one = BigDecimal::one();
        self.atomics.le(&one.atomics)
    }

    /// Re-expresses an integer that already carries `decimals` fractional
    /// digits at the fixed eighteen-place scale, flooring when
    /// `decimals > 18`; `Overflow` when the scale factor or the rescaled
    /// numerator exceeds the representable range.
    pub fn from(bigint: &BigInteger, decimals: u32) -> (r: Result<BigDecimal, NumericError>)
        ensures
            r is Ok <==> (pow10(decimals as nat) < bound256() && bigint.value() * denom() / pow10(
                decimals as nat,
            ) < bound256()),
            r matches Ok(c) ==> c.value() == bigint.value() * denom() / pow10(decimals as nat),
            r matches Err(e) ==> e == NumericError::Overflow,
    {
        proof {
            vstd::arithmetic::power::lemma_pow_positive(10, decimals as nat);
        }
        let ten = BigInteger::from_u128(10);
        let p = match ten.pow(decimals) {
            Ok(p) => p,
            Err(_) => {
                return Err(NumericError::Overflow);
            },
        };
        let scale = BigInteger::from_u128(DECIMAL_FRACTIONAL);
        match u256_checked_multiply_ratio(bigint, &scale, &p) {
            Some(c) => Ok(BigDecimal { atomics: c }),
            None => Err(NumericError::Overflow),
        }
    }

    /// Projects the decimal onto an integer scaled by `10^decimals`:
    /// `floor(self * 10^decimals)`, or `Overflow` when the scale factor or
    /// the projection exceeds the representable range.
    pub fn scale_up(&self, decimals: u32) -> (r: Result<BigInteger, NumericError>)
        ensures
            r is Ok <==> (pow10(decimals as nat) < bound256() && self.value() * pow10(
                decimals as nat,
            ) / denom() < bound256()),
            r matches Ok(c) ==> c.value() == self.value() * pow10(decimals as nat) / denom(),
            r matches Err(e) ==> e == NumericError::Overflow,
    {
        let ten = BigInteger::from_u128(10);
        let p = match ten.pow(decimals) {
            Ok(p) => p,
            Err(_) => {
                return Err(NumericError::Overflow);
            },
        };
        let scale = BigInteger::from_u128(DECIMAL_FRACTIONAL);
        match u256_checked_multiply_ratio(&self.atomics, &p, &scale) {
            Some(c) => Ok(c),
            None => Err(NumericError::Overflow),
        }
    }

    /// Multiplies the value by `10^decimals`, staying in decimal
    /// representation; `Overflow` when the factor or the product exceeds
    /// the representable range.
    pub fn move_point_right(&self, decimals: u32) -> (r: Result<BigDecimal, NumericError>)
        ensures
            r is Ok <==> (pow10(decimals as nat) < bound256() && self.value() * pow10(
                decimals as nat,
            ) < bound256()),
            r matches Ok(c) ==> c.value() == self.value() * pow10(decimals as nat),
            r matches Err(e) ==> e == NumericError::Overflow,
    {
        let ten = BigInteger::from_u128(10);
        let p = match ten.pow(decimals) {
            Ok(p) => p,
            Err(_) => {
                return Err(NumericError::Overflow);
            },
        };
        match self.atomics.mul(&p) {
            Ok(c) => Ok(BigDecimal { atomics: c }),
            Err(e) => Err(e),
        }
    }

    /// Divides the value by `10^decimals`, flooring at the eighteenth
    /// decimal place and staying in decimal representation; `Overflow` when
    /// the factor exceeds the representable range.
    pub fn move_point_left(&self, decimals: u32) -> (r: Result<BigDecimal, NumericError>)
        ensures
            r is Ok <==> pow10(decimals as nat) < bound256(),
            r matches Ok(c) ==> c.value() == self.value() / pow10(decimals as nat),
            r matches Err(e) ==> e == NumericError::Overflow,
    {
        proof {
            vstd::arithmetic::power::lemma_pow_positive(10, decimals as nat);
        }
        let ten = BigInteger::from_u128(10);
        let p = match ten.pow(decimals) {
            Ok(p) => p,
            Err(_) => {
                return Err(NumericError::Overflow);
            },
        };
        match self.atomics.div(&p) {
            Ok(c) => Ok(BigDecimal { atomics: c }),
            Err(_) => {
                proof {
                    assert(false);
                }
                Err(NumericError::Overflow)
            },
        }
    }

    /// The integer part of the decimal: `floor(self)`.
    pub fn to_integer(&self) -> (r: BigInteger)
        ensures
            r.value() == self.value() / denom(),
    {
        let scale = BigInteger::from_u128(DECIMAL_FRACTIONAL);
        match self.atomics.div(&scale) {
            Ok(c) => c,
            Err(_) => {
                proof {
                    assert(false);
                }
                BigInteger::zero()
            },
        }
    }

    /// Checked multiplication by an integer operand, which is first
    /// promoted to a decimal at scale zero; the result is the exact
    /// product.
    pub fn mul_int(&self, rhs: &BigInteger) -> (r: Result<BigDecimal, NumericError>)
        ensures
            r is Ok <==> (rhs.value() * denom() < bound256() && self.value() * rhs.value()
                < bound256()),
            r matches Ok(c) ==> c.value() == self.value() * rhs.value(),
            r matches Err(e) ==> e == NumericError::Overflow,
    {
        proof {
            lemma_pow10_18();
            lemma_bound_large();
            lemma_promote_cancels(self.value(), rhs.value());
            vstd::arithmetic::div_mod::lemma_div_basics((rhs.value() * denom()) as int);
        }
        let d = match BigDecimal::from(rhs, 0) {
            Ok(d) => d,
            Err(_) => {
                return Err(NumericError::Overflow);
            },
        };
        match self.mul(&d) {
            Ok(c) => Ok(c),
            Err(_) => Err(NumericError::Overflow),
        }
    }

    /// Checked division by an integer operand, which is first promoted to
    /// a decimal at scale zero; the result is the floored quotient at the
    /// fixed scale.
    pub fn div_int(&self, rhs: &BigInteger) -> (r: Result<BigDecimal, NumericError>)
        ensures
            r is Ok <==> (rhs.value() * denom() < bound256() && rhs.value() != 0),
            r matches Ok(c) ==> c.value() == self.value() / rhs.value(),
            rhs.value() * denom() >= bound256() ==> r == Err::<BigDecimal, NumericError>(
                NumericError::Overflow,
            ),
            rhs.value() * denom() < bound256() && rhs.value() == 0 ==> r == Err::<
                BigDecimal,
                NumericError,
            >(NumericError::DivideByZero),
    {
        proof {
            lemma_pow10_18();
            lemma_bound_large();
            lemma_promote_cancels(self.value(), rhs.value());
            vstd::arithmetic::div_mod::lemma_div_basics((rhs.value() * denom()) as int);
            self.atomics.lemma_value_bound();
            if rhs.value() != 0 {
                vstd::arithmetic::div_mod::lemma_div_nonincreasing(
                    self.value() as int,
                    rhs.value() as int,
                );
            }
        }
        let d = match BigDecimal::from(rhs, 0) {
            Ok(d) => d,
            Err(_) => {
                return Err(NumericError::Overflow);
            },
        };
        self.div(&d)
    }

    /// Left fold of checked addition over a sequence, starting from zero:
    /// the exact total, or `Overflow` when the total would exceed the
    /// representable range.
    pub fn sum(items: &Vec<BigDecimal>) -> (r: Result<BigDecimal, NumericError>)
        ensures
            r is Ok <==> sum_values(items@) < bound256(),
            r matches Ok(c) ==> c.value() == sum_values(items@),
            r matches Err(e) ==> e == NumericError::Overflow,
    {
        let mut acc = BigDecimal::zero();
        let mut i: usize = 0;
        while i < items.len()
            invariant
                i <= items.len(),
                acc.value() == sum_values(items@.take(i as int)),
            decreases items.len() - i,
        {
            proof {
                assert(items@.take(i + 1).drop_last() =~= items@.take(i as int));
                assert(items@.take(i + 1).last() == items@[i as int]);
            }
            match acc.add(&items[i]) {
                Ok(c) => {
                    acc = c;
                },
                Err(_) => {
                    proof {
                        lemma_sum_prefix(items@, i + 1);
                    }
                    return Err(NumericError::Overflow);
                },
            }
            i = i + 1;
        }
        proof {
            assert(items@.take(items@.len() as int) =~= items@);
            acc.lemma_value_bound();
        }
        Ok(acc)
    }
}

impl BigInteger {
    /// Re-expresses this integer as a decimal carrying `decimals`
    /// fractional digits, the inverse direction of `BigDecimal::scale_up`.
    pub fn scale_down(&self, decimals: u32) -> (r: Result<BigDecimal, NumericError>)
        ensures
            r is Ok <==> (pow10(decimals as nat) < bound256() && self.value() * denom() / pow10(
                decimals as nat,
            ) < bound256()),
            r matches Ok(c) ==> c.value() == self.value() * denom() / pow10(decimals as nat),
            r matches Err(e) ==> e == NumericError::Overflow,
    {
        BigDecimal::from(self, decimals)
    }

    /// Checked division of this integer by a decimal: the integer is
    /// promoted to scale zero and the quotient is a decimal, floored at
    /// the fixed scale.
    pub fn div_dec(&self, rhs: &BigDecimal) -> (r: Result<BigDecimal, NumericError>)
        ensures
            r is Ok <==> (self.value() * denom() < bound256() && rhs.value() != 0 && self.value()
                * denom() * denom() / rhs.value() < bound256()),
            r matches Ok(c) ==> c.value() == self.value() * denom() * denom() / rhs.value(),
            self.value() * denom() >= bound256() ==> r == Err::<BigDecimal, NumericError>(
                NumericError::Overflow,
            ),
            self.value() * denom() < bound256() && rhs.value() == 0 ==> r == Err::<
                BigDecimal,
                NumericError,
            >(NumericError::DivideByZero),
            self.value() * denom() < bound256() && rhs.value() != 0 && r is Err ==> r == Err::<
                BigDecimal,
                NumericError,
            >(NumericError::Overflow),
    {
        proof {
            lemma_pow10_18();
            lemma_bound_large();
            vstd::arithmetic::div_mod::lemma_div_basics((self.value() * denom()) as int);
        }
        let d = match BigDecimal::from(self, 0) {
            Ok(d) => d,
            Err(_) => {
                return Err(NumericError::Overflow);
            },
        };
        d.div(rhs)
    }

    /// Checked multiplication of this integer by a decimal: the integer is
    /// promoted to scale zero and the exact product is a decimal.
    pub fn mul_dec(&self, rhs: &BigDecimal) -> (r: Result<BigDecimal, NumericError>)
        ensures
            r is Ok <==> (self.value() * denom() < bound256() && rhs.value() * self.value()
                < bound256()),
            r matches Ok(c) ==> c.value() == rhs.value() * self.value(),
            r matches Err(e) ==> e == NumericError::Overflow,
    {
        rhs.mul_int(self)
    }
}

/// Law: promoting an in-range integer to a decimal at scale zero and
/// projecting it back with `scale_up(0)` recovers the integer exactly.
///
/// `d` is the decimal that `BigDecimal::from(&a, 0)` returned, `back` what
/// `d.scale_up(0)` returned: the projection succeeds and yields `a`.
pub proof fn lemma_scale_zero_round_trip(
    a: BigInteger,
    d: BigDecimal,
    back: Result<BigInteger, NumericError>,
)
    requires
        d.value() == a.value() * denom() / pow10(0),
        back is Ok <==> (pow10(0) < bound256() && d.value() * pow10(0) / denom() < bound256()),
        back matches Ok(c) ==> c.value() == d.value() * pow10(0) / denom(),
    ensures
        back == Ok::<BigInteger, NumericError>(a),
{
    lemma_pow10_18();
    lemma_bound_large();
    a.lemma_value_bound();
    vstd::arithmetic::div_mod::lemma_div_basics((a.value() * denom()) as int);
    vstd::arithmetic::div_mod::lemma_div_by_multiple(a.value() as int, denom() as int);
    assert(d.value() == a.value() * denom());
    assert(d.value() * pow10(0) == d.value());
    assert(d.value() / denom() == a.value());
    if back is Ok {
        BigInteger::lemma_value_injective(back->Ok_0, a);
    }
}

/// Law: `percent(x)` constructs exactly the value that
/// `from_ratio(x, 100)` constructs, and the latter always succeeds.
///
/// `p` is what `percent(x)` returned; `num` and `den` hold `x` and 100,
/// and `fr` is what `from_ratio(&num, &den)` returned.
pub proof fn lemma_percent_is_from_ratio(
    x: u64,
    num: BigInteger,
    den: BigInteger,
    p: BigDecimal,
    fr: Result<BigDecimal, NumericError>,
)
    requires
        num.value() == x as nat,
        den.value() == 100,
        p.value() == (x as nat) * pow10(16),
        fr is Ok <==> (den.value() != 0 && num.value() * denom() / den.value() < bound256()),
        fr matches Ok(c) ==> c.value() == num.value() * denom() / den.value(),
    ensures
        fr == Ok::<BigDecimal, NumericError>(p),
{
    lemma_pow10_18();
    lemma_bound_large();
    vstd::arithmetic::mul::lemma_mul_is_associative(x as int, pow10(16) as int, 100);
    assert((x as nat) * denom() == ((x as nat) * pow10(16)) * 100);
    vstd::arithmetic::div_mod::lemma_div_by_multiple(((x as nat) * pow10(16)) as int, 100);
    assert((x as nat) * denom() / 100 == (x as nat) * pow10(16));
    assert((x as nat) * pow10(16) < shift128());
    if fr is Ok {
        BigDecimal::lemma_value_injective(fr->Ok_0, p);
    }
}

/// Law: moving the decimal point right by `n` and then left by `n` is the
/// identity wherever the intermediate step does not overflow.
///
/// `mid` is the decimal that `d.move_point_right(n)` returned, `back` what
/// `mid.move_point_left(n)` returned: the way back succeeds and yields `d`.
pub proof fn lemma_move_point_round_trip(
    d: BigDecimal,
    n: u32,
    mid: BigDecimal,
    back: Result<BigDecimal, NumericError>,
)
    requires
        pow10(n as nat) < bound256(),
        mid.value() == d.value() * pow10(n as nat),
        back is Ok <==> pow10(n as nat) < bound256(),
        back matches Ok(c) ==> c.value() == mid.value() / pow10(n as nat),
    ensures
        back == Ok::<BigDecimal, NumericError>(d),
{
    vstd::arithmetic::power::lemma_pow_positive(10, n as nat);
    vstd::arithmetic::div_mod::lemma_div_by_multiple(d.value() as int, pow10(n as nat) as int);
    if back is Ok {
        BigDecimal::lemma_value_injective(back->Ok_0, d);
    }
}

/// The sum of the numerators of a sequence of decimals.
pub open spec fn sum_values(s: Seq<BigDecimal>) -> nat
    decreases s.len(),
{
    if s.len() == 0 {
        0
    } else {
        sum_values(s.drop_last()) + s.last().value()
    }
}

/// A prefix of a sequence never sums to more than the whole sequence.
proof fn lemma_sum_prefix(s: Seq<BigDecimal>, j: int)
    requires
        0 <= j <= s.len(),
    ensures
        sum_values(s.take(j)) <= sum_values(s),
    decreases s.len(),
{
    if j == s.len() {
        assert(s.take(j) =~= s);
    } else {
        assert(s.drop_last().take(j) =~= s.take(j));
        lemma_sum_prefix(s.drop_last(), j);
    }
}

/// Promoting an integer to the fixed scale and rescaling back cancels:
/// `a * (b * 10^18) / 10^18 == a * b`, and the promoted operand is zero
/// exactly when the integer is.
proof fn lemma_promote_cancels(a: nat, b: nat)
    ensures
        a * (b * denom()) / denom() == a * b,
        b * denom() / denom() == b,
        a * denom() / (b * denom()) == a / b || b == 0,
{
    vstd::arithmetic::mul::lemma_mul_is_associative(a as int, b as int, denom() as int);
    vstd::arithmetic::div_mod::lemma_div_by_multiple((a * b) as int, denom() as int);
    vstd::arithmetic::div_mod::lemma_div_by_multiple(b as int, denom() as int);
    if b != 0 {
        vstd::arithmetic::div_mod::lemma_div_by_multiple((a * denom()) as int, denom() as int);
        vstd::arithmetic::div_mod::lemma_div_denominator(
            (a * denom()) as int,
            denom() as int,
            b as int,
        );
        vstd::arithmetic::mul::lemma_mul_is_commutative(b as int, denom() as int);
    }
}

} // verus!
