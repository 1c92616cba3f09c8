use vstd::prelude::*;

use crate::errors::NumericError;

verus! {

/// The number of values a 128-bit half can take: 2^128.
pub open spec fn shift128() -> nat {
    (u128::MAX + 1) as nat
}

/// One past the largest representable magnitude: 2^256.
pub open spec fn bound256() -> nat {
    shift128() * shift128()
}

/// A 256-bit unsigned magnitude held as two 128-bit halves.
///
/// Every pair of halves is a valid value; the represented magnitude is
/// `hi * 2^128 + lo`. The field order makes the derived ordering agree with
/// the numeric ordering.
#[derive(Clone, Copy, Debug, PartialEq, Eq, Structural, PartialOrd, Ord, Hash, Default)]
pub struct BigInteger {
    hi: u128,
    lo: u128,
}

/// The representable range reaches beyond the 128-bit range.
pub proof fn lemma_bound_large()
    ensures
        bound256() >= shift128(),
{
    assert(shift128() * shift128() >= shift128()) by (nonlinear_arith)
        requires
            shift128() >= 1,
    ;
}

/// How a pair of halves relates to the magnitude it stands for.
proof fn lemma_halves(hi: u128, lo: u128)
    ensures
        (hi as nat) * shift128() + (lo as nat) < bound256(),
        ((hi as nat) * shift128() + (lo as nat) == 0) <==> (hi == 0 && lo == 0),
        hi != 0 ==> (hi as nat) * shift128() + (lo as nat) >= shift128(),
{
    assert((hi as nat) * shift128() + (lo as nat) < shift128() * shift128()
        && (((hi as nat) * shift128() + (lo as nat) == 0) <==> (hi == 0 && lo == 0)) && (hi != 0
        ==> (hi as nat) * shift128() + (lo as nat) >= shift128())) by (nonlinear_arith)
        requires
            (hi as nat) < shift128(),
            (lo as nat) < shift128(),
            shift128() > 0,
    ;
}

/// Two pairs of halves stand for the same magnitude only when they are the
/// same pair.
proof fn lemma_halves_injective(h1: u128, l1: u128, h2: u128, l2: u128)
    requires
        (h1 as nat) * shift128() + (l1 as nat) == (h2 as nat) * shift128() + (l2 as nat),
    ensures
        h1 == h2 && l1 == l2,
{
    assert(h1 == h2 && l1 == l2) by (nonlinear_arith)
        requires
            (h1 as nat) * shift128() + (l1 as nat) == (h2 as nat) * shift128() + (l2 as nat),
            (l1 as nat) < shift128(),
            (l2 as nat) < shift128(),
            shift128() > 0,
    ;
}

impl BigInteger {
    /// The magnitude this value represents, in [0, 2^256 - 1].
    pub closed spec fn value(&self) -> nat {
        (self.hi as nat) * shift128() + (self.lo as nat)
    }

    /// Every value lies below 2^256.
    pub proof fn lemma_value_bound(&self)
        ensures
            self.value() < bound256(),
    {
        lemma_halves(self.hi, self.lo);
    }

    /// Two values are the same structure exactly when they represent the
    /// same magnitude.
    pub proof fn lemma_value_injective(a: BigInteger, b: BigInteger)
        ensures
            (a == b) <==> (a.value() == b.value()),
    {
        if a.value() == b.value() {
            lemma_halves_injective(a.hi, a.lo, b.hi, b.lo);
        }
    }

    /// The zero value.
    pub fn zero() -> (r: BigInteger)
        ensures
            r.value() == 0,
    {
        BigInteger { hi: 0, lo: 0 }
    }

    /// The smallest representable value; equal to `zero()`.
    pub fn min_value() -> (r: BigInteger)
        ensures
            r.value() == 0,
    {
        BigInteger { hi: 0, lo: 0 }
    }

    /// The largest representable value, 2^256 - 1.
    pub fn max_value() -> (r: BigInteger)
        ensures
            r.value() == bound256() - 1,
    {
        BigInteger { hi: u128::MAX, lo: u128::MAX }
    }

    /// Exact widening conversion from a 128-bit integer.
    pub fn from_u128(v: u128) -> (r: BigInteger)
        ensures
            r.value() == v,
    {
        BigInteger { hi: 0, lo: v }
    }

    /// True exactly on the zero value.
    pub fn is_zero(&self) -> (r: bool)
        ensures
            r <==> self.value() == 0,
    {
        proof {
            lemma_halves(self.hi, self.lo);
        }
        self.hi == 0 && self.lo == 0
    }

    /// Checked addition: the exact sum, or `Overflow` when it would exceed
    /// the largest representable value.
    pub fn add(&self, rhs: &BigInteger) -> (r: Result<BigInteger, NumericError>)
        ensures
            r is Ok <==> self.value() + rhs.value() < bound256(),
            r matches Ok(c) ==> c.value() == self.value() + rhs.value(),
            r matches Err(e) ==> e == NumericError::Overflow,
    {
        match u256_checked_add(self, rhs) {
            Some(c) => Ok(c),
            None => Err(NumericError::Overflow),
        }
    }

    /// Checked subtraction: the exact difference, or `Underflow` when the
    /// subtrahend exceeds the minuend.
    pub fn sub(&self, rhs: &BigInteger) -> (r: Result<BigInteger, NumericError>)
        ensures
            r is Ok <==> rhs.value() <= self.value(),
            r matches Ok(c) ==> c.value() == self.value() - rhs.value(),
            r matches Err(e) ==> e == NumericError::Underflow,
    {
        match u256_checked_sub(self, rhs) {
            Some(c) => Ok(c),
            None => Err(NumericError::Underflow),
        }
    }

    /// Subtraction that clamps to zero instead of failing when the
    /// subtrahend exceeds the minuend.
    pub fn saturating_sub(&self, rhs: &BigInteger) -> (r: BigInteger)
        ensures
            rhs.value() <= self.value() ==> r.value() == self.value() - rhs.value(),
            rhs.value() > self.value() ==> r.value() == 0,
    {
        match u256_checked_sub(self, rhs) {
            Some(c) => c,
            None => BigInteger { hi: 0, lo: 0 },
        }
    }

    /// Checked multiplication: the exact product, or `Overflow` when it
    /// would exceed the largest representable value.
    pub fn mul(&self, rhs: &BigInteger) -> (r: Result<BigInteger, NumericError>)
        ensures
            r is Ok <==> self.value() * rhs.value() < bound256(),
            r matches Ok(c) ==> c.value() == self.value() * rhs.value(),
            r matches Err(e) ==> e == NumericError::Overflow,
    {
        match u256_checked_mul(self, rhs) {
            Some(c) => Ok(c),
            None => Err(NumericError::Overflow),
        }
    }

    /// Checked flooring division, or `DivideByZero` on a zero divisor.
    pub fn div(&self, rhs: &BigInteger) -> (r: Result<BigInteger, NumericError>)
        ensures
            r is Ok <==> rhs.value() != 0,
            r matches Ok(c) ==> c.value() == self.value() / rhs.value(),
            r matches Err(e) ==> e == NumericError::DivideByZero,
    {
        match u256_checked_div(self, rhs) {
            Some(c) => Ok(c),
            None => Err(NumericError::DivideByZero),
        }
    }

    /// In-place checked addition: replaces the receiver with the sum, or
    /// leaves it unchanged and reports `Overflow`.
    pub fn add_assign(&mut self, rhs: &BigInteger) -> (r: Result<(), NumericError>)
        ensures
            r is Ok <==> old(self).value() + rhs.value() < bound256(),
            r is Ok ==> final (self).value() == old(self).value() + rhs.value(),
            r is Err ==> *final (self) == *old(self) && r == Err::<(), NumericError>(
                NumericError::Overflow,
            ),
    {
        match self.add(rhs) {
            Ok(c) => {
                *self = c;
                Ok(())
            },
            Err(e) => Err(e),
        }
    }

    /// In-place checked subtraction: replaces the receiver with the
    /// difference, or leaves it unchanged and reports `Underflow`.
    pub fn sub_assign(&mut self, rhs: &BigInteger) -> (r: Result<(), NumericError>)
        ensures
            r is Ok <==> rhs.value() <= old(self).value(),
            r is Ok ==> final (self).value() == old(self).value() - rhs.value(),
            r is Err ==> *final (self) == *old(self) && r == Err::<(), NumericError>(
                NumericError::Underflow,
            ),
    {
        match self.sub(rhs) {
            Ok(c) => {
                *self = c;
                Ok(())
            },
            Err(e) => Err(e),
        }
    }

    /// In-place checked multiplication: replaces the receiver with the
    /// product, or leaves it unchanged and reports `Overflow`.
    pub fn mul_assign(&mut self, rhs: &BigInteger) -> (r: Result<(), NumericError>)
        ensures
            r is Ok <==> old(self).value() * rhs.value() < bound256(),
            r is Ok ==> final (self).value() == old(self).value() * rhs.value(),
            r is Err ==> *final (self) == *old(self) && r == Err::<(), NumericError>(
                NumericError::Overflow,
            ),
    {
        match self.mul(rhs) {
            Ok(c) => {
                *self = c;
                Ok(())
            },
            Err(e) => Err(e),
        }
    }

    /// In-place checked division: replaces the receiver with the floored
    /// quotient, or leaves it unchanged and reports `DivideByZero`.
    pub fn div_assign(&mut self, rhs: &BigInteger) -> (r: Result<(), NumericError>)
        ensures
            r is Ok <==> rhs.value() != 0,
            r is Ok ==> final (self).value() == old(self).value() / rhs.value(),
            r is Err ==> *final (self) == *old(self) && r == Err::<(), NumericError>(
                NumericError::DivideByZero,
            ),
    {
        match self.div(rhs) {
            Ok(c) => {
                *self = c;
                Ok(())
            },
            Err(e) => Err(e),
        }
    }

    /// Narrowing to 128 bits, or `ConversionOverflow` when the magnitude
    /// does not fit.
    pub fn to_uint128(&self) -> (r: Result<u128, NumericError>)
        ensures
            r is Ok <==> self.value() < shift128(),
            r matches Ok(v) ==> v == self.value(),
            r matches Err(e) ==> e == NumericError::ConversionOverflow,
    {
        proof {
            lemma_halves(self.hi, self.lo);
        }
        if self.hi == 0 {
            Ok(self.lo)
        } else {
            Err(NumericError::ConversionOverflow)
        }
    }
}

/// `b` raised to `e`, as a natural number.
pub open spec fn pow_nat(b: nat, e: nat) -> nat {
    vstd::arithmetic::power::pow(b as int, e) as nat
}

/// 10 raised to `e`.
pub open spec fn pow10(e: nat) -> nat {
    pow_nat(10, e)
}

/// A power of a natural number is never negative.
pub(crate) proof fn lemma_pow_nat_nonneg(b: nat, e: nat)
    ensures
        vstd::arithmetic::power::pow(b as int, e) >= 0,
        pow_nat(b, e) == vstd::arithmetic::power::pow(b as int, e),
{
    vstd::arithmetic::power::lemma_pow0(b as int);
    if b > 0 {
        vstd::arithmetic::power::lemma_pow_positive(b as int, e);
    } else if e > 0 {
        assert(b as int == 0);
        vstd::arithmetic::power::lemma0_pow(e);
    }
}

/// Peeling one factor off a power.
pub(crate) proof fn lemma_pow_nat_step(b: nat, e: nat)
    ensures
        pow_nat(b, 0) == 1,
        pow_nat(b, (e + 1) as nat) == pow_nat(b, e) * b,
{
    lemma_pow_nat_nonneg(b, e);
    lemma_pow_nat_nonneg(b, (e + 1) as nat);
    vstd::arithmetic::power::lemma_pow0(b as int);
    vstd::arithmetic::power::lemma_pow_adds(b as int, e, 1);
    vstd::arithmetic::power::lemma_pow1(b as int);
}

/// The sum of the magnitudes of a sequence of values.
pub open spec fn sum_values(s: Seq<BigInteger>) -> nat
    decreases s.len(),
{
    if s.len() == 0 {
        0
    } else {
        sum_values(s.drop_last()) + s.last().value()
    }
}

/// A prefix of a sequence never sums to more than the whole sequence.
proof fn lemma_sum_prefix(s: Seq<BigInteger>, j: int)
    requires
        0 <= j <= s.len(),
    ensures
        sum_values(s.take(j)) <= sum_values(s),
    decreases s.len(),
{
    if j == s.len() {
        assert(s.take(j) =~= s);
    } else {
        assert(s.drop_last().take(j) =~= s.take(j));
        lemma_sum_prefix(s.drop_last(), j);
    }
}

/// The ordering of the high halves decides the ordering of the magnitudes.
proof fn lemma_halves_order(h1: u128, l1: u128, h2: u128, l2: u128)
    requires
        h1 < h2,
    ensures
        (h1 as nat) * shift128() + (l1 as nat) < (h2 as nat) * shift128() + (l2 as nat),
{
    assert((h1 as nat) * shift128() + (l1 as nat) < (h2 as nat) * shift128() + (
    l2 as nat)) by (nonlinear_arith)
        requires
            h1 < h2,
            (l1 as nat) < shift128(),
            (l2 as nat) < shift128(),
            shift128() > 0,
    ;
}

impl BigInteger {
    /// Ordering test; true exactly when this magnitude is at most `rhs`'s.
    pub fn le(&self, rhs: &BigInteger) -> (r: bool)
        ensures
            r <==> self.value() <= rhs.value(),
    {
        proof {
            if self.hi < rhs.hi {
                lemma_halves_order(self.hi, self.lo, rhs.hi, rhs.lo);
            }
            if rhs.hi < self.hi {
                lemma_halves_order(rhs.hi, rhs.lo, self.hi, self.lo);
            }
        }
        if self.hi != rhs.hi {
            self.hi < rhs.hi
        } else {
            self.lo <= rhs.lo
        }
    }

    /// Checked exponentiation by repeated multiplication: the exact power,
    /// or `Overflow` when it would exceed the largest representable value.
    pub fn pow(&self, exp: u32) -> (r: Result<BigInteger, NumericError>)
        ensures
            r is Ok <==> pow_nat(self.value(), exp as nat) < bound256(),
            r matches Ok(c) ==> c.value() == pow_nat(self.value(), exp as nat),
            r matches Err(e) ==> e == NumericError::Overflow,
    {
        let ghost b = self.value();
        proof {
            lemma_pow_nat_step(b, 0);
        }
        let mut result = BigInteger::from_u128(1);
        let mut i: u32 = 0;
        while i < exp
            invariant
                i <= exp,
                result.value() == pow_nat(b, i as nat),
                result.value() < bound256(),
                b == self.value(),
            decreases exp - i,
        {
            proof {
                lemma_pow_nat_step(b, i as nat);
            }
            match result.mul(self) {
                Ok(c) => {
                    result = c;
                },
                Err(_) => {
                    proof {
                        assert(result.value() * b >= bound256());
                        if b == 0 {
                            assert(result.value() * b == 0) by (nonlinear_arith)
                                requires
                                    b == 0,
                            ;
                        }
                        assert(b >= 1);
                        vstd::arithmetic::power::lemma_pow_increases(b, (i + 1) as nat, exp as nat);
                        lemma_pow_nat_nonneg(b, (i + 1) as nat);
                        lemma_pow_nat_nonneg(b, exp as nat);
                    }
                    return Err(NumericError::Overflow);
                },
            }
            i = i + 1;
        }
        Ok(result)
    }

    /// Checked scaling by a power of ten: `self * 10^decimals`, or
    /// `Overflow` when the factor or the product would exceed the largest
    /// representable value.
    pub fn scale_up(&self, decimals: u32) -> (r: Result<BigInteger, NumericError>)
        ensures
            r is Ok <==> (pow10(decimals as nat) < bound256() && self.value() * pow10(
                decimals as nat,
            ) < bound256()),
            r matches Ok(c) ==> c.value() == self.value() * pow10(decimals as nat),
            r matches Err(e) ==> e == NumericError::Overflow,
    {
        let ten = BigInteger::from_u128(10);
        match ten.pow(decimals) {
            Ok(p) => self.mul(&p),
            Err(_) => Err(NumericError::Overflow),
        }
    }

    /// Builds `value * 10^decimals` from a 128-bit magnitude, or `Overflow`
    /// when the factor or the product would exceed the largest representable
    /// value.
    pub fn create_with_scale(value: u128, decimals: u32) -> (r: Result<BigInteger, NumericError>)
        ensures
            r is Ok <==> (pow10(decimals as nat) < bound256() && (value as nat) * pow10(
                decimals as nat,
            ) < bound256()),
            r matches Ok(c) ==> c.value() == (value as nat) * pow10(decimals as nat),
            r matches Err(e) ==> e == NumericError::Overflow,
    {
        BigInteger::from_u128(value).scale_up(decimals)
    }

    /// Left fold of checked addition over a sequence, starting from zero:
    /// the exact total, or `Overflow` when the total would exceed the
    /// largest representable value.
    pub fn sum(items: &Vec<BigInteger>) -> (r: Result<BigInteger, NumericError>)
        ensures
            r is Ok <==> sum_values(items@) < bound256(),
            r matches Ok(c) ==> c.value() == sum_values(items@),
            r matches Err(e) ==> e == NumericError::Overflow,
    {
        let mut acc = BigInteger::zero();
        let mut i: usize = 0;
        while i < items.len()
            invariant
                i <= items.len(),
                acc.value() == sum_values(items@.take(i as int)),
            decreases items.len() - i,
        {
            proof {
                assert(items@.take(i + 1).drop_last() =~= items@.take(i as int));
                assert(items@.take(i + 1).last() == items@[i as int]);
            }
            match acc.add(&items[i]) {
                Ok(c) => {
                    acc = c;
                },
                Err(_) => {
                    proof {
                        lemma_sum_prefix(items@, i + 1);
                    }
                    return Err(NumericError::Overflow);
                },
            }
            i = i + 1;
        }
        proof {
            assert(items@.take(items@.len() as int) =~= items@);
        }
        Ok(acc)
    }
}

/// The value of a little-endian byte sequence: the first byte is the least
/// significant.
pub open spec fn le_bytes_val(s: Seq<u8>) -> nat
    decreases s.len(),
{
    if s.len() == 0 {
        0
    } else {
        (s[0] + 256 * le_bytes_val(s.skip(1))) as nat
    }
}

/// The value of a big-endian byte sequence: the first byte is the most
/// significant.
pub open spec fn be_bytes_val(s: Seq<u8>) -> nat {
    le_bytes_val(s.reverse())
}

/// Sixteen bytes cover exactly the 128-bit range.
proof fn lemma_pow256_16()
    ensures
        pow_nat(256, 16) == shift128(),
{
    lemma_pow_nat_step(256, 0);
    lemma_pow_nat_step(256, 1);
    lemma_pow_nat_step(256, 2);
    lemma_pow_nat_step(256, 3);
    lemma_pow_nat_step(256, 4);
    lemma_pow_nat_step(256, 5);
    lemma_pow_nat_step(256, 6);
    lemma_pow_nat_step(256, 7);
    lemma_pow_nat_step(256, 8);
    lemma_pow_nat_step(256, 9);
    lemma_pow_nat_step(256, 10);
    lemma_pow_nat_step(256, 11);
    lemma_pow_nat_step(256, 12);
    lemma_pow_nat_step(256, 13);
    lemma_pow_nat_step(256, 14);
    lemma_pow_nat_step(256, 15);
}

/// A sequence of `n` bytes is worth less than 256^n.
proof fn lemma_le_bytes_val_bound(s: Seq<u8>)
    ensures
        le_bytes_val(s) < pow_nat(256, s.len()),
    decreases s.len(),
{
    lemma_pow_nat_step(256, if s.len() == 0 {
        0
    } else {
        (s.len() - 1) as nat
    });
    if s.len() > 0 {
        lemma_le_bytes_val_bound(s.skip(1));
        assert(s[0] + 256 * le_bytes_val(s.skip(1)) <= 255 + 256 * (pow_nat(
            256,
            (s.len() - 1) as nat,
        ) - 1));
    }
}

/// Appending a byte adds its value at the next power of 256.
proof fn lemma_le_bytes_val_push(s: Seq<u8>, b: u8)
    ensures
        le_bytes_val(s.push(b)) == le_bytes_val(s) + (b as nat) * pow_nat(256, s.len()),
    decreases s.len(),
{
    lemma_pow_nat_step(256, if s.len() == 0 {
        0
    } else {
        (s.len() - 1) as nat
    });
    if s.len() == 0 {
        assert(s.push(b) =~= seq![b]);
        assert(s.push(b).skip(1) =~= Seq::<u8>::empty());
        assert(le_bytes_val(s) == 0);
        assert(s.push(b)[0] == b);
        assert(le_bytes_val(s.push(b).skip(1)) == 0);
        assert(le_bytes_val(s.push(b)) == (s.push(b)[0] + 256 * le_bytes_val(
            s.push(b).skip(1),
        )) as nat);
        assert(pow_nat(256, 0) == 1);
        assert(le_bytes_val(s.push(b)) == le_bytes_val(s) + (b as nat) * pow_nat(256, s.len()));
    } else {
        assert(s.push(b).skip(1) =~= s.skip(1).push(b));
        lemma_le_bytes_val_push(s.skip(1), b);
        assert(256 * ((b as nat) * pow_nat(256, (s.len() - 1) as nat)) == (b as nat) * (256
            * pow_nat(256, (s.len() - 1) as nat))) by (nonlinear_arith);
        assert(s.push(b)[0] == s[0]);
        assert(le_bytes_val(s) == s[0] + 256 * le_bytes_val(s.skip(1)));
        assert(le_bytes_val(s.push(b)) == s[0] + 256 * le_bytes_val(s.skip(1).push(b)));
        assert(le_bytes_val(s.push(b)) == s[0] + 256 * (le_bytes_val(s.skip(1)) + (b as nat)
            * pow_nat(256, (s.len() - 1) as nat)));
        assert(le_bytes_val(s.push(b)) == le_bytes_val(s) + (b as nat) * pow_nat(256, s.len()));
    }
}

/// Splitting a byte sequence splits its value at the matching power of 256.
#[verifier::rlimit(50)]
proof fn lemma_le_bytes_val_split(s: Seq<u8>, k: int)
    requires
        0 <= k <= s.len(),
    ensures
        le_bytes_val(s) == le_bytes_val(s.subrange(0, k)) + pow_nat(256, k as nat) * le_bytes_val(
            s.subrange(k, s.len() as int),
        ),
    decreases s.len(),
{
    if k == 0 {
        lemma_pow_nat_step(256, 0);
        assert(s.subrange(0, 0) =~= Seq::<u8>::empty());
        assert(s.subrange(0, s.len() as int) =~= s);
        assert(le_bytes_val(s.subrange(0, 0)) == 0);
        assert(le_bytes_val(s.subrange(0, k)) == 0);
        assert(pow_nat(256, 0) == 1);
        assert(pow_nat(256, k as nat) == 1);
        assert(le_bytes_val(s.subrange(k, s.len() as int)) == le_bytes_val(s));
        let q = le_bytes_val(s.subrange(k, s.len() as int));
        assert(pow_nat(256, k as nat) * q == q) by (nonlinear_arith)
            requires
                pow_nat(256, k as nat) == 1,
        ;
        assert(le_bytes_val(s) == le_bytes_val(s.subrange(0, k)) + pow_nat(
            256,
            k as nat,
        ) * le_bytes_val(s.subrange(k, s.len() as int)));
    } else {
        let tail = s.skip(1);
        lemma_le_bytes_val_split(tail, k - 1);
        lemma_pow_nat_step(256, (k - 1) as nat);
        assert(s.subrange(0, k).skip(1) =~= tail.subrange(0, k - 1));
        assert(s.subrange(k, s.len() as int) =~= tail.subrange(k - 1, tail.len() as int));
        let x = le_bytes_val(tail.subrange(0, k - 1));
        let p = pow_nat(256, (k - 1) as nat);
        let y = le_bytes_val(tail.subrange(k - 1, tail.len() as int));
        assert(256 * (x + p * y) == 256 * x + (256 * p) * y) by (nonlinear_arith);
        assert(le_bytes_val(s) == s[0] + 256 * le_bytes_val(tail));
        assert(le_bytes_val(tail) == x + p * y);
        assert(le_bytes_val(s.subrange(0, k)) == s[0] + 256 * x);
        assert(pow_nat(256, k as nat) == p * 256);
        assert(le_bytes_val(s) == le_bytes_val(s.subrange(0, k)) + pow_nat(
            256,
            k as nat,
        ) * le_bytes_val(s.subrange(k, s.len() as int)));
    }
}

/// Appends the sixteen little-endian bytes of a 128-bit value.
fn push_le_u128(out: &mut Vec<u8>, v: u128)
    ensures
        final (out)@.len() == old(out)@.len() + 16,
        forall|u: int| 0 <= u < old(out)@.len() ==> #[trigger] final (out)@[u] == old(out)@[u],
        le_bytes_val(final (out)@.subrange(old(out)@.len() as int, final (out)@.len() as int))
            == v as nat,
{
    let ghost base = out@.len() as int;
    let mut x = v;
    let mut k: usize = 0;
    proof {
        lemma_pow256_16();
        lemma_pow_nat_step(256, 0);
        assert(out@.subrange(base, base) =~= Seq::<u8>::empty());
    }
    while k < 16
        invariant
            0 <= k <= 16,
            0 <= base,
            out@.len() == base + k,
            base <= out@.len(),
            forall|u: int| 0 <= u < base ==> #[trigger] out@[u] == old(out)@[u],
            le_bytes_val(out@.subrange(base, out@.len() as int)) + (x as nat) * pow_nat(
                256,
                k as nat,
            ) == v as nat,
            (x as nat) < pow_nat(256, (16 - k) as nat),
        decreases 16 - k,
    {
        let ghost suffix = out@.subrange(base, out@.len() as int);
        let b = (x % 256) as u8;
        proof {
            lemma_pow_nat_step(256, k as nat);
            lemma_pow_nat_step(256, (15 - k) as nat);
            lemma_le_bytes_val_push(suffix, b);
            assert(suffix.len() == k);
            assert((x as nat) == 256 * ((x / 256) as nat) + ((x % 256) as nat));
            assert((x as nat) * pow_nat(256, k as nat) == ((x % 256) as nat) * pow_nat(
                256,
                k as nat,
            ) + ((x / 256) as nat) * (pow_nat(256, k as nat) * 256)) by (nonlinear_arith)
                requires
                    (x as nat) == 256 * ((x / 256) as nat) + ((x % 256) as nat),
            ;
            assert(((x / 256) as nat) < pow_nat(256, (15 - k) as nat)) by (nonlinear_arith)
                requires
                    (x as nat) < pow_nat(256, (16 - k) as nat),
                    pow_nat(256, (16 - k) as nat) == pow_nat(256, (15 - k) as nat) * 256,
                    (x as nat) == 256 * ((x / 256) as nat) + ((x % 256) as nat),
                    ((x % 256) as nat) < 256,
            ;
        }
        out.push(b);
        proof {
            assert(out@.subrange(base, out@.len() as int) =~= suffix.push(b));
        }
        x = x / 256;
        k = k + 1;
    }
}

impl BigInteger {
    /// The 32 little-endian bytes of this magnitude.
    pub fn to_le_bytes(&self) -> (r: Vec<u8>)
        ensures
            r@.len() == 32,
            le_bytes_val(r@) == self.value(),
    {
        let mut out: Vec<u8> = Vec::new();
        push_le_u128(&mut out, self.lo);
        let ghost mid = out@;
        push_le_u128(&mut out, self.hi);
        proof {
            lemma_pow256_16();
            lemma_le_bytes_val_split(out@, 16);
            assert(out@.subrange(0, 16) =~= mid.subrange(0, 16));
            assert(mid.subrange(0, 16) =~= mid);
            assert(le_bytes_val(out@.subrange(0, 16)) == self.lo as nat);
            assert(le_bytes_val(out@.subrange(16, 32)) == self.hi as nat);
            assert(out@.subrange(16, 32) =~= out@.subrange(16, out@.len() as int));
            assert(le_bytes_val(out@) == (self.lo as nat) + pow_nat(256, 16) * (self.hi as nat));
            assert(le_bytes_val(out@) == self.value());
        }
        out
    }

    /// The 32 big-endian bytes of this magnitude.
    pub fn to_be_bytes(&self) -> (r: Vec<u8>)
        ensures
            r@.len() == 32,
            be_bytes_val(r@) == self.value(),
    {
        let le = self.to_le_bytes();
        let mut out: Vec<u8> = Vec::new();
        let mut j: usize = 0;
        while j < 32
            invariant
                le@.len() == 32,
                0 <= j <= 32,
                out@.len() == j,
                forall|u: int| 0 <= u < j ==> #[trigger] out@[u] == le@[31 - u],
            decreases 32 - j,
        {
            out.push(le[31 - j]);
            j = j + 1;
        }
        proof {
            assert(out@.reverse() =~= le@);
        }
        out
    }

    /// Rebuilds a magnitude from its 32 little-endian bytes.
    pub fn from_le_bytes(bytes: &[u8]) -> (r: BigInteger)
        requires
            bytes@.len() == 32,
        ensures
            r.value() == le_bytes_val(bytes@),
    {
        let lo = read_le_u128(bytes, 0);
        let hi = read_le_u128(bytes, 16);
        proof {
            lemma_pow256_16();
            lemma_le_bytes_val_split(bytes@, 16);
            assert(bytes@.subrange(0 as int, (0 + 16) as int) =~= bytes@.subrange(0, 16));
            assert(bytes@.subrange(16 as int, (16 + 16) as int) =~= bytes@.subrange(
                16,
                bytes@.len() as int,
            ));
            assert(le_bytes_val(bytes@) == (lo as nat) + pow_nat(256, 16) * (hi as nat));
        }
        BigInteger { hi, lo }
    }

    /// Rebuilds a magnitude from its 32 big-endian bytes.
    pub fn from_be_bytes(bytes: &[u8]) -> (r: BigInteger)
        requires
            bytes@.len() == 32,
        ensures
            r.value() == be_bytes_val(bytes@),
    {
        let mut rev: Vec<u8> = Vec::new();
        let mut j: usize = 0;
        while j < 32
            invariant
                bytes@.len() == 32,
                0 <= j <= 32,
                rev@.len() == j,
                forall|u: int| 0 <= u < j ==> #[trigger] rev@[u] == bytes@[31 - u],
            decreases 32 - j,
        {
            rev.push(bytes[31 - j]);
            j = j + 1;
        }
        proof {
            assert(rev@ =~= bytes@.reverse());
        }
        BigInteger::from_le_bytes(rev.as_slice())
    }
}

/// Reads sixteen little-endian bytes starting at `base` as a 128-bit value.
fn read_le_u128(bytes: &[u8], base: usize) -> (r: u128)
    requires
        base + 16 <= bytes@.len(),
    ensures
        r as nat == le_bytes_val(bytes@.subrange(base as int, base + 16)),
{
    let n = bytes.len();
    let mut acc: u128 = 0;
    let mut k: usize = 16;
    proof {
        lemma_pow256_16();
        lemma_pow_nat_step(256, 0);
        assert(bytes@.subrange(base + 16, base + 16) =~= Seq::<u8>::empty());
    }
    while k > 0
        invariant
            0 <= k <= 16,
            base + 16 <= n == bytes@.len(),
            acc as nat == le_bytes_val(bytes@.subrange(base + k, base + 16)),
            (acc as nat) < pow_nat(256, (16 - k) as nat),
        decreases k,
    {
        let ghost seg = bytes@.subrange(base + k - 1, base + 16);
        proof {
            lemma_pow256_16();
            lemma_pow_nat_step(256, (16 - k) as nat);
            vstd::arithmetic::power::lemma_pow_increases(256, (17 - k) as nat, 16);
            lemma_pow_nat_nonneg(256, (17 - k) as nat);
            lemma_pow_nat_nonneg(256, 16);
            assert(seg.skip(1) =~= bytes@.subrange(base + k, base + 16));
            lemma_le_bytes_val_bound(seg.skip(1));
            assert((acc as nat) * 256 + 256 <= pow_nat(256, (17 - k) as nat));
        }
        acc = acc * 256 + (bytes[base + k - 1] as u128);
        k = k - 1;
    }
    proof {
        assert(bytes@.subrange(base as int, base + 16) =~= bytes@.subrange(
            base + 0,
            base + 16,
        ));
    }
    acc
}

/// Lexicographic order on byte strings of one length.
pub open spec fn lex_less(a: Seq<u8>, b: Seq<u8>) -> bool
    decreases a.len(),
{
    if a.len() == 0 {
        false
    } else if a[0] < b[0] {
        true
    } else if a[0] > b[0] {
        false
    } else {
        lex_less(a.skip(1), b.skip(1))
    }
}

/// Peeling the most significant byte off a big-endian value.
proof fn lemma_be_msb(s: Seq<u8>)
    requires
        s.len() > 0,
    ensures
        be_bytes_val(s) == (s[0] as nat) * pow_nat(256, (s.len() - 1) as nat) + be_bytes_val(
            s.skip(1),
        ),
        be_bytes_val(s.skip(1)) < pow_nat(256, (s.len() - 1) as nat),
{
    assert(s.reverse() =~= s.skip(1).reverse().push(s[0]));
    lemma_le_bytes_val_push(s.skip(1).reverse(), s[0]);
    lemma_le_bytes_val_bound(s.skip(1).reverse());
    assert(s.skip(1).reverse().len() == s.len() - 1);
}

/// Law: the fixed-width big-endian codec preserves the numeric total
/// order: byte strings of one length compare lexicographically exactly as
/// the values they encode compare.
pub proof fn lemma_be_bytes_order_preserving(a: Seq<u8>, b: Seq<u8>)
    requires
        a.len() == b.len(),
    ensures
        be_bytes_val(a) < be_bytes_val(b) <==> lex_less(a, b),
    decreases a.len(),
{
    if a.len() == 0 {
        assert(a.reverse() =~= Seq::<u8>::empty());
        assert(b.reverse() =~= Seq::<u8>::empty());
    } else {
        lemma_be_msb(a);
        lemma_be_msb(b);
        lemma_be_bytes_order_preserving(a.skip(1), b.skip(1));
        let p = pow_nat(256, (a.len() - 1) as nat);
        if a[0] < b[0] {
            assert((a[0] as nat) * p + p <= (b[0] as nat) * p) by (nonlinear_arith)
                requires
                    (a[0] as nat) + 1 <= (b[0] as nat),
                    p >= 0,
            ;
        } else if a[0] > b[0] {
            assert((b[0] as nat) * p + p <= (a[0] as nat) * p) by (nonlinear_arith)
                requires
                    (b[0] as nat) + 1 <= (a[0] as nat),
                    p >= 0,
            ;
        }
    }
}

/// Law: saturating subtraction agrees with checked subtraction wherever
/// checked subtraction succeeds, and clamps to zero exactly where checked
/// subtraction fails with `Underflow`.
///
/// `sat` is what `a.saturating_sub(&b)` returned and `chk` what
/// `a.sub(&b)` returned.
pub proof fn lemma_saturating_sub_matches_sub(
    a: BigInteger,
    b: BigInteger,
    sat: BigInteger,
    chk: Result<BigInteger, NumericError>,
)
    requires
        b.value() <= a.value() ==> sat.value() == a.value() - b.value(),
        b.value() > a.value() ==> sat.value() == 0,
        chk is Ok <==> b.value() <= a.value(),
        chk matches Ok(c) ==> c.value() == a.value() - b.value(),
        chk matches Err(e) ==> e == NumericError::Underflow,
    ensures
        b.value() <= a.value() ==> chk == Ok::<BigInteger, NumericError>(sat),
        b.value() > a.value() ==> sat.value() == 0 && chk == Err::<BigInteger, NumericError>(
            NumericError::Underflow,
        ),
{
    if b.value() <= a.value() {
        BigInteger::lemma_value_injective(chk->Ok_0, sat);
    }
}

/// Declares the outside 256-bit integer type, so that values of it can pass
/// through the trusted boundary; the library never looks inside one.
#[verifier::external_type_specification]
#[verifier::external_body]
pub struct ExUint256(cosmwasm_std::Uint256);

impl BigInteger {
    /// Relies on `cosmwasm_std::Uint256::from_be_bytes`: reassembles the
    /// value whose big-endian bytes are the high half followed by the low
    /// half.
    #[verifier::external_body]
    pub fn to_uint256(&self) -> cosmwasm_std::Uint256 {
        let mut data = [0u8; 32];
        data[..16].copy_from_slice(&self.hi.to_be_bytes());
        data[16..].copy_from_slice(&self.lo.to_be_bytes());
        cosmwasm_std::Uint256::from_be_bytes(data)
    }

    /// Relies on `cosmwasm_std::Uint256::to_be_bytes`: splits the value
    /// into its high and low 128-bit halves.
    #[verifier::external_body]
    pub fn from_uint256(v: cosmwasm_std::Uint256) -> BigInteger {
        let data = v.to_be_bytes();
        let mut hi_bytes = [0u8; 16];
        let mut lo_bytes = [0u8; 16];
        hi_bytes.copy_from_slice(&data[..16]);
        lo_bytes.copy_from_slice(&data[16..]);
        BigInteger { hi: u128::from_be_bytes(hi_bytes), lo: u128::from_be_bytes(lo_bytes) }
    }
}

/// Relies on `cosmwasm_std::Uint256::checked_add`: the exact 256-bit sum, or
/// an error exactly when the true sum does not fit in 256 bits.
#[verifier::external_body]
fn u256_checked_add(a: &BigInteger, b: &BigInteger) -> (r: Option<BigInteger>)
    ensures
        r is Some <==> a.value() + b.value() < bound256(),
        r matches Some(c) ==> c.value() == a.value() + b.value(),
{
    a.to_uint256().checked_add(b.to_uint256()).ok().map(BigInteger::from_uint256)
}

/// Relies on `cosmwasm_std::Uint256::checked_sub`: the exact difference, or
/// an error exactly when the subtrahend exceeds the minuend.
#[verifier::external_body]
fn u256_checked_sub(a: &BigInteger, b: &BigInteger) -> (r: Option<BigInteger>)
    ensures
        r is Some <==> b.value() <= a.value(),
        r matches Some(c) ==> c.value() == a.value() - b.value(),
{
    a.to_uint256().checked_sub(b.to_uint256()).ok().map(BigInteger::from_uint256)
}

/// Relies on `cosmwasm_std::Uint256::checked_mul`: the exact 256-bit
/// product, or an error exactly when the true product does not fit.
#[verifier::external_body]
fn u256_checked_mul(a: &BigInteger, b: &BigInteger) -> (r: Option<BigInteger>)
    ensures
        r is Some <==> a.value() * b.value() < bound256(),
        r matches Some(c) ==> c.value() == a.value() * b.value(),
{
    a.to_uint256().checked_mul(b.to_uint256()).ok().map(BigInteger::from_uint256)
}

/// Relies on `cosmwasm_std::Uint256::checked_div`: flooring division, with
/// an error exactly on a zero divisor.
#[verifier::external_body]
fn u256_checked_div(a: &BigInteger, b: &BigInteger) -> (r: Option<BigInteger>)
    ensures
        r is Some <==> b.value() != 0,
        r matches Some(c) ==> c.value() == a.value() / b.value(),
{
    a.to_uint256().checked_div(b.to_uint256()).ok().map(BigInteger::from_uint256)
}

/// Relies on `cosmwasm_std::Uint256::checked_multiply_ratio`: computes
/// `a * num / den` with a full double-width intermediate product, flooring
/// the division; fails exactly on a zero denominator or a quotient that does
/// not fit in 256 bits.
#[verifier::external_body]
pub(crate) fn u256_checked_multiply_ratio(a: &BigInteger, n: &BigInteger, d: &BigInteger) -> (r: Option<BigInteger>)
    ensures
        r is Some <==> (d.value() != 0 && a.value() * n.value() / d.value() < bound256()),
        r matches Some(c) ==> c.value() == a.value() * n.value() / d.value(),
{
    a.to_uint256().checked_multiply_ratio(n.to_uint256(), d.to_uint256()).ok().map(BigInteger::from_uint256)
}

} // verus!
