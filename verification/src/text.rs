use vstd::prelude::*;
use vstd::string::*;

use crate::bigdecimal::{denom, lemma_pow10_18, BigDecimal, DECIMAL_FRACTIONAL};
use crate::biginteger::{
    bound256, lemma_bound_large, lemma_pow_nat_nonneg, lemma_pow_nat_step, pow10, BigInteger,
};
use crate::errors::NumericError;

verus! {

/// True on the ten ASCII digit characters.
pub open spec fn is_digit(c: char) -> bool {
    48 <= c as int <= 57
}

/// The numeric value of an ASCII digit character.
pub open spec fn digit_val(c: char) -> nat {
    (c as int - 48) as nat
}

/// A non-empty sequence of ASCII digit characters: the only shape either
/// parser accepts for a whole or fractional segment.
pub open spec fn is_digit_string(s: Seq<char>) -> bool {
    s.len() > 0 && forall|i: int| 0 <= i < s.len() ==> is_digit(#[trigger] s[i])
}

/// The base-10 value of a sequence of digit characters.
pub open spec fn digits_val(s: Seq<char>) -> nat
    decreases s.len(),
{
    if s.len() == 0 {
        0
    } else {
        digits_val(s.drop_last()) * 10 + digit_val(s.last())
    }
}

/// The index of the first decimal point in `s`, or `s.len()` when there is
/// none.
pub open spec fn first_dot(s: Seq<char>) -> int
    decreases s.len(),
{
    if s.len() == 0 {
        0
    } else if s[0] == '.' {
        0
    } else {
        1 + first_dot(s.skip(1))
    }
}

/// What `first_dot` finds: the earliest decimal point, or the length when
/// the sequence has none.
pub proof fn lemma_first_dot(s: Seq<char>)
    ensures
        0 <= first_dot(s) <= s.len(),
        first_dot(s) < s.len() ==> s[first_dot(s)] == '.',
        forall|j: int| 0 <= j < first_dot(s) ==> s[j] != '.',
    decreases s.len(),
{
    if s.len() > 0 && s[0] != '.' {
        lemma_first_dot(s.skip(1));
        assert forall|j: int| 0 <= j < first_dot(s) implies s[j] != '.' by {
            if j > 0 {
                assert(s.skip(1)[j - 1] != '.');
            }
        }
    }
}

/// A scan that stops at the earliest decimal point finds `first_dot`.
proof fn lemma_first_dot_unique(s: Seq<char>, d: int)
    requires
        0 <= d <= s.len(),
        d < s.len() ==> s[d] == '.',
        forall|j: int| 0 <= j < d ==> s[j] != '.',
    ensures
        first_dot(s) == d,
{
    lemma_first_dot(s);
    if first_dot(s) < d {
        assert(s[first_dot(s)] != '.');
    }
    if d < first_dot(s) {
        assert(s[d] != '.');
    }
}

/// A sequence of `n` digits is worth less than 10^n.
pub proof fn lemma_digits_val_bound(s: Seq<char>)
    requires
        forall|i: int| 0 <= i < s.len() ==> is_digit(#[trigger] s[i]),
    ensures
        digits_val(s) < pow10(s.len()),
    decreases s.len(),
{
    lemma_pow_nat_step(10, if s.len() == 0 { 0 } else { (s.len() - 1) as nat });
    if s.len() > 0 {
        lemma_digits_val_bound(s.drop_last());
    }
}

/// A prefix of a digit sequence is never worth more than the whole.
proof fn lemma_digits_prefix_le(s: Seq<char>, i: int)
    requires
        0 <= i <= s.len(),
    ensures
        digits_val(s.take(i)) <= digits_val(s),
    decreases s.len(),
{
    if i == s.len() {
        assert(s.take(i) =~= s);
    } else {
        assert(s.drop_last().take(i) =~= s.take(i));
        lemma_digits_prefix_le(s.drop_last(), i);
    }
}

/// Parses the characters of `s` in the index range `[from, to)` as a
/// non-empty base-10 digit string whose value fits in 256 bits; any other
/// shape is a `ParseError`.
pub(crate) fn parse_digits_range(s: &str, from: usize, to: usize) -> (r: Result<
    BigInteger,
    NumericError,
>)
    requires
        from <= to <= s@.len(),
    ensures
        r is Ok <==> (is_digit_string(s@.subrange(from as int, to as int)) && digits_val(
            s@.subrange(from as int, to as int),
        ) < bound256()),
        r matches Ok(c) ==> c.value() == digits_val(s@.subrange(from as int, to as int)),
        r matches Err(e) ==> e == NumericError::ParseError,
{
    let ghost seg = s@.subrange(from as int, to as int);
    if from == to {
        return Err(NumericError::ParseError);
    }
    let ten = BigInteger::from_u128(10);
    let mut acc = BigInteger::zero();
    let mut i: usize = from;
    while i < to
        invariant
            from <= i <= to <= s@.len(),
            seg == s@.subrange(from as int, to as int),
            acc.value() == digits_val(s@.subrange(from as int, i as int)),
            forall|j: int| from <= j < i ==> is_digit(#[trigger] s@[j]),
            ten.value() == 10,
        decreases to - i,
    {
        let c = s.get_char(i);
        let code = c as u32;
        if code < 48 || code > 57 {
            proof {
                assert(seg[i - from as int] == s@[i as int]);
            }
            return Err(NumericError::ParseError);
        }
        proof {
            assert(s@.subrange(from as int, i + 1).drop_last() =~= s@.subrange(
                from as int,
                i as int,
            ));
            assert(s@.subrange(from as int, i + 1).last() == s@[i as int]);
        }
        let d = BigInteger::from_u128((code - 48) as u128);
        let shifted = match acc.mul(&ten) {
            Ok(v) => v,
            Err(_) => {
                proof {
                    lemma_overflow_means_whole_overflows(s@, from as int, i as int, to as int);
                }
                return Err(NumericError::ParseError);
            },
        };
        acc = match shifted.add(&d) {
            Ok(v) => v,
            Err(_) => {
                proof {
                    lemma_overflow_means_whole_overflows(s@, from as int, i as int, to as int);
                }
                return Err(NumericError::ParseError);
            },
        };
        i = i + 1;
    }
    proof {
        assert forall|j: int| 0 <= j < seg.len() implies is_digit(#[trigger] seg[j]) by {
            assert(is_digit(s@[from + j]));
        }
        acc.lemma_value_bound();
    }
    Ok(acc)
}

/// Where one more digit pushes the running value past the bound, the whole
/// segment's value is past the bound too.
proof fn lemma_overflow_means_whole_overflows(s: Seq<char>, from: int, i: int, to: int)
    requires
        0 <= from <= i < to <= s.len(),
        digits_val(s.subrange(from, i)) * 10 + digit_val(s[i]) >= bound256() || digits_val(
            s.subrange(from, i),
        ) * 10 >= bound256(),
    ensures
        digits_val(s.subrange(from, to)) >= bound256(),
{
    assert(s.subrange(from, i + 1).drop_last() =~= s.subrange(from, i));
    assert(s.subrange(from, i + 1).last() == s[i]);
    assert(s.subrange(from, to).take(i + 1 - from) =~= s.subrange(from, i + 1));
    lemma_digits_prefix_le(s.subrange(from, to), i + 1 - from);
}

impl BigInteger {
    /// Parses a base-10 digit string into an integer. Any non-digit
    /// character, an empty string, or a magnitude of 2^256 or more is a
    /// `ParseError`; no sign and no decimal point are accepted.
    pub fn parse(s: &str) -> (r: Result<BigInteger, NumericError>)
        ensures
            r is Ok <==> (is_digit_string(s@) && digits_val(s@) < bound256()),
            r matches Ok(c) ==> c.value() == digits_val(s@),
            r matches Err(e) ==> e == NumericError::ParseError,
    {
        let n = s.unicode_len();
        let r = parse_digits_range(s, 0, n);
        proof {
            assert(s@.subrange(0, s@.len() as int) =~= s@);
        }
        r
    }
}

/// The outcome of parsing a decimal string: the numerator at the fixed
/// eighteen-place scale, or the exact error.
///
/// The grammar is `WHOLE ['.' FRACTIONAL]`: both segments are non-empty
/// digit strings, the fractional segment carries at most eighteen digits
/// and is implicitly right-padded with zeros, and the failures are checked
/// in this order: a malformed or out-of-range whole segment
/// (`ParseError`), an out-of-range scaled whole segment (`Overflow`), a
/// malformed or out-of-range fractional segment (`ParseError`), a
/// fractional segment longer than eighteen digits
/// (`TooManyFractionalDigits`), an out-of-range combined value
/// (`Overflow`), and finally a second decimal point (`UnexpectedFormat`).
pub open spec fn spec_parse_decimal(s: Seq<char>) -> Result<nat, NumericError> {
    let d1 = first_dot(s);
    let whole = s.subrange(0, d1);
    if !(is_digit_string(whole) && digits_val(whole) < bound256()) {
        Err(NumericError::ParseError)
    } else if digits_val(whole) * denom() >= bound256() {
        Err(NumericError::Overflow)
    } else if d1 == s.len() {
        Ok(digits_val(whole) * denom())
    } else {
        let rest = s.subrange(d1 + 1, s.len() as int);
        let d2 = first_dot(rest);
        let frac = rest.subrange(0, d2);
        if !(is_digit_string(frac) && digits_val(frac) < bound256()) {
            Err(NumericError::ParseError)
        } else if frac.len() > 18 {
            Err(NumericError::TooManyFractionalDigits)
        } else if digits_val(whole) * denom() + digits_val(frac) * pow10((18 - frac.len()) as nat)
            >= bound256() {
            Err(NumericError::Overflow)
        } else if d2 < rest.len() {
            Err(NumericError::UnexpectedFormat)
        } else {
            Ok(digits_val(whole) * denom() + digits_val(frac) * pow10((18 - frac.len()) as nat))
        }
    }
}

/// Powers of ten compose additively in the exponent.
pub proof fn lemma_pow10_adds(a: nat, b: nat)
    ensures
        pow10(a) * pow10(b) == pow10((a + b) as nat),
{
    lemma_pow_nat_nonneg(10, a);
    lemma_pow_nat_nonneg(10, b);
    lemma_pow_nat_nonneg(10, (a + b) as nat);
    vstd::arithmetic::power::lemma_pow_adds(10, a, b);
}

impl BigDecimal {
    /// Parses a canonical decimal string, `WHOLE ['.' FRACTIONAL]`, into a
    /// decimal value; see `spec_parse_decimal` for the exact grammar and
    /// failure order.
    pub fn parse(s: &str) -> (r: Result<BigDecimal, NumericError>)
        ensures
            r is Ok <==> spec_parse_decimal(s@) is Ok,
            r matches Ok(c) ==> c.value() == spec_parse_decimal(s@)->Ok_0,
            r matches Err(e) ==> spec_parse_decimal(s@) == Err::<nat, NumericError>(e),
    {
        let n = s.unicode_len();
        let mut d1: usize = 0;
        while d1 < n && s.get_char(d1) != '.'
            invariant
                0 <= d1 <= n == s@.len(),
                forall|j: int| 0 <= j < d1 ==> s@[j] != '.',
            decreases n - d1,
        {
            d1 = d1 + 1;
        }
        proof {
            lemma_first_dot_unique(s@, d1 as int);
        }
        let whole = match parse_digits_range(s, 0, d1) {
            Ok(w) => w,
            Err(e) => {
                return Err(e);
            },
        };
        let scale = BigInteger::from_u128(DECIMAL_FRACTIONAL);
        let mut atomics = match whole.mul(&scale) {
            Ok(v) => v,
            Err(_) => {
                return Err(NumericError::Overflow);
            },
        };
        if d1 < n {
            let ghost rest = s@.subrange(d1 + 1, n as int);
            let mut d2: usize = d1 + 1;
            while d2 < n && s.get_char(d2) != '.'
                invariant
                    d1 + 1 <= d2 <= n == s@.len(),
                    forall|j: int| d1 + 1 <= j < d2 ==> s@[j] != '.',
                decreases n - d2,
            {
                d2 = d2 + 1;
            }
            proof {
                assert forall|j: int| 0 <= j < d2 - (d1 + 1) implies rest[j] != '.' by {
                    assert(s@[d1 + 1 + j] != '.');
                }
                lemma_first_dot_unique(rest, d2 - (d1 + 1));
                assert(rest.subrange(0, d2 - (d1 + 1)) =~= s@.subrange(d1 + 1, d2 as int));
            }
            let frac = match parse_digits_range(s, d1 + 1, d2) {
                Ok(f) => f,
                Err(e) => {
                    return Err(e);
                },
            };
            let flen = d2 - (d1 + 1);
            if flen > 18 {
                return Err(NumericError::TooManyFractionalDigits);
            }
            let exp = (18 - flen) as u32;
            proof {
                lemma_pow10_18();
                lemma_bound_large();
                lemma_pow_nat_nonneg(10, exp as nat);
                lemma_pow_nat_nonneg(10, 18);
                if exp < 18 {
                    vstd::arithmetic::power::lemma_pow_strictly_increases(10, exp as nat, 18);
                }
            }
            let ten = BigInteger::from_u128(10);
            let factor = match ten.pow(exp) {
                Ok(f) => f,
                Err(_) => {
                    proof {
                        assert(false);
                    }
                    return Err(NumericError::Overflow);
                },
            };
            let scaled = match frac.mul(&factor) {
                Ok(v) => v,
                Err(_) => {
                    proof {
                        lemma_digits_val_bound(s@.subrange(d1 + 1, d2 as int));
                        lemma_pow10_adds(flen as nat, exp as nat);
                        vstd::arithmetic::power::lemma_pow_positive(10, exp as nat);
                        vstd::arithmetic::mul::lemma_mul_strict_inequality(
                            frac.value() as int,
                            pow10(flen as nat) as int,
                            pow10(exp as nat) as int,
                        );
                        assert(false);
                    }
                    return Err(NumericError::Overflow);
                },
            };
            atomics = match atomics.add(&scaled) {
                Ok(v) => v,
                Err(_) => {
                    return Err(NumericError::Overflow);
                },
            };
            if d2 < n {
                return Err(NumericError::UnexpectedFormat);
            }
        }
        Ok(BigDecimal::new(atomics))
    }
}

/// The digit character for a value below ten.
pub open spec fn digit_char(d: nat) -> char {
    if d == 0 {
        '0'
    } else if d == 1 {
        '1'
    } else if d == 2 {
        '2'
    } else if d == 3 {
        '3'
    } else if d == 4 {
        '4'
    } else if d == 5 {
        '5'
    } else if d == 6 {
        '6'
    } else if d == 7 {
        '7'
    } else if d == 8 {
        '8'
    } else {
        '9'
    }
}

/// The canonical base-10 digit string of `n`: no leading zero except for
/// the single digit of zero itself.
pub open spec fn dec_digits(n: nat) -> Seq<char>
    decreases n,
{
    if n < 10 {
        seq![digit_char(n)]
    } else {
        dec_digits(n / 10).push(digit_char(n % 10))
    }
}

/// The low `k` base-10 digits of `n`, zero-padded to exactly `k` places.
pub open spec fn fixed_digits(n: nat, k: nat) -> Seq<char>
    decreases k,
{
    if k == 0 {
        Seq::empty()
    } else {
        fixed_digits(n / 10, (k - 1) as nat).push(digit_char(n % 10))
    }
}

/// The sequence with its trailing zero digits removed.
pub open spec fn trim_zeros(s: Seq<char>) -> Seq<char>
    decreases s.len(),
{
    if s.len() > 0 && s.last() == '0' {
        trim_zeros(s.drop_last())
    } else {
        s
    }
}

/// The canonical text of a decimal with numerator `a`: the whole part,
/// and, when the fractional part is not zero, a decimal point followed by
/// the eighteen fractional digits with their trailing zeros removed.
pub open spec fn dec_format(a: nat) -> Seq<char> {
    if a % denom() == 0 {
        dec_digits(a / denom())
    } else {
        dec_digits(a / denom()) + seq!['.'] + trim_zeros(fixed_digits(a % denom(), 18))
    }
}

/// The digit character of a value below ten carries the matching code
/// point, is a digit, and decodes back to the value.
proof fn lemma_digit_char(d: nat)
    requires
        d < 10,
    ensures
        digit_char(d) as int == 48 + d,
        is_digit(digit_char(d)),
        digit_val(digit_char(d)) == d,
{
}

/// The canonical digit string of `n` is a digit string worth `n`.
#[verifier::rlimit(30)]
pub proof fn lemma_dec_digits(n: nat)
    ensures
        dec_digits(n).len() >= 1,
        forall|i: int| 0 <= i < dec_digits(n).len() ==> is_digit(#[trigger] dec_digits(n)[i]),
        digits_val(dec_digits(n)) == n,
    decreases n,
{
    if n < 10 {
        lemma_digit_char(n);
        assert(dec_digits(n) =~= seq![digit_char(n)]);
        assert(dec_digits(n).drop_last() =~= Seq::<char>::empty());
        assert(dec_digits(n).last() == digit_char(n));
        assert(digits_val(dec_digits(n)) == digits_val(Seq::<char>::empty()) * 10 + digit_val(
            digit_char(n),
        ));
    } else {
        lemma_digit_char(n % 10);
        lemma_dec_digits(n / 10);
        vstd::arithmetic::div_mod::lemma_fundamental_div_mod(n as int, 10);
        assert(dec_digits(n).drop_last() =~= dec_digits(n / 10));
        assert(dec_digits(n).last() == digit_char(n % 10));
        assert(digits_val(dec_digits(n)) == digits_val(dec_digits(n / 10)) * 10 + digit_val(
            digit_char(n % 10),
        ));
        assert forall|i: int| 0 <= i < dec_digits(n).len() implies is_digit(
            #[trigger] dec_digits(n)[i],
        ) by {
            if i < dec_digits(n / 10).len() {
                assert(dec_digits(n)[i] == dec_digits(n / 10)[i]);
            }
        }
    }
}

/// The low `k` digits of `n` form `k` digit characters worth `n mod 10^k`.
pub proof fn lemma_fixed_digits(n: nat, k: nat)
    ensures
        fixed_digits(n, k).len() == k,
        forall|i: int| 0 <= i < k ==> is_digit(#[trigger] fixed_digits(n, k)[i]),
        digits_val(fixed_digits(n, k)) == n % pow10(k),
    decreases k,
{
    lemma_pow_nat_step(10, if k == 0 {
        0
    } else {
        (k - 1) as nat
    });
    if k == 0 {
        vstd::arithmetic::div_mod::lemma_fundamental_div_mod(n as int, 1);
        vstd::arithmetic::div_mod::lemma_div_basics(n as int);
    } else {
        lemma_digit_char(n % 10);
        lemma_fixed_digits(n / 10, (k - 1) as nat);
        assert(fixed_digits(n, k).drop_last() =~= fixed_digits(n / 10, (k - 1) as nat));
        vstd::arithmetic::power::lemma_pow_positive(10, (k - 1) as nat);
        lemma_pow_nat_nonneg(10, (k - 1) as nat);
        vstd::arithmetic::div_mod::lemma_breakdown(n as int, 10, pow10((k - 1) as nat) as int);
        assert forall|i: int| 0 <= i < k implies is_digit(#[trigger] fixed_digits(n, k)[i]) by {
            if i < k - 1 {
                assert(fixed_digits(n, k)[i] == fixed_digits(n / 10, (k - 1) as nat)[i]);
            }
        }
    }
}

/// Removing trailing zero digits keeps a prefix whose value, scaled back
/// by ten for each removed digit, is the original value.
#[verifier::rlimit(50)]
pub proof fn lemma_trim_zeros(s: Seq<char>)
    requires
        forall|i: int| 0 <= i < s.len() ==> is_digit(#[trigger] s[i]),
    ensures
        trim_zeros(s).len() <= s.len(),
        trim_zeros(s) == s.take(trim_zeros(s).len() as int),
        forall|i: int| 0 <= i < trim_zeros(s).len() ==> is_digit(#[trigger] trim_zeros(s)[i]),
        digits_val(trim_zeros(s)) * pow10((s.len() - trim_zeros(s).len()) as nat) == digits_val(s),
        digits_val(s) > 0 ==> trim_zeros(s).len() > 0,
    decreases s.len(),
{
    lemma_pow_nat_step(10, 0);
    if s.len() > 0 && s.last() == '0' {
        lemma_trim_zeros(s.drop_last());
        let t = trim_zeros(s);
        let k = (s.len() - 1 - t.len()) as nat;
        lemma_pow_nat_step(10, k);
        assert(s.drop_last().take(t.len() as int) =~= s.take(t.len() as int));
        vstd::arithmetic::mul::lemma_mul_is_associative(
            digits_val(t) as int,
            pow10(k) as int,
            10,
        );
        assert(digit_val('0') == 0);
        assert(digits_val(s) == digits_val(s.drop_last()) * 10);
        assert((s.len() - t.len()) as nat == k + 1);
        assert(pow10((s.len() - t.len()) as nat) == pow10(k) * 10);
        assert(digits_val(t) * (pow10(k) * 10) == (digits_val(t) * pow10(k)) * 10);
        assert(digits_val(t) * pow10((s.len() - t.len()) as nat) == digits_val(t) * (pow10(k)
            * 10));
        assert(digits_val(t) * pow10((s.len() - t.len()) as nat) == digits_val(s.drop_last())
            * 10);
        assert(digits_val(trim_zeros(s)) * pow10((s.len() - trim_zeros(s).len()) as nat)
            == digits_val(s));
    } else {
        assert(trim_zeros(s) =~= s.take(s.len() as int));
        assert(pow10((s.len() - trim_zeros(s).len()) as nat) == 1);
        assert(digits_val(trim_zeros(s)) * pow10((s.len() - trim_zeros(s).len()) as nat)
            == digits_val(s));
    }
}

/// Relies on `String::from_utf8`: bytes below 128 decode to exactly the
/// characters with the same code points.
#[verifier::external_body]
fn string_from_ascii(v: Vec<u8>) -> (r: String)
    requires
        forall|i: int| 0 <= i < v@.len() ==> v@[i] < 128,
    ensures
        r@.len() == v@.len(),
        forall|i: int| 0 <= i < v@.len() ==> (#[trigger] r@[i]) as int == v@[i] as int,
{
    String::from_utf8(v).unwrap_or_default()
}

/// The canonical digit characters of the magnitude of `x`, as ASCII bytes.
fn int_digit_bytes(x: &BigInteger) -> (r: Vec<u8>)
    ensures
        r@.len() == dec_digits(x.value()).len(),
        forall|i: int| 0 <= i < r@.len() ==> (#[trigger] r@[i]) as int == dec_digits(
            x.value(),
        )[i] as int,
        forall|i: int| 0 <= i < r@.len() ==> 48 <= #[trigger] r@[i] <= 57,
{
    let ghost orig = x.value();
    let ten = BigInteger::from_u128(10);
    let mut v = x.clone();
    let mut rev: Vec<u8> = Vec::new();
    let ghost mut tail = Seq::<char>::empty();
    if v.is_zero() {
        let mut out: Vec<u8> = Vec::new();
        out.push(48);
        proof {
            lemma_digit_char(0);
            assert(dec_digits(0) =~= seq![digit_char(0)]);
        }
        return out;
    }
    proof {
        assert(dec_digits(orig) + tail =~= dec_digits(orig));
    }
    while !v.is_zero()
        invariant
            ten.value() == 10,
            v.value() > 0 ==> dec_digits(orig) == dec_digits(v.value()) + tail,
            v.value() == 0 ==> tail == dec_digits(orig),
            orig > 0,
            rev@.len() == tail.len(),
            forall|k: int| 0 <= k < rev@.len() ==> (#[trigger] rev@[k]) as int == tail[tail.len()
                - 1 - k] as int,
            forall|k: int| 0 <= k < rev@.len() ==> 48 <= #[trigger] rev@[k] <= 57,
        decreases v.value(),
    {
        proof {
            vstd::arithmetic::div_mod::lemma_fundamental_div_mod(v.value() as int, 10);
            v.lemma_value_bound();
        }
        let q = match v.div(&ten) {
            Ok(q) => q,
            Err(_) => {
                proof {
                    assert(false);
                }
                return rev;
            },
        };
        let qt = match q.mul(&ten) {
            Ok(qt) => qt,
            Err(_) => {
                proof {
                    assert(false);
                }
                return rev;
            },
        };
        let rem = match v.sub(&qt) {
            Ok(rem) => rem,
            Err(_) => {
                proof {
                    assert(false);
                }
                return rev;
            },
        };
        let rem_small = match rem.to_uint128() {
            Ok(rs) => rs,
            Err(_) => {
                proof {
                    assert(false);
                }
                return rev;
            },
        };
        proof {
            lemma_digit_char(rem.value());
            if q.value() > 0 {
                assert(dec_digits(v.value()) == dec_digits(q.value()).push(
                    digit_char(v.value() % 10),
                ));
                assert(dec_digits(q.value()).push(digit_char(rem.value())) + tail
                    =~= dec_digits(q.value()) + (seq![digit_char(rem.value())] + tail));
            } else {
                assert(v.value() < 10);
                assert(dec_digits(v.value()) =~= seq![digit_char(v.value())]);
                assert(seq![digit_char(rem.value())] + tail =~= dec_digits(v.value()) + tail);
            }
        }
        rev.push(48 + (rem_small as u8));
        proof {
            tail = seq![digit_char(rem.value())] + tail;
        }
        v = q;
    }
    let n = rev.len();
    let mut out: Vec<u8> = Vec::new();
    let mut j: usize = 0;
    while j < n
        invariant
            n == rev@.len(),
            0 <= j <= n,
            out@.len() == j,
            forall|k: int| 0 <= k < j ==> #[trigger] out@[k] == rev@[n - 1 - k],
        decreases n - j,
    {
        out.push(rev[n - 1 - j]);
        j = j + 1;
    }
    out
}

impl BigInteger {
    /// The canonical base-10 text of this magnitude: digits only, no
    /// leading zero except on the zero value itself.
    pub fn format(&self) -> (r: String)
        ensures
            r@ == dec_digits(self.value()),
    {
        let bytes = int_digit_bytes(self);
        let r = string_from_ascii(bytes);
        proof {
            assert forall|i: int| 0 <= i < r@.len() implies r@[i] == dec_digits(self.value())[i] by {
                lemma_char_code_injective(r@[i], dec_digits(self.value())[i]);
            }
            assert(r@ =~= dec_digits(self.value()));
        }
        r
    }
}

/// Law: formatting an integer and parsing the text back recovers the
/// integer exactly: the canonical digit string of every in-range value is
/// a digit string, worth that value, so `BigInteger::parse` accepts what
/// `BigInteger::format` wrote and returns the original value.
pub proof fn lemma_int_format_parse_round_trip(n: nat)
    requires
        n < bound256(),
    ensures
        is_digit_string(dec_digits(n)),
        digits_val(dec_digits(n)) == n,
{
    lemma_dec_digits(n);
}

/// Law: formatting a decimal and parsing the text back recovers the
/// numerator exactly: `BigDecimal::parse` maps what `BigDecimal::format`
/// wrote for any in-range value to that same value.
#[verifier::rlimit(60)]
pub proof fn lemma_decimal_format_parse_round_trip(a: nat)
    requires
        a < bound256(),
    ensures
        spec_parse_decimal(dec_format(a)) == Ok::<nat, NumericError>(a),
{
    lemma_pow10_18();
    lemma_bound_large();
    vstd::arithmetic::div_mod::lemma_fundamental_div_mod(a as int, denom() as int);
    vstd::arithmetic::div_mod::lemma_mod_division_less_than_divisor(a as int, denom() as int);
    vstd::arithmetic::div_mod::lemma_div_nonincreasing(a as int, denom() as int);
    let w = a / denom();
    let f = a % denom();
    lemma_dec_digits(w);
    let ww = dec_digits(w);
    let wl = ww.len() as int;
    assert forall|j: int| 0 <= j < wl implies ww[j] != '.' by {
        assert(is_digit(ww[j]));
    }
    let s = dec_format(a);
    if f == 0 {
        assert(s == ww);
        lemma_first_dot_unique(s, wl);
        assert(s.subrange(0, wl) =~= ww);
        assert(a == denom() * w);
    } else {
        lemma_fixed_digits(f, 18);
        vstd::arithmetic::div_mod::lemma_small_mod(f, pow10(18));
        lemma_trim_zeros(fixed_digits(f, 18));
        let t = trim_zeros(fixed_digits(f, 18));
        assert(s == ww + seq!['.'] + t);
        assert(s.len() == wl + 1 + t.len());
        assert(forall|j: int| 0 <= j < wl ==> s[j] == ww[j]);
        assert(s[wl] == '.');
        assert(forall|u: int| 0 <= u < t.len() ==> s[wl + 1 + u] == t[u]);
        lemma_first_dot_unique(s, wl);
        assert(s.subrange(0, wl) =~= ww);
        let rest = s.subrange(wl + 1, s.len() as int);
        assert(rest =~= t);
        assert forall|u: int| 0 <= u < rest.len() implies rest[u] != '.' by {
            assert(is_digit(t[u]));
        }
        lemma_first_dot_unique(rest, rest.len() as int);
        assert(rest.subrange(0, rest.len() as int) =~= t);
        let k = (18 - t.len()) as nat;
        vstd::arithmetic::power::lemma_pow_positive(10, k);
        lemma_pow_nat_nonneg(10, k);
        assert(digits_val(t) <= digits_val(t) * pow10(k)) by (nonlinear_arith)
            requires
                pow10(k) >= 1,
        ;
        assert(digits_val(t) * pow10(k) == f);
        assert(w * denom() + digits_val(t) * pow10(k) == a);
    }
}

/// Two characters with one code point are one character.
proof fn lemma_char_code_injective(c1: char, c2: char)
    requires
        c1 as int == c2 as int,
    ensures
        c1 == c2,
{
}

impl BigDecimal {
    /// The canonical text of this decimal: the whole part and, when the
    /// fractional part is not zero, a decimal point followed by the
    /// fractional digits with their trailing zeros removed; the exact
    /// inverse of `parse` on every value.
    pub fn format(&self) -> (r: String)
        ensures
            r@ == dec_format(self.value()),
    {
        let ghost a = self.value();
        proof {
            lemma_pow10_18();
            self.lemma_value_bound();
            vstd::arithmetic::div_mod::lemma_fundamental_div_mod(a as int, denom() as int);
            vstd::arithmetic::div_mod::lemma_mod_division_less_than_divisor(
                a as int,
                denom() as int,
            );
        }
        let whole = self.to_integer();
        let scale = BigInteger::from_u128(DECIMAL_FRACTIONAL);
        let wq = match whole.mul(&scale) {
            Ok(v) => v,
            Err(_) => {
                proof {
                    assert(false);
                }
                return String::new();
            },
        };
        let fracint = match self.numerator().sub(&wq) {
            Ok(v) => v,
            Err(_) => {
                proof {
                    assert(false);
                }
                return String::new();
            },
        };
        let fr = match fracint.to_uint128() {
            Ok(v) => v,
            Err(_) => {
                proof {
                    assert(false);
                }
                return String::new();
            },
        };
        let ghost f = a % denom();
        let mut bytes = int_digit_bytes(&whole);
        let ghost wl = dec_digits(a / denom()).len() as int;
        if fr == 0 {
            let r = string_from_ascii(bytes);
            proof {
                assert forall|i: int| 0 <= i < r@.len() implies r@[i] == dec_format(a)[i] by {
                    lemma_char_code_injective(r@[i], dec_format(a)[i]);
                }
                assert(r@ =~= dec_format(a));
            }
            return r;
        }
        bytes.push(46);
        let mut rev: Vec<u8> = Vec::new();
        let ghost mut ftail = Seq::<char>::empty();
        let mut x = fr;
        let mut k: usize = 0;
        proof {
            assert(fixed_digits(f, 18) + ftail =~= fixed_digits(f, 18));
        }
        while k < 18
            invariant
                0 <= k <= 18,
            f == a % denom(),
                fixed_digits(f, 18) == fixed_digits(x as nat, (18 - k) as nat) + ftail,
                rev@.len() == ftail.len() == k,
                forall|j: int| 0 <= j < rev@.len() ==> (#[trigger] rev@[j]) as int == ftail[ftail.len()
                    - 1 - j] as int,
                forall|j: int| 0 <= j < rev@.len() ==> 48 <= #[trigger] rev@[j] <= 57,
            decreases 18 - k,
        {
            let d = (x % 10) as u8;
            proof {
                lemma_digit_char((x % 10) as nat);
                assert(fixed_digits(x as nat, (18 - k) as nat) == fixed_digits(
                    (x / 10) as nat,
                    (18 - (k + 1)) as nat,
                ).push(digit_char((x % 10) as nat)));
                assert(fixed_digits((x / 10) as nat, (18 - (k + 1)) as nat).push(
                    digit_char((x % 10) as nat),
                ) + ftail =~= fixed_digits((x / 10) as nat, (18 - (k + 1)) as nat) + (seq![
                    digit_char((x % 10) as nat),
                ] + ftail));
            }
            rev.push(48 + d);
            proof {
                ftail = seq![digit_char((x % 10) as nat)] + ftail;
            }
            x = x / 10;
            k = k + 1;
        }
        proof {
            assert(fixed_digits(x as nat, 0) + ftail =~= ftail);
            assert(ftail == fixed_digits(f, 18));
            lemma_fixed_digits(f, 18);
        }
        let mut fb: Vec<u8> = Vec::new();
        let mut j: usize = 0;
        while j < 18
            invariant
                rev@.len() == 18,
                ftail.len() == 18,
                0 <= j <= 18,
                fb@.len() == j,
                forall|t: int| 0 <= t < j ==> #[trigger] fb@[t] == rev@[17 - t],
                forall|t: int| 0 <= t < rev@.len() ==> 48 <= #[trigger] rev@[t] <= 57,
                forall|t: int| 0 <= t < rev@.len() ==> (#[trigger] rev@[t]) as int == ftail[17
                    - t] as int,
            decreases 18 - j,
        {
            fb.push(rev[17 - j]);
            j = j + 1;
        }
        let ghost mut cur = ftail;
        proof {
            assert(forall|t: int|
                0 <= t < fb@.len() ==> (#[trigger] fb@[t]) as int == cur[t] as int);
        }
        while fb.len() > 0 && fb[fb.len() - 1] == 48
            invariant
                f == a % denom(),
                ftail == fixed_digits(f, 18),
                cur.len() == fb@.len() <= 18,
                forall|t: int| 0 <= t < fb@.len() ==> (#[trigger] fb@[t]) as int == cur[t] as int,
                forall|t: int| 0 <= t < fb@.len() ==> 48 <= #[trigger] fb@[t] <= 57,
                forall|t: int| 0 <= t < cur.len() ==> is_digit(#[trigger] cur[t]),
                trim_zeros(cur) == trim_zeros(fixed_digits(f, 18)),
            decreases fb@.len(),
        {
            proof {
                lemma_char_code_injective(cur.last(), '0');
            }
            fb.pop();
            proof {
                cur = cur.drop_last();
            }
        }
        proof {
            if cur.len() > 0 && cur.last() as int == 48 {
                assert(fb@.last() as int == 48);
            }
            assert(trim_zeros(cur) == cur);
            assert(cur == trim_zeros(fixed_digits(f, 18)));
        }
        let fl = fb.len();
        let mut t: usize = 0;
        let ghost before = bytes@;
        proof {
            assert(before.len() == wl + 1);
            assert forall|u: int| 0 <= u < wl implies (#[trigger] before[u]) as int == dec_digits(
                a / denom(),
            )[u] as int by {
            }
            assert(before[wl as int] == 46);
            assert(forall|u: int| 0 <= u < before.len() ==> #[trigger] before[u] < 128);
        }
        while t < fl
            invariant
                t <= fl == fb@.len(),
                bytes@.len() == before.len() + t,
                forall|u: int| 0 <= u < before.len() ==> #[trigger] bytes@[u] == before[u],
                forall|u: int| 0 <= u < t ==> #[trigger] bytes@[before.len() + u] == fb@[u],
                forall|u: int| 0 <= u < before.len() ==> #[trigger] before[u] < 128,
                forall|u: int| 0 <= u < fb@.len() ==> #[trigger] fb@[u] < 128,
            decreases fl - t,
        {
            let b = fb[t];
            bytes.push(b);
            t = t + 1;
        }
        proof {
            assert forall|u: int| 0 <= u < bytes@.len() implies (#[trigger] bytes@[u] < 128) by {
                if u < before.len() {
                } else {
                    assert(bytes@[before.len() + (u - before.len())] == fb@[u - before.len()]);
                }
            }
        }
        let r = string_from_ascii(bytes);
        proof {
            assert(a % denom() != 0);
            assert(dec_format(a).len() == wl + 1 + cur.len());
            assert forall|i: int| 0 <= i < r@.len() implies r@[i] == dec_format(a)[i] by {
                if i < wl {
                    assert(dec_format(a)[i] == dec_digits(a / denom())[i]);
                    assert(bytes@[i] == before[i]);
                    assert(bytes@[i] as int == dec_digits(a / denom())[i] as int);
                } else if i == wl {
                    assert(dec_format(a)[i] == '.');
                    assert(bytes@[i] == before[i]);
                    assert(bytes@[i] as int == 46);
                } else {
                    assert(dec_format(a)[i] == cur[i - wl - 1]);
                    assert(bytes@[before.len() + (i - before.len())] == fb@[i - before.len()]);
                    assert(bytes@[i] as int == cur[i - wl - 1] as int);
                }
                lemma_char_code_injective(r@[i], dec_format(a)[i]);
            }
            assert(r@ =~= dec_format(a));
        }
        r
    }
}

} // verus!
