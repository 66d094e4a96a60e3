//! The decimal number type of the calculator.
//!
//! A `Decimal` holds the constituent parts of a `rust_decimal::Decimal` as
//! plain values: a signed 96-bit mantissa and a power-of-ten scale between 0
//! and 28, so that the represented number is `mantissa / 10^scale`.  All
//! arithmetic is performed by `rust_decimal` itself through trusted wrappers
//! that pass these parts across the boundary; everything around the calls is
//! verified against the model value [`Decimal::value28`], the represented
//! number scaled to an integer by `10^28`.

use vstd::prelude::*;
use vstd::arithmetic::power::{pow, lemma_pow_positive, lemma_pow_adds};
use vstd::arithmetic::mul::{lemma_mul_nonzero, lemma_mul_is_associative};
use std::str::FromStr;

verus! {

/// Exclusive bound on the mantissa magnitude: `2^96`.
pub const MANTISSA_LIMIT: u128 = 0x1_0000_0000_0000_0000_0000_0000;

/// Largest scale (count of fractional digits) a decimal can carry.
pub const MAX_SCALE: u32 = 28;

/// `10^e`, the factor between neighbouring decimal scales.
pub open spec fn pow10(e: nat) -> int {
    pow(10, e)
}

pub broadcast proof fn lemma_pow10_pos(e: nat)
    ensures
        #[trigger] pow10(e) > 0,
{
    lemma_pow_positive(10, e);
}

/// An arbitrary-precision decimal number: `mantissa / 10^scale`.
#[derive(Clone, Copy, Debug)]
pub struct Decimal {
    mantissa: i128,
    scale: u32,
}

impl Decimal {
    /// The signed mantissa (all significant digits as one integer).
    pub closed spec fn spec_mantissa(self) -> i128 {
        self.mantissa
    }

    /// The scale: how many of the mantissa's digits are fractional.
    pub closed spec fn spec_scale(self) -> u32 {
        self.scale
    }

    /// The exponent that scales the mantissa up to the `10^28` model value.
    pub open spec fn exp28(self) -> nat {
        if self.spec_scale() <= 28 {
            (28 - self.spec_scale()) as nat
        } else {
            0
        }
    }

    /// Well-formedness: what `rust_decimal` can represent.
    pub open spec fn valid(self) -> bool {
        &&& self.spec_scale() <= MAX_SCALE
        &&& -(MANTISSA_LIMIT as int) < self.spec_mantissa() < MANTISSA_LIMIT as int
    }

    /// The represented number, scaled to an integer by `10^28`.
    pub open spec fn value28(self) -> int {
        self.spec_mantissa() * pow10(self.exp28())
    }

    /// Mirrors `rust_decimal::Decimal::new`: `mantissa / 10^scale`.
    pub fn new(mantissa: i64, scale: u32) -> (r: Decimal)
        requires
            scale <= MAX_SCALE,
        ensures
            r.valid(),
            r.spec_mantissa() == mantissa,
            r.spec_scale() == scale,
    {
        Decimal { mantissa: mantissa as i128, scale }
    }

    /// Whether the represented number is exactly zero.
    pub fn is_zero(&self) -> (r: bool)
        ensures
            r == (self.value28() == 0),
            r == (self.spec_mantissa() == 0),
    {
        proof {
            lemma_pow10_pos(self.exp28());
            if self.mantissa != 0 {
                lemma_mul_nonzero(self.mantissa as int, pow10(self.exp28()));
            }
        }
        self.mantissa == 0
    }

    /// The negated number; negation is exact.
    pub fn neg(&self) -> (r: Decimal)
        requires
            self.valid(),
        ensures
            r == spec_neg(*self),
            r.valid(),
            r.value28() == -self.value28(),
            r.spec_scale() == self.spec_scale(),
    {
        proof {
            assert((-self.mantissa) * pow10(self.exp28()) == -(self.mantissa * pow10(self.exp28())))
                by (nonlinear_arith);
        }
        Decimal { mantissa: -self.mantissa, scale: self.scale }
    }
}

/// The negated decimal: the mantissa's sign flipped.
pub closed spec fn spec_neg(d: Decimal) -> Decimal {
    Decimal { mantissa: (-d.spec_mantissa()) as i128, scale: d.spec_scale() }
}

/// The decimal with the given constituent parts.
pub closed spec fn from_parts(m: i128, s: u32) -> Decimal {
    Decimal { mantissa: m, scale: s }
}

pub broadcast proof fn lemma_from_parts(m: i128, s: u32)
    ensures
        (#[trigger] from_parts(m, s)).spec_mantissa() == m,
        from_parts(m, s).spec_scale() == s,
{
}

/// The wider of the two scales, to which addition aligns its operands.
pub open spec fn wider_scale(a: Decimal, b: Decimal) -> u32 {
    if a.spec_scale() >= b.spec_scale() {
        a.spec_scale()
    } else {
        b.spec_scale()
    }
}

/// The sum of the two mantissas after aligning both to the wider scale.
pub open spec fn aligned_sum(a: Decimal, b: Decimal) -> int
    recommends
        a.valid(),
        b.valid(),
{
    let s = wider_scale(a, b);
    a.spec_mantissa() * pow10((s - a.spec_scale()) as nat) + b.spec_mantissa() * pow10(
        (s - b.spec_scale()) as nat,
    )
}

/// The difference of the two mantissas after aligning both to the wider scale.
pub open spec fn aligned_diff(a: Decimal, b: Decimal) -> int
    recommends
        a.valid(),
        b.valid(),
{
    let s = wider_scale(a, b);
    a.spec_mantissa() * pow10((s - a.spec_scale()) as nat) - b.spec_mantissa() * pow10(
        (s - b.spec_scale()) as nat,
    )
}

/// Whether an aligned mantissa still fits the 96-bit representation, so that
/// the corresponding `rust_decimal` operation is exact.
pub open spec fn fits_mantissa(m: int) -> bool {
    -(MANTISSA_LIMIT as int) < m < MANTISSA_LIMIT as int
}

/// The quotient of the two model values, scaled like a model value; a
/// whole number exactly when the true quotient is a multiple of `10^-28`.
pub open spec fn exact_quotient28(a: Decimal, b: Decimal) -> int {
    (a.value28() * pow10(28)) / b.value28()
}

/// Whether the true quotient of the two numbers is representable: a whole
/// multiple of `10^-28` whose mantissa fits in 96 bits.
pub open spec fn divides_exactly(a: Decimal, b: Decimal) -> bool {
    &&& b.value28() != 0
    &&& (a.value28() * pow10(28)) % b.value28() == 0
    &&& fits_mantissa(exact_quotient28(a, b))
}

/// What `rust_decimal`'s checked addition returns, as mantissa and scale.
pub uninterp spec fn add_value(m1: i128, s1: u32, m2: i128, s2: u32) -> Option<(i128, u32)>;

/// What `rust_decimal`'s checked subtraction returns, as mantissa and scale.
pub uninterp spec fn sub_value(m1: i128, s1: u32, m2: i128, s2: u32) -> Option<(i128, u32)>;

/// What `rust_decimal`'s checked multiplication returns, as mantissa and scale.
pub uninterp spec fn mul_value(m1: i128, s1: u32, m2: i128, s2: u32) -> Option<(i128, u32)>;

/// What `rust_decimal`'s checked division returns, as mantissa and scale.
pub uninterp spec fn div_value(m1: i128, s1: u32, m2: i128, s2: u32) -> Option<(i128, u32)>;

/// What `rust_decimal`'s string parser returns, as mantissa and scale.
pub uninterp spec fn from_str_value(s: Seq<char>) -> Option<(i128, u32)>;

/// The constituent parts of an optional decimal.
pub open spec fn opt_parts(o: Option<Decimal>) -> Option<(i128, u32)> {
    match o {
        Some(d) => Some((d.spec_mantissa(), d.spec_scale())),
        None => None,
    }
}

/// The sum `a + b` as `rust_decimal` computes it.
pub open spec fn spec_add(a: Decimal, b: Decimal) -> Option<Decimal> {
    match add_value(a.spec_mantissa(), a.spec_scale(), b.spec_mantissa(), b.spec_scale()) {
        Some((m, s)) => Some(from_parts(m, s)),
        None => None,
    }
}

/// The difference `a - b` as `rust_decimal` computes it.
pub open spec fn spec_sub(a: Decimal, b: Decimal) -> Option<Decimal> {
    match sub_value(a.spec_mantissa(), a.spec_scale(), b.spec_mantissa(), b.spec_scale()) {
        Some((m, s)) => Some(from_parts(m, s)),
        None => None,
    }
}

/// The product `a * b` as `rust_decimal` computes it.
pub open spec fn spec_mul(a: Decimal, b: Decimal) -> Option<Decimal> {
    match mul_value(a.spec_mantissa(), a.spec_scale(), b.spec_mantissa(), b.spec_scale()) {
        Some((m, s)) => Some(from_parts(m, s)),
        None => None,
    }
}

/// The quotient `a / b` as `rust_decimal` computes it.
pub open spec fn spec_div(a: Decimal, b: Decimal) -> Option<Decimal> {
    match div_value(a.spec_mantissa(), a.spec_scale(), b.spec_mantissa(), b.spec_scale()) {
        Some((m, s)) => Some(from_parts(m, s)),
        None => None,
    }
}

/// The decimal that `rust_decimal` parses out of the given text.
pub open spec fn spec_from_str(s: Seq<char>) -> Option<Decimal> {
    match from_str_value(s) {
        Some((m, s)) => Some(from_parts(m, s)),
        None => None,
    }
}

impl Decimal {
    /// Addition, performed by `rust_decimal`.
    ///
    /// Relies on `rust_decimal::Decimal::checked_add`: the result is the exact
    /// sum whenever the sum, aligned to the wider scale, still fits in 96
    /// bits; `None` is returned only on overflow.
    #[verifier::external_body]
    pub(crate) fn checked_add(&self, other: &Decimal) -> (r: Option<Decimal>)
        requires
            self.valid(),
            other.valid(),
        ensures
            opt_parts(r) == add_value(
                self.spec_mantissa(),
                self.spec_scale(),
                other.spec_mantissa(),
                other.spec_scale(),
            ),
            r matches Some(d) ==> d.valid(),
            fits_mantissa(aligned_sum(*self, *other)) ==> r is Some,
            r matches Some(d) ==> (fits_mantissa(aligned_sum(*self, *other)) ==> d.value28()
                == self.value28() + other.value28()),
    {
        let x = rust_decimal::Decimal::from_i128_with_scale(self.mantissa, self.scale);
        let y = rust_decimal::Decimal::from_i128_with_scale(other.mantissa, other.scale);
        match x.checked_add(y) {
            Some(z) => Some(Decimal { mantissa: z.mantissa(), scale: z.scale() }),
            None => None,
        }
    }

    /// Subtraction, performed by `rust_decimal`.
    ///
    /// Relies on `rust_decimal::Decimal::checked_sub`: the result is the exact
    /// difference whenever the difference, aligned to the wider scale, still
    /// fits in 96 bits; `None` is returned only on overflow.
    #[verifier::external_body]
    pub(crate) fn checked_sub(&self, other: &Decimal) -> (r: Option<Decimal>)
        requires
            self.valid(),
            other.valid(),
        ensures
            opt_parts(r) == sub_value(
                self.spec_mantissa(),
                self.spec_scale(),
                other.spec_mantissa(),
                other.spec_scale(),
            ),
            r matches Some(d) ==> d.valid(),
            fits_mantissa(aligned_diff(*self, *other)) ==> r is Some,
            r matches Some(d) ==> (fits_mantissa(aligned_diff(*self, *other)) ==> d.value28()
                == self.value28() - other.value28()),
    {
        let x = rust_decimal::Decimal::from_i128_with_scale(self.mantissa, self.scale);
        let y = rust_decimal::Decimal::from_i128_with_scale(other.mantissa, other.scale);
        match x.checked_sub(y) {
            Some(z) => Some(Decimal { mantissa: z.mantissa(), scale: z.scale() }),
            None => None,
        }
    }

    /// Multiplication, performed by `rust_decimal`.
    ///
    /// Relies on `rust_decimal::Decimal::checked_mul`: the result is the exact
    /// product whenever the scales sum to at most 28 and the product of the
    /// mantissas fits in 96 bits; a zero operand gives an exact zero; `None`
    /// is returned only on overflow.
    #[verifier::external_body]
    pub(crate) fn checked_mul(&self, other: &Decimal) -> (r: Option<Decimal>)
        requires
            self.valid(),
            other.valid(),
        ensures
            opt_parts(r) == mul_value(
                self.spec_mantissa(),
                self.spec_scale(),
                other.spec_mantissa(),
                other.spec_scale(),
            ),
            r matches Some(d) ==> d.valid(),
            (self.spec_scale() + other.spec_scale() <= MAX_SCALE && fits_mantissa(
                self.spec_mantissa() * other.spec_mantissa(),
            )) ==> r is Some,
            r matches Some(d) ==> (self.spec_scale() + other.spec_scale() <= MAX_SCALE
                && fits_mantissa(self.spec_mantissa() * other.spec_mantissa()) ==> d.value28()
                * pow10(28) == self.value28() * other.value28()),
            (self.spec_mantissa() == 0 || other.spec_mantissa() == 0) ==> r is Some,
            r matches Some(d) ==> ((self.spec_mantissa() == 0 || other.spec_mantissa() == 0)
                ==> d.value28() == 0),
    {
        let x = rust_decimal::Decimal::from_i128_with_scale(self.mantissa, self.scale);
        let y = rust_decimal::Decimal::from_i128_with_scale(other.mantissa, other.scale);
        match x.checked_mul(y) {
            Some(z) => Some(Decimal { mantissa: z.mantissa(), scale: z.scale() }),
            None => None,
        }
    }

    /// Division, performed by `rust_decimal`.
    ///
    /// Relies on `rust_decimal::Decimal::checked_div`: division by zero gives
    /// `None`, a zero dividend gives an exact zero, and a quotient that is a
    /// whole multiple of `10^-28` fitting 96 bits is returned exactly.  Any
    /// other outcome (an inexact quotient, or `None` on overflow) is pinned
    /// only by its name.
    #[verifier::external_body]
    pub(crate) fn checked_div(&self, other: &Decimal) -> (r: Option<Decimal>)
        requires
            self.valid(),
            other.valid(),
        ensures
            opt_parts(r) == div_value(
                self.spec_mantissa(),
                self.spec_scale(),
                other.spec_mantissa(),
                other.spec_scale(),
            ),
            r matches Some(d) ==> d.valid(),
            other.spec_mantissa() == 0 ==> r is None,
            (other.spec_mantissa() != 0 && self.spec_mantissa() == 0) ==> r is Some,
            r matches Some(d) ==> (self.spec_mantissa() == 0 ==> d.value28() == 0),
            divides_exactly(*self, *other) ==> r is Some,
            r matches Some(d) ==> (divides_exactly(*self, *other) ==> d.value28()
                == exact_quotient28(*self, *other)),
    {
        let x = rust_decimal::Decimal::from_i128_with_scale(self.mantissa, self.scale);
        let y = rust_decimal::Decimal::from_i128_with_scale(other.mantissa, other.scale);
        match x.checked_div(y) {
            Some(z) => Some(Decimal { mantissa: z.mantissa(), scale: z.scale() }),
            None => None,
        }
    }
}

/// Whether the character is a decimal digit.
pub open spec fn is_digit_char(c: char) -> bool {
    48 <= c as u32 <= 57
}

/// The numeric value of one digit character.
pub open spec fn digit_char_val(c: char) -> int {
    c as u32 - 48
}

/// Whether every character of the text is a decimal digit.
pub open spec fn all_digits(s: Seq<char>) -> bool {
    forall|i: int| 0 <= i < s.len() ==> is_digit_char(#[trigger] s[i])
}

/// The number written by a run of digit characters, most significant first.
pub open spec fn digits_value(s: Seq<char>) -> int
    decreases s.len(),
{
    if s.len() == 0 {
        0
    } else {
        digits_value(s.drop_last()) * 10 + digit_char_val(s.last())
    }
}

/// Whether the character can appear at all in text the plain (non-scientific)
/// decimal parser accepts.
pub open spec fn is_decimal_text_char(c: char) -> bool {
    is_digit_char(c) || c == '.' || c == '-' || c == '+' || c == '_'
}

/// Whether the character marks scientific notation, which parsing falls back
/// to when the plain form fails.
pub open spec fn is_exponent_char(c: char) -> bool {
    c == 'e' || c == 'E'
}

impl Decimal {
    /// Parsing from text, performed by `rust_decimal`.
    ///
    /// Relies on `rust_decimal`'s `FromStr`: a plain run of digits, with or
    /// without a single decimal point and at most 28 fractional digits, is
    /// stored digit for digit (no normalisation).  When the plain form fails
    /// and the text carries an `e` or `E`, parsing falls back to scientific
    /// notation, so only exponent-free text with a character outside the
    /// plain alphabet is certain to be rejected.
    #[verifier::external_body]
    pub fn parse(s: &str) -> (r: Option<Decimal>)
        ensures
            opt_parts(r) == from_str_value(s@),
            r matches Some(d) ==> d.valid(),
            (all_digits(s@) && 1 <= s@.len() && digits_value(s@) < MANTISSA_LIMIT) ==> r == Some(
                from_parts(digits_value(s@) as i128, 0),
            ),
            forall|ip: Seq<char>, fp: Seq<char>|
                (s@ == ip + seq!['.'] + fp && #[trigger] all_digits(ip) && #[trigger] all_digits(fp)
                    && 1 <= ip.len() && fp.len() <= 28 && digits_value(ip + fp) < MANTISSA_LIMIT)
                    ==> r == Some(from_parts(digits_value(ip + fp) as i128, fp.len() as u32)),
            ((exists|i: int| 0 <= i < s@.len() && !is_decimal_text_char(#[trigger] s@[i])) && (
            forall|i: int| 0 <= i < s@.len() ==> !is_exponent_char(#[trigger] s@[i]))) ==> r
                is None,
    {
        match rust_decimal::Decimal::from_str(s) {
            Ok(z) => Some(Decimal { mantissa: z.mantissa(), scale: z.scale() }),
            Err(_) => None,
        }
    }
}


/// The numeric values of the powers of ten up to `10^28`.
pub proof fn lemma_pow10_values()
    ensures
        pow10(0) == 1,
        pow10(1) == 10,
        pow10(2) == 100,
        pow10(9) == 1_000_000_000,
        pow10(19) == 10_000_000_000_000_000_000,
        pow10(28) == 10_000_000_000_000_000_000_000_000_000,
        pow10(28) < MANTISSA_LIMIT,
{
    reveal(vstd::arithmetic::power::pow);
        assert(pow10(0) == 1);
        assert(pow10(1) == 10);
        assert(pow10(2) == 100);
        assert(pow10(3) == 1000);
        assert(pow10(4) == 10000);
        assert(pow10(5) == 100000);
        assert(pow10(6) == 1000000);
        assert(pow10(7) == 10000000);
        assert(pow10(8) == 100000000);
        assert(pow10(9) == 1000000000);
        assert(pow10(10) == 10000000000);
        assert(pow10(11) == 100000000000);
        assert(pow10(12) == 1000000000000);
        assert(pow10(13) == 10000000000000);
        assert(pow10(14) == 100000000000000);
        assert(pow10(15) == 1000000000000000);
        assert(pow10(16) == 10000000000000000);
        assert(pow10(17) == 100000000000000000);
        assert(pow10(18) == 1000000000000000000);
        assert(pow10(19) == 10000000000000000000);
        assert(pow10(20) == 100000000000000000000);
        assert(pow10(21) == 1000000000000000000000);
        assert(pow10(22) == 10000000000000000000000);
        assert(pow10(23) == 100000000000000000000000);
        assert(pow10(24) == 1000000000000000000000000);
        assert(pow10(25) == 10000000000000000000000000);
        assert(pow10(26) == 100000000000000000000000000);
        assert(pow10(27) == 1000000000000000000000000000);
        assert(pow10(28) == 10000000000000000000000000000);
}

/// Executable power of ten.
pub fn pow10_u128(e: u32) -> (r: u128)
    requires
        e <= 28,
    ensures
        r == pow10(e as nat),
        1 <= r < MANTISSA_LIMIT,
{
    proof {
        lemma_pow10_values();
    }
    let mut r: u128 = 1;
    let mut i: u32 = 0;
    while i < e
        invariant
            i <= e <= 28,
            r == pow10(i as nat),
        decreases e - i,
    {
        proof {
            vstd::arithmetic::power::lemma_pow_increases(10, (i + 1) as nat, 28);
            lemma_pow10_values();
            reveal(vstd::arithmetic::power::pow);
            assert(pow10((i + 1) as nat) == 10 * pow10(i as nat));
        }
        r = r * 10;
        i = i + 1;
    }
    proof {
        vstd::arithmetic::power::lemma_pow_increases(10, e as nat, 28);
        lemma_pow10_pos(e as nat);
    }
    r
}

/// `v` rounded to the nearest multiple of `d` and divided by `d`, with exact
/// halves rounded away from zero.
pub open spec fn round_half_away(v: int, d: int) -> int
    recommends
        d >= 2,
        d % 2 == 0,
{
    if v >= 0 {
        (v + d / 2) / d
    } else {
        -((-v + d / 2) / d)
    }
}

/// The decimal rounded to at most 9 decimal places, halves away from zero.
pub open spec fn spec_round9(x: Decimal) -> Decimal {
    if x.spec_scale() <= 9 {
        x
    } else {
        from_parts(
            round_half_away(x.spec_mantissa() as int, pow10((x.spec_scale() - 9) as nat)) as i128,
            9,
        )
    }
}

impl Decimal {
    /// The number rounded to at most 9 decimal places, halves away from zero.
    pub fn round9(&self) -> (r: Decimal)
        requires
            self.valid(),
        ensures
            r.valid(),
            r == spec_round9(*self),
            r.spec_scale() <= 28,
    {
        if self.scale <= 9 {
            *self
        } else {
            let e: u32 = self.scale - 9;
            let d: u128 = pow10_u128(e);
            let neg: bool = self.mantissa < 0;
            let mag: u128 = if neg {
                (-self.mantissa) as u128
            } else {
                self.mantissa as u128
            };
            proof {
                lemma_pow10_values();
                vstd::arithmetic::power::lemma_pow_increases(10, 1, e as nat);
                assert(pow10(1) == 10) by {
                    vstd::arithmetic::power::lemma_pow1(10);
                }
                assert(d >= 10);
            }
            let q: u128 = (mag + d / 2) / d;
            proof {
                assert(q < MANTISSA_LIMIT) by (nonlinear_arith)
                    requires
                        d >= 10,
                        mag < MANTISSA_LIMIT,
                        q == (mag + d / 2) as int / d as int,
                ;
            }
            let m: i128 = if neg {
                -(q as i128)
            } else {
                q as i128
            };
            Decimal { mantissa: m, scale: 9 }
        }
    }
}


/// `10^(e+1)` is ten times `10^e`.
pub proof fn lemma_pow10_step(e: nat)
    ensures
        pow10((e + 1) as nat) == 10 * pow10(e),
{
    reveal(vstd::arithmetic::power::pow);
}

/// Whether the parts carry no trailing zero digit that could be stripped.
pub open spec fn reduced(m: i128, s: u32) -> bool {
    s == 0 || m as int % 10 != 0
}

/// Two reduced representations of the same number are identical.
proof fn lemma_reduced_unique(m1: i128, s1: u32, m2: i128, s2: u32)
    requires
        s1 <= 28,
        s2 <= 28,
        reduced(m1, s1),
        reduced(m2, s2),
        from_parts(m1, s1).value28() == from_parts(m2, s2).value28(),
    ensures
        m1 == m2,
        s1 == s2,
    decreases s1 + s2,
{
    broadcast use lemma_from_parts;

    let e1: nat = (28 - s1) as nat;
    let e2: nat = (28 - s2) as nat;
    lemma_pow10_pos(e1);
    lemma_pow10_pos(e2);
    if m1 == 0 {
        assert(from_parts(m1, s1).value28() == 0) by {
            lemma_mul_nonzero(m1 as int, pow10(e1));
        }
        assert(m2 == 0) by {
            lemma_mul_nonzero(m2 as int, pow10(e2));
        }
        assert(s1 == 0 && s2 == 0);
    } else if m2 == 0 {
        assert(from_parts(m2, s2).value28() == 0) by {
            lemma_mul_nonzero(m2 as int, pow10(e2));
        }
        assert(m1 != 0 ==> m1 * pow10(e1) != 0) by {
            lemma_mul_nonzero(m1 as int, pow10(e1));
        }
        assert(false);
    } else if s1 == s2 {
        lemma_mul_equality_converse_flip(pow10(e1), m1 as int, m2 as int);
    } else if s1 > s2 {
        lemma_reduced_strip(m1, s1, m2, s2);
    } else {
        lemma_reduced_strip(m2, s2, m1, s1);
        assert(false);
    }
}

/// Commutated form of `lemma_mul_equality_converse`.
proof fn lemma_mul_equality_converse_flip(m: int, x: int, y: int)
    requires
        m != 0,
        x * m == y * m,
    ensures
        x == y,
{
    vstd::arithmetic::mul::lemma_mul_is_commutative(x, m);
    vstd::arithmetic::mul::lemma_mul_is_commutative(y, m);
    vstd::arithmetic::mul::lemma_mul_equality_converse(m, x, y);
}

/// A representation at a strictly larger scale than another of the same
/// nonzero number must end in a zero digit.
proof fn lemma_reduced_strip(m1: i128, s1: u32, m2: i128, s2: u32)
    requires
        s2 < s1 <= 28,
        m1 != 0,
        m2 != 0,
        from_parts(m1, s1).value28() == from_parts(m2, s2).value28(),
    ensures
        m1 as int % 10 == 0,
{
    broadcast use lemma_from_parts;

    let e1: nat = (28 - s1) as nat;
    let e2: nat = (28 - s2) as nat;
    let k: nat = (e2 - e1) as nat;
    lemma_pow_adds(10, k, e1);
    assert(m2 * pow10(e2) == (m2 * pow10(k)) * pow10(e1)) by {
        lemma_mul_is_associative(m2 as int, pow10(k), pow10(e1));
    }
    lemma_pow10_pos(e1);
    lemma_mul_equality_converse_flip(pow10(e1), m1 as int, m2 * pow10(k));
    assert(pow10(k) == 10 * pow10((k - 1) as nat)) by {
        lemma_pow10_step((k - 1) as nat);
    }
    assert(m1 as int == (m2 * pow10((k - 1) as nat)) * 10) by {
        lemma_mul_is_associative(m2 as int, pow10((k - 1) as nat), 10);
        vstd::arithmetic::mul::lemma_mul_is_commutative(pow10((k - 1) as nat), 10);
    }
    vstd::arithmetic::div_mod::lemma_mod_multiples_basic(m2 * pow10((k - 1) as nat), 10);
}

impl Decimal {
    /// The reduced parts: the scale clamped to 28, then trailing zero digits
    /// stripped from the mantissa.  Two decimals represent the same number
    /// exactly when their reduced parts coincide.
    fn reduced_parts(&self) -> (r: (i128, u32))
        ensures
            r.1 <= 28,
            from_parts(r.0, r.1).value28() == self.value28(),
            reduced(r.0, r.1),
    {
        proof {
            broadcast use lemma_from_parts;

        }
        let mut m: i128 = self.mantissa;
        let mut s: u32 = if self.scale > 28 {
            28
        } else {
            self.scale
        };
        while s > 0 && m % 10 == 0
            invariant
                s <= 28,
                from_parts(m, s).value28() == self.value28(),
            decreases s,
        {
            let ghost m0: int = m as int;
            let ghost s0: u32 = s;
            m = m / 10;
            s = s - 1;
            proof {
                broadcast use lemma_from_parts;

                assert(m0 == 10 * (m as int)) by {
                    vstd::arithmetic::div_mod::lemma_fundamental_div_mod(m0, 10);
                }
                let e0: nat = (28 - s0) as nat;
                assert(pow10((e0 + 1) as nat) == 10 * pow10(e0)) by {
                    lemma_pow10_step(e0);
                }
                assert(m as int * (10 * pow10(e0)) == (10 * (m as int)) * pow10(e0)) by {
                    lemma_mul_is_associative(m as int, 10, pow10(e0));
                    vstd::arithmetic::mul::lemma_mul_is_commutative(m as int, 10);
                }
            }
        }
        (m, s)
    }
}

impl PartialEq for Decimal {
    /// Numeric equality: the same number, at whatever scale it is stored.
    fn eq(&self, other: &Decimal) -> (r: bool) {
        let a = self.reduced_parts();
        let b = other.reduced_parts();
        let r = a.0 == b.0 && a.1 == b.1;
        proof {
            if !r && self.value28() == other.value28() {
                lemma_reduced_unique(a.0, a.1, b.0, b.1);
            }
        }
        r
    }
}

impl vstd::std_specs::cmp::PartialEqSpecImpl for Decimal {
    open spec fn obeys_eq_spec() -> bool {
        true
    }

    open spec fn eq_spec(&self, other: &Decimal) -> bool {
        self.value28() == other.value28()
    }
}


impl Decimal {
    /// Mirrors `rust_decimal::Decimal::from_i128_with_scale`.
    pub fn from_i128_with_scale(mantissa: i128, scale: u32) -> (r: Decimal)
        requires
            scale <= MAX_SCALE,
            -(MANTISSA_LIMIT as int) < mantissa < MANTISSA_LIMIT as int,
        ensures
            r.valid(),
            r == from_parts(mantissa, scale),
            r.spec_mantissa() == mantissa,
            r.spec_scale() == scale,
    {
        Decimal { mantissa, scale }
    }

    /// The signed mantissa.
    pub fn mantissa(&self) -> (r: i128)
        ensures
            r == self.spec_mantissa(),
    {
        self.mantissa
    }

    /// The scale.
    pub fn scale(&self) -> (r: u32)
        ensures
            r == self.spec_scale(),
    {
        self.scale
    }
}

/// The represented number is zero exactly when the mantissa is.
pub proof fn lemma_value28_zero(d: Decimal)
    ensures
        (d.value28() == 0) <==> (d.spec_mantissa() == 0),
{
    lemma_pow10_pos(d.exp28());
    if d.spec_mantissa() != 0 {
        lemma_mul_nonzero(d.spec_mantissa() as int, pow10(d.exp28()));
    } else {
        assert(0 * pow10(d.exp28()) == 0) by (nonlinear_arith);
    }
}

/// Optional decimals with the same parts are the same.
pub proof fn lemma_opt_parts_inj(x: Option<Decimal>, y: Option<Decimal>)
    requires
        opt_parts(x) == opt_parts(y),
    ensures
        x == y,
{
}

/// Positive powers of ten are even and at least ten.
pub proof fn lemma_pow10_even(e: nat)
    requires
        e >= 1,
    ensures
        pow10(e) % 2 == 0,
        pow10(e) >= 10,
{
    lemma_pow10_step((e - 1) as nat);
    lemma_pow10_pos((e - 1) as nat);
    let x = pow10((e - 1) as nat);
    assert(10 * x == 2 * (5 * x)) by (nonlinear_arith);
    vstd::arithmetic::div_mod::lemma_mod_multiples_basic(5 * x, 2);
    vstd::arithmetic::mul::lemma_mul_is_commutative(5 * x, 2);
}

/// Cancelling a common positive factor preserves quotients.
proof fn lemma_div_cancel(a: int, b: int, p: int)
    requires
        b > 0,
        p > 0,
    ensures
        (a * p) / (b * p) == a / b,
{
    let q = a / b;
    let r = a % b;
    vstd::arithmetic::div_mod::lemma_fundamental_div_mod(a, b);
    assert(a * p == q * (b * p) + r * p) by (nonlinear_arith)
        requires
            a == q * b + r,
    ;
    assert(0 <= r * p < b * p) by (nonlinear_arith)
        requires
            0 <= r < b,
            p > 0,
    ;
    assert(b * p > 0) by (nonlinear_arith)
        requires
            b > 0,
            p > 0,
    ;
    vstd::arithmetic::div_mod::lemma_fundamental_div_mod_converse(a * p, b * p, q, r * p);
}

/// Rounding an exact multiple returns the multiplier.
pub proof fn lemma_round_exact(k: int, d: int)
    requires
        d >= 2,
        d % 2 == 0,
    ensures
        round_half_away(k * d, d) == k,
{
    if k >= 0 {
        assert(k * d >= 0) by (nonlinear_arith)
            requires
                k >= 0,
                d >= 2,
        ;
        vstd::arithmetic::div_mod::lemma_fundamental_div_mod_converse(k * d + d / 2, d, k, d / 2);
    } else {
        assert(k * d < 0) by (nonlinear_arith)
            requires
                k < 0,
                d >= 2,
        ;
        assert(-(k * d) == (-k) * d) by (nonlinear_arith);
        vstd::arithmetic::div_mod::lemma_fundamental_div_mod_converse(
            (-k) * d + d / 2,
            d,
            -k,
            d / 2,
        );
    }
}

/// Rounding is unchanged by scaling the value and the step together.
pub proof fn lemma_round_scale(v: int, d: int, p: int)
    requires
        d >= 2,
        d % 2 == 0,
        p >= 1,
    ensures
        round_half_away(v * p, d * p) == round_half_away(v, d),
{
    let h = d / 2;
    vstd::arithmetic::div_mod::lemma_fundamental_div_mod(d, 2);
    assert(d == 2 * h);
    assert((d * p) % 2 == 0 && (d * p) / 2 == h * p) by {
        assert(d * p == 2 * (h * p)) by (nonlinear_arith)
            requires
                d == 2 * h,
        ;
        vstd::arithmetic::div_mod::lemma_fundamental_div_mod_converse(d * p, 2, h * p, 0);
        vstd::arithmetic::div_mod::lemma_mod_multiples_basic(h * p, 2);
        vstd::arithmetic::mul::lemma_mul_is_commutative(h * p, 2);
    }
    assert(d * p >= 2) by (nonlinear_arith)
        requires
            d >= 2,
            p >= 1,
    ;
    if v >= 0 {
        assert(v * p >= 0) by (nonlinear_arith)
            requires
                v >= 0,
                p >= 1,
        ;
        assert(v * p + h * p == (v + h) * p) by (nonlinear_arith);
        lemma_div_cancel(v + h, d, p);
    } else {
        assert(v * p < 0) by (nonlinear_arith)
            requires
                v < 0,
                p >= 1,
        ;
        assert(-(v * p) == (-v) * p) by (nonlinear_arith);
        assert((-v) * p + h * p == (-v + h) * p) by (nonlinear_arith);
        lemma_div_cancel(-v + h, d, p);
    }
}


/// A digit run has a non-negative value.
pub proof fn lemma_digits_value_nonneg(s: Seq<char>)
    requires
        all_digits(s),
    ensures
        digits_value(s) >= 0,
    decreases s.len(),
{
    if s.len() > 0 {
        assert(all_digits(s.drop_last())) by {
            assert(forall|i: int|
                0 <= i < s.len() - 1 ==> #[trigger] s.drop_last()[i] == s[i]);
        }
        lemma_digits_value_nonneg(s.drop_last());
    }
}

/// A digit run's value is below ten to the power of its length.
pub proof fn lemma_digits_value_bound(s: Seq<char>)
    requires
        all_digits(s),
    ensures
        0 <= digits_value(s) < pow10(s.len()),
    decreases s.len(),
{
    reveal(vstd::arithmetic::power::pow);
    if s.len() == 0 {
    } else {
        assert(all_digits(s.drop_last())) by {
            assert(forall|i: int|
                0 <= i < s.len() - 1 ==> #[trigger] s.drop_last()[i] == s[i]);
        }
        lemma_digits_value_bound(s.drop_last());
        lemma_pow10_step((s.len() - 1) as nat);
        assert(is_digit_char(s.last()));
        assert(digits_value(s) < 10 * pow10((s.len() - 1) as nat)) by (nonlinear_arith)
            requires
                digits_value(s) == digits_value(s.drop_last()) * 10 + digit_char_val(s.last()),
                0 <= digits_value(s.drop_last()) < pow10((s.len() - 1) as nat),
                digit_char_val(s.last()) <= 9,
        ;
    }
}

/// Extending a digit prefix by one character multiplies its value by ten and
/// adds the new digit.
pub proof fn lemma_digits_take_step(s: Seq<char>, i: int)
    requires
        0 <= i < s.len(),
    ensures
        digits_value(s.take(i + 1)) == digits_value(s.take(i)) * 10 + digit_char_val(s[i]),
{
    assert(s.take(i + 1).drop_last() =~= s.take(i));
    assert(s.take(i + 1).last() == s[i]);
}

/// A digit prefix never exceeds the whole run's value.
pub proof fn lemma_digits_take_le(s: Seq<char>, k: int)
    requires
        all_digits(s),
        0 <= k <= s.len(),
    ensures
        digits_value(s.take(k)) <= digits_value(s),
    decreases s.len() - k,
{
    if k == s.len() {
        assert(s.take(k) =~= s);
    } else {
        lemma_digits_take_step(s, k);
        assert(all_digits(s.take(k))) by {
            assert(forall|i: int| 0 <= i < k ==> #[trigger] s.take(k)[i] == s[i]);
        }
        lemma_digits_value_nonneg(s.take(k));
        assert(digits_value(s.take(k)) * 10 >= digits_value(s.take(k))) by (nonlinear_arith)
            requires
                digits_value(s.take(k)) >= 0,
        ;
        lemma_digits_take_le(s, k + 1);
    }
}

} // verus!
