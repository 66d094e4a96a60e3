//! An amount of elapsed time.
//!
//! Times are represented as a number of whole seconds plus a nanosecond
//! offset.  The offset is never negative: a negative time stores one less
//! than its (negated) whole seconds and the complement of its nanosecond
//! remainder, the way two's complement encodes negative integers.  For
//! example, -1.2 seconds is stored as -2 seconds plus 800,000,000
//! nanoseconds.  Exact zero is always `(0, 0)`.
//!
//! The model of a time is [`Time::nanos_value`], its signed total length in
//! nanoseconds; every representable value has exactly one encoding
//! ([`lemma_value_unique`]).

pub mod parse;

use vstd::prelude::*;
use crate::dec::{
    Decimal, from_parts, lemma_from_parts, pow10, pow10_u128, lemma_pow10_pos, lemma_pow10_step,
    lemma_pow10_values, lemma_pow10_even, round_half_away, spec_mul, spec_div, fits_mantissa, aligned_sum,
    aligned_diff, MANTISSA_LIMIT,
};
use vstd::arithmetic::div_mod::{
    lemma_fundamental_div_mod, lemma_fundamental_div_mod_converse, lemma_div_pos_is_pos,
};
use vstd::arithmetic::mul::{lemma_mul_is_distributive_add_other_way, lemma_mul_is_commutative};
use vstd::arithmetic::power::lemma_pow_adds;

verus! {

pub const NANOS_PER_SECOND: u32 = 1_000_000_000;

pub const SECONDS_PER_MINUTE: u32 = 60;

pub const SECONDS_PER_HOUR: u32 = 3600;

/// The largest representable magnitude, in nanoseconds:
/// `i64::MAX` seconds plus 999,999,999 nanoseconds.
pub const MAX_NANOS: u128 = 9_223_372_036_854_775_807_999_999_999;

/// Hour/minute/second components of the largest representable time.
pub const MAX_TIME_HOURS: u64 = 2_562_047_788_015_215;

pub const MAX_TIME_MINUTES: u8 = 30;

pub const MAX_TIME_SECONDS: u8 = 7;

/// An amount of elapsed time.  See the module documentation for the
/// encoding.
#[derive(Clone, Copy, PartialEq, Eq, Structural, Debug)]
pub struct Time {
    seconds: i64,
    nanoseconds: u32,
}

/// A builder for creating new times from sign and clock components.
#[derive(Clone, Copy, Debug)]
pub struct TimeBuilder {
    pub negative: bool,
    pub hours: u64,
    pub minutes: u8,
    pub seconds: u8,
    pub nanoseconds: u32,
}

impl Time {
    /// The stored whole-second field.
    pub closed spec fn spec_seconds(self) -> i64 {
        self.seconds
    }

    /// The stored nanosecond-offset field.
    pub closed spec fn spec_nanos(self) -> u32 {
        self.nanoseconds
    }

    /// The model: the signed total length in nanoseconds.
    pub open spec fn nanos_value(self) -> int {
        self.spec_seconds() * 1_000_000_000 + self.spec_nanos()
    }

    /// Well-formedness: the canonical encoding of the value.
    pub open spec fn inv(self) -> bool {
        if self.spec_seconds() >= 0 {
            self.spec_nanos() <= 999_999_999
        } else {
            1 <= self.spec_nanos() <= 1_000_000_000 && self.nanos_value() < 0
        }
    }
}

/// Whether a nanosecond count is representable as a `Time`.
pub open spec fn in_range(v: int) -> bool {
    -(MAX_NANOS as int) <= v <= MAX_NANOS as int
}

/// The canonical encoding of a nanosecond count.
pub closed spec fn from_nanos(v: int) -> Time {
    if v >= 0 {
        Time { seconds: (v / 1_000_000_000) as i64, nanoseconds: (v % 1_000_000_000) as u32 }
    } else {
        let q = (-v) / 1_000_000_000;
        let r = (-v) % 1_000_000_000;
        Time { seconds: (-q - 1) as i64, nanoseconds: (1_000_000_000 - r) as u32 }
    }
}

/// The canonical encoding represents the encoded value and is well formed.
pub proof fn lemma_from_nanos(v: int)
    requires
        in_range(v),
    ensures
        from_nanos(v).inv(),
        from_nanos(v).nanos_value() == v,
{
    if v >= 0 {
        lemma_fundamental_div_mod(v, 1_000_000_000);
        lemma_div_pos_is_pos(v, 1_000_000_000);
        assert(v / 1_000_000_000 <= MAX_NANOS as int / 1_000_000_000) by {
            vstd::arithmetic::div_mod::lemma_div_is_ordered(v, MAX_NANOS as int, 1_000_000_000);
        }
    } else {
        let m = -v;
        lemma_fundamental_div_mod(m, 1_000_000_000);
        lemma_div_pos_is_pos(m, 1_000_000_000);
        assert(m / 1_000_000_000 <= MAX_NANOS as int / 1_000_000_000) by {
            vstd::arithmetic::div_mod::lemma_div_is_ordered(m, MAX_NANOS as int, 1_000_000_000);
        }
    }
}

/// Two well-formed times with the same value are identical.
pub proof fn lemma_value_unique(a: Time, b: Time)
    requires
        a.inv(),
        b.inv(),
        a.nanos_value() == b.nanos_value(),
    ensures
        a == b,
{
    let v = a.nanos_value();
    if a.spec_seconds() >= 0 && b.spec_seconds() >= 0 {
        lemma_fundamental_div_mod_converse(
            v,
            1_000_000_000,
            a.spec_seconds() as int,
            a.spec_nanos() as int,
        );
        lemma_fundamental_div_mod_converse(
            v,
            1_000_000_000,
            b.spec_seconds() as int,
            b.spec_nanos() as int,
        );
    } else if a.spec_seconds() < 0 && b.spec_seconds() < 0 {
        lemma_fundamental_div_mod_converse(
            v - 1,
            1_000_000_000,
            a.spec_seconds() as int,
            a.spec_nanos() - 1,
        );
        lemma_fundamental_div_mod_converse(
            v - 1,
            1_000_000_000,
            b.spec_seconds() as int,
            b.spec_nanos() - 1,
        );
    }
}


/// The magnitude in whole seconds of the builder's components.
pub open spec fn builder_mag_seconds(b: TimeBuilder) -> int {
    b.hours * 3600 + b.minutes * 60 + b.seconds
}

/// The signed nanosecond count the builder describes.
pub open spec fn builder_value(b: TimeBuilder) -> int {
    let m = builder_mag_seconds(b) * 1_000_000_000 + b.nanoseconds;
    if b.negative {
        -m
    } else {
        m
    }
}

/// Component ranges every builder must keep.
pub open spec fn builder_wf(b: TimeBuilder) -> bool {
    b.minutes <= 59 && b.seconds <= 59 && b.nanoseconds <= 999_999_999
}

/// Whether the described magnitude stays within the representable range.
pub open spec fn builder_in_range(b: TimeBuilder) -> bool {
    !(b.hours > MAX_TIME_HOURS || (b.hours == MAX_TIME_HOURS && b.minutes > MAX_TIME_MINUTES) || (
    b.hours == MAX_TIME_HOURS && b.minutes == MAX_TIME_MINUTES && b.seconds > MAX_TIME_SECONDS))
}

impl Time {
    /// Returns a new time builder with all components zero.
    pub fn builder() -> (r: TimeBuilder)
        ensures
            r == (TimeBuilder { negative: false, hours: 0, minutes: 0, seconds: 0, nanoseconds: 0 }),
    {
        TimeBuilder { negative: false, hours: 0, minutes: 0, seconds: 0, nanoseconds: 0 }
    }
}

impl TimeBuilder {
    /// Sets the sign component to negative.
    pub fn negative(self) -> (r: TimeBuilder)
        ensures
            r == (TimeBuilder { negative: true, ..self }),
    {
        TimeBuilder { negative: true, ..self }
    }

    /// Sets the hours component.
    pub fn hours(self, hours: u64) -> (r: TimeBuilder)
        ensures
            r == (TimeBuilder { hours, ..self }),
    {
        TimeBuilder { hours, ..self }
    }

    /// Sets the minutes component; a time has between 0 and 59 minutes.
    pub fn minutes(self, minutes: u8) -> (r: TimeBuilder)
        requires
            minutes <= 59,
        ensures
            r == (TimeBuilder { minutes, ..self }),
    {
        TimeBuilder { minutes, ..self }
    }

    /// Sets the seconds component; a time has between 0 and 59 seconds.
    pub fn seconds(self, seconds: u8) -> (r: TimeBuilder)
        requires
            seconds <= 59,
        ensures
            r == (TimeBuilder { seconds, ..self }),
    {
        TimeBuilder { seconds, ..self }
    }

    /// Sets the nanoseconds component; at most 999,999,999.
    pub fn nanoseconds(self, nanoseconds: u32) -> (r: TimeBuilder)
        requires
            nanoseconds <= 999_999_999,
        ensures
            r == (TimeBuilder { nanoseconds, ..self }),
    {
        TimeBuilder { nanoseconds, ..self }
    }

    /// Returns the time the builder describes, in the canonical encoding.
    pub fn build(self) -> (r: Time)
        requires
            builder_wf(self),
            builder_in_range(self),
        ensures
            r.inv(),
            r.nanos_value() == builder_value(self),
            r == from_nanos(builder_value(self)),
    {
        let secs: u64 = self.hours * 3600 + (self.minutes as u64) * 60 + (self.seconds as u64);
        let mut seconds: i64 = secs as i64;
        let mut nanoseconds: u32 = self.nanoseconds;
        if self.negative && (seconds != 0 || nanoseconds != 0) {
            seconds = -seconds - 1;
            nanoseconds = NANOS_PER_SECOND - nanoseconds;
        }
        let r = Time { seconds, nanoseconds };
        proof {
            assert(in_range(builder_value(self)));
            lemma_from_nanos(builder_value(self));
            lemma_value_unique(r, from_nanos(builder_value(self)));
        }
        r
    }
}

impl Time {
    /// Returns the total (biased) seconds of the time.
    pub fn total_seconds(self) -> (r: i64)
        ensures
            r == self.spec_seconds(),
    {
        self.seconds
    }

    /// Returns the nanoseconds offset of the time.
    pub fn nanoseconds_offset(self) -> (r: u32)
        ensures
            r == self.spec_nanos(),
    {
        self.nanoseconds
    }

    /// The magnitude of the time, in nanoseconds.
    pub open spec fn mag(self) -> int {
        if self.nanos_value() >= 0 {
            self.nanos_value()
        } else {
            -self.nanos_value()
        }
    }

    /// The magnitude of the time, in whole seconds.
    pub open spec fn whole_seconds_mag(self) -> int {
        self.mag() / 1_000_000_000
    }

    /// The hours component (always non-negative).
    pub open spec fn spec_hours(self) -> int {
        self.whole_seconds_mag() / 3600
    }

    /// The minutes component (always non-negative).
    pub open spec fn spec_minutes(self) -> int {
        (self.whole_seconds_mag() % 3600) / 60
    }

    /// The seconds component (always non-negative).
    pub open spec fn spec_seconds_comp(self) -> int {
        self.whole_seconds_mag() % 60
    }

    /// The nanoseconds component (always non-negative).
    pub open spec fn spec_nanos_comp(self) -> int {
        self.mag() % 1_000_000_000
    }
}

/// How the stored fields decompose into magnitude components.
pub proof fn lemma_decompose(t: Time)
    requires
        t.inv(),
    ensures
        t.spec_seconds() >= 0 ==> t.whole_seconds_mag() == t.spec_seconds()
            && t.spec_nanos_comp() == t.spec_nanos(),
        t.spec_seconds() < 0 ==> t.whole_seconds_mag() == -t.spec_seconds() - 1
            && t.spec_nanos_comp() == 1_000_000_000 - t.spec_nanos(),
{
    if t.spec_seconds() >= 0 {
        lemma_fundamental_div_mod_converse(
            t.mag(),
            1_000_000_000,
            t.spec_seconds() as int,
            t.spec_nanos() as int,
        );
    } else {
        lemma_fundamental_div_mod_converse(
            t.mag(),
            1_000_000_000,
            -t.spec_seconds() - 1,
            1_000_000_000 - t.spec_nanos(),
        );
    }
}

impl Time {
    /// Returns a number representing the sign of the time: `0` if it is
    /// zero, `1` if positive, `-1` if negative.
    pub fn signum(self) -> (r: i64)
        requires
            self.inv(),
        ensures
            r == 1 <==> self.nanos_value() > 0,
            r == 0 <==> self.nanos_value() == 0,
            r == -1 <==> self.nanos_value() < 0,
    {
        if self.seconds == 0 {
            if self.nanoseconds == 0 {
                0
            } else {
                1
            }
        } else if self.seconds > 0 {
            1
        } else {
            -1
        }
    }

    /// Returns the magnitude of the time in whole seconds, as used by the
    /// component accessors.
    fn whole_seconds(self) -> (r: u64)
        requires
            self.inv(),
        ensures
            r == self.whole_seconds_mag(),
    {
        proof {
            lemma_decompose(self);
        }
        if self.seconds < 0 {
            let adjusted: i64 = self.seconds + 1;
            (-adjusted) as u64
        } else {
            self.seconds as u64
        }
    }

    /// Returns the hours component of the time.
    pub fn hours(self) -> (r: u64)
        requires
            self.inv(),
        ensures
            r == self.spec_hours(),
    {
        self.whole_seconds() / (SECONDS_PER_HOUR as u64)
    }

    /// Returns the minutes component of the time.
    pub fn minutes(self) -> (r: u8)
        requires
            self.inv(),
        ensures
            r == self.spec_minutes(),
    {
        let m: u64 = (self.whole_seconds() % (SECONDS_PER_HOUR as u64)) / (SECONDS_PER_MINUTE
            as u64);
        proof {
            assert(m < 60) by (nonlinear_arith)
                requires
                    m == (self.whole_seconds_mag() % 3600) / 60,
                    0 <= self.whole_seconds_mag() % 3600 < 3600,
            ;
        }
        m as u8
    }

    /// Returns the seconds component of the time.
    pub fn seconds(self) -> (r: u8)
        requires
            self.inv(),
        ensures
            r == self.spec_seconds_comp(),
    {
        let s: u64 = self.whole_seconds() % (SECONDS_PER_MINUTE as u64);
        s as u8
    }

    /// Returns the nanoseconds component of the time.
    pub fn nanoseconds(self) -> (r: u32)
        requires
            self.inv(),
        ensures
            r == self.spec_nanos_comp(),
    {
        proof {
            lemma_decompose(self);
        }
        if self.seconds < 0 {
            NANOS_PER_SECOND - self.nanoseconds
        } else {
            self.nanoseconds
        }
    }

    /// The exact negation; always representable.
    pub fn neg(self) -> (r: Time)
        requires
            self.inv(),
        ensures
            r.inv(),
            r.nanos_value() == -self.nanos_value(),
            r == from_nanos(-self.nanos_value()),
    {
        let r = if self.seconds == 0 && self.nanoseconds == 0 {
            self
        } else if self.seconds >= 0 {
            Time { seconds: -self.seconds - 1, nanoseconds: 1_000_000_000 - self.nanoseconds }
        } else {
            Time { seconds: -(self.seconds + 1), nanoseconds: 1_000_000_000 - self.nanoseconds }
        };
        proof {
            assert(in_range(-self.nanos_value()));
            lemma_from_nanos(-self.nanos_value());
            lemma_value_unique(r, from_nanos(-self.nanos_value()));
        }
        r
    }
}


/// The decimal-seconds value of a time: its nanosecond count at scale 9.
pub open spec fn spec_to_decimal(t: Time) -> Decimal {
    from_parts(t.nanos_value() as i128, 9)
}

/// The nanosecond count a decimal stands for, rounded to a whole number of
/// nanoseconds with halves away from zero.
pub open spec fn dec_nanos(d: Decimal) -> int {
    round_half_away(d.value28(), pow10(19))
}

impl Time {
    /// The time as an exact decimal number of seconds.
    pub fn to_decimal(self) -> (r: Decimal)
        requires
            self.inv(),
        ensures
            r == spec_to_decimal(self),
            r.valid(),
            r.spec_mantissa() == self.nanos_value(),
            r.spec_scale() == 9,
            r.value28() == self.nanos_value() * pow10(19),
    {
        proof {
            broadcast use lemma_from_parts;

        }
        let m: i128 = (self.seconds as i128) * 1_000_000_000 + (self.nanoseconds as i128);
        Decimal::from_i128_with_scale(m, 9)
    }

    /// The time closest to the given decimal number of seconds (halves away
    /// from zero), or `None` if it falls outside the representable range.
    pub fn try_from_decimal(d: &Decimal) -> (r: Option<Time>)
        requires
            d.valid(),
        ensures
            r is Some <==> in_range(dec_nanos(*d)),
            r matches Some(t) ==> t == from_nanos(dec_nanos(*d)) && t.inv() && t.nanos_value()
                == dec_nanos(*d),
    {
        proof {
            broadcast use lemma_from_parts;

            lemma_pow10_values();
        }
        let m: i128 = d.mantissa();
        let s: u32 = d.scale();
        let n9: i128 = if s <= 9 {
            let p: i128 = pow10_u128(9 - s) as i128;
            proof {
                let e: nat = (9 - s) as nat;
                vstd::arithmetic::power::lemma_pow_increases(10, e, 9);
                assert(-(MANTISSA_LIMIT as int) * pow10(9) < m * p < MANTISSA_LIMIT as int * pow10(
                    9,
                )) by (nonlinear_arith)
                    requires
                        -(MANTISSA_LIMIT as int) < m < MANTISSA_LIMIT as int,
                        1 <= p <= pow10(9),
                        pow10(9) > 0,
                ;
                assert(m * p * pow10(19) == m * pow10((28 - s) as nat)) by {
                    lemma_pow_adds(10, e, 19);
                    vstd::arithmetic::mul::lemma_mul_is_associative(m as int, pow10(e), pow10(19));
                }
                crate::dec::lemma_pow10_even(19);
                crate::dec::lemma_round_exact(m * p, pow10(19));
            }
            m * p
        } else {
            let e: u32 = s - 9;
            let dv: u128 = pow10_u128(e);
            proof {
                vstd::arithmetic::power::lemma_pow_increases(10, 1, e as nat);
                assert(pow10(1) == 10) by {
                    lemma_pow10_step(0);
                    vstd::arithmetic::power::lemma_pow0(10);
                }
            }
            let neg: bool = m < 0;
            let mag: u128 = if neg {
                (-m) as u128
            } else {
                m as u128
            };
            let q: u128 = (mag + dv / 2) / dv;
            proof {
                assert(q < MANTISSA_LIMIT) by (nonlinear_arith)
                    requires
                        dv >= 10,
                        mag < MANTISSA_LIMIT,
                        q == (mag + dv / 2) as int / dv as int,
                ;
                // the rounded mantissa equals the rounded `10^28` value
                crate::dec::lemma_pow10_even(e as nat);
                lemma_pow10_pos((28 - s) as nat);
                crate::dec::lemma_round_scale(m as int, pow10(e as nat), pow10((28 - s) as nat));
                assert(m * pow10((28 - s) as nat) == d.value28());
                assert(pow10(e as nat) * pow10((28 - s) as nat) == pow10(19)) by {
                    lemma_pow_adds(10, e as nat, (28 - s) as nat);
                }
            }
            if neg {
                -(q as i128)
            } else {
                q as i128
            }
        };
        proof {
            assert(n9 == dec_nanos(*d));
        }
        let neg9: bool = n9 < 0;
        let mag9: u128 = if neg9 {
            (-n9) as u128
        } else {
            n9 as u128
        };
        if mag9 > MAX_NANOS {
            None
        } else {
            proof {
                lemma_from_nanos(n9 as int);
            }
            let q: u64 = (mag9 / 1_000_000_000) as u64;
            let rem: u32 = (mag9 % 1_000_000_000) as u32;
            let t = if !neg9 {
                Time { seconds: q as i64, nanoseconds: rem }
            } else {
                Time { seconds: -(q as i64) - 1, nanoseconds: 1_000_000_000 - rem }
            };
            proof {
                lemma_value_unique(t, from_nanos(n9 as int));
            }
            Some(t)
        }
    }
}


/// Addition and subtraction are exact on decimal-seconds values: both
/// operands sit at scale 9 and their aligned sum always fits 96 bits.
proof fn lemma_sum_exact(a: Time, b: Time)
    requires
        a.inv(),
        b.inv(),
    ensures
        fits_mantissa(aligned_sum(spec_to_decimal(a), spec_to_decimal(b))),
        fits_mantissa(aligned_diff(spec_to_decimal(a), spec_to_decimal(b))),
        aligned_sum(spec_to_decimal(a), spec_to_decimal(b)) == a.nanos_value() + b.nanos_value(),
        aligned_diff(spec_to_decimal(a), spec_to_decimal(b)) == a.nanos_value() - b.nanos_value(),
{
    broadcast use lemma_from_parts;

    let da = spec_to_decimal(a);
    let db = spec_to_decimal(b);
    assert(pow10(0) == 1) by {
        vstd::arithmetic::power::lemma_pow0(10);
    }
    assert(da.spec_mantissa() * pow10(0) == da.spec_mantissa());
    assert(db.spec_mantissa() * pow10(0) == db.spec_mantissa());
}

/// The rounded nanosecond count of an exact decimal-seconds sum.
proof fn lemma_sum_nanos(d: Decimal, v: int)
    requires
        d.value28() == v * pow10(19),
    ensures
        dec_nanos(d) == v,
{
    lemma_pow10_even(19);
    lemma_pow10_values();
    crate::dec::lemma_round_exact(v, pow10(19));
}

impl Time {
    /// The sum of two times, or `None` if it falls outside the range.
    pub fn checked_add(&self, other: &Time) -> (r: Option<Time>)
        requires
            self.inv(),
            other.inv(),
        ensures
            r is Some <==> in_range(self.nanos_value() + other.nanos_value()),
            r matches Some(t) ==> t == from_nanos(self.nanos_value() + other.nanos_value()),
            r matches Some(t) ==> t.inv() && t.nanos_value() == self.nanos_value()
                + other.nanos_value(),
    {
        proof {
            lemma_sum_exact(*self, *other);
        }
        let da = self.to_decimal();
        let db = other.to_decimal();
        match da.checked_add(&db) {
            Some(d) => {
                proof {
                    let v = self.nanos_value() + other.nanos_value();
                    assert(d.value28() == v * pow10(19)) by {
                        lemma_mul_is_distributive_add_other_way(
                            pow10(19),
                            self.nanos_value(),
                            other.nanos_value(),
                        );
                        lemma_mul_is_commutative(v, pow10(19));
                        lemma_mul_is_commutative(self.nanos_value(), pow10(19));
                        lemma_mul_is_commutative(other.nanos_value(), pow10(19));
                    }
                    lemma_sum_nanos(d, v);
                }
                Time::try_from_decimal(&d)
            },
            None => {
                proof {
                    assert(false);
                }
                None
            },
        }
    }

    /// The difference of two times, or `None` if it falls outside the range.
    pub fn checked_sub(&self, other: &Time) -> (r: Option<Time>)
        requires
            self.inv(),
            other.inv(),
        ensures
            r is Some <==> in_range(self.nanos_value() - other.nanos_value()),
            r matches Some(t) ==> t == from_nanos(self.nanos_value() - other.nanos_value()),
            r matches Some(t) ==> t.inv() && t.nanos_value() == self.nanos_value()
                - other.nanos_value(),
    {
        proof {
            lemma_sum_exact(*self, *other);
        }
        let da = self.to_decimal();
        let db = other.to_decimal();
        match da.checked_sub(&db) {
            Some(d) => {
                proof {
                    let v = self.nanos_value() - other.nanos_value();
                    assert(d.value28() == v * pow10(19)) by {
                        vstd::arithmetic::mul::lemma_mul_is_distributive_sub_other_way(
                            pow10(19),
                            self.nanos_value(),
                            other.nanos_value(),
                        );
                        lemma_mul_is_commutative(v, pow10(19));
                        lemma_mul_is_commutative(self.nanos_value(), pow10(19));
                        lemma_mul_is_commutative(other.nanos_value(), pow10(19));
                    }
                    lemma_sum_nanos(d, v);
                }
                Time::try_from_decimal(&d)
            },
            None => {
                proof {
                    assert(false);
                }
                None
            },
        }
    }

    /// The sum of two representable times (the caller guarantees the result
    /// stays in range, as the builder's limits do for clock arithmetic).
    pub fn add(&self, other: &Time) -> (r: Time)
        requires
            self.inv(),
            other.inv(),
            in_range(self.nanos_value() + other.nanos_value()),
        ensures
            r.inv(),
            r.nanos_value() == self.nanos_value() + other.nanos_value(),
            r == from_nanos(self.nanos_value() + other.nanos_value()),
    {
        match self.checked_add(other) {
            Some(t) => t,
            None => {
                proof {
                    assert(false);
                }
                Time { seconds: 0, nanoseconds: 0 }
            },
        }
    }

    /// The difference of two representable times, staying in range.
    pub fn sub(&self, other: &Time) -> (r: Time)
        requires
            self.inv(),
            other.inv(),
            in_range(self.nanos_value() - other.nanos_value()),
        ensures
            r.inv(),
            r.nanos_value() == self.nanos_value() - other.nanos_value(),
            r == from_nanos(self.nanos_value() - other.nanos_value()),
    {
        match self.checked_sub(other) {
            Some(t) => t,
            None => {
                proof {
                    assert(false);
                }
                Time { seconds: 0, nanoseconds: 0 }
            },
        }
    }

    /// The ratio of two times as a decimal number, computed by
    /// `rust_decimal` on the exact decimal-seconds values; `None` only on
    /// overflow.  Dividing zero by any non-zero time gives exactly zero.
    pub fn div(&self, other: &Time) -> (r: Option<Decimal>)
        requires
            self.inv(),
            other.inv(),
            other.nanos_value() != 0,
        ensures
            r == spec_div(spec_to_decimal(*self), spec_to_decimal(*other)),
            r matches Some(d) ==> d.valid(),
            self.nanos_value() == 0 ==> r is Some,
            r matches Some(d) ==> (self.nanos_value() == 0 ==> d.value28() == 0),
            crate::dec::divides_exactly(spec_to_decimal(*self), spec_to_decimal(*other)) ==> r
                is Some,
            r matches Some(d) ==> (crate::dec::divides_exactly(
                spec_to_decimal(*self),
                spec_to_decimal(*other),
            ) ==> d.value28() == crate::dec::exact_quotient28(
                spec_to_decimal(*self),
                spec_to_decimal(*other),
            )),
    {
        let da = self.to_decimal();
        let db = other.to_decimal();
        let r = da.checked_div(&db);
        proof {
            broadcast use lemma_from_parts;

            crate::dec::lemma_opt_parts_inj(
                r,
                spec_div(spec_to_decimal(*self), spec_to_decimal(*other)),
            );
        }
        r
    }

    /// The time scaled by a decimal factor, rounded to whole nanoseconds;
    /// `None` if the product overflows either `rust_decimal` or the time
    /// range.
    pub fn mul_decimal(&self, n: &Decimal) -> (r: Option<Time>)
        requires
            self.inv(),
            n.valid(),
        ensures
            r == spec_mul_time_dec(*self, *n),
            r matches Some(t) ==> t.inv(),
    {
        let da = self.to_decimal();
        match da.checked_mul(n) {
            Some(d) => {
                proof {
                    broadcast use lemma_from_parts;

                    crate::dec::lemma_opt_parts_inj(
                        Some(d),
                        spec_mul(spec_to_decimal(*self), *n),
                    );
                }
                Time::try_from_decimal(&d)
            },
            None => {
                proof {
                    broadcast use lemma_from_parts;

                    crate::dec::lemma_opt_parts_inj(
                        None::<Decimal>,
                        spec_mul(spec_to_decimal(*self), *n),
                    );
                }
                None
            },
        }
    }

    /// The time divided by a non-zero decimal factor, rounded to whole
    /// nanoseconds; `None` if the quotient overflows.
    pub fn div_decimal(&self, n: &Decimal) -> (r: Option<Time>)
        requires
            self.inv(),
            n.valid(),
            n.value28() != 0,
        ensures
            r == spec_div_time_dec(*self, *n),
            r matches Some(t) ==> t.inv(),
    {
        proof {
            crate::dec::lemma_value28_zero(*n);
        }
        let da = self.to_decimal();
        match da.checked_div(n) {
            Some(d) => {
                proof {
                    broadcast use lemma_from_parts;

                    crate::dec::lemma_opt_parts_inj(
                        Some(d),
                        spec_div(spec_to_decimal(*self), *n),
                    );
                }
                Time::try_from_decimal(&d)
            },
            None => {
                proof {
                    broadcast use lemma_from_parts;

                    crate::dec::lemma_opt_parts_inj(
                        None::<Decimal>,
                        spec_div(spec_to_decimal(*self), *n),
                    );
                }
                None
            },
        }
    }
}

/// The time a decimal multiplication of a time produces, when it stays
/// representable.
pub open spec fn spec_mul_time_dec(t: Time, n: Decimal) -> Option<Time> {
    match spec_mul(spec_to_decimal(t), n) {
        Some(d) => if in_range(dec_nanos(d)) {
            Some(from_nanos(dec_nanos(d)))
        } else {
            None
        },
        None => None,
    }
}

/// The time a decimal division of a time produces, when it stays
/// representable.
pub open spec fn spec_div_time_dec(t: Time, n: Decimal) -> Option<Time> {
    match spec_div(spec_to_decimal(t), n) {
        Some(d) => if in_range(dec_nanos(d)) {
            Some(from_nanos(dec_nanos(d)))
        } else {
            None
        },
        None => None,
    }
}


/// The character for one decimal digit.
pub open spec fn digit_char_of(d: int) -> char {
    if d == 0 {
        '0'
    } else if d == 1 {
        '1'
    } else if d == 2 {
        '2'
    } else if d == 3 {
        '3'
    } else if d == 4 {
        '4'
    } else if d == 5 {
        '5'
    } else if d == 6 {
        '6'
    } else if d == 7 {
        '7'
    } else if d == 8 {
        '8'
    } else {
        '9'
    }
}

/// The decimal digits of a non-negative number, most significant first.
pub open spec fn spec_digits(n: int) -> Seq<char>
    recommends
        n >= 0,
    decreases n,
    via spec_digits_decreases
{
    if n < 10 {
        seq![digit_char_of(n)]
    } else {
        spec_digits(n / 10).push(digit_char_of(n % 10))
    }
}

#[via_fn]
proof fn spec_digits_decreases(n: int) {
    if n >= 10 {
        vstd::arithmetic::div_mod::lemma_div_is_strictly_smaller(n, 10);
        vstd::arithmetic::div_mod::lemma_div_pos_is_pos(n, 10);
    }
}

/// The number written with two digits, the first a zero if needed.
pub open spec fn pad2(n: int) -> Seq<char>
    recommends
        0 <= n <= 99,
{
    if n < 10 {
        seq!['0'] + spec_digits(n)
    } else {
        spec_digits(n)
    }
}

/// A run of zero characters.
pub open spec fn zero_seq(k: nat) -> Seq<char> {
    Seq::new(k, |i: int| '0')
}

/// The number written with nine digits, padded with leading zeros.
pub open spec fn pad9(n: int) -> Seq<char>
    recommends
        0 <= n <= 999_999_999,
{
    zero_seq((9 - spec_digits(n).len()) as nat) + spec_digits(n)
}

/// The text with its trailing zero characters removed.
pub open spec fn strip_zeros(s: Seq<char>) -> Seq<char>
    decreases s.len(),
{
    if s.len() > 0 && s.last() == '0' {
        strip_zeros(s.drop_last())
    } else {
        s
    }
}

/// How a time is written: sign, then hours (only if non-zero), then
/// minutes and seconds (two digits each when hours or minutes are present,
/// else bare seconds), then the non-zero fraction with trailing zeros
/// stripped, and an `s` marker when neither hours nor minutes appear.
pub open spec fn spec_display(t: Time) -> Seq<char>
    recommends
        t.inv(),
{
    let sign: Seq<char> = if t.nanos_value() < 0 {
        seq!['-']
    } else {
        Seq::empty()
    };
    let h = t.spec_hours();
    let m = t.spec_minutes();
    let s = t.spec_seconds_comp();
    let ns = t.spec_nanos_comp();
    let hours_part: Seq<char> = if h > 0 {
        spec_digits(h) + seq![':']
    } else {
        Seq::empty()
    };
    let ms_part: Seq<char> = if h > 0 || m > 0 {
        pad2(m) + seq![':'] + pad2(s)
    } else {
        spec_digits(s)
    };
    let frac_part: Seq<char> = if ns > 0 {
        seq!['.'] + strip_zeros(pad9(ns))
    } else {
        Seq::empty()
    };
    let s_part: Seq<char> = if h == 0 && m == 0 {
        seq!['s']
    } else {
        Seq::empty()
    };
    sign + hours_part + ms_part + frac_part + s_part
}

/// Appends one character to a string.
///
/// Relies on `String::push`: the character is appended at the end.
#[verifier::external_body]
fn push_char(s: &mut String, c: char)
    ensures
        final(s)@ == old(s)@.push(c),
{
    s.push(c);
}

/// The character for one decimal digit.
fn digit_char(d: u64) -> (c: char)
    requires
        d <= 9,
    ensures
        c == digit_char_of(d as int),
{
    if d == 0 {
        '0'
    } else if d == 1 {
        '1'
    } else if d == 2 {
        '2'
    } else if d == 3 {
        '3'
    } else if d == 4 {
        '4'
    } else if d == 5 {
        '5'
    } else if d == 6 {
        '6'
    } else if d == 7 {
        '7'
    } else if d == 8 {
        '8'
    } else {
        '9'
    }
}

/// Appends the decimal digits of a number to a string.
fn push_digits(s: &mut String, n: u64)
    ensures
        final(s)@ == old(s)@ + spec_digits(n as int),
    decreases n,
{
    if n < 10 {
        push_char(s, digit_char(n));
        proof {
            assert(old(s)@.push(digit_char_of(n as int)) =~= old(s)@ + spec_digits(n as int));
        }
    } else {
        let ghost mid = old(s)@ + spec_digits(n as int / 10);
        push_digits(s, n / 10);
        push_char(s, digit_char(n % 10));
        proof {
            assert(mid.push(digit_char_of(n as int % 10)) =~= old(s)@ + spec_digits(n as int));
        }
    }
}

/// Appends a number as exactly two digits.
fn push_pad2(s: &mut String, n: u64)
    requires
        n <= 99,
    ensures
        final(s)@ == old(s)@ + pad2(n as int),
{
    if n < 10 {
        push_char(s, '0');
        push_digits(s, n);
        proof {
            assert(old(s)@.push('0') + spec_digits(n as int) =~= old(s)@ + pad2(n as int));
        }
    } else {
        push_digits(s, n);
    }
}

/// The decimal digits of a number, as characters.
fn digits_vec(n: u64) -> (r: Vec<char>)
    ensures
        r@ == spec_digits(n as int),
        r@.len() >= 1,
{
    let mut v: Vec<char> = Vec::new();
    digits_vec_rec(&mut v, n);
    v
}

fn digits_vec_rec(v: &mut Vec<char>, n: u64)
    ensures
        final(v)@ == old(v)@ + spec_digits(n as int),
    decreases n,
{
    if n < 10 {
        v.push(digit_char(n));
        proof {
            assert(old(v)@.push(digit_char_of(n as int)) =~= old(v)@ + spec_digits(n as int));
        }
    } else {
        let ghost mid = old(v)@ + spec_digits(n as int / 10);
        digits_vec_rec(v, n / 10);
        v.push(digit_char(n % 10));
        proof {
            assert(mid.push(digit_char_of(n as int % 10)) =~= old(v)@ + spec_digits(n as int));
        }
    }
}

/// A number below `10^k` is written with at most `k` digits (`k >= 1`).
pub proof fn lemma_spec_digits_len(n: int, k: nat)
    requires
        0 <= n,
        k >= 1,
        n < pow10(k),
    ensures
        1 <= spec_digits(n).len() <= k,
    decreases n,
{
    lemma_pow10_values();
    if n < 10 {
    } else {
        lemma_pow10_step((k - 1) as nat);
        vstd::arithmetic::div_mod::lemma_div_is_strictly_smaller(n, 10);
        vstd::arithmetic::div_mod::lemma_div_pos_is_pos(n, 10);
        assert(n / 10 < pow10((k - 1) as nat)) by {
            vstd::arithmetic::div_mod::lemma_fundamental_div_mod(n, 10);
            assert(10 * pow10((k - 1) as nat) == pow10((k - 1) as nat) * 10) by (nonlinear_arith);
            assert(n / 10 < pow10((k - 1) as nat)) by (nonlinear_arith)
                requires
                    n == 10 * (n / 10) + n % 10,
                    0 <= n % 10 < 10,
                    n < 10 * pow10((k - 1) as nat),
            ;
        }
        assert(k - 1 >= 1) by {
            if k == 1 {
                assert(n < pow10(1));
            }
        }
        lemma_spec_digits_len(n / 10, (k - 1) as nat);
    }
}


/// Appends the non-zero fraction: a point, then the nine-digit nanosecond
/// value with its trailing zeros stripped.
fn push_fraction(out: &mut String, ns: u32)
    requires
        1 <= ns <= 999_999_999,
    ensures
        final(out)@ == old(out)@ + seq!['.'] + strip_zeros(pad9(ns as int)),
{
    push_char(out, '.');
    let digits = digits_vec(ns as u64);
    proof {
        lemma_pow10_values();
        lemma_spec_digits_len(ns as int, 9);
    }
    let mut padded: Vec<char> = Vec::new();
    let pad_count: usize = 9 - digits.len();
    let mut z: usize = 0;
    while z < pad_count
        invariant
            z <= pad_count,
            padded@ =~= zero_seq(z as nat),
        decreases pad_count - z,
    {
        padded.push('0');
        proof {
            assert(padded@ =~= zero_seq(z as nat + 1));
        }
        z = z + 1;
    }
    let mut di: usize = 0;
    while di < digits.len()
        invariant
            di <= digits@.len(),
            digits@ == spec_digits(ns as int),
            pad_count == 9 - digits@.len(),
            padded@ =~= zero_seq(pad_count as nat) + digits@.take(di as int),
        decreases digits@.len() - di,
    {
        padded.push(digits[di]);
        proof {
            assert(padded@ =~= zero_seq(pad_count as nat) + digits@.take(di as int + 1));
        }
        di = di + 1;
    }
    proof {
        assert(digits@.take(digits@.len() as int) =~= digits@);
        assert(padded@ =~= pad9(ns as int));
    }
    let ghost padded0 = padded@;
    while padded.len() > 0 && padded[padded.len() - 1] == '0'
        invariant
            strip_zeros(padded0) == strip_zeros(padded@),
        decreases padded@.len(),
    {
        padded.pop();
    }
    proof {
        assert(strip_zeros(padded@) == padded@);
    }
    let mut pi: usize = 0;
    let ghost before = out@;
    while pi < padded.len()
        invariant
            pi <= padded@.len(),
            out@ =~= before + padded@.take(pi as int),
        decreases padded@.len() - pi,
    {
        push_char(out, padded[pi]);
        proof {
            assert(out@ =~= before + padded@.take(pi as int + 1));
        }
        pi = pi + 1;
    }
    proof {
        assert(padded@.take(padded@.len() as int) =~= padded@);
        assert(out@ =~= old(out)@ + seq!['.'] + strip_zeros(pad9(ns as int)));
    }
}

impl Time {
    /// The time written out, as the module documentation describes.
    pub fn to_text(&self) -> (r: String)
        requires
            self.inv(),
        ensures
            r@ == spec_display(*self),
    {
        let mut out = String::new();
        let h = self.hours();
        let m = self.minutes();
        let s = self.seconds();
        let ns = self.nanoseconds();
        let ghost sign: Seq<char> = if self.nanos_value() < 0 {
            seq!['-']
        } else {
            Seq::empty()
        };
        let ghost hours_part: Seq<char> = if h > 0 {
            spec_digits(h as int) + seq![':']
        } else {
            Seq::empty()
        };
        let ghost ms_part: Seq<char> = if h > 0 || m > 0 {
            pad2(m as int) + seq![':'] + pad2(s as int)
        } else {
            spec_digits(s as int)
        };
        let ghost frac_part: Seq<char> = if ns > 0 {
            seq!['.'] + strip_zeros(pad9(ns as int))
        } else {
            Seq::empty()
        };
        if self.signum() == -1 {
            push_char(&mut out, '-');
        }
        proof {
            assert(out@ =~= sign);
        }
        if h > 0 {
            push_digits(&mut out, h);
            push_char(&mut out, ':');
        }
        proof {
            assert(out@ =~= sign + hours_part);
        }
        if h > 0 || m > 0 {
            push_pad2(&mut out, m as u64);
            push_char(&mut out, ':');
            push_pad2(&mut out, s as u64);
        } else {
            push_digits(&mut out, s as u64);
        }
        proof {
            assert(out@ =~= sign + hours_part + ms_part);
        }
        if ns > 0 {
            push_fraction(&mut out, ns);
        }
        proof {
            assert(out@ =~= sign + hours_part + ms_part + frac_part);
        }
        if h == 0 && m == 0 {
            push_char(&mut out, 's');
        }
        proof {
            assert(out@ =~= spec_display(*self));
        }
        out
    }
}


/// The clock components compose back into the whole-second magnitude:
/// `seconds + 60 * minutes + 3600 * hours` is the magnitude in whole
/// seconds, for every well-formed time.
pub proof fn lemma_components_compose(t: Time)
    requires
        t.inv(),
    ensures
        t.spec_seconds_comp() + 60 * t.spec_minutes() + 3600 * t.spec_hours()
            == t.whole_seconds_mag(),
{
    let w = t.whole_seconds_mag();
    lemma_fundamental_div_mod(t.mag(), 1_000_000_000);
    vstd::arithmetic::div_mod::lemma_div_pos_is_pos(t.mag(), 1_000_000_000);
    lemma_fundamental_div_mod(w, 3600);
    lemma_fundamental_div_mod(w % 3600, 60);
    assert((w % (60int * 60int)) % 60int == w % 60int) by {
        vstd::arithmetic::div_mod::lemma_mod_mod(w, 60, 60);
    }
}

/// Zero has no distinct negative representation: a builder with all
/// components zero builds the same time whether or not it is marked
/// negative.
pub proof fn lemma_negative_zero(b: TimeBuilder)
    requires
        b.hours == 0,
        b.minutes == 0,
        b.seconds == 0,
        b.nanoseconds == 0,
    ensures
        from_nanos(builder_value(b)) == from_nanos(
            builder_value(TimeBuilder { negative: false, ..b }),
        ),
{
}

/// `a - a` is exactly the zero time, for every representable time `a`.
pub proof fn lemma_sub_self_is_zero(a: Time)
    requires
        a.inv(),
    ensures
        in_range(a.nanos_value() - a.nanos_value()),
        from_nanos(a.nanos_value() - a.nanos_value()) == from_nanos(0),
        from_nanos(0).nanos_value() == 0,
{
    lemma_from_nanos(0);
}

/// `a + (-a)` is exactly the zero time, for every representable time `a`.
pub proof fn lemma_add_neg_is_zero(a: Time)
    requires
        a.inv(),
    ensures
        in_range(-a.nanos_value()),
        in_range(a.nanos_value() + (-a.nanos_value())),
        from_nanos(a.nanos_value() + (-a.nanos_value())) == from_nanos(0),
{
    lemma_from_nanos(0);
}


/// The written digits of a number are digit characters, at least one.
pub proof fn lemma_spec_digits_wf(n: int)
    requires
        n >= 0,
    ensures
        crate::dec::all_digits(spec_digits(n)),
        spec_digits(n).len() >= 1,
        n < 10 ==> spec_digits(n).len() == 1,
        n >= 10 ==> spec_digits(n).len() >= 2,
    decreases n,
{
    if n < 10 {
        assert(crate::dec::is_digit_char(digit_char_of(n)));
    } else {
        vstd::arithmetic::div_mod::lemma_div_is_strictly_smaller(n, 10);
        vstd::arithmetic::div_mod::lemma_div_pos_is_pos(n, 10);
        lemma_spec_digits_wf(n / 10);
        assert(crate::dec::is_digit_char(digit_char_of(n % 10)));
        assert(crate::dec::all_digits(spec_digits(n))) by {
            let d = spec_digits(n / 10);
            assert(forall|i: int|
                0 <= i < d.len() ==> #[trigger] spec_digits(n)[i] == d[i]);
            assert(spec_digits(n).last() == digit_char_of(n % 10));
        }
    }
}

/// Reading the written digits of a number gives the number back.
pub proof fn lemma_spec_digits_value(n: int)
    requires
        n >= 0,
    ensures
        crate::dec::digits_value(spec_digits(n)) == n,
    decreases n,
{
    if n < 10 {
        assert(crate::dec::digit_char_val(digit_char_of(n)) == n);
        assert(spec_digits(n) =~= seq![digit_char_of(n)]);
        assert(spec_digits(n).drop_last() =~= Seq::<char>::empty());
        assert(spec_digits(n).last() == digit_char_of(n));
        assert(crate::dec::digits_value(spec_digits(n)) == crate::dec::digits_value(
            spec_digits(n).drop_last(),
        ) * 10 + crate::dec::digit_char_val(spec_digits(n).last()));
    } else {
        vstd::arithmetic::div_mod::lemma_div_is_strictly_smaller(n, 10);
        vstd::arithmetic::div_mod::lemma_div_pos_is_pos(n, 10);
        lemma_spec_digits_value(n / 10);
        assert(spec_digits(n).drop_last() =~= spec_digits(n / 10));
        assert(spec_digits(n).last() == digit_char_of(n % 10));
        assert(crate::dec::digit_char_val(digit_char_of(n % 10)) == n % 10);
        assert(crate::dec::digits_value(spec_digits(n)) == crate::dec::digits_value(
            spec_digits(n).drop_last(),
        ) * 10 + crate::dec::digit_char_val(spec_digits(n).last()));
        lemma_fundamental_div_mod(n, 10);
    }
}

/// The two-digit form is two digit characters reading back the number.
pub proof fn lemma_pad2_wf(n: int)
    requires
        0 <= n <= 99,
    ensures
        crate::dec::all_digits(pad2(n)),
        pad2(n).len() == 2,
        crate::dec::digits_value(pad2(n)) == n,
{
    lemma_spec_digits_wf(n);
    lemma_spec_digits_value(n);
    if n < 10 {
        let p = seq!['0'] + spec_digits(n);
        assert(p.len() == 2);
        assert(crate::dec::is_digit_char('0'));
        assert(crate::dec::all_digits(p)) by {
            assert(p[0] == '0');
            assert(p[1] == spec_digits(n)[0]);
        }
        assert(p.drop_last() =~= seq!['0']);
        assert(seq!['0'].drop_last() =~= Seq::<char>::empty());
        assert(crate::dec::digits_value(seq!['0']) == 0) by {
            assert(crate::dec::digits_value(Seq::<char>::empty()) == 0);
            assert(seq!['0'].drop_last() =~= Seq::<char>::empty());
            assert(seq!['0'].last() == '0');
            assert(crate::dec::digit_char_val('0') == 0);
            assert(crate::dec::digits_value(seq!['0']) == crate::dec::digits_value(
                seq!['0'].drop_last(),
            ) * 10 + crate::dec::digit_char_val(seq!['0'].last()));
        }
        assert(crate::dec::digits_value(p) == n) by {
            assert(spec_digits(n) =~= seq![digit_char_of(n)]);
            assert(p.last() == digit_char_of(n));
            assert(crate::dec::digit_char_val(digit_char_of(n)) == n);
            assert(crate::dec::digits_value(p) == crate::dec::digits_value(p.drop_last()) * 10
                + crate::dec::digit_char_val(p.last()));
        }
    } else {
        assert(spec_digits(n).len() == 2) by {
            vstd::arithmetic::div_mod::lemma_div_is_strictly_smaller(n, 10);
            vstd::arithmetic::div_mod::lemma_div_pos_is_pos(n, 10);
            assert(n / 10 < 10) by {
                vstd::arithmetic::div_mod::lemma_fundamental_div_mod(n, 10);
            }
            lemma_spec_digits_wf(n / 10);
        }
    }
}

/// A run of zero characters reads back as zero.
pub proof fn lemma_zero_seq_value(k: nat)
    ensures
        crate::dec::all_digits(zero_seq(k)),
        crate::dec::digits_value(zero_seq(k)) == 0,
    decreases k,
{
    assert(crate::dec::is_digit_char('0'));
    if k > 0 {
        lemma_zero_seq_value((k - 1) as nat);
        assert(zero_seq(k).drop_last() =~= zero_seq((k - 1) as nat));
        assert(zero_seq(k).last() == '0');
    }
}

/// Leading zero characters do not change the number read.
pub proof fn lemma_leading_zeros_value(k: nat, s: Seq<char>)
    ensures
        crate::dec::digits_value(zero_seq(k) + s) == crate::dec::digits_value(s),
    decreases s.len(),
{
    if s.len() == 0 {
        assert(zero_seq(k) + s =~= zero_seq(k));
        lemma_zero_seq_value(k);
    } else {
        lemma_leading_zeros_value(k, s.drop_last());
        assert((zero_seq(k) + s).drop_last() =~= zero_seq(k) + s.drop_last());
        assert((zero_seq(k) + s).last() == s.last());
    }
}

/// The nine-digit padded form is nine digit characters reading back the
/// number.
pub proof fn lemma_pad9_wf(n: int)
    requires
        0 <= n <= 999_999_999,
    ensures
        crate::dec::all_digits(pad9(n)),
        pad9(n).len() == 9,
        crate::dec::digits_value(pad9(n)) == n,
{
    lemma_pow10_values();
    lemma_spec_digits_wf(n);
    lemma_spec_digits_value(n);
    lemma_spec_digits_len(n, 9);
    let k = (9 - spec_digits(n).len()) as nat;
    lemma_zero_seq_value(k);
    lemma_leading_zeros_value(k, spec_digits(n));
    assert(crate::dec::all_digits(pad9(n))) by {
        assert(forall|i: int|
            0 <= i < k ==> #[trigger] pad9(n)[i] == '0');
        assert(forall|i: int|
            k <= i < 9 ==> #[trigger] pad9(n)[i] == spec_digits(n)[i - k]);
    }
}

/// Stripping trailing zeros divides the number read by the matching power
/// of ten, keeps the digits, and keeps at least one digit of a non-zero
/// number.
pub proof fn lemma_strip_zeros_value(s: Seq<char>)
    requires
        crate::dec::all_digits(s),
    ensures
        strip_zeros(s).len() <= s.len(),
        crate::dec::all_digits(strip_zeros(s)),
        crate::dec::digits_value(s) == crate::dec::digits_value(strip_zeros(s)) * pow10(
            (s.len() - strip_zeros(s).len()) as nat,
        ),
        crate::dec::digits_value(s) > 0 ==> strip_zeros(s).len() >= 1,
    decreases s.len(),
{
    if s.len() > 0 && s.last() == '0' {
        assert(crate::dec::all_digits(s.drop_last())) by {
            assert(forall|i: int|
                0 <= i < s.len() - 1 ==> #[trigger] s.drop_last()[i] == s[i]);
        }
        lemma_strip_zeros_value(s.drop_last());
        let st = strip_zeros(s);
        let e = (s.len() - 1 - st.len()) as nat;
        assert(crate::dec::digit_char_val('0') == 0);
        assert(crate::dec::digits_value(s) == crate::dec::digits_value(s.drop_last()) * 10);
        lemma_pow10_step(e);
        assert((crate::dec::digits_value(st) * pow10(e)) * 10 == crate::dec::digits_value(st) * (10
            * pow10(e))) by (nonlinear_arith);
    } else {
        vstd::arithmetic::power::lemma_pow0(10);
        assert(crate::dec::digits_value(s) * 1 == crate::dec::digits_value(s));
    }
}

} // verus!
