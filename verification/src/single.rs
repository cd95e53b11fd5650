//! IEEE 754 binary32 values held by their bit patterns.
//!
//! A finite value is `significand * 2^(scale - 150)` under its sign. The
//! arithmetic here works on significands and scales and rounds to nearest,
//! ties to even, so that its results are those of the format, bit for bit.
//! The one freedom that the format leaves is taken up as follows: every NaN
//! that an operation produces is the quiet NaN `NAN_BITS`.

use vstd::prelude::*;
use vstd::arithmetic::div_mod::lemma_fundamental_div_mod_converse;
use vstd::arithmetic::power2::{
    lemma2_to64,
    lemma_pow2_adds,
    lemma_pow2_pos,
    lemma_pow2_strictly_increases,
    lemma_pow2_unfold,
    pow2,
};
use vstd::bits::{lemma_u64_pow2_no_overflow, lemma_u64_shl_is_mul};

verus! {

/// The least significand of a normal value: two to the power 23.
pub const HIDDEN_BIT: u32 = 0x80_0000;

/// Bit pattern of positive infinity; every pattern whose magnitude is larger
/// is a NaN.
pub const INFINITY_BITS: u32 = 0x7f80_0000;

/// Bit pattern of the quiet NaN that arithmetic here produces.
pub const NAN_BITS: u32 = 0x7fc0_0000;

/// The sign bit.
pub const SIGN_BIT: u32 = 0x8000_0000;

/// A binary32 value, held by its bit pattern: one sign bit, eight bits of
/// biased exponent, twenty-three bits of fraction.
///
/// The derived `==` compares bit patterns. [`Single::equals`] is the
/// comparison of values, by which a NaN differs from itself and the two zeros
/// are equal.
#[derive(Clone, Copy, Debug, PartialEq, Eq, Structural)]
pub struct Single {
    pub bits: u32,
}

impl Single {
    /// The pattern without its sign bit.
    pub open spec fn magnitude(self) -> nat {
        (self.bits % SIGN_BIT) as nat
    }

    /// True when the sign bit is set.
    pub open spec fn is_negative(self) -> bool {
        self.bits >= SIGN_BIT
    }

    pub open spec fn is_nan(self) -> bool {
        self.magnitude() > INFINITY_BITS
    }

    pub open spec fn is_infinite(self) -> bool {
        self.magnitude() == INFINITY_BITS
    }

    pub open spec fn is_finite(self) -> bool {
        self.magnitude() < INFINITY_BITS
    }

    pub open spec fn is_zero(self) -> bool {
        self.magnitude() == 0
    }

    /// Equality of values: false when either side is a NaN, true for two
    /// zeros of either sign, and otherwise equality of the patterns.
    pub open spec fn value_eq(self, other: Single) -> bool {
        &&& !self.is_nan()
        &&& !other.is_nan()
        &&& (self.bits == other.bits || (self.is_zero() && other.is_zero()))
    }

    /// The pattern with its sign bit flipped.
    pub open spec fn negated(self) -> Single {
        if self.bits >= SIGN_BIT {
            Single { bits: (self.bits - SIGN_BIT) as u32 }
        } else {
            Single { bits: (self.bits + SIGN_BIT) as u32 }
        }
    }

    pub fn from_bits(bits: u32) -> (r: Single)
        ensures
            r.bits == bits,
    {
        Single { bits }
    }

    pub fn to_bits(self) -> (r: u32)
        ensures
            r == self.bits,
    {
        self.bits
    }

    /// Positive zero.
    pub fn zero() -> (r: Single)
        ensures
            r.bits == 0,
    {
        Single { bits: 0 }
    }

    /// The value one.
    pub fn one() -> (r: Single)
        ensures
            r.bits == 0x3f80_0000,
    {
        Single { bits: 0x3f80_0000 }
    }

    pub fn is_nan_value(self) -> (r: bool)
        ensures
            r == self.is_nan(),
    {
        self.bits % SIGN_BIT > INFINITY_BITS
    }

    /// Compares two values as IEEE 754 does.
    pub fn equals(self, other: Single) -> (r: bool)
        ensures
            r == self.value_eq(other),
    {
        let a: u32 = self.bits % SIGN_BIT;
        let b: u32 = other.bits % SIGN_BIT;
        a <= INFINITY_BITS && b <= INFINITY_BITS && (self.bits == other.bits || (a == 0 && b == 0))
    }

    /// Flips the sign, of a NaN and of a zero too.
    pub fn neg(self) -> (r: Single)
        ensures
            r == self.negated(),
    {
        if self.bits >= SIGN_BIT {
            Single { bits: self.bits - SIGN_BIT }
        } else {
            Single { bits: self.bits + SIGN_BIT }
        }
    }
}

/// The number of binary digits of a number; none for zero.
pub open spec fn bit_length(n: nat) -> nat
    decreases n,
{
    if n == 0 {
        0
    } else {
        1 + bit_length(n / 2)
    }
}

/// A number of `k` digits lies between two to the power `k - 1` and two to
/// the power `k`.
pub proof fn lemma_bit_length_bounds(n: nat)
    requires
        n > 0,
    ensures
        bit_length(n) > 0,
        pow2((bit_length(n) - 1) as nat) <= n < pow2(bit_length(n)),
    decreases n,
{
    lemma2_to64();
    if n == 1 {
        assert(bit_length(0) == 0);
        assert(bit_length(1) == 1 + bit_length(0));
    } else {
        let half = n / 2;
        lemma_bit_length_bounds(half);
        let k = bit_length(half);
        assert(bit_length(n) == 1 + k);
        lemma_pow2_unfold(k);
        lemma_pow2_unfold((k + 1) as nat);
    }
}

/// The digits of a number that lies between two to the power `k - 1` and two
/// to the power `k` are `k`.
pub proof fn lemma_bit_length_unique(n: nat, k: nat)
    requires
        k > 0,
        pow2((k - 1) as nat) <= n < pow2(k),
    ensures
        bit_length(n) == k,
{
    lemma_pow2_pos((k - 1) as nat);
    lemma_bit_length_bounds(n);
    let b = bit_length(n);
    if b < k {
        if b < k - 1 {
            lemma_pow2_strictly_increases(b, (k - 1) as nat);
        }
    } else if b > k {
        if b - 1 > k {
            lemma_pow2_strictly_increases(k, (b - 1) as nat);
        }
    }
}

/// The integer nearest to `n / d`; of two that are equally near, the even
/// one.
pub open spec fn round_half_even(n: nat, d: nat) -> nat {
    let q = n / d;
    let r = n % d;
    if 2 * r > d || (2 * r == d && q % 2 == 1) {
        q + 1
    } else {
        q
    }
}

/// The scale at which the value `n * 2^(s - 150)` is held: the one that gives
/// it a significand of 24 digits, but never less than one, the scale of the
/// subnormal values.
pub open spec fn held_scale(n: nat, s: int) -> int {
    let t = s + bit_length(n) - 24;
    if t < 1 {
        1
    } else {
        t
    }
}

/// The significand of `n * 2^(s - 150)` at scale `t`: `n * 2^(s - t)`, rounded
/// to the nearest integer, to the even one when two are equally near.
pub open spec fn scaled_round(n: nat, s: int, t: int) -> nat {
    if t <= s {
        n * pow2((s - t) as nat)
    } else {
        round_half_even(n, pow2((t - s) as nat))
    }
}

/// The pattern of a sign and a magnitude; a magnitude beyond that of
/// infinity gives infinity.
pub open spec fn pack(negative: bool, magnitude: nat) -> Single {
    let m = if magnitude >= INFINITY_BITS {
        INFINITY_BITS as nat
    } else {
        magnitude
    };
    Single {
        bits: (if negative {
            SIGN_BIT + m
        } else {
            m as int
        }) as u32,
    }
}

/// The value nearest to `n * 2^(s - 150)` with the given sign, by the rule of
/// IEEE 754 for rounding to nearest: of two values equally near the one with
/// the even significand, and infinity from the magnitude at which the format
/// overflows.
///
/// A significand `q` at scale `t` has the pattern `(t - 1) * 2^23 + q`: the
/// hidden bit of a normal value raises the exponent field from `t - 1` to `t`,
/// a significand of 2^24 raises it once more.
pub open spec fn rounded(negative: bool, n: nat, s: int) -> Single {
    if n == 0 {
        pack(negative, 0)
    } else {
        let t = held_scale(n, s);
        pack(negative, ((t - 1) * HIDDEN_BIT + scaled_round(n, s, t)) as nat)
    }
}

/// A significand with its sign.
pub open spec fn signed(negative: bool, m: nat) -> int {
    if negative {
        -(m as int)
    } else {
        m as int
    }
}

/// The sum of two finite values that are given by sign, significand and
/// scale: the exact sum, rounded. A sum of zero is positive unless both
/// terms are negative.
pub open spec fn sum_of_parts(
    a_negative: bool,
    a_significand: nat,
    a_scale: int,
    b_negative: bool,
    b_significand: nat,
    b_scale: int,
) -> Single {
    let s = if a_scale <= b_scale {
        a_scale
    } else {
        b_scale
    };
    let total = signed(a_negative, a_significand) * pow2((a_scale - s) as nat) + signed(
        b_negative,
        b_significand,
    ) * pow2((b_scale - s) as nat);
    if total == 0 {
        pack(a_negative && b_negative, 0)
    } else if total < 0 {
        rounded(true, (-total) as nat, s)
    } else {
        rounded(false, total as nat, s)
    }
}

impl Single {
    /// The eight bits of biased exponent.
    pub open spec fn exponent_field(self) -> nat {
        self.magnitude() / (HIDDEN_BIT as nat)
    }

    /// The twenty-three bits of fraction.
    pub open spec fn fraction(self) -> nat {
        self.magnitude() % (HIDDEN_BIT as nat)
    }

    /// The significand of a finite value: the fraction, with the hidden bit
    /// for a normal value.
    pub open spec fn significand(self) -> nat {
        if self.exponent_field() == 0 {
            self.fraction()
        } else {
            (HIDDEN_BIT + self.fraction()) as nat
        }
    }

    /// The scale of a finite value, which is `significand * 2^(scale - 150)`
    /// in magnitude.
    pub open spec fn scale(self) -> int {
        if self.exponent_field() == 0 {
            1
        } else {
            self.exponent_field() as int
        }
    }

    /// The sum of two values. A NaN term gives the quiet NaN, and so do
    /// infinities of opposite signs; an infinity and a finite value give the
    /// infinity.
    pub open spec fn sum(self, other: Single) -> Single {
        if self.is_nan() || other.is_nan() {
            Single { bits: NAN_BITS }
        } else if self.is_infinite() {
            if other.is_infinite() && self.is_negative() != other.is_negative() {
                Single { bits: NAN_BITS }
            } else {
                self
            }
        } else if other.is_infinite() {
            other
        } else {
            sum_of_parts(
                self.is_negative(),
                self.significand(),
                self.scale(),
                other.is_negative(),
                other.significand(),
                other.scale(),
            )
        }
    }

    /// The difference of two values: the sum of the first and the negated
    /// second.
    pub open spec fn difference(self, other: Single) -> Single {
        self.sum(other.negated())
    }
}

/// Two to the power `k`.
fn power_of_two(k: u32) -> (r: u64)
    requires
        k < 64,
    ensures
        r == pow2(k as nat),
{
    proof {
        lemma_u64_pow2_no_overflow(k as nat);
        lemma_u64_shl_is_mul(1, k as u64);
    }
    1u64 << k
}

/// The number of binary digits of `n`.
fn digits(n: u64) -> (r: u32)
    ensures
        r == bit_length(n as nat),
        r <= 64,
{
    let mut rest: u64 = n;
    let mut count: u32 = 0;
    proof {
        lemma2_to64();
    }
    while rest > 0
        invariant
            bit_length(n as nat) == count + bit_length(rest as nat),
            count <= 64,
            rest * pow2(count as nat) <= n,
        decreases rest,
    {
        proof {
            let p = pow2(count as nat) as int;
            lemma_pow2_pos(count as nat);
            assert(rest * p >= p) by (nonlinear_arith)
                requires
                    rest >= 1,
                    p >= 0,
            ;
            vstd::arithmetic::power2::lemma2_to64_rest();
            if count >= 64 {
                if count > 64 {
                    lemma_pow2_strictly_increases(64, count as nat);
                }
            }
            lemma_pow2_unfold((count + 1) as nat);
            let half = (rest / 2) as int;
            assert(half * (2 * p) <= rest * p) by (nonlinear_arith)
                requires
                    2 * half <= rest,
                    p >= 0,
            ;
        }
        rest = rest / 2;
        count = count + 1;
    }
    count
}

/// The pattern of a sign and a magnitude.
fn pack_bits(negative: bool, magnitude: u64) -> (r: Single)
    ensures
        r == pack(negative, magnitude as nat),
{
    let m: u32 = if magnitude >= INFINITY_BITS as u64 {
        INFINITY_BITS
    } else {
        magnitude as u32
    };
    if negative {
        Single { bits: SIGN_BIT + m }
    } else {
        Single { bits: m }
    }
}

/// Rounds `n * 2^(s - 150)` to the nearest value.
fn round_to_single(negative: bool, n: u64, s: i32) -> (r: Single)
    requires
        -8 <= s <= 254,
    ensures
        r == rounded(negative, n as nat, s as int),
{
    if n == 0 {
        return pack_bits(negative, 0);
    }
    let len: i32 = digits(n) as i32;
    let t0: i32 = s + len - 24;
    let t: i32 = if t0 < 1 {
        1
    } else {
        t0
    };
    proof {
        lemma_bit_length_bounds(n as nat);
    }
    let q: u64 = if t <= s {
        let k: u32 = (s - t) as u32;
        proof {
            lemma_pow2_adds(len as nat, k as nat);
            lemma2_to64();
            if len + k < 24 {
                lemma_pow2_strictly_increases((len + k) as nat, 24);
            }
            lemma_pow2_pos(k as nat);
            let p = pow2(k as nat) as int;
            let bound = pow2(len as nat) as int;
            assert(n * p < bound * p) by (nonlinear_arith)
                requires
                    n < bound,
                    p > 0,
            ;
        }
        n * power_of_two(k)
    } else {
        let k: u32 = (t - s) as u32;
        let d: u64 = power_of_two(k);
        proof {
            lemma_pow2_pos((k - 1) as nat);
            lemma_pow2_unfold(k as nat);
            lemma_u64_pow2_no_overflow(63);
            lemma_pow2_strictly_increases(k as nat, 62);
            lemma_pow2_unfold(63);
            vstd::arithmetic::div_mod::lemma_fundamental_div_mod(n as int, d as int);
            let quo = (n / d) as int;
            assert(2 * quo <= d * quo) by (nonlinear_arith)
                requires
                    d >= 2,
                    quo >= 0,
            ;
        }
        let quo: u64 = n / d;
        let rem: u64 = n % d;
        if 2 * rem > d || (2 * rem == d && quo % 2 == 1) {
            quo + 1
        } else {
            quo
        }
    };
    pack_bits(negative, (t - 1) as u64 * (HIDDEN_BIT as u64) + q)
}

/// Rounding `m * 2^d + e` at a scale that is `d` below: where `m` has 24
/// digits, `d` is at least 26 and `e` is less than 2^24 in magnitude, the
/// small term is rounded away and the pattern is that of `m` at the higher
/// scale.
proof fn lemma_round_far(m: nat, d: nat, e: int, s: int)
    requires
        HIDDEN_BIT <= m < 2 * HIDDEN_BIT,
        d >= 26,
        -(2 * HIDDEN_BIT) < e < 2 * HIDDEN_BIT,
        s >= 1,
    ensures
        m * pow2(d) + e > 0,
        ({
            let n = (m * pow2(d) + e) as nat;
            (held_scale(n, s) - 1) * HIDDEN_BIT + scaled_round(n, s, held_scale(n, s)) == (s + d
                - 1) * HIDDEN_BIT + m
        }),
{
    lemma2_to64();
    let big = pow2(d) as int;
    assert(big >= 0x400_0000) by {
        if d > 26 {
            lemma_pow2_strictly_increases(26, d);
        }
    }
    lemma_pow2_adds(23, d);
    lemma_pow2_adds(24, d);
    lemma_pow2_adds(22, d);
    let n = m * big + e;
    assert(m * big >= 0x80_0000 * big) by (nonlinear_arith)
        requires
            m >= 0x80_0000,
            big >= 0,
    ;
    assert(m * big <= 0xff_ffff * big) by (nonlinear_arith)
        requires
            m <= 0xff_ffff,
            big >= 0,
    ;
    if e >= 0 || m > HIDDEN_BIT {
        assert(n >= 0x80_0000 * big) by (nonlinear_arith)
            requires
                n == m * big + e,
                e >= 0 || m >= 0x80_0001,
                m >= 0x80_0000,
                e > -big,
                big >= 0,
        ;
        assert(n < 0x100_0000 * big) by (nonlinear_arith)
            requires
                n == m * big + e,
                m <= 0xff_ffff,
                e < big,
                big >= 0,
        ;
        lemma_bit_length_unique(n as nat, 24 + d);
        assert(held_scale(n as nat, s) == s + d);
        if e >= 0 {
            lemma_fundamental_div_mod_converse(n, big, m as int, e);
        } else {
            assert(n == (m - 1) * big + (big + e)) by (nonlinear_arith)
                requires
                    n == m * big + e,
            ;
            lemma_fundamental_div_mod_converse(n, big, m - 1, big + e);
        }
    } else {
        let half = pow2((d - 1) as nat) as int;
        lemma_pow2_unfold(d);
        assert(big == 2 * half);
        assert(n == 0x100_0000 * half + e) by (nonlinear_arith)
            requires
                n == m * big + e,
                m == 0x80_0000,
                big == 2 * half,
        ;
        lemma_bit_length_unique(n as nat, 23 + d);
        assert(held_scale(n as nat, s) == s + d - 1);
        assert(n == 0xff_ffff * half + (half + e)) by (nonlinear_arith)
            requires
                n == 0x100_0000 * half + e,
        ;
        lemma_fundamental_div_mod_converse(n, half, 0xff_ffff, half + e);
    }
}

/// The sum of two finite values whose scales are 26 or more apart is the
/// one of larger scale.
proof fn lemma_far_sum(hi: Single, lo: Single)
    requires
        hi.is_finite(),
        lo.is_finite(),
        hi.scale() - lo.scale() >= 26,
    ensures
        sum_of_parts(
            hi.is_negative(),
            hi.significand(),
            hi.scale(),
            lo.is_negative(),
            lo.significand(),
            lo.scale(),
        ) == hi,
{
    lemma2_to64();
    let d = (hi.scale() - lo.scale()) as nat;
    let m = hi.significand();
    let e: int = if hi.is_negative() == lo.is_negative() {
        lo.significand() as int
    } else {
        -(lo.significand() as int)
    };
    lemma_round_far(m, d, e, lo.scale());
    let big = pow2(d) as int;
    let total = signed(hi.is_negative(), m) * big + signed(lo.is_negative(), lo.significand())
        * pow2(0);
    if hi.is_negative() {
        assert(signed(hi.is_negative(), m) * big == -(m * big)) by (nonlinear_arith)
            requires
                signed(hi.is_negative(), m) == -(m as int),
        ;
        assert(total == -(m * big + e));
    } else {
        assert(total == m * big + e);
    }
}

impl Single {
    /// The sign, the significand and the scale of a finite value.
    fn parts(self) -> (r: (bool, u64, i32))
        requires
            self.is_finite(),
        ensures
            r.0 == self.is_negative(),
            r.1 == self.significand(),
            r.2 == self.scale(),
            r.1 < 2 * HIDDEN_BIT,
            1 <= r.2 <= 254,
    {
        let magnitude: u32 = self.bits % SIGN_BIT;
        let field: u32 = magnitude / HIDDEN_BIT;
        let fraction: u32 = magnitude % HIDDEN_BIT;
        if field == 0 {
            (self.bits >= SIGN_BIT, fraction as u64, 1)
        } else {
            (self.bits >= SIGN_BIT, (HIDDEN_BIT + fraction) as u64, field as i32)
        }
    }

    /// Adds two finite values, the one of larger scale first.
    fn add_ordered(hi: Single, lo: Single) -> (r: Single)
        requires
            hi.is_finite(),
            lo.is_finite(),
            hi.scale() >= lo.scale(),
        ensures
            r == sum_of_parts(
                hi.is_negative(),
                hi.significand(),
                hi.scale(),
                lo.is_negative(),
                lo.significand(),
                lo.scale(),
            ),
    {
        let (hi_neg, hi_m, hi_s) = hi.parts();
        let (lo_neg, lo_m, lo_s) = lo.parts();
        let d: u32 = (hi_s - lo_s) as u32;
        if d > 38 {
            proof {
                lemma_far_sum(hi, lo);
            }
            return hi;
        }
        proof {
            lemma2_to64();
            vstd::arithmetic::power2::lemma2_to64_rest();
            if d < 38 {
                lemma_pow2_strictly_increases(d as nat, 38);
            }
            let big = pow2(d as nat) as int;
            assert(hi_m * big <= 0xff_ffff * 0x40_0000_0000) by (nonlinear_arith)
                requires
                    0 <= hi_m <= 0xff_ffff,
                    0 <= big <= 0x40_0000_0000,
            ;
            assert(signed(hi_neg, hi_m as nat) * big == if hi_neg {
                -(hi_m * big)
            } else {
                hi_m * big
            }) by (nonlinear_arith);
        }
        let a: u64 = hi_m * power_of_two(d);
        proof {
            let big = pow2(d as nat) as int;
            let low = signed(lo_neg, lo_m as nat);
            assert(low * pow2(0) == low);
            assert(pow2((hi.scale() - lo.scale()) as nat) == big);
            let total = signed(hi_neg, hi_m as nat) * big + low * pow2(0);
            assert(total == (if hi_neg {
                -(a as int)
            } else {
                a as int
            }) + low);
        }
        if hi_neg == lo_neg {
            round_to_single(hi_neg, a + lo_m, lo_s)
        } else if a > lo_m {
            round_to_single(hi_neg, a - lo_m, lo_s)
        } else if a < lo_m {
            round_to_single(lo_neg, lo_m - a, lo_s)
        } else {
            pack_bits(false, 0)
        }
    }

    /// Adds two values, rounding to nearest.
    pub fn add(self, other: Single) -> (r: Single)
        ensures
            r == self.sum(other),
    {
        let a: u32 = self.bits % SIGN_BIT;
        let b: u32 = other.bits % SIGN_BIT;
        if a > INFINITY_BITS || b > INFINITY_BITS {
            return Single { bits: NAN_BITS };
        }
        if a == INFINITY_BITS {
            if b == INFINITY_BITS && (self.bits >= SIGN_BIT) != (other.bits >= SIGN_BIT) {
                return Single { bits: NAN_BITS };
            }
            return self;
        }
        if b == INFINITY_BITS {
            return other;
        }
        if a >= b {
            Single::add_ordered(self, other)
        } else {
            Single::add_ordered(other, self)
        }
    }

    /// Subtracts `other`, rounding to nearest.
    pub fn sub(self, other: Single) -> (r: Single)
        ensures
            r == self.difference(other),
    {
        self.add(other.neg())
    }
}

impl Single {
    /// A number that orders the values that are not NaN: the magnitude of the
    /// pattern, negated under a sign bit. Both zeros have the number zero.
    pub open spec fn ordinal(self) -> int {
        if self.is_negative() {
            -(self.magnitude() as int)
        } else {
            self.magnitude() as int
        }
    }

    /// True when the first value is less than the second; false when either
    /// is a NaN.
    pub open spec fn value_lt(self, other: Single) -> bool {
        !self.is_nan() && !other.is_nan() && self.ordinal() < other.ordinal()
    }

    /// The lesser of two values, the first when they are equal. A NaN gives
    /// way to the other value.
    pub open spec fn minimum(self, other: Single) -> Single {
        if self.is_nan() {
            other
        } else if other.is_nan() {
            self
        } else if other.value_lt(self) {
            other
        } else {
            self
        }
    }

    /// The greater of two values, the first when they are equal. A NaN gives
    /// way to the other value.
    pub open spec fn maximum(self, other: Single) -> Single {
        if self.is_nan() {
            other
        } else if other.is_nan() {
            self
        } else if self.value_lt(other) {
            other
        } else {
            self
        }
    }

    /// One sixteenth of a value, rounded where the quotient is subnormal.
    pub open spec fn sixteenth_spec(self) -> Single {
        if self.is_nan() {
            Single { bits: NAN_BITS }
        } else if self.is_infinite() {
            self
        } else {
            rounded(self.is_negative(), self.significand(), self.scale() - 4)
        }
    }

    /// The integer next to a finite value of scale below 150, towards
    /// negative infinity when `down` is set and towards positive infinity
    /// when it is not, as a magnitude under the value's sign. A value of
    /// scale 150 or more is an integer itself.
    pub open spec fn integer_towards(self, down: bool) -> nat {
        let d = pow2((150 - self.scale()) as nat);
        let whole = self.significand() / d;
        if self.significand() % d != 0 && self.is_negative() == down {
            whole + 1
        } else {
            whole
        }
    }

    /// The largest integer that is not above the value. The sign of the
    /// value stays, that of a zero result too.
    pub open spec fn floor_spec(self) -> Single {
        if self.is_nan() {
            Single { bits: NAN_BITS }
        } else if self.is_infinite() || self.scale() >= 150 {
            self
        } else {
            rounded(self.is_negative(), self.integer_towards(true), 150)
        }
    }

    /// The least integer that is not below the value. The sign of the value
    /// stays, that of a zero result too.
    pub open spec fn ceil_spec(self) -> Single {
        if self.is_nan() {
            Single { bits: NAN_BITS }
        } else if self.is_infinite() || self.scale() >= 150 {
            self
        } else {
            rounded(self.is_negative(), self.integer_towards(false), 150)
        }
    }

    /// Compares two values as IEEE 754 does.
    pub fn less_than(self, other: Single) -> (r: bool)
        ensures
            r == self.value_lt(other),
    {
        let a: u32 = self.bits % SIGN_BIT;
        let b: u32 = other.bits % SIGN_BIT;
        if a > INFINITY_BITS || b > INFINITY_BITS {
            return false;
        }
        let x: i64 = if self.bits >= SIGN_BIT {
            -(a as i64)
        } else {
            a as i64
        };
        let y: i64 = if other.bits >= SIGN_BIT {
            -(b as i64)
        } else {
            b as i64
        };
        x < y
    }

    /// The lesser of two values.
    pub fn min(self, other: Single) -> (r: Single)
        ensures
            r == self.minimum(other),
    {
        if self.is_nan_value() {
            other
        } else if other.is_nan_value() {
            self
        } else if other.less_than(self) {
            other
        } else {
            self
        }
    }

    /// The greater of two values.
    pub fn max(self, other: Single) -> (r: Single)
        ensures
            r == self.maximum(other),
    {
        if self.is_nan_value() {
            other
        } else if other.is_nan_value() {
            self
        } else if self.less_than(other) {
            other
        } else {
            self
        }
    }

    /// Divides by sixteen.
    pub fn sixteenth(self) -> (r: Single)
        ensures
            r == self.sixteenth_spec(),
    {
        let a: u32 = self.bits % SIGN_BIT;
        if a > INFINITY_BITS {
            return Single { bits: NAN_BITS };
        }
        if a == INFINITY_BITS {
            return self;
        }
        let (negative, m, s) = self.parts();
        round_to_single(negative, m, s - 4)
    }

    /// Rounds to an integer, downwards when `down` is set and upwards when
    /// it is not.
    fn round_towards(self, down: bool) -> (r: Single)
        ensures
            r == if down {
                self.floor_spec()
            } else {
                self.ceil_spec()
            },
    {
        let a: u32 = self.bits % SIGN_BIT;
        if a > INFINITY_BITS {
            return Single { bits: NAN_BITS };
        }
        if a == INFINITY_BITS {
            return self;
        }
        let (negative, m, s) = self.parts();
        if s >= 150 {
            return self;
        }
        let shift: u32 = (150 - s) as u32;
        let whole: u64;
        let exact: bool;
        if shift >= 25 {
            proof {
                lemma2_to64();
                if shift > 25 {
                    lemma_pow2_strictly_increases(25, shift as nat);
                }
                let d = pow2(shift as nat);
                vstd::arithmetic::div_mod::lemma_basic_div(m as int, d as int);
                vstd::arithmetic::div_mod::lemma_small_mod(m as nat, d);
            }
            whole = 0;
            exact = m == 0;
        } else {
            let d: u64 = power_of_two(shift);
            proof {
                lemma_pow2_pos(shift as nat);
            }
            whole = m / d;
            exact = m % d == 0;
        }
        let k: u64 = if !exact && negative == down {
            whole + 1
        } else {
            whole
        };
        round_to_single(negative, k, 150)
    }

    /// The largest integer that is not above the value.
    pub fn floor(self) -> (r: Single)
        ensures
            r == self.floor_spec(),
    {
        self.round_towards(true)
    }

    /// The least integer that is not below the value.
    pub fn ceil(self) -> (r: Single)
        ensures
            r == self.ceil_spec(),
    {
        self.round_towards(false)
    }
}

/// Rounding leaves a finite value as it is: the value that is nearest to a
/// value of the format is that value.
pub proof fn lemma_rounded_keeps_values(x: Single)
    requires
        x.is_finite(),
    ensures
        rounded(x.is_negative(), x.significand(), x.scale()) == x,
{
    lemma2_to64();
    let n = x.significand();
    if n > 0 {
        if x.exponent_field() == 0 {
            lemma_bit_length_bounds(n);
            if bit_length(n) > 24 {
                lemma_pow2_strictly_increases(24, (bit_length(n) - 1) as nat);
            }
            assert(held_scale(n, 1) == 1);
        } else {
            lemma_bit_length_unique(n, 24);
        }
        assert(n * pow2(0) == n);
    }
}

/// Adding positive zero to a finite value other than negative zero leaves
/// the value as it is.
pub proof fn lemma_sum_with_zero(x: Single)
    requires
        x.is_finite(),
        x.bits != SIGN_BIT,
    ensures
        x.sum(Single { bits: 0 }) == x,
{
    lemma2_to64();
    lemma_rounded_keeps_values(x);
    let zero = Single { bits: 0 };
    let d = (x.scale() - 1) as nat;
    let m = x.significand();
    let big = pow2(d) as int;
    lemma_pow2_pos(d);
    assert(zero.significand() == 0 && zero.scale() == 1);
    assert(signed(false, 0) * pow2(0) == 0);
    let total = signed(x.is_negative(), m) * big + signed(false, 0) * pow2(0);
    if m > 0 {
        lemma_round_at_lower_scale(x);
        assert(signed(false, m) * big > 0) by (nonlinear_arith)
            requires
                signed(false, m) > 0,
                big > 0,
        ;
        if x.is_negative() {
            assert(signed(true, m) * big == -(signed(false, m) * big)) by (nonlinear_arith)
                requires
                    signed(true, m) == -signed(false, m),
            ;
        }
    } else {
        assert(signed(x.is_negative(), m) * big == 0) by (nonlinear_arith)
            requires
                signed(x.is_negative(), m) == 0,
        ;
    }
}

/// A finite value rounds to itself from scale one as well: its significand
/// times the power of two between its scale and one is the same value.
proof fn lemma_round_at_lower_scale(x: Single)
    requires
        x.is_finite(),
        x.significand() > 0,
    ensures
        rounded(
            x.is_negative(),
            (signed(false, x.significand()) * pow2((x.scale() - 1) as nat)) as nat,
            1,
        ) == x,
{
    lemma2_to64();
    lemma_rounded_keeps_values(x);
    let m = x.significand();
    let d = (x.scale() - 1) as nat;
    let big = pow2(d);
    lemma_pow2_pos(d);
    let n = m * big;
    if d == 0 {
        assert(n == m);
    } else {
        // A value of scale above one is normal.
        assert(HIDDEN_BIT <= m < 2 * HIDDEN_BIT);
        lemma_pow2_adds(23, d);
        lemma_pow2_adds(24, d);
        assert(n >= 0x80_0000 * big) by (nonlinear_arith)
            requires
                n == m * big,
                m >= 0x80_0000,
                big > 0,
        ;
        assert(n < 0x100_0000 * big) by (nonlinear_arith)
            requires
                n == m * big,
                m < 0x100_0000,
                big > 0,
        ;
        lemma_bit_length_unique(n, 24 + d);
        assert(held_scale(n, 1) == 1 + d);
        lemma_fundamental_div_mod_converse(n as int, big as int, m as int, 0);
    }
}

} // verus!
