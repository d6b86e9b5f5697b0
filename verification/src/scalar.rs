//! The scalar encoding shared by every parameter kind: an IEEE 754 binary64
//! value held by its bit pattern, with the integer logic that reads it.

use vstd::prelude::*;
use vstd::arithmetic::div_mod::{lemma_div_by_multiple, lemma_multiply_divide_lt};
use vstd::arithmetic::power2::{
    lemma2_to64,
    lemma2_to64_rest,
    lemma_pow2_adds,
    lemma_pow2_pos,
    lemma_pow2_strictly_increases,
    lemma_pow2_unfold,
    pow2,
};

verus! {

/// Weight of the lowest exponent bit: two to the 52.
pub const FRACTION_SPAN: u64 = 0x0010_0000_0000_0000;

/// Weight of the sign bit: two to the 63.
pub const SIGN_BIT: u64 = 0x8000_0000_0000_0000;

/// A double-precision number, kept as the 64 bits of its binary64 encoding:
/// one sign bit, eleven exponent bits, fifty-two fraction bits. Two scalars
/// are equal when their bits are; the numeric order is `less_than`.
#[derive(Clone, Copy, Debug, PartialEq, Eq, Structural)]
pub struct Scalar {
    pub bits: u64,
}

/// Position of the highest set bit of `m` (zero for `m <= 1`).
pub open spec fn floor_log2(m: nat) -> nat
    decreases m,
{
    if m <= 1 {
        0
    } else {
        1 + floor_log2(m / 2)
    }
}

/// The 53-bit significand that represents `m`, rounded to nearest with ties
/// to even when `m` has more than 53 significant bits. The result may be
/// two to the 53, which carries into the exponent when the fields are added.
pub open spec fn rounded_significand(m: nat) -> nat {
    let p = floor_log2(m);
    if p <= 52 {
        m * pow2((52 - p) as nat)
    } else {
        let d = pow2((p - 52) as nat);
        let q = m / d;
        let r = m % d;
        if 2 * r > d || (2 * r == d && q % 2 == 1) {
            q + 1
        } else {
            q
        }
    }
}

/// Bit pattern of the non-negative double nearest to the natural number `m`.
pub open spec fn encode_magnitude(m: nat) -> nat {
    if m == 0 {
        0
    } else {
        (floor_log2(m) + 1022) * 0x0010_0000_0000_0000 + rounded_significand(m)
    }
}

/// Bit pattern of the double nearest to the integer `n`.
pub open spec fn encode_int(n: int) -> nat {
    if n < 0 {
        0x8000_0000_0000_0000 + encode_magnitude((-n) as nat)
    } else {
        encode_magnitude(n as nat)
    }
}

/// A positive number lies between the power of two at its highest bit and
/// the next power of two.
pub proof fn lemma_floor_log2_bounds(m: nat)
    requires
        m >= 1,
    ensures
        pow2(floor_log2(m)) <= m < pow2(floor_log2(m) + 1),
    decreases m,
{
    lemma2_to64();
    if m > 1 {
        lemma_floor_log2_bounds(m / 2);
        lemma_pow2_unfold(floor_log2(m));
        lemma_pow2_unfold(floor_log2(m) + 1);
    }
}

/// The highest bit of a 64-bit number is at most bit 63.
pub proof fn lemma_floor_log2_u64(m: nat)
    requires
        1 <= m <= u64::MAX,
    ensures
        floor_log2(m) <= 63,
{
    lemma_floor_log2_bounds(m);
    lemma2_to64_rest();
    if floor_log2(m) > 64 {
        lemma_pow2_strictly_increases(64, floor_log2(m));
    }
}

/// The rounded significand of a 64-bit magnitude lies between two to the 52
/// and two to the 53, both included.
pub proof fn lemma_rounded_significand_range(m: nat)
    requires
        1 <= m <= u64::MAX,
    ensures
        0x0010_0000_0000_0000 <= rounded_significand(m) <= 0x0020_0000_0000_0000,
{
    let p = floor_log2(m);
    lemma_floor_log2_bounds(m);
    lemma_floor_log2_u64(m);
    lemma2_to64();
    lemma2_to64_rest();
    if p <= 52 {
        let k = (52 - p) as nat;
        let s = pow2(k);
        lemma_pow2_adds(p, k);
        lemma_pow2_adds(p + 1, k);
        lemma_pow2_pos(k);
        assert(pow2(p) * s <= m * s) by (nonlinear_arith)
            requires pow2(p) <= m, s > 0;
        assert(m * s < pow2(p + 1) * s) by (nonlinear_arith)
            requires m < pow2(p + 1), s > 0;
    } else {
        let k = (p - 52) as nat;
        let d = pow2(k);
        lemma_pow2_adds(k, 52);
        lemma_pow2_adds(k, 53);
        lemma_pow2_pos(k);
        assert(m < d * 0x0020_0000_0000_0000);
        lemma_multiply_divide_lt(m as int, d as int, 0x0020_0000_0000_0000);
        assert(m / d >= 0x0010_0000_0000_0000) by {
            if m / d < 0x0010_0000_0000_0000 {
                assert(m == d * (m / d) + m % d) by (nonlinear_arith)
                    requires d > 0;
                assert(d * (m / d) + m % d < d * 0x0010_0000_0000_0000) by (nonlinear_arith)
                    requires d > 0, 0 <= m / d < 0x0010_0000_0000_0000, 0 <= m % d < d;
            }
        }
    }
}

/// Two to the `k`, for `k` below 64.
pub fn pow2_u64(k: u64) -> (r: u64)
    requires
        k <= 63,
    ensures
        r == pow2(k as nat),
{
    let mut r: u64 = 1;
    let mut i: u64 = 0;
    proof {
        lemma2_to64();
    }
    while i < k
        invariant
            i <= k <= 63,
            r == pow2(i as nat),
        decreases k - i,
    {
        proof {
            lemma_pow2_unfold((i + 1) as nat);
            lemma2_to64_rest();
            if i + 1 < 63 {
                lemma_pow2_strictly_increases((i + 1) as nat, 63);
            }
        }
        r = r * 2;
        i = i + 1;
    }
    r
}

/// Position of the highest set bit of a positive `m`.
pub fn highest_bit(m: u64) -> (p: u64)
    requires
        m >= 1,
    ensures
        p == floor_log2(m as nat),
        p <= 63,
{
    let mut p: u64 = 0;
    let mut t: u64 = m;
    proof {
        lemma_floor_log2_u64(m as nat);
    }
    while t > 1
        invariant
            t >= 1,
            p + floor_log2(t as nat) == floor_log2(m as nat),
            floor_log2(m as nat) <= 63,
        decreases t,
    {
        t = t / 2;
        p = p + 1;
    }
    p
}

impl Scalar {
    /// Whether the sign bit is set.
    pub open spec fn negative(self) -> bool {
        self.bits >= 0x8000_0000_0000_0000
    }

    /// The biased exponent field.
    pub open spec fn exponent(self) -> int {
        (self.bits as int / 0x0010_0000_0000_0000) % 2048
    }

    /// The fraction field.
    pub open spec fn fraction(self) -> int {
        self.bits as int % 0x0010_0000_0000_0000
    }

    /// Neither an infinity nor a NaN.
    pub open spec fn finite(self) -> bool {
        self.exponent() != 2047
    }

    /// Not a number.
    pub open spec fn nan(self) -> bool {
        self.exponent() == 2047 && self.fraction() != 0
    }

    /// An integer that orders non-NaN values as the numbers they encode:
    /// the exponent and fraction bits read as one integer, negated when the
    /// sign bit is set. Both zeros have key zero.
    pub open spec fn order_key(self) -> int {
        if self.negative() {
            -(self.bits as int % 0x8000_0000_0000_0000)
        } else {
            self.bits as int
        }
    }

    /// Numeric `<`: false whenever either side is a NaN.
    pub open spec fn less_than(self, other: Scalar) -> bool {
        !self.nan() && !other.nan() && self.order_key() < other.order_key()
    }

    /// Numeric `<=`: false whenever either side is a NaN.
    pub open spec fn at_most(self, other: Scalar) -> bool {
        !self.nan() && !other.nan() && self.order_key() <= other.order_key()
    }

    /// What the value becomes as a signed 64-bit integer: the fractional part
    /// is dropped, values beyond the range saturate, a NaN gives zero.
    pub open spec fn truncated(self) -> int {
        let e = self.exponent();
        let sig = 0x0010_0000_0000_0000 + self.fraction();
        if self.nan() || e < 1023 {
            0
        } else if e >= 1086 {
            if self.negative() {
                i64::MIN as int
            } else {
                i64::MAX as int
            }
        } else {
            let mag = if e >= 1075 {
                sig * pow2((e - 1075) as nat)
            } else {
                sig / (pow2((1075 - e) as nat) as int)
            };
            if self.negative() {
                -mag
            } else {
                mag
            }
        }
    }

    /// The position that the value names in a list: its truncation, with
    /// negative values taken to zero.
    pub open spec fn index(self) -> nat {
        if self.truncated() < 0 {
            0
        } else {
            self.truncated() as nat
        }
    }

    /// The scalar nearest to the integer `n`.
    pub open spec fn of_int(n: int) -> Scalar {
        Scalar { bits: encode_int(n) as u64 }
    }

    /// The scalar nearest to the natural number `m`.
    pub open spec fn of_magnitude(m: nat) -> Scalar {
        Scalar { bits: encode_magnitude(m) as u64 }
    }

    /// The scalar with the given bit pattern.
    pub fn from_bits(bits: u64) -> (s: Scalar)
        ensures
            s.bits == bits,
    {
        Scalar { bits }
    }

    /// The bit pattern.
    pub fn to_bits(self) -> (bits: u64)
        ensures
            bits == self.bits,
    {
        self.bits
    }

    /// Positive zero.
    pub fn zero() -> (s: Scalar)
        ensures
            s.bits == 0,
    {
        Scalar { bits: 0 }
    }

    /// Whether the value is not a number.
    pub fn is_nan(self) -> (r: bool)
        ensures
            r == self.nan(),
    {
        (self.bits / FRACTION_SPAN) % 2048 == 2047 && self.bits % FRACTION_SPAN != 0
    }

    /// Whether the value is neither an infinity nor a NaN.
    pub fn is_finite(self) -> (r: bool)
        ensures
            r == self.finite(),
    {
        (self.bits / FRACTION_SPAN) % 2048 != 2047
    }

    /// The order key as a machine integer.
    pub fn key(self) -> (k: i128)
        ensures
            k == self.order_key(),
    {
        if self.bits >= SIGN_BIT {
            -((self.bits % SIGN_BIT) as i128)
        } else {
            self.bits as i128
        }
    }

    /// Numeric `<`.
    pub fn lt(self, other: Scalar) -> (r: bool)
        ensures
            r == self.less_than(other),
    {
        !self.is_nan() && !other.is_nan() && self.key() < other.key()
    }

    /// Numeric `<=`.
    pub fn le(self, other: Scalar) -> (r: bool)
        ensures
            r == self.at_most(other),
    {
        !self.is_nan() && !other.is_nan() && self.key() <= other.key()
    }

    /// The double nearest to the unsigned integer `m`.
    pub fn from_magnitude(m: u64) -> (s: Scalar)
        ensures
            s.bits == encode_magnitude(m as nat),
            s == Scalar::of_magnitude(m as nat),
            s.bits < 0x8000_0000_0000_0000,
    {
        if m == 0 {
            return Scalar { bits: 0 };
        }
        let p: u64 = highest_bit(m);
        proof {
            lemma_rounded_significand_range(m as nat);
        }
        let sig: u64 = if p <= 52 {
            let s: u64 = pow2_u64(52 - p);
            m * s
        } else {
            let d: u64 = pow2_u64(p - 52);
            proof {
                lemma_pow2_pos((p - 52) as nat);
            }
            let q: u64 = m / d;
            let r: u64 = m % d;
            let half: u64 = d / 2;
            proof {
                lemma_pow2_unfold((p - 52) as nat);
            }
            if r > half || (r == half && q % 2 == 1) {
                q + 1
            } else {
                q
            }
        };
        Scalar { bits: (p + 1022) * FRACTION_SPAN + sig }
    }

    /// The double nearest to the integer `n`: exact up to two to the 53 in
    /// magnitude, rounded to nearest with ties to even beyond.
    pub fn from_int(n: i64) -> (s: Scalar)
        ensures
            s.bits == encode_int(n as int),
            s == Scalar::of_int(n as int),
    {
        if n < 0 {
            let m: u64 = if n == i64::MIN {
                SIGN_BIT
            } else {
                (-n) as u64
            };
            let mag = Scalar::from_magnitude(m);
            Scalar { bits: SIGN_BIT + mag.bits }
        } else {
            Scalar::from_magnitude(n as u64)
        }
    }

    /// The value as a signed integer, truncated toward zero.
    pub fn to_int(self) -> (n: i64)
        ensures
            n == self.truncated(),
    {
        let e: u64 = (self.bits / FRACTION_SPAN) % 2048;
        let f: u64 = self.bits % FRACTION_SPAN;
        let neg: bool = self.bits >= SIGN_BIT;
        if (e == 2047 && f != 0) || e < 1023 {
            return 0;
        }
        if e >= 1086 {
            return if neg { i64::MIN } else { i64::MAX };
        }
        let sig: u64 = FRACTION_SPAN + f;
        let mag: u64 = if e >= 1075 {
            let s: u64 = pow2_u64(e - 1075);
            proof {
                lemma2_to64();
                assert(s <= 1024) by {
                    if e - 1075 < 10 {
                        lemma_pow2_strictly_increases((e - 1075) as nat, 10);
                    }
                }
                assert(sig * s < 0x8000_0000_0000_0000) by (nonlinear_arith)
                    requires sig < 0x0020_0000_0000_0000, 0 <= s <= 1024;
            }
            sig * s
        } else {
            let d: u64 = pow2_u64(1075 - e);
            proof {
                lemma_pow2_pos((1075 - e) as nat);
            }
            sig / d
        };
        if neg {
            (0 - mag as i128) as i64
        } else {
            mag as i64
        }
    }

    /// The position that the value names in a list.
    pub fn to_index(self) -> (i: usize)
        ensures
            i == if self.index() <= usize::MAX {
                self.index()
            } else {
                usize::MAX as nat
            },
    {
        let n: i64 = self.to_int();
        if n < 0 {
            0
        } else if n as u64 > usize::MAX as u64 {
            usize::MAX
        } else {
            n as usize
        }
    }
}

/// Converting an integer of magnitude at most two to the 53 to a scalar and
/// truncating it again gives the integer back.
pub proof fn lemma_int_round_trip(n: int)
    requires
        -0x0020_0000_0000_0000 <= n <= 0x0020_0000_0000_0000,
    ensures
        encode_int(n) <= u64::MAX,
        Scalar::of_int(n).truncated() == n,
        Scalar::of_int(n).finite(),
{
    lemma2_to64();
    lemma2_to64_rest();
    if n != 0 {
        let m: nat = if n < 0 { (-n) as nat } else { n as nat };
        let p = floor_log2(m);
        let sig = rounded_significand(m);
        lemma_floor_log2_bounds(m);
        lemma_rounded_significand_range(m);
        assert(p <= 53) by {
            if p > 53 {
                lemma_pow2_strictly_increases(53, p);
            }
        }
        let s = Scalar { bits: encode_int(n) as u64 };
        let mag_bits = (p + 1022) * 0x0010_0000_0000_0000 + sig;
        assert(encode_magnitude(m) == mag_bits);
        if p <= 52 {
            let k = (52 - p) as nat;
            lemma_pow2_pos(k);
            lemma_div_by_multiple(m as int, pow2(k) as int);
            assert(sig < 0x0020_0000_0000_0000) by {
                lemma_pow2_adds(p + 1, k);
                assert(m * pow2(k) < pow2(p + 1) * pow2(k)) by (nonlinear_arith)
                    requires m < pow2(p + 1), pow2(k) > 0;
            }
            assert(s.exponent() == p + 1023);
            assert(s.fraction() == sig - 0x0010_0000_0000_0000);
            assert(s.negative() == (n < 0));
            assert(!s.nan());
            if p == 52 {
                assert(k == 0 && pow2(k) == 1);
                assert(m * pow2(k) == m) by (nonlinear_arith)
                    requires pow2(k) == 1;
                assert(sig * pow2(0) == sig) by (nonlinear_arith)
                    requires pow2(0) == 1;
            } else {
                assert(1075 - (p + 1023) == k);
                assert((m * pow2(k)) as int / (pow2(k) as int) == m);
            }
        } else {
            assert(m == 0x0020_0000_0000_0000);
            assert(pow2(1) == 2);
            assert(sig == 0x0010_0000_0000_0000);
            assert(s.exponent() == 1076);
            assert(s.fraction() == 0);
            assert(s.negative() == (n < 0));
            assert(0x0010_0000_0000_0000 * pow2(1) == 0x0020_0000_0000_0000);
        }
    }
}

/// A larger number has its highest bit at least as high.
pub proof fn lemma_floor_log2_monotonic(a: nat, b: nat)
    requires
        a <= b,
    ensures
        floor_log2(a) <= floor_log2(b),
    decreases b,
{
    if a > 1 {
        lemma_floor_log2_monotonic(a / 2, b / 2);
    }
}

/// Among the natural numbers up to two to the 53, a larger number has a
/// larger bit pattern.
pub proof fn lemma_encode_magnitude_increases(a: nat, b: nat)
    requires
        a < b <= 0x0020_0000_0000_0000,
    ensures
        encode_magnitude(a) < encode_magnitude(b) < 0x8000_0000_0000_0000,
{
    lemma2_to64();
    lemma2_to64_rest();
    lemma_rounded_significand_range(b);
    lemma_floor_log2_bounds(b);
    let pb = floor_log2(b);
    assert(pb <= 53) by {
        if pb > 53 {
            lemma_pow2_strictly_increases(53, pb);
        }
    }
    if a > 0 {
        let pa = floor_log2(a);
        lemma_floor_log2_monotonic(a, b);
        lemma_floor_log2_bounds(a);
        lemma_rounded_significand_range(a);
        if pa <= 52 {
            let k = (52 - pa) as nat;
            lemma_pow2_pos(k);
            lemma_pow2_adds(pa + 1, k);
            assert(a * pow2(k) < pow2(pa + 1) * pow2(k)) by (nonlinear_arith)
                requires
                    a < pow2(pa + 1),
                    pow2(k) > 0,
            ;
            if pa == pb {
                assert(a * pow2(k) < b * pow2(k)) by (nonlinear_arith)
                    requires
                        a < b,
                        pow2(k) > 0,
                ;
            }
        }
    }
}

/// Among the integers of magnitude at most two to the 53, the numeric order
/// of the scalars is the order of the integers.
pub proof fn lemma_int_order(a: int, b: int)
    requires
        -0x0020_0000_0000_0000 <= a <= 0x0020_0000_0000_0000,
        -0x0020_0000_0000_0000 <= b <= 0x0020_0000_0000_0000,
    ensures
        Scalar::of_int(a).less_than(Scalar::of_int(b)) <==> a < b,
        Scalar::of_int(a).at_most(Scalar::of_int(b)) <==> a <= b,
{
    lemma_int_round_trip(a);
    lemma_int_round_trip(b);
    lemma_int_key_increases(a, b);
    lemma_int_key_increases(b, a);
}

/// The order key of a smaller integer is smaller.
pub proof fn lemma_int_key_increases(a: int, b: int)
    requires
        -0x0020_0000_0000_0000 <= a <= 0x0020_0000_0000_0000,
        -0x0020_0000_0000_0000 <= b <= 0x0020_0000_0000_0000,
    ensures
        a < b ==> Scalar::of_int(a).order_key() < Scalar::of_int(b).order_key(),
        a == b ==> Scalar::of_int(a).order_key() == Scalar::of_int(b).order_key(),
{
    lemma_int_key(a);
    lemma_int_key(b);
    if a < b {
        if a >= 0 {
            lemma_encode_magnitude_increases(a as nat, b as nat);
        } else if b < 0 {
            lemma_encode_magnitude_increases((-b) as nat, (-a) as nat);
        } else {
            lemma_encode_magnitude_increases(0, (-a) as nat);
        }
    }
}

/// The order key of an integer's scalar: the bit pattern of its magnitude,
/// negated for a negative integer.
pub proof fn lemma_int_key(n: int)
    requires
        -0x0020_0000_0000_0000 <= n <= 0x0020_0000_0000_0000,
    ensures
        Scalar::of_int(n).order_key() == if n < 0 {
            -(encode_magnitude((-n) as nat) as int)
        } else {
            encode_magnitude(n as nat) as int
        },
        0 <= encode_magnitude((if n < 0 { -n } else { n }) as nat),
{
    let m: nat = if n < 0 { (-n) as nat } else { n as nat };
    if m == 0 {
    } else if m < 0x0020_0000_0000_0000 {
        lemma_encode_magnitude_increases(m, 0x0020_0000_0000_0000);
    } else {
        lemma_encode_magnitude_increases((m - 1) as nat, m);
    }
}

} // verus!
