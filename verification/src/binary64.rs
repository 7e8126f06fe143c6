//! Numbers with a fractional part, as the annotation files hold them.
//!
//! A number is kept as the 64 bits of its IEEE 754 binary64 form. The few
//! operations that the library needs on such numbers are integer arithmetic on
//! those bits: rounding toward zero, the exact image of an integer, equality,
//! the total order and the difference.
use vstd::arithmetic::power2::{
    lemma2_to64, lemma2_to64_rest, lemma_pow2_pos, lemma_pow2_strictly_increases,
    lemma_pow2_unfold, pow2,
};
use vstd::bits::lemma_u64_shr_is_div;
use vstd::prelude::*;

pub mod difference;

verus! {

/// The bit above the 52 fraction bits: the leading 1 of a normal number.
pub const HIDDEN_BIT: u64 = 0x10_0000_0000_0000;

/// The sign bit.
pub const SIGN_BIT: u64 = 0x8000_0000_0000_0000;

/// The exponent field of the infinities and of the values that are no number.
pub const EXPONENT_MAX: u64 = 2047;

/// The exponent field of the numbers from 1 up to 2.
pub const EXPONENT_BIAS: u64 = 1023;

/// An IEEE 754 binary64 number, held as its bits. `==` compares the bits.
#[derive(Clone, Copy, Debug, PartialEq, Eq, Structural)]
pub struct Binary64 {
    pub bits: u64,
}

/// `x` held between `lo` and `hi`.
pub open spec fn clamp(x: int, lo: int, hi: int) -> int {
    if x < lo {
        lo
    } else if x > hi {
        hi
    } else {
        x
    }
}

impl Binary64 {
    /// The sign bit is set.
    pub open spec fn negative(self) -> bool {
        self.bits >= SIGN_BIT
    }

    /// The 11 bits of the exponent field.
    pub open spec fn biased_exponent(self) -> int {
        (self.bits as int / HIDDEN_BIT as int) % 2048
    }

    /// The 52 bits of the fraction field.
    pub open spec fn fraction(self) -> int {
        self.bits as int % HIDDEN_BIT as int
    }

    /// The value is no number.
    pub open spec fn is_nan(self) -> bool {
        self.biased_exponent() == EXPONENT_MAX && self.fraction() != 0
    }

    /// The integer `m` of the value `m * 2^scale`, the sign apart.
    pub open spec fn significand(self) -> int {
        if self.biased_exponent() == 0 {
            self.fraction()
        } else {
            self.fraction() + HIDDEN_BIT
        }
    }

    /// The power of two by which the significand is scaled.
    pub open spec fn scale(self) -> int {
        (if self.biased_exponent() == 0 {
            1
        } else {
            self.biased_exponent()
        }) - 1075
    }

    /// The whole part of the absolute value. An infinity counts as `2^1024`.
    pub open spec fn magnitude(self) -> int {
        if self.scale() >= 0 {
            self.significand() * pow2(self.scale() as nat)
        } else {
            self.significand() / (pow2((-self.scale()) as nat) as int)
        }
    }

    /// The value rounded toward zero; 0 where it is no number.
    pub open spec fn truncated(self) -> int {
        if self.is_nan() {
            0
        } else if self.negative() {
            -self.magnitude()
        } else {
            self.magnitude()
        }
    }

    /// The value is exactly the natural number `n`, and the sign bit is clear.
    pub open spec fn represents(self, n: nat) -> bool {
        &&& !self.negative()
        &&& self.biased_exponent() < EXPONENT_MAX
        &&& if self.scale() >= 0 {
            self.significand() * pow2(self.scale() as nat) == n
        } else {
            self.significand() == n * pow2((-self.scale()) as nat)
        }
    }

    /// The number whose value is the natural number `n`, where there is one:
    /// up to `2^53` every natural number has one.
    pub open spec fn of_nat(n: nat) -> Binary64 {
        choose|b: Binary64| b.represents(n)
    }

    /// Equality of the values: no number equals anything, and the two zeros
    /// are equal.
    pub open spec fn same_value(self, other: Binary64) -> bool {
        &&& !self.is_nan()
        &&& !other.is_nan()
        &&& (self.bits == other.bits || (self.bits % SIGN_BIT == 0 && other.bits % SIGN_BIT
            == 0))
    }

    /// The place of the value in the total order of IEEE 754: the negative
    /// values below the positive ones, each side ordered by its bits.
    pub open spec fn rank(self) -> int {
        if self.negative() {
            -1 - (self.bits - SIGN_BIT)
        } else {
            self.bits as int
        }
    }

    /// The number with the given bits.
    pub fn from_bits(bits: u64) -> (r: Binary64)
        ensures
            r.bits == bits,
    {
        Binary64 { bits }
    }

    /// The bits of the number.
    pub fn to_bits(self) -> (bits: u64)
        ensures
            bits == self.bits,
    {
        self.bits
    }

    /// The exponent field.
    fn exponent_field(self) -> (e: u64)
        ensures
            e == self.biased_exponent(),
            e <= EXPONENT_MAX,
    {
        (self.bits / HIDDEN_BIT) % 2048
    }

    /// The fraction field.
    fn fraction_field(self) -> (f: u64)
        ensures
            f == self.fraction(),
            f < HIDDEN_BIT,
    {
        self.bits % HIDDEN_BIT
    }

    /// Whether the value is no number.
    pub fn nan(self) -> (r: bool)
        ensures
            r == self.is_nan(),
    {
        self.exponent_field() == EXPONENT_MAX && self.fraction_field() != 0
    }

    /// Whether the two values are equal as numbers.
    pub fn value_eq(self, other: Binary64) -> (r: bool)
        ensures
            r == self.same_value(other),
    {
        !self.nan() && !other.nan() && (self.bits == other.bits || (self.bits % SIGN_BIT == 0
            && other.bits % SIGN_BIT == 0))
    }

    /// Whether `self` comes before `other` in the total order, or is `other`.
    pub fn total_le(self, other: Binary64) -> (r: bool)
        ensures
            r == (self.rank() <= other.rank()),
    {
        if self.bits >= SIGN_BIT {
            if other.bits >= SIGN_BIT {
                other.bits <= self.bits
            } else {
                true
            }
        } else {
            other.bits < SIGN_BIT && self.bits <= other.bits
        }
    }

    /// The whole part of the absolute value, where it is under `2^limit`.
    fn small_magnitude(self, limit: u64) -> (r: Option<u64>)
        requires
            31 <= limit <= 32,
        ensures
            match r {
                Some(m) => m == self.magnitude() && m < pow2(limit as nat),
                None => self.magnitude() >= pow2(limit as nat),
            },
    {
        let e = self.exponent_field();
        let f = self.fraction_field();
        proof {
            lemma2_to64();
            lemma2_to64_rest();
        }
        if e < EXPONENT_BIAS {
            proof {
                let s = (-self.scale()) as nat;
                assert(s >= 53);
                if s > 53 {
                    lemma_pow2_strictly_increases(53, s);
                }
                assert(self.significand() < pow2(s));
                assert(self.significand() / (pow2(s) as int) == 0) by (nonlinear_arith)
                    requires
                        0 <= self.significand() < pow2(s),
                ;
                lemma_pow2_pos(limit as nat);
            }
            Some(0)
        } else if e >= EXPONENT_BIAS + limit {
            proof {
                let m = self.significand();
                assert(m >= HIDDEN_BIT);
                assert(pow2(52) == HIDDEN_BIT);
                if self.scale() >= 0 {
                    let p = pow2(self.scale() as nat) as int;
                    lemma_pow2_pos(self.scale() as nat);
                    assert(m * p >= m) by (nonlinear_arith)
                        requires
                            m >= 0,
                            p >= 1,
                    ;
                } else {
                    let s = (-self.scale()) as nat;
                    let d = pow2(s) as int;
                    let a = pow2(limit as nat) as int;
                    assert(s + limit <= 52);
                    vstd::arithmetic::power2::lemma_pow2_adds(s, limit as nat);
                    if s + limit < 52 {
                        lemma_pow2_strictly_increases(s + limit as nat, 52);
                    }
                    lemma_pow2_pos(s);
                    assert(m / d >= a) by (nonlinear_arith)
                        requires
                            d * a <= m,
                            d > 0,
                    ;
                }
            }
            None
        } else {
            let shift = 1075 - e;
            let m = f + HIDDEN_BIT;
            proof {
                let s = shift as nat;
                assert(s == (-self.scale()) as nat);
                lemma_u64_shr_is_div(m, shift);
                let d = pow2(s) as int;
                let a = pow2(limit as nat) as int;
                assert(s + limit > 52);
                vstd::arithmetic::power2::lemma_pow2_adds(s, limit as nat);
                lemma_pow2_strictly_increases(52, s + limit as nat);
                lemma_pow2_unfold(53);
                if s + limit > 53 {
                    lemma_pow2_strictly_increases(53, s + limit as nat);
                }
                lemma_pow2_pos(s);
                assert((m as int) / d < a) by (nonlinear_arith)
                    requires
                        0 <= m < d * a,
                        d > 0,
                ;
            }
            Some(m >> shift)
        }
    }

    /// The value as `x as i32` gives it: rounded toward zero, held within the
    /// range of `i32`, and 0 where it is no number.
    pub fn to_i32(self) -> (r: i32)
        ensures
            r == clamp(self.truncated(), i32::MIN as int, i32::MAX as int),
    {
        proof {
            lemma2_to64();
        }
        if self.nan() {
            return 0;
        }
        let negative = self.bits >= SIGN_BIT;
        match self.small_magnitude(31) {
            Some(m) => {
                if negative {
                    -(m as i32)
                } else {
                    m as i32
                }
            },
            None => {
                if negative {
                    i32::MIN
                } else {
                    i32::MAX
                }
            },
        }
    }

    /// The value as `x as u32` gives it: rounded toward zero, held within the
    /// range of `u32`, and 0 where it is no number.
    pub fn to_u32(self) -> (r: u32)
        ensures
            r == clamp(self.truncated(), 0, u32::MAX as int),
    {
        proof {
            lemma2_to64();
        }
        if self.nan() {
            return 0;
        }
        let negative = self.bits >= SIGN_BIT;
        match self.small_magnitude(32) {
            Some(m) => {
                if negative {
                    0
                } else {
                    m as u32
                }
            },
            None => {
                if negative {
                    0
                } else {
                    u32::MAX
                }
            },
        }
    }

    /// The number whose value is `n`.
    pub fn from_u32(n: u32) -> (r: Binary64)
        ensures
            r.represents(n as nat),
            r == Binary64::of_nat(n as nat),
    {
        let r = Binary64::exactly(n);
        proof {
            lemma_represents_unique(r, Binary64::of_nat(n as nat), n as nat);
        }
        r
    }

    /// A number whose value is `n`.
    fn exactly(n: u32) -> (r: Binary64)
        ensures
            r.represents(n as nat),
    {
        proof {
            lemma2_to64();
            lemma2_to64_rest();
        }
        if n == 0 {
            return Binary64 { bits: 0 };
        }
        let mut scaled: u64 = n as u64;
        let mut e: u64 = 1075;
        assert(scaled == n * pow2(0)) by (nonlinear_arith)
            requires
                scaled == n,
                pow2(0) == 1,
        ;
        while scaled < HIDDEN_BIT
            invariant
                n >= 1,
                1023 <= e <= 1075,
                scaled == n * pow2((1075 - e) as nat),
                scaled < 2 * HIDDEN_BIT,
                pow2(52) == HIDDEN_BIT,
            decreases e,
        {
            proof {
                let s = (1075 - e) as nat;
                let p = pow2(s) as int;
                assert(p <= n * p) by (nonlinear_arith)
                    requires
                        n >= 1,
                        p >= 0,
                ;
                if s >= 52 {
                    if s > 52 {
                        lemma_pow2_strictly_increases(52, s);
                    }
                    assert(false);
                }
                lemma_pow2_unfold(s + 1);
                assert(n * (2 * p) == 2 * (n * p)) by (nonlinear_arith);
            }
            scaled = scaled * 2;
            e = e - 1;
        }
        let r = Binary64 { bits: e * HIDDEN_BIT + (scaled - HIDDEN_BIT) };
        proof {
            let low = (scaled - HIDDEN_BIT) as int;
            let h = HIDDEN_BIT as int;
            assert((e * h + low) / h == e && (e * h + low) % h == low) by (nonlinear_arith)
                requires
                    0 <= low < h,
                    h > 0,
                    e >= 0,
            ;
            assert(r.biased_exponent() == e);
            assert(r.fraction() == low);
            assert(r.significand() == scaled);
            assert(r.scale() == e - 1075);
            if e == 1075 {
                assert(scaled * pow2(0) == n) by (nonlinear_arith)
                    requires
                        scaled == n * pow2(0),
                        pow2(0) == 1,
                ;
            }
        }
        r
    }
}

/// A natural number has one form only: what `from_u32` returns is fixed by
/// what it ensures.
pub proof fn lemma_represents_unique(a: Binary64, b: Binary64, n: nat)
    requires
        a.represents(n),
        b.represents(n),
    ensures
        a == b,
{
    lemma_form(a);
    lemma_form(b);
    let (ma, mb) = (a.significand(), b.significand());
    if n == 0 {
        lemma_pow2_pos(vstd::math::abs(a.scale()) as nat);
        lemma_pow2_pos(vstd::math::abs(b.scale()) as nat);
        let (pa, pb) = (pow2(vstd::math::abs(a.scale()) as nat) as int, pow2(vstd::math::abs(b.scale()) as nat) as int);
        assert(ma == 0) by (nonlinear_arith)
            requires
                ma * pa == 0 || ma == 0 * pa,
                pa > 0,
        ;
        assert(mb == 0) by (nonlinear_arith)
            requires
                mb * pb == 0 || mb == 0 * pb,
                pb > 0,
        ;
    } else {
        lemma_normal(a, n);
        lemma_normal(b, n);
        lemma_scale_not_below(a, b, n);
        lemma_scale_not_below(b, a, n);
        {
            let s = vstd::math::abs(a.scale()) as nat;
            let p = pow2(s) as int;
            lemma_pow2_pos(s);
            assert(ma == mb) by (nonlinear_arith)
                requires
                    (ma * p == n && mb * p == n) || (ma == n * p && mb == n * p),
                    p > 0,
            ;
        }
    }
}

/// The bits are the three fields side by side.
proof fn lemma_form(a: Binary64)
    ensures
        0 <= a.fraction() < HIDDEN_BIT,
        0 <= a.biased_exponent() <= EXPONENT_MAX,
        a.bits == (if a.negative() {
            SIGN_BIT as int
        } else {
            0
        }) + a.biased_exponent() * HIDDEN_BIT + a.fraction(),
{
}

/// The form of a positive natural number is normal: its leading 1 is there.
proof fn lemma_normal(a: Binary64, n: nat)
    requires
        a.represents(n),
        n > 0,
    ensures
        a.biased_exponent() > 0,
        HIDDEN_BIT <= a.significand() < 2 * HIDDEN_BIT,
        a.scale() == a.biased_exponent() - 1075,
{
    lemma_form(a);
    if a.biased_exponent() == 0 {
        lemma2_to64_rest();
        lemma_pow2_strictly_increases(52, 1074);
        let p = pow2(1074) as int;
        assert(n * p >= p) by (nonlinear_arith)
            requires
                n >= 1,
                p >= 0,
        ;
    }
}

/// Of two normal forms of one number, neither has the smaller scale.
proof fn lemma_scale_not_below(a: Binary64, b: Binary64, n: nat)
    requires
        a.represents(n),
        b.represents(n),
        n > 0,
    ensures
        a.scale() >= b.scale(),
{
    lemma_normal(a, n);
    lemma_normal(b, n);
    if a.scale() >= b.scale() {
        return ;
    }
    let (ma, mb) = (a.significand(), b.significand());
    let d = (b.scale() - a.scale()) as nat;
    let pd = pow2(d) as int;
    lemma_pow2_unfold(d);
    lemma_pow2_pos((d - 1) as nat);
    assert(pd >= 2);
    // ma == mb * 2^d, whatever the signs of the two scales
    if a.scale() >= 0 {
        let pa = pow2(a.scale() as nat) as int;
        vstd::arithmetic::power2::lemma_pow2_adds(a.scale() as nat, d);
        lemma_pow2_pos(a.scale() as nat);
        assert(ma == mb * pd) by (nonlinear_arith)
            requires
                ma * pa == n,
                mb * (pa * pd) == n,
                pa > 0,
        ;
    } else if b.scale() >= 0 {
        let pa = pow2((-a.scale()) as nat) as int;
        let pb = pow2(b.scale() as nat) as int;
        vstd::arithmetic::power2::lemma_pow2_adds((-a.scale()) as nat, b.scale() as nat);
        assert(ma == mb * pd) by (nonlinear_arith)
            requires
                ma == n * pa,
                mb * pb == n,
                pd == pa * pb,
        ;
    } else {
        let pa = pow2((-a.scale()) as nat) as int;
        let pb = pow2((-b.scale()) as nat) as int;
        vstd::arithmetic::power2::lemma_pow2_adds((-b.scale()) as nat, d);
        assert(ma == mb * pd) by (nonlinear_arith)
            requires
                ma == n * pa,
                mb == n * pb,
                pa == pb * pd,
        ;
    }
    assert(mb * pd >= mb * 2) by (nonlinear_arith)
        requires
            mb >= 0,
            pd >= 2,
    ;
}

} // verus!
