//! The difference of two numbers: the number nearest to the exact
//! difference, the one that ends in an even digit where two are as near.
use crate::binary64::{Binary64, EXPONENT_MAX, HIDDEN_BIT, SIGN_BIT};
use vstd::arithmetic::power2::{
    lemma2_to64, lemma2_to64_rest, lemma_pow2_adds, lemma_pow2_pos, lemma_pow2_strictly_increases,
    lemma_pow2_unfold, pow2,
};
use vstd::prelude::*;

verus! {

/// The number of binary digits of `n`.
pub open spec fn bit_length(n: nat) -> nat
    decreases n,
{
    if n == 0 {
        0
    } else {
        1 + bit_length(n / 2)
    }
}

/// `n / d` rounded to the nearest whole number, and to the even one of two
/// that are as near.
pub open spec fn round_half_even(n: nat, d: nat) -> nat {
    if 2 * (n % d) > d || (2 * (n % d) == d && (n / d) % 2 == 1) {
        n / d + 1
    } else {
        n / d
    }
}

/// Zero with the given sign.
pub open spec fn zero(negative: bool) -> Binary64 {
    Binary64 {
        bits: if negative {
            SIGN_BIT
        } else {
            0
        },
    }
}

/// The infinity with the given sign.
pub open spec fn infinity(negative: bool) -> Binary64 {
    Binary64 { bits: (zero(negative).bits + EXPONENT_MAX * HIDDEN_BIT) as u64 }
}

/// The value that is no number and stands for every result that is none.
pub open spec fn no_number() -> Binary64 {
    Binary64 { bits: 0x7FF8_0000_0000_0000 }
}

/// The number with the given sign, significand and scale: a significand
/// under `2^53`, with its leading 1 unless the scale is the least one.
pub open spec fn packed(negative: bool, significand: nat, scale: int) -> Binary64 {
    Binary64 {
        bits: (zero(negative).bits + (if significand < HIDDEN_BIT {
            0
        } else {
            (scale + 1075) * HIDDEN_BIT
        }) + significand % (HIDDEN_BIT as nat)) as u64,
    }
}

/// The number nearest to `magnitude * 2^scale`, with the given sign: as many
/// as 53 digits of the magnitude are kept, and no digit under `2^-1074`.
pub open spec fn rounded(negative: bool, magnitude: nat, scale: int) -> Binary64 {
    if magnitude == 0 {
        zero(negative)
    } else {
        let least = if scale + bit_length(magnitude) - 53 > -1074 {
            scale + bit_length(magnitude) - 53
        } else {
            -1074
        };
        let kept = if least <= scale {
            magnitude * pow2((scale - least) as nat)
        } else {
            round_half_even(magnitude, pow2((least - scale) as nat))
        };
        if kept == 2 * HIDDEN_BIT {
            if least + 1 > 971 {
                infinity(negative)
            } else {
                packed(negative, HIDDEN_BIT as nat, least + 1)
            }
        } else if least > 971 {
            infinity(negative)
        } else {
            packed(negative, kept, least)
        }
    }
}

impl Binary64 {
    /// The value is a number and no infinity.
    pub open spec fn is_finite(self) -> bool {
        self.biased_exponent() < EXPONENT_MAX
    }

    /// The significand with the sign of the number.
    pub open spec fn signed_significand(self) -> int {
        if self.negative() {
            -self.significand()
        } else {
            self.significand()
        }
    }

    /// The difference of two finite numbers. The exact difference is a whole
    /// number of times two to the lesser of the two scales.
    pub open spec fn finite_difference(self, other: Binary64) -> Binary64 {
        let scale = if self.scale() <= other.scale() {
            self.scale()
        } else {
            other.scale()
        };
        let exact = self.signed_significand() * pow2((self.scale() - scale) as nat)
            - other.signed_significand() * pow2((other.scale() - scale) as nat);
        if exact == 0 {
            zero(self.negative() && !other.negative())
        } else if exact < 0 {
            rounded(true, (-exact) as nat, scale)
        } else {
            rounded(false, exact as nat, scale)
        }
    }

    /// The difference `self - other`. No number comes of what is no number,
    /// and of two infinities of one sign.
    pub open spec fn difference(self, other: Binary64) -> Binary64 {
        if self.is_nan() || other.is_nan() {
            no_number()
        } else if !self.is_finite() {
            if !other.is_finite() && self.negative() == other.negative() {
                no_number()
            } else {
                infinity(self.negative())
            }
        } else if !other.is_finite() {
            infinity(!other.negative())
        } else {
            self.finite_difference(other)
        }
    }
}

/// A number that is not 0 lies between the powers of two of its number of
/// digits.
pub proof fn lemma_bit_length(n: nat)
    requires
        n > 0,
    ensures
        bit_length(n) >= 1,
        pow2((bit_length(n) - 1) as nat) <= n < pow2(bit_length(n)),
    decreases n,
{
    lemma2_to64();
    if n == 1 {
        assert(bit_length(0) == 0);
        assert(bit_length(1) == 1);
    } else {
        lemma_bit_length(n / 2);
        let b = bit_length(n / 2);
        lemma_pow2_unfold(b);
        lemma_pow2_unfold(b + 1);
    }
}

/// The number of digits of a number between two powers of two.
pub proof fn lemma_bit_length_is(n: nat, b: nat)
    requires
        b >= 1,
        pow2((b - 1) as nat) <= n < pow2(b),
    ensures
        bit_length(n) == b,
{
    lemma_pow2_pos((b - 1) as nat);
    lemma_bit_length(n);
    let c = bit_length(n);
    if c < b {
        if c < b - 1 {
            lemma_pow2_strictly_increases(c, (b - 1) as nat);
        }
    } else if c > b {
        if c - 1 > b {
            lemma_pow2_strictly_increases(b, (c - 1) as nat);
        }
    }
}

/// The powers of two at the ends of the range of 128 bits.
proof fn lemma_large_powers()
    ensures
        pow2(52) == HIDDEN_BIT,
        pow2(53) == 2 * HIDDEN_BIT,
        pow2(64) == 0x1_0000_0000_0000_0000,
        pow2(118) == 0x40_0000_0000_0000_0000_0000_0000_0000,
        pow2(127) == 0x8000_0000_0000_0000_0000_0000_0000_0000,
        pow2(128) == 0x1_0000_0000_0000_0000_0000_0000_0000_0000,
{
    lemma2_to64();
    lemma2_to64_rest();
    lemma_pow2_adds(64, 54);
    lemma_pow2_adds(64, 63);
    lemma_pow2_adds(64, 64);
}

/// The power of two with the exponent `s`.
fn power_of_two(s: u32) -> (r: u128)
    requires
        s <= 127,
    ensures
        r == pow2(s as nat),
{
    proof {
        lemma2_to64();
        lemma_large_powers();
    }
    let mut r: u128 = 1;
    let mut i: u32 = 0;
    while i < s
        invariant
            i <= s <= 127,
            r == pow2(i as nat),
            pow2(127) == 0x8000_0000_0000_0000_0000_0000_0000_0000,
        decreases s - i,
    {
        proof {
            lemma_pow2_unfold((i + 1) as nat);
            if i + 1 < 127 {
                lemma_pow2_strictly_increases((i + 1) as nat, 127);
            }
        }
        r = r * 2;
        i = i + 1;
    }
    r
}

/// The number of binary digits of `n`.
fn length_of(n: u128) -> (b: u32)
    ensures
        b == bit_length(n as nat),
        b <= 128,
{
    proof {
        lemma_large_powers();
    }
    let mut rest: u128 = n;
    let mut b: u32 = 0;
    while rest > 0
        invariant
            b <= 128,
            rest < pow2((128 - b) as nat),
            bit_length(n as nat) == b + bit_length(rest as nat),
        decreases rest,
    {
        proof {
            if b == 128 {
                lemma2_to64();
            } else {
                lemma_pow2_unfold((128 - b) as nat);
            }
        }
        rest = rest / 2;
        b = b + 1;
    }
    b
}

/// The number with the given sign, significand and scale.
fn pack(negative: bool, significand: u64, scale: i32) -> (r: Binary64)
    requires
        significand < 2 * HIDDEN_BIT,
        -1074 <= scale <= 971,
    ensures
        r == packed(negative, significand as nat, scale as int),
{
    let sign: u64 = if negative {
        SIGN_BIT
    } else {
        0
    };
    let exponent: u64 = if significand < HIDDEN_BIT {
        0
    } else {
        (scale + 1075) as u64 * HIDDEN_BIT
    };
    Binary64 { bits: sign + exponent + significand % HIDDEN_BIT }
}

/// The infinity with the given sign.
fn infinite(negative: bool) -> (r: Binary64)
    ensures
        r == infinity(negative),
{
    if negative {
        Binary64 { bits: SIGN_BIT + EXPONENT_MAX * HIDDEN_BIT }
    } else {
        Binary64 { bits: EXPONENT_MAX * HIDDEN_BIT }
    }
}

/// The number nearest to `magnitude * 2^scale`, with the given sign.
fn round(negative: bool, magnitude: u128, scale: i32) -> (r: Binary64)
    requires
        0 < magnitude < 0x40_0000_0000_0000_0000_0000_0000_0000,
        -1074 <= scale <= 971,
    ensures
        r == rounded(negative, magnitude as nat, scale as int),
{
    let digits = length_of(magnitude);
    proof {
        lemma_large_powers();
        lemma_bit_length(magnitude as nat);
        if digits > 118 {
            if digits - 1 > 118 {
                lemma_pow2_strictly_increases(118, (digits - 1) as nat);
            }
        }
    }
    let least: i32 = if scale + digits as i32 - 53 > -1074 {
        scale + digits as i32 - 53
    } else {
        -1074
    };
    let kept: u64 = if least <= scale {
        let s = (scale - least) as u32;
        let p = power_of_two(s);
        proof {
            lemma_pow2_adds(digits as nat, s as nat);
            if digits + s < 53 {
                lemma_pow2_strictly_increases((digits + s) as nat, 53);
            }
            lemma_pow2_pos(s as nat);
            assert(magnitude * p < pow2(digits as nat) * p) by (nonlinear_arith)
                requires
                    magnitude < pow2(digits as nat),
                    p > 0,
            ;
        }
        (magnitude * p) as u64
    } else {
        let s = (least - scale) as u32;
        let d = power_of_two(s);
        proof {
            lemma_pow2_pos(s as nat);
        }
        let floor = magnitude / d;
        let rest = magnitude % d;
        proof {
            lemma_pow2_adds(53, s as nat);
            lemma_pow2_pos(s as nat);
            if s < 66 {
                lemma_pow2_strictly_increases(s as nat, 66);
            }
            lemma_pow2_adds(64, 2);
            lemma2_to64();
            assert(floor < 2 * HIDDEN_BIT) by (nonlinear_arith)
                requires
                    floor == magnitude as int / d as int,
                    magnitude < 2 * HIDDEN_BIT * d,
                    d > 0,
            ;
        }
        if 2 * rest > d || (2 * rest == d && floor % 2 == 1) {
            (floor + 1) as u64
        } else {
            floor as u64
        }
    };
    if kept == 2 * HIDDEN_BIT {
        if least + 1 > 971 {
            infinite(negative)
        } else {
            pack(negative, HIDDEN_BIT, least + 1)
        }
    } else if least > 971 {
        infinite(negative)
    } else {
        pack(negative, kept, least)
    }
}

/// `m` with the given sign.
pub open spec fn signed(negative: bool, m: int) -> int {
    if negative {
        -m
    } else {
        m
    }
}

/// The sum of two numbers that are given by sign, significand and scale, the
/// one with the greater scale first; where the sum is zero, it is the zero
/// with the given sign.
pub open spec fn sum_of(
    first_negative: bool,
    first: nat,
    first_scale: int,
    second_negative: bool,
    second: nat,
    second_scale: int,
    zero_negative: bool,
) -> Binary64 {
    let exact = signed(
        first_negative,
        (first * pow2((first_scale - second_scale) as nat)) as int,
    ) + signed(
        second_negative,
        second as int,
    );
    if exact == 0 {
        zero(zero_negative)
    } else if exact < 0 {
        rounded(true, (-exact) as nat, second_scale)
    } else {
        rounded(false, exact as nat, second_scale)
    }
}

/// A number that is more than 64 digits under the last digit of another one
/// is lost in rounding their sum.
pub proof fn lemma_small_is_lost(
    negative: bool,
    large: nat,
    d: nat,
    small: nat,
    added: bool,
    scale: int,
)
    requires
        HIDDEN_BIT <= large < 2 * HIDDEN_BIT,
        d >= 65,
        small < 2 * HIDDEN_BIT,
        -1074 <= scale,
        scale + d <= 971,
    ensures
        large * pow2(d) > small,
        rounded(
            negative,
            (if added {
                (large * pow2(d)) as int + small
            } else {
                (large * pow2(d)) as int - small
            }) as nat,
            scale,
        ) == packed(negative, large, scale + d),
{
    lemma_large_powers();
    let h = HIDDEN_BIT as int;
    let p = pow2(d) as int;
    let q = pow2((d - 1) as nat) as int;
    lemma_pow2_unfold(d);
    lemma_pow2_unfold(65);
    if d > 65 {
        lemma_pow2_strictly_increases(65, d);
    }
    assert(p >= 0x2_0000_0000_0000_0000);
    assert(p == 2 * q);
    lemma_pow2_adds(52, d);
    lemma_pow2_adds(53, d);
    lemma_pow2_adds(52, (d - 1) as nat);
    assert(large * p >= h * p) by (nonlinear_arith)
        requires
            large >= h,
            p >= 0,
    ;
    assert(h * p >= 0x2_0000_0000_0000_0000 * h) by (nonlinear_arith)
        requires
            p >= 0x2_0000_0000_0000_0000,
            h >= 0,
    ;
    assert((large + 1) * p <= 2 * h * p) by (nonlinear_arith)
        requires
            large + 1 <= 2 * h,
            p >= 0,
    ;
    assert((large + 1) * p == large * p + p) by (nonlinear_arith);
    if added || small == 0 {
        let magnitude = (large * p + small) as nat;
        lemma_bit_length_is(magnitude, 53 + d);
        vstd::arithmetic::div_mod::lemma_fundamental_div_mod_converse(
            magnitude as int,
            p,
            large as int,
            small as int,
        );
        assert(round_half_even(magnitude, pow2(d)) == large);
    } else if large > h {
        let magnitude = (large * p - small) as nat;
        assert((large - 1) * p == large * p - p) by (nonlinear_arith);
        assert((large - 1) * p >= h * p) by (nonlinear_arith)
            requires
                large - 1 >= h,
                p >= 0,
        ;
        lemma_bit_length_is(magnitude, 53 + d);
        vstd::arithmetic::div_mod::lemma_fundamental_div_mod_converse(
            magnitude as int,
            p,
            large - 1,
            p - small,
        );
        assert(round_half_even(magnitude, pow2(d)) == large);
    } else {
        let magnitude = (h * p - small) as nat;
        assert(h * p == 2 * h * q) by (nonlinear_arith)
            requires
                p == 2 * q,
        ;
        assert((2 * h - 1) * q == 2 * h * q - q) by (nonlinear_arith);
        assert(h * q >= 0x1_0000_0000_0000_0000 * h) by (nonlinear_arith)
            requires
                q >= 0x1_0000_0000_0000_0000,
                h >= 0,
        ;
        lemma_bit_length_is(magnitude, 52 + d);
        vstd::arithmetic::div_mod::lemma_fundamental_div_mod_converse(
            magnitude as int,
            q,
            2 * h - 1,
            q - small,
        );
        assert(round_half_even(magnitude, pow2((d - 1) as nat)) == 2 * h);
    }
}

/// A finite number is the number of its sign, its significand and its
/// scale.
pub proof fn lemma_packed_parts(x: Binary64)
    requires
        x.is_finite(),
    ensures
        packed(x.negative(), x.significand() as nat, x.scale()) == x,
        0 <= x.significand() < 2 * HIDDEN_BIT,
        -1074 <= x.scale() <= 971,
        x.scale() > -1074 ==> x.significand() >= HIDDEN_BIT,
{
    crate::binary64::lemma_form(x);
    let f = x.fraction();
    let h = HIDDEN_BIT as int;
    if x.biased_exponent() != 0 {
        assert((f + h) % h == f) by {
            vstd::arithmetic::div_mod::lemma_fundamental_div_mod_converse(f + h, h, 1, f);
        }
    } else {
        assert(f % h == f) by {
            vstd::arithmetic::div_mod::lemma_fundamental_div_mod_converse(f, h, 0, f);
        }
    }
}

/// The difference of two finite numbers is the sum of the first and of the
/// second with the other sign.
pub proof fn lemma_difference_is_sum(a: Binary64, b: Binary64)
    requires
        a.is_finite(),
        b.is_finite(),
    ensures
        a.scale() >= b.scale() ==> a.finite_difference(b) == sum_of(
            a.negative(),
            a.significand() as nat,
            a.scale(),
            !b.negative(),
            b.significand() as nat,
            b.scale(),
            a.negative() && !b.negative(),
        ),
        a.scale() < b.scale() ==> a.finite_difference(b) == sum_of(
            !b.negative(),
            b.significand() as nat,
            b.scale(),
            a.negative(),
            a.significand() as nat,
            a.scale(),
            a.negative() && !b.negative(),
        ),
{
    lemma2_to64();
    lemma_packed_parts(a);
    lemma_packed_parts(b);
    let ma = a.significand();
    let mb = b.significand();
    let sa = a.signed_significand();
    let sb = b.signed_significand();
    if a.scale() >= b.scale() {
        let d = (a.scale() - b.scale()) as nat;
        let p = pow2(d) as int;
        let exact = sa * p - sb * (pow2(0) as int);
        let other = signed(a.negative(), ((ma as nat) * pow2(d)) as int) + signed(
            !b.negative(),
            mb,
        );
        assert(sb * 1 == sb);
        assert((-ma) * p == -(ma * p)) by (nonlinear_arith);
        assert(((ma as nat) * pow2(d)) as int == ma * p) by (nonlinear_arith)
            requires
                ma >= 0,
                p == pow2(d),
        ;
        assert(exact == other);
        assert((b.scale() - b.scale()) as nat == 0);
    } else {
        let d = (b.scale() - a.scale()) as nat;
        let p = pow2(d) as int;
        let exact = sa * (pow2(0) as int) - sb * p;
        let other = signed(!b.negative(), ((mb as nat) * pow2(d)) as int) + signed(
            a.negative(),
            ma,
        );
        assert(sa * 1 == sa);
        assert((-mb) * p == -(mb * p)) by (nonlinear_arith);
        assert(((mb as nat) * pow2(d)) as int == mb * p) by (nonlinear_arith)
            requires
                mb >= 0,
                p == pow2(d),
        ;
        assert(exact == other);
        assert((a.scale() - a.scale()) as nat == 0);
    }
}

/// The fields of a number that is made of a significand with its leading 1.
pub proof fn lemma_packed_normal(negative: bool, significand: nat, scale: int)
    requires
        HIDDEN_BIT <= significand < 2 * HIDDEN_BIT,
        -1074 <= scale <= 971,
    ensures
        packed(negative, significand, scale).negative() == negative,
        packed(negative, significand, scale).is_finite(),
        packed(negative, significand, scale).significand() == significand,
        packed(negative, significand, scale).scale() == scale,
{
    let h = HIDDEN_BIT as int;
    let e = scale + 1075;
    let f = significand - h;
    let top: int = if negative {
        2048
    } else {
        0
    };
    vstd::arithmetic::div_mod::lemma_fundamental_div_mod_converse(significand as int, h, 1, f);
    assert(e * h <= 2046 * h) by (nonlinear_arith)
        requires
            e <= 2046,
            h >= 0,
    ;
    assert(0 <= e * h) by (nonlinear_arith)
        requires
            e >= 0,
            h >= 0,
    ;
    let bits = zero(negative).bits + e * h + f;
    assert(bits == (top + e) * h + f) by (nonlinear_arith)
        requires
            bits == top * h + e * h + f,
    ;
    vstd::arithmetic::div_mod::lemma_fundamental_div_mod_converse(bits, h, top + e, f);
    vstd::arithmetic::div_mod::lemma_fundamental_div_mod_converse(
        top + e,
        2048,
        if negative {
            1
        } else {
            0
        },
        e,
    );
}

/// A natural number under `2^53` is its significand, scaled down.
proof fn lemma_whole_form(z: Binary64, c: nat)
    requires
        z.represents(c),
        c < 2 * HIDDEN_BIT,
    ensures
        z.is_finite(),
        !z.negative(),
        -1074 <= z.scale() <= 0,
        z.significand() == c * pow2((-z.scale()) as nat),
{
    lemma2_to64();
    crate::binary64::lemma_form(z);
    let m = z.significand();
    let s = z.scale();
    if s >= 0 {
        let p = pow2(s as nat) as int;
        if s > 0 {
            lemma_pow2_strictly_increases(0, s as nat);
            assert(m * p >= 2 * HIDDEN_BIT) by (nonlinear_arith)
                requires
                    m >= HIDDEN_BIT,
                    p >= 2,
            ;
        }
        assert(m * p == m && c * p == c) by (nonlinear_arith)
            requires
                p == 1,
        ;
    }
}

/// A natural number under `2^53`, written with digits below the point that
/// are all 0, is rounded to itself.
proof fn lemma_rounded_whole(n: nat, scale: int)
    requires
        0 < n < 2 * HIDDEN_BIT,
        -1074 <= scale <= 0,
    ensures
        rounded(false, n * pow2((-scale) as nat), scale).represents(n),
{
    lemma2_to64();
    lemma_large_powers();
    let digits = bit_length(n);
    lemma_bit_length(n);
    if digits > 53 {
        if digits - 1 > 53 {
            lemma_pow2_strictly_increases(53, (digits - 1) as nat);
        }
    }
    assert(digits <= 53);
    let q = pow2((-scale) as nat);
    let exact = n * q;
    lemma_pow2_pos((-scale) as nat);
    lemma_pow2_adds((digits - 1) as nat, (-scale) as nat);
    lemma_pow2_adds(digits, (-scale) as nat);
    assert(pow2((digits - 1) as nat) * q <= n * q < pow2(digits) * q) by (nonlinear_arith)
        requires
            pow2((digits - 1) as nat) <= n < pow2(digits),
            q > 0,
    ;
    lemma_bit_length_is(exact, (digits - scale) as nat);
    let least = digits - 53;
    let up = pow2((-least) as nat);
    let kept = n * up;
    lemma_pow2_pos((-least) as nat);
    lemma_pow2_adds((digits - 1) as nat, (-least) as nat);
    lemma_pow2_adds(digits, (-least) as nat);
    assert(pow2((digits - 1) as nat) * up <= n * up < pow2(digits) * up) by (nonlinear_arith)
        requires
            pow2((digits - 1) as nat) <= n < pow2(digits),
            up > 0,
    ;
    assert(HIDDEN_BIT <= kept < 2 * HIDDEN_BIT);
    if least <= scale {
        let more = pow2((scale - least) as nat);
        lemma_pow2_adds((-scale) as nat, (scale - least) as nat);
        assert(exact * more == kept) by (nonlinear_arith)
            requires
                exact == n * q,
                q * more == up,
                kept == n * up,
        ;
    } else {
        let less = pow2((least - scale) as nat);
        lemma_pow2_pos((least - scale) as nat);
        lemma_pow2_adds((-least) as nat, (least - scale) as nat);
        assert(exact == less * kept + 0) by (nonlinear_arith)
            requires
                exact == n * q,
                up * less == q,
                kept == n * up,
        ;
        vstd::arithmetic::div_mod::lemma_fundamental_div_mod_converse(
            exact as int,
            less as int,
            kept as int,
            0,
        );
        assert(round_half_even(exact, less) == kept);
    }
    lemma_packed_normal(false, kept, least);
    assert(rounded(false, exact, scale) == packed(false, kept, least));
    if least == 0 {
        assert(kept * pow2(0) == n) by (nonlinear_arith)
            requires
                kept == n * up,
                up == 1,
                pow2(0) == 1,
        ;
    }
}

/// The difference of two natural numbers under `2^53`, the lesser taken from
/// the greater, is the natural number that is their difference.
pub proof fn lemma_difference_of_whole_numbers(x: Binary64, y: Binary64, a: nat, b: nat)
    requires
        x.represents(a),
        y.represents(b),
        b <= a < 2 * HIDDEN_BIT,
    ensures
        x.difference(y).represents((a - b) as nat),
{
    lemma2_to64();
    lemma_whole_form(x, a);
    lemma_whole_form(y, b);
    let n = (a - b) as nat;
    let (mx, my) = (x.significand(), y.significand());
    let (sx, sy) = (x.scale(), y.scale());
    let s = if sx <= sy {
        sx
    } else {
        sy
    };
    let q = pow2((-s) as nat);
    let px = pow2((sx - s) as nat);
    let py = pow2((sy - s) as nat);
    let exact = mx * px - my * py;
    lemma_pow2_pos((-s) as nat);
    lemma_pow2_adds((-sx) as nat, (sx - s) as nat);
    lemma_pow2_adds((-sy) as nat, (sy - s) as nat);
    assert(mx * px == a * q) by (nonlinear_arith)
        requires
            mx == a * pow2((-sx) as nat),
            pow2((-sx) as nat) * px == q,
    ;
    assert(my * py == b * q) by (nonlinear_arith)
        requires
            my == b * pow2((-sy) as nat),
            pow2((-sy) as nat) * py == q,
    ;
    assert(exact == n * q) by (nonlinear_arith)
        requires
            exact == a * q - b * q,
            n == a - b,
    ;
    assert(x.signed_significand() == mx);
    assert(y.signed_significand() == my);
    if n == 0 {
        assert(exact == 0) by (nonlinear_arith)
            requires
                exact == n * q,
                n == 0,
        ;
        let r = zero(false);
        assert(r.bits == 0);
        assert(r.significand() == 0 * pow2(1074)) by (nonlinear_arith)
            requires
                r.significand() == 0,
        ;
        assert(x.difference(y) == r);
    } else {
        assert(exact > 0) by (nonlinear_arith)
            requires
                exact == n * q,
                n >= 1,
                q >= 1,
        ;
        lemma_rounded_whole(n, s);
        assert(x.difference(y) == rounded(false, exact as nat, s));
    }
}

/// The sum of two numbers that are given by sign, significand and scale, the
/// one with the greater scale first.
fn sum(
    first_negative: bool,
    first: u64,
    first_scale: i32,
    second_negative: bool,
    second: u64,
    second_scale: i32,
    zero_negative: bool,
) -> (r: Binary64)
    requires
        first < 2 * HIDDEN_BIT,
        second < 2 * HIDDEN_BIT,
        -1074 <= second_scale <= first_scale <= 971,
        first_scale > -1074 ==> first >= HIDDEN_BIT,
    ensures
        r == sum_of(
            first_negative,
            first as nat,
            first_scale as int,
            second_negative,
            second as nat,
            second_scale as int,
            zero_negative,
        ),
{
    let d = (first_scale - second_scale) as u32;
    if d > 64 {
        proof {
            lemma_small_is_lost(
                first_negative,
                first as nat,
                d as nat,
                second as nat,
                first_negative == second_negative,
                second_scale as int,
            );
        }
        return pack(first_negative, first, first_scale);
    }
    let p = power_of_two(d);
    proof {
        lemma_large_powers();
        if d < 64 {
            lemma_pow2_strictly_increases(d as nat, 64);
        }
        assert(first as int * p as int <= 2 * HIDDEN_BIT * 0x1_0000_0000_0000_0000)
            by (nonlinear_arith)
            requires
                0 <= first < 2 * HIDDEN_BIT,
                0 <= p <= 0x1_0000_0000_0000_0000,
        ;
    }
    let scaled: u128 = first as u128 * p;
    let (negative, magnitude): (bool, u128) = if first_negative == second_negative {
        (first_negative, scaled + second as u128)
    } else if scaled >= second as u128 {
        (first_negative, scaled - second as u128)
    } else {
        (second_negative, second as u128 - scaled)
    };
    if magnitude == 0 {
        if zero_negative {
            Binary64 { bits: SIGN_BIT }
        } else {
            Binary64 { bits: 0 }
        }
    } else {
        round(negative, magnitude, second_scale)
    }
}

impl Binary64 {
    /// The sign, the significand and the scale of a finite number.
    fn parts(self) -> (r: (bool, u64, i32))
        requires
            self.is_finite(),
        ensures
            r.0 == self.negative(),
            r.1 == self.significand(),
            r.2 == self.scale(),
    {
        let e = self.exponent_field();
        let f = self.fraction_field();
        if e == 0 {
            (self.bits >= SIGN_BIT, f, -1074)
        } else {
            (self.bits >= SIGN_BIT, f + HIDDEN_BIT, e as i32 - 1075)
        }
    }

    /// The difference `self - other`, as the subtraction of the machine
    /// gives it. What is no number is always the same value here.
    pub fn sub(self, other: Binary64) -> (r: Binary64)
        ensures
            r == self.difference(other),
    {
        if self.nan() || other.nan() {
            return Binary64 { bits: 0x7FF8_0000_0000_0000 };
        }
        let finite = self.exponent_field() < EXPONENT_MAX;
        let other_finite = other.exponent_field() < EXPONENT_MAX;
        if !finite {
            if !other_finite && (self.bits >= SIGN_BIT) == (other.bits >= SIGN_BIT) {
                return Binary64 { bits: 0x7FF8_0000_0000_0000 };
            }
            return infinite(self.bits >= SIGN_BIT);
        }
        if !other_finite {
            return infinite(other.bits < SIGN_BIT);
        }
        let (negative, significand, scale) = self.parts();
        let (other_negative, other_significand, other_scale) = other.parts();
        proof {
            lemma_packed_parts(self);
            lemma_packed_parts(other);
            lemma_difference_is_sum(self, other);
        }
        let zero_negative = negative && !other_negative;
        if scale >= other_scale {
            sum(
                negative,
                significand,
                scale,
                !other_negative,
                other_significand,
                other_scale,
                zero_negative,
            )
        } else {
            sum(
                !other_negative,
                other_significand,
                other_scale,
                negative,
                significand,
                scale,
                zero_negative,
            )
        }
    }
}

} // verus!
