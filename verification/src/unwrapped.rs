//! Fixed-point arithmetic that treats overflow as a caller defect.
//!
//! Every operation here is exact: its precondition names the inputs on which
//! the mathematical result is representable, and its postcondition pins the
//! result's bit pattern down as a function of the operands' bit patterns and
//! the scale `2^FRAC`.

use vstd::prelude::*;

verus! {

use vstd::arithmetic::power2::lemma2_to64;
use vstd::arithmetic::power2::lemma_pow2_pos;
use vstd::arithmetic::power2::lemma_pow2_strictly_increases;
use vstd::arithmetic::power2::lemma_pow2_unfold;
use vstd::arithmetic::power2::pow2;

use crate::log10::pow10;
use crate::log10::IntFracLog10;
use crate::num::Fixed;

/// Wrapper for arithmetic operations that panic on overflow: here, overflow
/// is excluded by precondition, so every operation is total and exact on its
/// stated domain.
///
/// The underlying value can be retrieved through the `.0` index.
#[derive(Clone, Copy, Debug, Hash, PartialEq, Eq, PartialOrd, Ord)]
pub struct Unwrapped<F>(pub F);

/// `bits` rounded down to a multiple of `d`.
pub open spec fn floor_to(bits: int, d: int) -> int {
    (bits / d) * d
}

/// `bits` rounded up to a multiple of `d`.
pub open spec fn ceil_to(bits: int, d: int) -> int {
    ((bits + d - 1) / d) * d
}

/// `bits` rounded toward zero to a multiple of `d`.
pub open spec fn trunc_to(bits: int, d: int) -> int {
    if bits >= 0 {
        floor_to(bits, d)
    } else {
        ceil_to(bits, d)
    }
}

/// `bits` rounded to the nearest multiple of `d`, ties away from zero.
pub open spec fn round_half_away_to(bits: int, d: int) -> int {
    if bits >= 0 {
        if 2 * (bits % d) >= d {
            floor_to(bits, d) + d
        } else {
            floor_to(bits, d)
        }
    } else {
        if 2 * ((-bits) % d) >= d {
            -(floor_to(-bits, d) + d)
        } else {
            -floor_to(-bits, d)
        }
    }
}

/// Euclidean division: the quotient that leaves a remainder in
/// `[0, |d|)`.
pub open spec fn euclid_div(a: int, d: int) -> int {
    if d >= 0 {
        a / d
    } else {
        -(a / (-d))
    }
}

/// `bits` rounded to the nearest multiple of `d`, ties to the even multiple.
pub open spec fn round_half_even_to(bits: int, d: int) -> int {
    if 2 * (bits % d) > d || (2 * (bits % d) == d && (bits / d) % 2 == 1) {
        floor_to(bits, d) + d
    } else {
        floor_to(bits, d)
    }
}

/// The number of one bits in the binary expansion of `x`.
pub open spec fn pop_count(x: nat) -> nat
    decreases x,
{
    if x == 0 {
        0
    } else {
        x % 2 + pop_count(x / 2)
    }
}

/// A value below `2^n` has at most `n` one bits.
proof fn lemma_pop_count_bound(x: nat, n: nat)
    requires
        x < pow2(n),
    ensures
        pop_count(x) <= n,
    decreases n,
{
    if n == 0 {
        assert(pow2(0) == 1) by {
            lemma2_to64();
        }
    } else {
        lemma_pow2_unfold(n);
        lemma_pow2_pos((n - 1) as nat);
        lemma_pop_count_bound(x / 2, (n - 1) as nat);
    }
}

/// `2^n`, computed by doubling.
fn pow2_u64(n: u32) -> (r: u64)
    requires
        n <= 32,
    ensures
        r as nat == pow2(n as nat),
        1 <= r <= 0x1_0000_0000u64,
{
    let mut r: u64 = 1;
    let mut i: u32 = 0;
    proof {
        lemma2_to64();
    }
    while i < n
        invariant
            i <= n <= 32,
            r as nat == pow2(i as nat),
            r <= 0x1_0000_0000u64,
        decreases n - i,
    {
        proof {
            lemma_pow2_unfold((i + 1) as nat);
            lemma2_to64();
            if i + 1 < 32 {
                lemma_pow2_strictly_increases((i + 1) as nat, 32);
            }
        }
        r = r * 2;
        i = i + 1;
    }
    r
}

/// Division rounding toward negative infinity, for a positive divisor.
fn div_floor_i64(a: i64, b: i64) -> (q: i64)
    requires
        b > 0,
        -0x4000_0000_0000_0000 <= a <= 0x4000_0000_0000_0000,
    ensures
        q == a as int / b as int,
        q * b <= a < q * b + b,
{
    let ghost ai = a as int;
    let ghost bi = b as int;
    if a >= 0 {
        let qu = a as u64 / b as u64;
        proof {
            vstd::arithmetic::div_mod::lemma_fundamental_div_mod(ai, bi);
            vstd::arithmetic::div_mod::lemma_mod_pos_bound(ai, bi);
            assert(qu as int == ai / bi);
            assert(0 <= ai / bi <= ai);
        }
        let q = qu as i64;
        proof {
            assert(q as int == ai / bi);
            assert(q * b <= a < q * b + b) by (nonlinear_arith)
                requires
                    q as int == ai / bi,
                    ai == bi * (ai / bi) + ai % bi,
                    0 <= ai % bi < bi,
                    ai == a as int,
                    bi == b as int,
            ;
        }
        q
    } else {
        let m = (-a) as u64;
        let bu = b as u64;
        let mq = m / bu;
        let mr = m % bu;
        proof {
            vstd::arithmetic::div_mod::lemma_fundamental_div_mod(m as int, bi);
        }
        if mr == 0 {
            let q = -(mq as i64);
            proof {
                assert(ai == q as int * bi + 0) by (nonlinear_arith)
                    requires
                        ai == -(m as int),
                        m as int == bi * (mq as int) + 0,
                        q as int == -(mq as int),
                ;
                vstd::arithmetic::div_mod::lemma_fundamental_div_mod_converse(ai, bi, q as int, 0);
            }
            q
        } else {
            let q = -(mq as i64) - 1;
            proof {
                assert(ai == q as int * bi + (bi - mr)) by (nonlinear_arith)
                    requires
                        ai == -(m as int),
                        m as int == bi * (mq as int) + mr,
                        q as int == -(mq as int) - 1,
                ;
                vstd::arithmetic::div_mod::lemma_fundamental_div_mod_converse(
                    ai,
                    bi,
                    q as int,
                    bi - mr,
                );
            }
            q
        }
    }
}

impl<const FRAC: u32> Unwrapped<Fixed<i32, FRAC>> {
    /// Creates a fixed-point number with the given underlying bit pattern.
    pub fn from_bits(bits: i32) -> (r: Unwrapped<Fixed<i32, FRAC>>)
        ensures
            r.0.spec_bits() == bits,
    {
        Unwrapped(Fixed::from_bits(bits))
    }

    /// The underlying bit pattern.
    pub fn to_bits(self) -> (r: i32)
        ensures
            r == self.0.spec_bits(),
    {
        self.0.to_bits()
    }

    /// True exactly when the value is zero.
    pub fn is_zero(self) -> (r: bool)
        ensures
            r == (self.0.spec_bits() == 0),
    {
        self.0.to_bits() == 0
    }

    /// True exactly when the value is greater than zero.
    pub fn is_positive(self) -> (r: bool)
        ensures
            r == (self.0.spec_bits() > 0),
    {
        self.0.to_bits() > 0
    }

    /// True exactly when the value is less than zero.
    pub fn is_negative(self) -> (r: bool)
        ensures
            r == (self.0.spec_bits() < 0),
    {
        self.0.to_bits() < 0
    }

    /// The absolute value.  The minimum has no representable negation, so it
    /// is excluded.
    pub fn abs(self) -> (r: Unwrapped<Fixed<i32, FRAC>>)
        requires
            self.0.spec_bits() != i32::MIN,
        ensures
            r.0.spec_bits() == if self.0.spec_bits() >= 0 {
                self.0.spec_bits() as int
            } else {
                -(self.0.spec_bits() as int)
            },
    {
        let b = self.0.to_bits();
        if b >= 0 {
            Unwrapped(Fixed::from_bits(b))
        } else {
            Unwrapped(Fixed::from_bits(-b))
        }
    }

    /// The distance between two values: the absolute difference, which must
    /// be representable.
    pub fn dist(self, other: Unwrapped<Fixed<i32, FRAC>>) -> (r: Unwrapped<Fixed<i32, FRAC>>)
        requires
            self.0.spec_bits() - other.0.spec_bits() <= i32::MAX,
            other.0.spec_bits() - self.0.spec_bits() <= i32::MAX,
        ensures
            r.0.spec_bits() == if self.0.spec_bits() >= other.0.spec_bits() {
                self.0.spec_bits() - other.0.spec_bits()
            } else {
                other.0.spec_bits() - self.0.spec_bits()
            },
    {
        let a = self.0.to_bits() as i64;
        let b = other.0.to_bits() as i64;
        let d = if a >= b {
            a - b
        } else {
            b - a
        };
        Unwrapped(Fixed::from_bits(d as i32))
    }

    /// The mean of two values, rounded toward negative infinity.  Never
    /// overflows: the mean lies between its operands.
    pub fn mean(self, other: Unwrapped<Fixed<i32, FRAC>>) -> (r: Unwrapped<Fixed<i32, FRAC>>)
        ensures
            r.0.spec_bits() == (self.0.spec_bits() + other.0.spec_bits()) / 2,
    {
        let a = self.0.to_bits() as i64;
        let b = other.0.to_bits() as i64;
        let m = div_floor_i64(a + b, 2);
        proof {
            let s = a + b;
            assert(2 * (s / 2) <= s < 2 * (s / 2) + 2);
        }
        Unwrapped(Fixed::from_bits(m as i32))
    }
}

/// For fewer than 32 fractional bits, rounding a representable bit pattern
/// down to a multiple of the scale stays representable: the minimum is itself
/// a multiple of every such scale.
proof fn lemma_floor_fits(b: int, f: u32)
    requires
        -0x8000_0000 <= b <= 0x7fff_ffff,
        f < 32,
    ensures
        -0x8000_0000 <= floor_to(b, pow2(f as nat) as int) <= b,
{
    let d = pow2(f as nat) as int;
    lemma_pow2_pos(f as nat);
    vstd::arithmetic::power2::lemma_pow2_adds((31 - f) as nat, f as nat);
    lemma2_to64();
    let h = pow2((31 - f) as nat) as int;
    assert(h * d == 0x8000_0000);
    assert((-0x8000_0000) == (-h) * d + 0) by (nonlinear_arith)
        requires
            h * d == 0x8000_0000,
    ;
    vstd::arithmetic::div_mod::lemma_fundamental_div_mod_converse(-0x8000_0000, d, -h, 0);
    vstd::arithmetic::div_mod::lemma_div_is_ordered(-0x8000_0000, b, d);
    vstd::arithmetic::mul::lemma_mul_inequality(-h, b / d, d);
    vstd::arithmetic::div_mod::lemma_fundamental_div_mod(b, d);
    vstd::arithmetic::div_mod::lemma_mod_bound(b, d);
}

impl<const FRAC: u32> Unwrapped<Fixed<i32, FRAC>> {
    /// The integer part: the fractional bits are zeroed, which rounds toward
    /// negative infinity.  With every bit fractional there is no integer
    /// part at all.
    pub fn int_part(self) -> (r: Unwrapped<Fixed<i32, FRAC>>)
        requires
            FRAC <= 32,
        ensures
            r.0.spec_bits() == if FRAC == 32 {
                0 as int
            } else {
                floor_to(self.0.spec_bits() as int, pow2(FRAC as nat) as int)
            },
    {
        if FRAC == 32 {
            return Unwrapped(Fixed::from_bits(0));
        }
        let d = pow2_u64(FRAC) as i64;
        let b = self.0.to_bits() as i64;
        let q = div_floor_i64(b, d);
        proof {
            lemma_floor_fits(b as int, FRAC);
        }
        let f = q * d;
        Unwrapped(Fixed::from_bits(f as i32))
    }

    /// The fractional part: the integer bits are zeroed, leaving the
    /// non-negative offset from the integer part below.  With every bit
    /// fractional the value already is its own fractional part.
    pub fn frac(self) -> (r: Unwrapped<Fixed<i32, FRAC>>)
        requires
            FRAC <= 32,
        ensures
            r.0.spec_bits() == if FRAC == 32 {
                self.0.spec_bits() as int
            } else {
                self.0.spec_bits() as int % (pow2(FRAC as nat) as int)
            },
    {
        if FRAC == 32 {
            return Unwrapped(Fixed::from_bits(self.0.to_bits()));
        }
        let d = pow2_u64(FRAC) as i64;
        let b = self.0.to_bits() as i64;
        let q = div_floor_i64(b, d);
        proof {
            lemma_floor_fits(b as int, FRAC);
            vstd::arithmetic::div_mod::lemma_fundamental_div_mod(b as int, d as int);
            vstd::arithmetic::div_mod::lemma_mod_bound(b as int, d as int);
            assert(q * d == (d as int) * ((b as int) / (d as int))) by (nonlinear_arith)
                requires
                    q as int == (b as int) / (d as int),
            ;
            assert(b - q * d == (b as int) % (d as int));
        }
        let f = b - q * d;
        Unwrapped(Fixed::from_bits(f as i32))
    }

    /// Rounds toward negative infinity.  The result must be representable:
    /// with every bit fractional, a negative value's floor is not.
    pub fn floor(self) -> (r: Unwrapped<Fixed<i32, FRAC>>)
        requires
            FRAC <= 32,
            floor_to(self.0.spec_bits() as int, pow2(FRAC as nat) as int) >= i32::MIN,
        ensures
            r.0.spec_bits() == floor_to(self.0.spec_bits() as int, pow2(FRAC as nat) as int),
    {
        let d = pow2_u64(FRAC) as i64;
        let b = self.0.to_bits() as i64;
        let q = div_floor_i64(b, d);
        let f = q * d;
        Unwrapped(Fixed::from_bits(f as i32))
    }

    /// Rounds toward positive infinity.  The result must be representable.
    pub fn ceil(self) -> (r: Unwrapped<Fixed<i32, FRAC>>)
        requires
            FRAC <= 32,
            ceil_to(self.0.spec_bits() as int, pow2(FRAC as nat) as int) <= i32::MAX,
        ensures
            r.0.spec_bits() == ceil_to(self.0.spec_bits() as int, pow2(FRAC as nat) as int),
    {
        let d = pow2_u64(FRAC) as i64;
        let b = self.0.to_bits() as i64;
        let q = div_floor_i64(b + d - 1, d);
        let f = q * d;
        Unwrapped(Fixed::from_bits(f as i32))
    }

    /// Rounds toward zero.  Always representable: the result is no farther
    /// from zero than the value itself.
    pub fn round_to_zero(self) -> (r: Unwrapped<Fixed<i32, FRAC>>)
        requires
            FRAC <= 32,
        ensures
            r.0.spec_bits() == trunc_to(self.0.spec_bits() as int, pow2(FRAC as nat) as int),
    {
        let d = pow2_u64(FRAC) as i64;
        let b = self.0.to_bits() as i64;
        if b >= 0 {
            let q = div_floor_i64(b, d);
            let f = q * d;
            Unwrapped(Fixed::from_bits(f as i32))
        } else {
            let q = div_floor_i64(b + d - 1, d);
            let f = q * d;
            proof {
                assert(f <= 0) by {
                    if q * d > 0 {
                        assert(q >= 1) by (nonlinear_arith)
                            requires
                                q * d > 0,
                                d > 0,
                        ;
                        assert(q * d >= d) by (nonlinear_arith)
                            requires
                                q >= 1,
                                d > 0,
                        ;
                    }
                }
            }
            Unwrapped(Fixed::from_bits(f as i32))
        }
    }

    /// Rounds to the nearest representable integer value, ties away from
    /// zero.  The result must be representable.
    pub fn round(self) -> (r: Unwrapped<Fixed<i32, FRAC>>)
        requires
            FRAC <= 32,
            round_half_away_to(self.0.spec_bits() as int, pow2(FRAC as nat) as int) >= i32::MIN,
            round_half_away_to(self.0.spec_bits() as int, pow2(FRAC as nat) as int) <= i32::MAX,
        ensures
            r.0.spec_bits() == round_half_away_to(
                self.0.spec_bits() as int,
                pow2(FRAC as nat) as int,
            ),
    {
        let d = pow2_u64(FRAC) as i64;
        let b = self.0.to_bits() as i64;
        if b >= 0 {
            let q = div_floor_i64(b, d);
            proof {
                vstd::arithmetic::div_mod::lemma_fundamental_div_mod(b as int, d as int);
            }
            let rem = b - q * d;
            let f = if 2 * rem >= d {
                q * d + d
            } else {
                q * d
            };
            Unwrapped(Fixed::from_bits(f as i32))
        } else {
            let m = -b;
            let q = div_floor_i64(m, d);
            proof {
                vstd::arithmetic::div_mod::lemma_fundamental_div_mod(m as int, d as int);
            }
            let rem = m - q * d;
            let f = if 2 * rem >= d {
                -(q * d + d)
            } else {
                -(q * d)
            };
            Unwrapped(Fixed::from_bits(f as i32))
        }
    }

    /// Rounds to the nearest representable integer value, ties to the even
    /// one.  The result must be representable.
    pub fn round_ties_even(self) -> (r: Unwrapped<Fixed<i32, FRAC>>)
        requires
            FRAC <= 32,
            round_half_even_to(self.0.spec_bits() as int, pow2(FRAC as nat) as int) >= i32::MIN,
            round_half_even_to(self.0.spec_bits() as int, pow2(FRAC as nat) as int) <= i32::MAX,
        ensures
            r.0.spec_bits() == round_half_even_to(
                self.0.spec_bits() as int,
                pow2(FRAC as nat) as int,
            ),
    {
        let d = pow2_u64(FRAC) as i64;
        let b = self.0.to_bits() as i64;
        let q = div_floor_i64(b, d);
        proof {
            vstd::arithmetic::div_mod::lemma_fundamental_div_mod(b as int, d as int);
        }
        let rem = b - q * d;
        proof {
            assert(q * d == (d as int) * ((b as int) / (d as int))) by (nonlinear_arith)
                requires
                    q as int == (b as int) / (d as int),
            ;
            assert(rem == (b as int) % (d as int));
            assert(-0x1_0000_0000 <= q <= 0x1_0000_0000) by (nonlinear_arith)
                requires
                    q * d <= b < q * d + d,
                    1 <= d <= 0x1_0000_0000,
                    -0x8000_0000 <= b <= 0x7fff_ffff,
            ;
        }
        let h = div_floor_i64(q, 2);
        proof {
            vstd::arithmetic::div_mod::lemma_fundamental_div_mod(q as int, 2);
            vstd::arithmetic::div_mod::lemma_mod_bound(q as int, 2);
            assert(q - 2 * h == (q as int) % 2);
        }
        let odd = q - 2 * h == 1;
        let f = if 2 * rem > d || (2 * rem == d && odd) {
            q * d + d
        } else {
            q * d
        };
        Unwrapped(Fixed::from_bits(f as i32))
    }

    /// The remainder of Euclidean division by `divisor`: always in
    /// `[0, |divisor|)`, whatever the signs.
    pub fn rem_euclid(self, divisor: Unwrapped<Fixed<i32, FRAC>>) -> (r: Unwrapped<
        Fixed<i32, FRAC>,
    >)
        requires
            divisor.0.spec_bits() != 0,
        ensures
            r.0.spec_bits() == self.0.spec_bits() as int % (
            if divisor.0.spec_bits() >= 0 {
                divisor.0.spec_bits() as int
            } else {
                -(divisor.0.spec_bits() as int)
            }),
    {
        let b = self.0.to_bits() as i64;
        let db = divisor.0.to_bits() as i64;
        let m = if db >= 0 {
            db
        } else {
            -db
        };
        let q = div_floor_i64(b, m);
        let rem = b - q * m;
        proof {
            vstd::arithmetic::div_mod::lemma_fundamental_div_mod(b as int, m as int);
            vstd::arithmetic::div_mod::lemma_mod_bound(b as int, m as int);
            assert(q * m == (m as int) * ((b as int) / (m as int))) by (nonlinear_arith)
                requires
                    q as int == (b as int) / (m as int),
            ;
        }
        Unwrapped(Fixed::from_bits(rem as i32))
    }

    /// Euclidean division by another fixed-point value: the integer quotient,
    /// carried as a fixed-point value, so the quotient scaled by `2^FRAC`
    /// must be representable.
    pub fn div_euclid(self, divisor: Unwrapped<Fixed<i32, FRAC>>) -> (r: Unwrapped<
        Fixed<i32, FRAC>,
    >)
        requires
            FRAC <= 32,
            divisor.0.spec_bits() != 0,
            i32::MIN <= euclid_div(self.0.spec_bits() as int, divisor.0.spec_bits() as int) * (
            pow2(FRAC as nat) as int) <= i32::MAX,
        ensures
            r.0.spec_bits() == euclid_div(self.0.spec_bits() as int, divisor.0.spec_bits() as int)
                * (pow2(FRAC as nat) as int),
    {
        let b = self.0.to_bits() as i64;
        let db = divisor.0.to_bits() as i64;
        let m = if db >= 0 {
            db
        } else {
            -db
        };
        let q0 = div_floor_i64(b, m);
        proof {
            assert(-0x8000_0000 <= q0 <= 0x7fff_ffff) by (nonlinear_arith)
                requires
                    q0 * m <= b < q0 * m + m,
                    1 <= m <= 0x1_0000_0000,
                    -0x8000_0000 <= b <= 0x7fff_ffff,
            ;
        }
        let q = if db >= 0 {
            q0
        } else {
            -q0
        };
        let d = pow2_u64(FRAC) as i64;
        proof {
            assert(q as int == euclid_div(b as int, db as int));
        }
        let f = q * d;
        Unwrapped(Fixed::from_bits(f as i32))
    }

    /// Euclidean division by an integer: the integer quotient of the value,
    /// carried as a fixed-point value, which must be representable.
    pub fn div_euclid_int(self, divisor: i32) -> (r: Unwrapped<Fixed<i32, FRAC>>)
        requires
            FRAC <= 32,
            divisor != 0,
            i32::MIN <= euclid_div(
                self.0.spec_bits() as int,
                divisor as int * (pow2(FRAC as nat) as int),
            ) * (pow2(FRAC as nat) as int) <= i32::MAX,
        ensures
            r.0.spec_bits() == euclid_div(
                self.0.spec_bits() as int,
                divisor as int * (pow2(FRAC as nat) as int),
            ) * (pow2(FRAC as nat) as int),
    {
        let b = self.0.to_bits() as i64;
        let da = if divisor >= 0 {
            divisor as i64
        } else {
            -(divisor as i64)
        };
        let dpow = pow2_u64(FRAC);
        proof {
            assert(1 <= (da as int) * (dpow as int) <= 0x8000_0000 * 0x1_0000_0000)
                by (nonlinear_arith)
                requires
                    1 <= da as int <= 0x8000_0000,
                    1 <= dpow as int <= 0x1_0000_0000,
            ;
        }
        let m = (da as u64) * dpow;
        let ghost mi = m as int;
        let q0: i64 = if b >= 0 {
            let qd = (b as u64) / m;
            proof {
                vstd::arithmetic::div_mod::lemma_fundamental_div_mod(b as int, mi);
                vstd::arithmetic::div_mod::lemma_mod_bound(b as int, mi);
            }
            qd as i64
        } else {
            let mb = (-b) as u64;
            let mq = mb / m;
            let mr = mb % m;
            proof {
                vstd::arithmetic::div_mod::lemma_fundamental_div_mod(mb as int, mi);
                vstd::arithmetic::div_mod::lemma_mod_bound(mb as int, mi);
            }
            if mr == 0 {
                proof {
                    assert(b as int == (-(mq as int)) * mi + 0) by (nonlinear_arith)
                        requires
                            b as int == -(mb as int),
                            mb as int == mi * (mq as int) + 0,
                    ;
                    vstd::arithmetic::div_mod::lemma_fundamental_div_mod_converse(
                        b as int,
                        mi,
                        -(mq as int),
                        0,
                    );
                }
                -(mq as i64)
            } else {
                proof {
                    assert(b as int == (-(mq as int) - 1) * mi + (mi - mr)) by (nonlinear_arith)
                        requires
                            b as int == -(mb as int),
                            mb as int == mi * (mq as int) + mr,
                            0 < mr < mi,
                    ;
                    vstd::arithmetic::div_mod::lemma_fundamental_div_mod_converse(
                        b as int,
                        mi,
                        -(mq as int) - 1,
                        mi - mr,
                    );
                }
                -(mq as i64) - 1
            }
        };
        let q = if divisor >= 0 {
            q0
        } else {
            -q0
        };
        proof {
            assert(q0 as int == (b as int) / mi);
            assert(mi == da as int * (pow2(FRAC as nat) as int));
            let pw = pow2(FRAC as nat) as int;
            if divisor >= 0 {
                assert(divisor as int * pw == mi);
            } else {
                assert(divisor as int * pw == -mi) by (nonlinear_arith)
                    requires
                        mi == (-(divisor as int)) * pw,
                ;
                assert(divisor as int * pw < 0);
            }
            assert(q as int == euclid_div(b as int, divisor as int * pw));
        }
        let f = q * (dpow as i64);
        Unwrapped(Fixed::from_bits(f as i32))
    }

    /// The Euclidean remainder after dividing by an integer: the modulus is
    /// the integer scaled to fixed-point, and the remainder, always
    /// non-negative, must be representable.
    pub fn rem_euclid_int(self, divisor: i32) -> (r: Unwrapped<Fixed<i32, FRAC>>)
        requires
            FRAC <= 32,
            divisor != 0,
            self.0.spec_bits() as int % (
            if divisor >= 0 {
                divisor as int
            } else {
                -(divisor as int)
            } * (pow2(FRAC as nat) as int)) <= i32::MAX,
        ensures
            r.0.spec_bits() == self.0.spec_bits() as int % (
            if divisor >= 0 {
                divisor as int
            } else {
                -(divisor as int)
            } * (pow2(FRAC as nat) as int)),
    {
        let b = self.0.to_bits() as i64;
        let da = if divisor >= 0 {
            divisor as i64
        } else {
            -(divisor as i64)
        };
        let d = pow2_u64(FRAC);
        proof {
            assert(1 <= (da as int) * (d as int) <= 0x8000_0000 * 0x1_0000_0000)
                by (nonlinear_arith)
                requires
                    1 <= da as int <= 0x8000_0000,
                    1 <= d as int <= 0x1_0000_0000,
            ;
        }
        let m = (da as u64) * d;
        let ghost mi = m as int;
        proof {
            assert(mi == da as int * (pow2(FRAC as nat) as int));
        }
        let rem: u64 = if b >= 0 {
            let r0 = (b as u64) % m;
            proof {
                vstd::arithmetic::div_mod::lemma_fundamental_div_mod(b as int, mi);
            }
            r0
        } else {
            let mb = ((-b) as u64) % m;
            let ghost nb = (-b) as int;
            proof {
                vstd::arithmetic::div_mod::lemma_fundamental_div_mod(nb, mi);
                vstd::arithmetic::div_mod::lemma_mod_bound(nb, mi);
            }
            if mb == 0 {
                proof {
                    assert(b as int == (-(nb / mi)) * mi + 0) by (nonlinear_arith)
                        requires
                            b as int == -nb,
                            nb == mi * (nb / mi) + 0,
                    ;
                    vstd::arithmetic::div_mod::lemma_fundamental_div_mod_converse(
                        b as int,
                        mi,
                        -(nb / mi),
                        0,
                    );
                }
                0
            } else {
                proof {
                    assert(b as int == (-(nb / mi) - 1) * mi + (mi - mb)) by (nonlinear_arith)
                        requires
                            b as int == -nb,
                            nb == mi * (nb / mi) + mb,
                            0 < mb < mi,
                    ;
                    vstd::arithmetic::div_mod::lemma_fundamental_div_mod_converse(
                        b as int,
                        mi,
                        -(nb / mi) - 1,
                        mi - mb,
                    );
                }
                m - mb
            }
        };
        Unwrapped(Fixed::from_bits(rem as i32))
    }

    /// Addition of an unsigned fixed-point value with the same scale.  The
    /// sum must be representable.
    pub fn add_unsigned(self, rhs: Fixed<u32, FRAC>) -> (r: Unwrapped<Fixed<i32, FRAC>>)
        requires
            self.0.spec_bits() + rhs.spec_bits() <= i32::MAX,
        ensures
            r.0.spec_bits() == self.0.spec_bits() + rhs.spec_bits(),
    {
        let b = self.0.to_bits() as i64;
        let u = rhs.to_bits() as i64;
        Unwrapped(Fixed::from_bits((b + u) as i32))
    }

    /// Subtraction of an unsigned fixed-point value with the same scale.  The
    /// difference must be representable.
    pub fn sub_unsigned(self, rhs: Fixed<u32, FRAC>) -> (r: Unwrapped<Fixed<i32, FRAC>>)
        requires
            self.0.spec_bits() - rhs.spec_bits() >= i32::MIN,
        ensures
            r.0.spec_bits() == self.0.spec_bits() - rhs.spec_bits(),
    {
        let b = self.0.to_bits() as i64;
        let u = rhs.to_bits() as i64;
        Unwrapped(Fixed::from_bits((b - u) as i32))
    }

    /// The base-10 logarithm of the value, rounded down: the unique `r` with
    /// `10^r <= bits / 2^FRAC < 10^(r+1)`.  Positive values only.
    pub fn int_log10(self) -> (r: i32)
        requires
            FRAC <= 32,
            self.0.spec_bits() > 0,
        ensures
            r >= 0 ==> pow10(r as nat) * pow2(FRAC as nat) <= self.0.spec_bits() < pow10(
                (r + 1) as nat,
            ) * pow2(FRAC as nat),
            r < 0 ==> self.0.spec_bits() * pow10((-r) as nat) >= pow2(FRAC as nat)
                && self.0.spec_bits() * pow10((-r - 1) as nat) < pow2(FRAC as nat),
    {
        let b = self.0.to_bits() as u64;
        let d = pow2_u64(FRAC);
        let ghost bi = b as int;
        let ghost di = d as int;
        let ipart = b / d;
        proof {
            vstd::arithmetic::div_mod::lemma_fundamental_div_mod(bi, di);
            vstd::arithmetic::div_mod::lemma_mod_bound(bi, di);
        }
        if ipart >= 1 {
            let r = (ipart as u32).int_part_log10();
            proof {
                let ii = ipart as int;
                assert(pow10(r as nat) * di <= bi && bi < pow10((r + 1) as nat) * di)
                    by (nonlinear_arith)
                    requires
                        pow10(r as nat) <= ii,
                        ii < pow10((r + 1) as nat),
                        bi == di * ii + bi % di,
                        0 <= bi % di < di,
                        di > 0,
                ;
            }
            r
        } else {
            let shift = pow2_u64(32 - FRAC);
            proof {
                vstd::arithmetic::power2::lemma_pow2_adds(FRAC as nat, (32 - FRAC) as nat);
                lemma2_to64();
                assert(di * 0 == 0) by (nonlinear_arith);
                assert(1 <= bi < di);
                assert(1 <= bi * (shift as int) < 0x1_0000_0000) by (nonlinear_arith)
                    requires
                        1 <= bi < di,
                        shift as int >= 1,
                        di * (shift as int) == 0x1_0000_0000,
                ;
            }
            let x = b * shift;
            let r = (x as u32).frac_part_log10();
            proof {
                let xi = x as int;
                let si = shift as int;
                let m = (-r) as nat;
                assert(bi * pow10(m) >= di) by (nonlinear_arith)
                    requires
                        xi * pow10(m) >= 0x1_0000_0000,
                        xi == bi * si,
                        di * si == 0x1_0000_0000,
                        si > 0,
                        di > 0,
                ;
                assert(bi * pow10((m - 1) as nat) < di) by (nonlinear_arith)
                    requires
                        xi * pow10((m - 1) as nat) < 0x1_0000_0000,
                        xi == bi * si,
                        di * si == 0x1_0000_0000,
                        si > 0,
                        di > 0,
                        bi >= 0,
                ;
            }
            r
        }
    }

    /// The number of bits required to represent the value in two's
    /// complement, counting one leading sign bit: the smallest `r` with
    /// `-2^(r-1) <= bits < 2^(r-1)`.
    pub fn signed_bits(self) -> (r: u32)
        ensures
            1 <= r <= 32,
            self.0.spec_bits() >= 0 ==> self.0.spec_bits() < pow2((r - 1) as nat) && (r > 1
                ==> self.0.spec_bits() >= pow2((r - 2) as nat)),
            self.0.spec_bits() < 0 ==> -(pow2((r - 1) as nat) as int) <= self.0.spec_bits() && (r
                > 1 ==> self.0.spec_bits() < -(pow2((r - 2) as nat) as int)),
    {
        proof {
            lemma2_to64();
        }
        let b = self.0.to_bits();
        if b >= 0 {
            bit_len_u32(b as u32) + 1
        } else {
            let m = -(b as i64);
            if m == 1 {
                1
            } else {
                let l = bit_len_u32((m - 1) as u32);
                proof {
                    lemma_pow2_unfold(l as nat);
                }
                l + 1
            }
        }
    }

    /// The sign as a fixed-point value: zero, one, or minus one.  One and
    /// minus one must be representable for the signs that actually occur.
    pub fn signum(self) -> (r: Unwrapped<Fixed<i32, FRAC>>)
        requires
            FRAC <= 32,
            self.0.spec_bits() > 0 ==> pow2(FRAC as nat) <= i32::MAX,
            self.0.spec_bits() < 0 ==> pow2(FRAC as nat) <= 0x8000_0000,
        ensures
            r.0.spec_bits() == if self.0.spec_bits() > 0 {
                pow2(FRAC as nat) as int
            } else if self.0.spec_bits() < 0 {
                -(pow2(FRAC as nat) as int)
            } else {
                0 as int
            },
    {
        let b = self.0.to_bits();
        if b == 0 {
            return Unwrapped(Fixed::from_bits(0));
        }
        let d = pow2_u64(FRAC) as i64;
        if b > 0 {
            Unwrapped(Fixed::from_bits(d as i32))
        } else {
            Unwrapped(Fixed::from_bits((-d) as i32))
        }
    }
}

/// The bit length of `x`: zero for zero, else the unique `r` with
/// `2^(r-1) <= x < 2^r`.
fn bit_len_u32(x: u32) -> (r: u32)
    ensures
        x == 0 <==> r == 0,
        r <= 32,
        r > 0 ==> pow2((r - 1) as nat) <= x < pow2(r as nat),
{
    let ghost b0 = x as int;
    let mut x = x;
    let mut n: u32 = 0;
    proof {
        lemma2_to64();
    }
    while x > 0
        invariant
            0 <= b0 < 0x1_0000_0000,
            n <= 32,
            (x as int) * (pow2(n as nat) as int) <= b0 < ((x as int) + 1) * (pow2(n as nat) as int),
            n > 0 ==> pow2((n - 1) as nat) <= b0,
            x == 0 ==> b0 < pow2(n as nat),
        decreases x,
    {
        let ghost xi = x as int;
        let ghost pn = pow2(n as nat) as int;
        proof {
            lemma_pow2_unfold((n + 1) as nat);
            lemma_pow2_pos(n as nat);
            vstd::arithmetic::div_mod::lemma_fundamental_div_mod(xi, 2);
            vstd::arithmetic::div_mod::lemma_mod_bound(xi, 2);
            assert((xi / 2) * (2 * pn) <= b0 < ((xi / 2) + 1) * (2 * pn)) by (nonlinear_arith)
                requires
                    xi * pn <= b0 < (xi + 1) * pn,
                    xi == 2 * (xi / 2) + xi % 2,
                    0 <= xi % 2 < 2,
                    pn > 0,
            ;
            assert(pn <= xi * pn) by (nonlinear_arith)
                requires
                    xi >= 1,
                    pn > 0,
            ;
            if n + 1 > 32 {
                lemma2_to64();
                assert(xi * pn >= pn) by (nonlinear_arith)
                    requires
                        xi >= 1,
                        pn > 0,
                ;
                assert(false);
            }
        }
        x = x / 2;
        n = n + 1;
        proof {
            if n == 32 && x > 0 {
                lemma2_to64();
                assert((x as int) * (pow2(32) as int) >= pow2(32)) by (nonlinear_arith)
                    requires
                        x as int >= 1,
                        pow2(32) > 0,
                ;
                assert(false);
            }
        }
    }
    n
}

impl<const FRAC: u32> Unwrapped<Fixed<u32, FRAC>> {
    /// Creates a fixed-point number with the given underlying bit pattern.
    pub fn from_bits(bits: u32) -> (r: Unwrapped<Fixed<u32, FRAC>>)
        ensures
            r.0.spec_bits() == bits,
    {
        Unwrapped(Fixed::from_bits(bits))
    }

    /// The underlying bit pattern.
    pub fn to_bits(self) -> (r: u32)
        ensures
            r == self.0.spec_bits(),
    {
        self.0.to_bits()
    }

    /// The number of bits needed to represent the value: zero only for zero,
    /// else the unique `r` with `2^(r-1) <= bits < 2^r`.
    pub fn significant_bits(self) -> (r: u32)
        ensures
            self.0.spec_bits() == 0 <==> r == 0,
            r <= 32,
            r > 0 ==> pow2((r - 1) as nat) <= self.0.spec_bits() < pow2(r as nat),
    {
        bit_len_u32(self.0.to_bits())
    }

    /// True exactly when the value is a power of two (any single bit set, in
    /// the integer or the fractional field).
    pub fn is_power_of_two(self) -> (r: bool)
        ensures
            r <==> exists|k: nat| k < 32 && self.0.spec_bits() == pow2(k),
    {
        let b = self.0.to_bits();
        if b == 0 {
            proof {
                assert forall|k: nat| k < 32 implies self.0.spec_bits() != pow2(k) by {
                    lemma_pow2_pos(k);
                }
            }
            return false;
        }
        let sb = self.significant_bits();
        let h = pow2_u64(sb - 1) as u32;
        let r = h == b;
        proof {
            if r {
                assert(self.0.spec_bits() == pow2((sb - 1) as nat));
            } else {
                assert forall|k: nat| k < 32 implies self.0.spec_bits() != pow2(k) by {
                    if k < (sb - 1) as nat {
                        lemma_pow2_strictly_increases(k, (sb - 1) as nat);
                    }
                    if k > (sb - 1) as nat {
                        lemma_pow2_strictly_increases((sb - 1) as nat, k);
                        lemma_pow2_strictly_increases((sb - 1) as nat, sb as nat);
                        if k >= sb as nat {
                            if k > sb as nat {
                                lemma_pow2_strictly_increases(sb as nat, k);
                            }
                        }
                    }
                }
            }
        }
        r
    }

    /// The highest one bit as a value: the largest power of two at most the
    /// value, or zero for zero.
    pub fn highest_one(self) -> (r: Unwrapped<Fixed<u32, FRAC>>)
        ensures
            self.0.spec_bits() == 0 ==> r.0.spec_bits() == 0,
            self.0.spec_bits() > 0 ==> exists|k: nat|
                k < 32 && r.0.spec_bits() == pow2(k) && pow2(k) <= self.0.spec_bits() < pow2(
                    k + 1,
                ),
    {
        let b = self.0.to_bits();
        if b == 0 {
            return Unwrapped(Fixed::from_bits(0));
        }
        let sb = self.significant_bits();
        let h = pow2_u64(sb - 1) as u32;
        proof {
            assert((sb - 1) as nat + 1 == sb as nat);
        }
        Unwrapped(Fixed::from_bits(h))
    }

    /// The smallest power of two at least the value.  It must be
    /// representable; zero gives the smallest positive value.
    pub fn next_power_of_two(self) -> (r: Unwrapped<Fixed<u32, FRAC>>)
        requires
            self.0.spec_bits() <= 0x8000_0000u32,
        ensures
            self.0.spec_bits() == 0 ==> r.0.spec_bits() == 1,
            self.0.spec_bits() > 0 ==> exists|k: nat|
                k <= 32 && r.0.spec_bits() == #[trigger] pow2(k) && self.0.spec_bits() <= pow2(k)
                    && (k > 0 ==> pow2((k - 1) as nat) < self.0.spec_bits()),
    {
        let b = self.0.to_bits();
        if b == 0 {
            return Unwrapped(Fixed::from_bits(1));
        }
        let sb = self.significant_bits();
        let h = pow2_u64(sb - 1) as u32;
        if h == b {
            proof {
                assert(b == pow2((sb - 1) as nat));
                if sb >= 2 {
                    lemma_pow2_strictly_increases((sb - 2) as nat, (sb - 1) as nat);
                }
            }
            Unwrapped(Fixed::from_bits(b))
        } else {
            proof {
                lemma2_to64();
                if sb == 32 {
                    assert(pow2(31) <= self.0.spec_bits());
                    assert(self.0.spec_bits() != pow2(31));
                    assert(false);
                }
                lemma_pow2_unfold(sb as nat);
            }
            let h2 = h * 2;
            proof {
                assert(h2 == pow2(sb as nat));
                assert((sb as nat - 1) + 1 == sb as nat);
            }
            Unwrapped(Fixed::from_bits(h2))
        }
    }

    /// The number of leading one bits in the underlying representation:
    /// the leading zeros of the bitwise complement.
    pub fn leading_ones(self) -> (r: u32)
        ensures
            self.0.spec_bits() == u32::MAX ==> r == 32,
            self.0.spec_bits() < u32::MAX ==> r < 32 && pow2((31 - r) as nat) <= u32::MAX
                - self.0.spec_bits() < pow2((32 - r) as nat),
    {
        let complement = Unwrapped(Fixed::<u32, FRAC>::from_bits(u32::MAX - self.0.to_bits()));
        complement.leading_zeros()
    }

    /// The number of trailing one bits in the underlying representation:
    /// the trailing zeros of the bitwise complement.
    pub fn trailing_ones(self) -> (r: u32)
        ensures
            self.0.spec_bits() == u32::MAX ==> r == 32,
            self.0.spec_bits() < u32::MAX ==> r < 32 && (u32::MAX - self.0.spec_bits()) as int % (
            pow2(r as nat) as int) == 0 && ((u32::MAX - self.0.spec_bits()) as int / (pow2(
                r as nat,
            ) as int)) % 2 == 1,
    {
        let complement = Unwrapped(Fixed::<u32, FRAC>::from_bits(u32::MAX - self.0.to_bits()));
        complement.trailing_zeros()
    }

    /// The number of one bits in the underlying representation.
    pub fn count_ones(self) -> (r: u32)
        ensures
            r == pop_count(self.0.spec_bits() as nat),
            r <= 32,
    {
        let ghost b0 = self.0.spec_bits() as nat;
        let mut x = self.0.to_bits();
        let mut n: u32 = 0;
        proof {
            lemma2_to64();
            lemma_pop_count_bound(b0, 32);
        }
        while x > 0
            invariant
                b0 < pow2(32),
                n + pop_count(x as nat) == pop_count(b0),
                pop_count(b0) <= 32,
            decreases x,
        {
            if x % 2 == 1 {
                n = n + 1;
            }
            x = x / 2;
        }
        n
    }

    /// The number of zero bits in the underlying representation.
    pub fn count_zeros(self) -> (r: u32)
        ensures
            r == 32 - pop_count(self.0.spec_bits() as nat),
    {
        32 - self.count_ones()
    }

    /// The number of leading zero bits in the underlying representation.
    pub fn leading_zeros(self) -> (r: u32)
        ensures
            self.0.spec_bits() == 0 ==> r == 32,
            self.0.spec_bits() > 0 ==> r < 32 && pow2((31 - r) as nat) <= self.0.spec_bits()
                < pow2((32 - r) as nat),
    {
        32 - self.significant_bits()
    }

    /// The number of trailing zero bits in the underlying representation.
    pub fn trailing_zeros(self) -> (r: u32)
        ensures
            self.0.spec_bits() == 0 ==> r == 32,
            self.0.spec_bits() > 0 ==> r < 32 && self.0.spec_bits() as int % (pow2(
                r as nat,
            ) as int) == 0 && (self.0.spec_bits() as int / (pow2(r as nat) as int)) % 2 == 1,
    {
        let ghost b0 = self.0.spec_bits() as int;
        let mut x = self.0.to_bits();
        if x == 0 {
            return 32;
        }
        let mut n: u32 = 0;
        proof {
            lemma2_to64();
            assert(b0 % (pow2(0) as int) == 0 && b0 / (pow2(0) as int) == b0);
        }
        while x % 2 == 0
            invariant
                0 < b0 < pow2(32),
                x > 0,
                n < 32,
                b0 % (pow2(n as nat) as int) == 0,
                b0 / (pow2(n as nat) as int) == x as int,
            decreases x,
        {
            let ghost pn = pow2(n as nat) as int;
            proof {
                lemma_pow2_unfold((n + 1) as nat);
                lemma_pow2_pos(n as nat);
                vstd::arithmetic::div_mod::lemma_fundamental_div_mod(b0, pn);
                assert(b0 == (x as int) * pn) by (nonlinear_arith)
                    requires
                        b0 % pn == 0,
                        b0 / pn == x as int,
                        b0 == pn * (b0 / pn) + b0 % pn,
                ;
                assert(b0 == ((x as int) / 2) * (2 * pn) + 0) by (nonlinear_arith)
                    requires
                        b0 == (x as int) * pn,
                        x as int % 2 == 0,
                        x as int == 2 * ((x as int) / 2) + (x as int) % 2,
                ;
                vstd::arithmetic::div_mod::lemma_fundamental_div_mod_converse(
                    b0,
                    2 * pn,
                    (x as int) / 2,
                    0,
                );
                if n + 1 == 32 {
                    // a positive multiple of 2^32 cannot fit in 32 bits
                    assert((x as int / 2) * (2 * pn) >= 2 * pn) by (nonlinear_arith)
                        requires
                            x as int / 2 >= 1,
                            2 * pn > 0,
                    ;
                    assert(false);
                }
            }
            x = x / 2;
            n = n + 1;
        }
        n
    }

    /// The base-2 logarithm of the value, rounded down: the position of the
    /// highest one bit relative to the point.
    pub fn int_log2(self) -> (r: i32)
        requires
            FRAC <= 32,
            self.0.spec_bits() > 0,
        ensures
            r + FRAC >= 0,
            pow2((r + FRAC) as nat) <= self.0.spec_bits() < pow2((r + FRAC + 1) as nat),
    {
        let sb = self.significant_bits();
        sb as i32 - 1 - FRAC as i32
    }

    /// Addition of a signed fixed-point value with the same scale.  The sum
    /// must be representable.
    pub fn add_signed(self, rhs: Fixed<i32, FRAC>) -> (r: Unwrapped<Fixed<u32, FRAC>>)
        requires
            0 <= self.0.spec_bits() + rhs.spec_bits() <= u32::MAX,
        ensures
            r.0.spec_bits() == self.0.spec_bits() + rhs.spec_bits(),
    {
        let b = self.0.to_bits() as i64;
        let s = rhs.to_bits() as i64;
        Unwrapped(Fixed::from_bits((b + s) as u32))
    }

    /// Subtraction of a signed fixed-point value with the same scale.  The
    /// difference must be representable.
    pub fn sub_signed(self, rhs: Fixed<i32, FRAC>) -> (r: Unwrapped<Fixed<u32, FRAC>>)
        requires
            0 <= self.0.spec_bits() - rhs.spec_bits() <= u32::MAX,
        ensures
            r.0.spec_bits() == self.0.spec_bits() - rhs.spec_bits(),
    {
        let b = self.0.to_bits() as i64;
        let s = rhs.to_bits() as i64;
        Unwrapped(Fixed::from_bits((b - s) as u32))
    }
}

} // verus!
