//! Branchless base-10 logarithm primitives for unsigned integers.
//!
//! For every unsigned width there are two operations: the floor of the
//! base-10 logarithm of the value itself ([`IntFracLog10::int_part_log10`]),
//! and of the value read as the fraction `x / 2^width`
//! ([`IntFracLog10::frac_part_log10`]).  Both are fixed comparison cascades
//! against powers of ten, with at most a few divisions or multiplications by
//! large powers of ten to funnel wide values through a narrow cascade.

use vstd::prelude::*;

verus! {

/// Ten to the power `n`.
pub open spec fn pow10(n: nat) -> nat
    decreases n,
{
    if n == 0 {
        1
    } else {
        10 * pow10((n - 1) as nat)
    }
}

/// The concrete values of the powers of ten that the cascades compare
/// against.
pub proof fn lemma_pow10_values()
    ensures
        pow10(0) == 1,
        pow10(1) == 10,
        pow10(2) == 100,
        pow10(3) == 1000,
        pow10(4) == 10000,
        pow10(5) == 100000,
        pow10(6) == 1000000,
        pow10(7) == 10000000,
        pow10(8) == 100000000,
        pow10(9) == 1000000000,
        pow10(10) == 10000000000,
        pow10(11) == 100000000000,
        pow10(12) == 1000000000000,
        pow10(13) == 10000000000000,
        pow10(14) == 100000000000000,
        pow10(15) == 1000000000000000,
        pow10(16) == 10000000000000000,
        pow10(17) == 100000000000000000,
        pow10(18) == 1000000000000000000,
        pow10(19) == 10000000000000000000,
        pow10(20) == 100000000000000000000,
        pow10(21) == 1000000000000000000000,
        pow10(22) == 10000000000000000000000,
        pow10(23) == 100000000000000000000000,
        pow10(24) == 1000000000000000000000000,
        pow10(25) == 10000000000000000000000000,
        pow10(26) == 100000000000000000000000000,
        pow10(27) == 1000000000000000000000000000,
        pow10(28) == 10000000000000000000000000000,
        pow10(29) == 100000000000000000000000000000,
        pow10(30) == 1000000000000000000000000000000,
        pow10(31) == 10000000000000000000000000000000,
        pow10(32) == 100000000000000000000000000000000,
        pow10(33) == 1000000000000000000000000000000000,
        pow10(34) == 10000000000000000000000000000000000,
        pow10(35) == 100000000000000000000000000000000000,
        pow10(36) == 1000000000000000000000000000000000000,
        pow10(37) == 10000000000000000000000000000000000000,
        pow10(38) == 100000000000000000000000000000000000000,
        pow10(39) == 1000000000000000000000000000000000000000,
        pow10(40) == 10000000000000000000000000000000000000000,
{
    reveal_with_fuel(pow10, 42);
}

/// Powers of ten multiply when exponents add.
pub proof fn lemma_pow10_adds(a: nat, b: nat)
    ensures
        pow10(a + b) == pow10(a) * pow10(b),
    decreases a,
{
    if a != 0 {
        lemma_pow10_adds((a - 1) as nat, b);
        assert((a - 1) as nat + b == (a + b - 1) as nat);
        assert(pow10(a + b) == 10 * pow10((a + b - 1) as nat));
        assert(pow10(a) == 10 * pow10((a - 1) as nat));
        assert(pow10(a + b) == 10 * (pow10((a - 1) as nat) * pow10(b)));
        assert(10 * (pow10((a - 1) as nat) * pow10(b)) == (10 * pow10((a - 1) as nat)) * pow10(b))
            by (nonlinear_arith);
        assert(pow10(a + b) == (10 * pow10((a - 1) as nat)) * pow10(b));
        assert(pow10(a + b) == pow10(a) * pow10(b));
    } else {
        assert(pow10(0) == 1);
        assert(pow10(a + b) == pow10(b));
        assert(pow10(a) * pow10(b) == 1 * pow10(b));
        assert(1 * pow10(b) == pow10(b));
    }
}

/// A value already scaled by `10^k` picks up a further factor `10^m` as a
/// single power.
proof fn lemma_scale_step(x: int, v: int, k: nat, m: nat)
    requires
        v == x * pow10(k),
    ensures
        v * pow10(m) == x * pow10(k + m),
{
    lemma_pow10_adds(k, m);
    assert((x * pow10(k)) * pow10(m) == x * (pow10(k) * pow10(m))) by (nonlinear_arith);
}

/// Base-10 logarithms of an unsigned integer: of its value, and of its value
/// read as a binary fraction in `[0, 1)`.
///
/// `self` must be positive; a zero argument is a caller defect, ruled out by
/// precondition rather than handled.
pub trait IntFracLog10: Sized {
    /// The integer value of `self`.
    spec fn val(self) -> int;

    /// One past the largest representable value: `2^width`.
    spec fn modulus() -> int;

    /// The unique `k >= 0` with `10^k <= self < 10^(k+1)`.
    fn int_part_log10(self) -> (r: i32)
        requires
            self.val() >= 1,
        ensures
            0 <= r,
            pow10(r as nat) <= self.val() < pow10((r + 1) as nat),
    ;

    /// The unique `k < 0` with `10^k <= self / 2^width < 10^(k+1)`.
    fn frac_part_log10(self) -> (r: i32)
        requires
            self.val() >= 1,
        ensures
            r < 0,
            self.val() * pow10((-r) as nat) >= Self::modulus(),
            self.val() * pow10((-r - 1) as nat) < Self::modulus(),
    ;
}

impl IntFracLog10 for u8 {
    open spec fn val(self) -> int {
        self as int
    }

    open spec fn modulus() -> int {
        0x100
    }

    #[inline]
    fn int_part_log10(self) -> (r: i32)
        ensures
            0 <= r,
            pow10(r as nat) <= self.val() < pow10((r + 1) as nat),
    {
        proof {
            lemma_pow10_values();
        }
        if self >= 100 {
            2
        } else if self >= 10 {
            1
        } else {
            0
        }
    }

    #[inline]
    fn frac_part_log10(self) -> (r: i32)
        ensures
            r < 0,
            self.val() * pow10((-r) as nat) >= Self::modulus(),
            self.val() * pow10((-r - 1) as nat) < Self::modulus(),
    {
        proof {
            lemma_pow10_values();
        }
        if self > 25 {
            proof {
                assert(self.val() * pow10(1) == self.val() * 10);
                assert(self.val() * pow10(0) == self.val());
            }
            -1
        } else if self > 2 {
            proof {
                assert(self.val() * pow10(2) == self.val() * 100);
                assert(self.val() * pow10(1) == self.val() * 10);
            }
            -2
        } else {
            proof {
                assert(self.val() * pow10(3) == self.val() * 1000);
                assert(self.val() * pow10(2) == self.val() * 100);
            }
            -3
        }
    }
}

impl IntFracLog10 for u16 {
    open spec fn val(self) -> int {
        self as int
    }

    open spec fn modulus() -> int {
        0x1_0000
    }

    #[inline]
    fn int_part_log10(self) -> (r: i32)
        ensures
            0 <= r,
            pow10(r as nat) <= self.val() < pow10((r + 1) as nat),
    {
        proof {
            lemma_pow10_values();
        }
        if self >= 10_000 {
            4
        } else if self >= 1000 {
            3
        } else if self >= 100 {
            2
        } else if self >= 10 {
            1
        } else {
            0
        }
    }

    #[inline]
    fn frac_part_log10(self) -> (r: i32)
        ensures
            r < 0,
            self.val() * pow10((-r) as nat) >= Self::modulus(),
            self.val() * pow10((-r - 1) as nat) < Self::modulus(),
    {
        proof {
            lemma_pow10_values();
        }
        if self > 6553 {
            proof {
                assert(self.val() * pow10(1) == self.val() * 10);
                assert(self.val() * pow10(0) == self.val());
            }
            -1
        } else if self > 655 {
            proof {
                assert(self.val() * pow10(2) == self.val() * 100);
                assert(self.val() * pow10(1) == self.val() * 10);
            }
            -2
        } else if self > 65 {
            proof {
                assert(self.val() * pow10(3) == self.val() * 1000);
                assert(self.val() * pow10(2) == self.val() * 100);
            }
            -3
        } else if self > 6 {
            proof {
                assert(self.val() * pow10(4) == self.val() * 10000);
                assert(self.val() * pow10(3) == self.val() * 1000);
            }
            -4
        } else {
            proof {
                assert(self.val() * pow10(5) == self.val() * 100000);
                assert(self.val() * pow10(4) == self.val() * 10000);
            }
            -5
        }
    }
}

/// Cascade for values below `10^8`, shared by every wider width.
fn int_part_log10_less_than_8(i: u32) -> (r: i32)
    requires
        1 <= i < 100_000_000,
    ensures
        0 <= r <= 7,
        pow10(r as nat) <= i < pow10((r + 1) as nat),
{
    proof {
        lemma_pow10_values();
    }
    let (v, log): (u32, i32) = if i >= 10_000 {
        (i / 10_000, 4)
    } else {
        (i, 0)
    };
    proof {
        assert(1 <= v < 10_000);
        assert(log == 4 ==> 10_000 * v <= i < 10_000 * (v + 1));
        assert(log == 0 ==> v == i);
    }
    if v >= 1000 {
        return log + 3;
    }
    if v >= 100 {
        return log + 2;
    }
    if v >= 10 {
        return log + 1;
    }
    log
}

/// Cascade for values below `10^16`, shared by the 64-bit and wider widths.
fn int_part_log10_less_than_16(i: u64) -> (r: i32)
    requires
        1 <= i < 10_000_000_000_000_000,
    ensures
        0 <= r <= 15,
        pow10(r as nat) <= i < pow10((r + 1) as nat),
{
    proof {
        lemma_pow10_values();
    }
    if i >= 100_000_000 {
        let v = i / 100_000_000;
        proof {
            assert(1 <= v < 100_000_000);
            assert(100_000_000 * v <= i < 100_000_000 * (v + 1));
        }
        let rest = int_part_log10_less_than_8(v as u32);
        proof {
            lemma_pow10_adds(8, rest as nat);
            lemma_pow10_adds(8, (rest + 1) as nat);
            assert(100_000_000 * pow10(rest as nat) <= 100_000_000 * (v as int));
            assert(100_000_000 * (v as int + 1) <= 100_000_000 * pow10((rest + 1) as nat));
        }
        return 8 + rest;
    }
    int_part_log10_less_than_8(i as u32)
}

impl IntFracLog10 for u32 {
    open spec fn val(self) -> int {
        self as int
    }

    open spec fn modulus() -> int {
        0x1_0000_0000
    }

    fn int_part_log10(self) -> (r: i32)
        ensures
            0 <= r,
            pow10(r as nat) <= self.val() < pow10((r + 1) as nat),
    {
        proof {
            lemma_pow10_values();
        }
        if self >= 100_000_000 {
            let v = self / 100_000_000;
            proof {
                assert(1 <= v < 100);
                assert(100_000_000 * v <= self < 100_000_000 * (v + 1));
            }
            let rest = int_part_log10_less_than_8(v);
            proof {
                lemma_pow10_adds(8, rest as nat);
                lemma_pow10_adds(8, (rest + 1) as nat);
                assert(100_000_000 * pow10(rest as nat) <= 100_000_000 * (v as int));
                assert(100_000_000 * (v as int + 1) <= 100_000_000 * pow10((rest + 1) as nat));
            }
            return 8 + rest;
        }
        int_part_log10_less_than_8(self)
    }

    fn frac_part_log10(self) -> (r: i32)
        ensures
            r < 0,
            self.val() * pow10((-r) as nat) >= Self::modulus(),
            self.val() * pow10((-r - 1) as nat) < Self::modulus(),
    {
        proof {
            lemma_pow10_values();
        }
        let mut v = self;
        let mut log: i32 = 0;
        if v <= u32::MAX / 100_000_000 {
            proof {
                assert(v as int == self.val() * pow10(0));
                lemma_scale_step(self.val(), v as int, 0, 8);
            }
            v = v * 100_000_000;
            log = -8;
            proof {
                assert(v as int == self.val() * pow10(8));
            }
        } else {
            proof {
                assert(v as int == self.val() * pow10(0));
            }
        }
        proof {
            assert(-8 <= log <= 0);
            assert(v as int == self.val() * pow10((-log) as nat));
            assert(v > u32::MAX / 100_000_000);
        }
        if v <= u32::MAX / 10_000 {
            proof {
                lemma_scale_step(self.val(), v as int, (-log) as nat, 4);
            }
            v = v * 10_000;
            log = log - 4;
            proof {
                assert(v as int == self.val() * pow10((-log) as nat));
            }
        }
        let ghost k = (-log) as nat;
        proof {
            assert(-12 <= log <= 0);
            assert(v as int == self.val() * pow10(k));
            assert(v > u32::MAX / 10_000);
        }
        if v > u32::MAX / 10 {
            proof {
                lemma_scale_step(self.val(), v as int, k, 1);
            }
            return log - 1;
        }
        if v > u32::MAX / 100 {
            proof {
                lemma_scale_step(self.val(), v as int, k, 2);
                lemma_scale_step(self.val(), v as int, k, 1);
            }
            return log - 2;
        }
        if v > u32::MAX / 1000 {
            proof {
                lemma_scale_step(self.val(), v as int, k, 3);
                lemma_scale_step(self.val(), v as int, k, 2);
            }
            return log - 3;
        }
        proof {
            lemma_scale_step(self.val(), v as int, k, 4);
            lemma_scale_step(self.val(), v as int, k, 3);
        }
        log - 4
    }
}

impl IntFracLog10 for u64 {
    open spec fn val(self) -> int {
        self as int
    }

    open spec fn modulus() -> int {
        0x1_0000_0000_0000_0000
    }

    fn int_part_log10(self) -> (r: i32)
        ensures
            0 <= r,
            pow10(r as nat) <= self.val() < pow10((r + 1) as nat),
    {
        proof {
            lemma_pow10_values();
        }
        if self >= 10_000_000_000_000_000 {
            let v = self / 10_000_000_000_000_000;
            proof {
                assert(1 <= v < 10_000_000_000_000_000);
                assert(10_000_000_000_000_000 * v <= self < 10_000_000_000_000_000 * (v + 1));
            }
            let rest = int_part_log10_less_than_16(v);
            proof {
                lemma_pow10_adds(16, rest as nat);
                lemma_pow10_adds(16, (rest + 1) as nat);
                assert(10_000_000_000_000_000 * pow10(rest as nat) <= 10_000_000_000_000_000 * (
                v as int));
                assert(10_000_000_000_000_000 * (v as int + 1) <= 10_000_000_000_000_000 * pow10(
                    (rest + 1) as nat,
                ));
            }
            return 16 + rest;
        }
        int_part_log10_less_than_16(self)
    }

    fn frac_part_log10(self) -> (r: i32)
        ensures
            r < 0,
            self.val() * pow10((-r) as nat) >= Self::modulus(),
            self.val() * pow10((-r - 1) as nat) < Self::modulus(),
    {
        proof {
            lemma_pow10_values();
        }
        let mut v = self;
        let mut log: i32 = 0;
        if v <= u64::MAX / 10_000_000_000_000_000 {
            proof {
                assert(v as int == self.val() * pow10(0));
                lemma_scale_step(self.val(), v as int, 0, 16);
            }
            v = v * 10_000_000_000_000_000;
            log = -16;
            proof {
                assert(v as int == self.val() * pow10(16));
            }
        } else {
            proof {
                assert(v as int == self.val() * pow10(0));
            }
        }
        proof {
            assert(-16 <= log <= 0);
            assert(v as int == self.val() * pow10((-log) as nat));
            assert(v > u64::MAX / 10_000_000_000_000_000);
        }
        if v <= u64::MAX / 100_000_000 {
            proof {
                lemma_scale_step(self.val(), v as int, (-log) as nat, 8);
            }
            v = v * 100_000_000;
            log = log - 8;
            proof {
                assert(v as int == self.val() * pow10((-log) as nat));
            }
        }
        proof {
            assert(v > u64::MAX / 100_000_000);
        }
        if v <= u64::MAX / 10_000 {
            proof {
                lemma_scale_step(self.val(), v as int, (-log) as nat, 4);
            }
            v = v * 10_000;
            log = log - 4;
            proof {
                assert(v as int == self.val() * pow10((-log) as nat));
            }
        }
        let ghost k = (-log) as nat;
        proof {
            assert(v as int == self.val() * pow10(k));
            assert(v > u64::MAX / 10_000);
        }
        if v > u64::MAX / 10 {
            proof {
                lemma_scale_step(self.val(), v as int, k, 1);
            }
            return log - 1;
        }
        if v > u64::MAX / 100 {
            proof {
                lemma_scale_step(self.val(), v as int, k, 2);
                lemma_scale_step(self.val(), v as int, k, 1);
            }
            return log - 2;
        }
        if v > u64::MAX / 1000 {
            proof {
                lemma_scale_step(self.val(), v as int, k, 3);
                lemma_scale_step(self.val(), v as int, k, 2);
            }
            return log - 3;
        }
        proof {
            lemma_scale_step(self.val(), v as int, k, 4);
            lemma_scale_step(self.val(), v as int, k, 3);
        }
        log - 4
    }
}

impl IntFracLog10 for u128 {
    open spec fn val(self) -> int {
        self as int
    }

    open spec fn modulus() -> int {
        u128::MAX as int + 1
    }

    fn int_part_log10(self) -> (r: i32)
        ensures
            0 <= r,
            pow10(r as nat) <= self.val() < pow10((r + 1) as nat),
    {
        proof {
            lemma_pow10_values();
        }
        if self >= 100_000_000_000_000_000_000_000_000_000_000 {
            let v = self / 100_000_000_000_000_000_000_000_000_000_000;
            proof {
                assert(1 <= v < 10_000_000_000_000_000);
                assert(100_000_000_000_000_000_000_000_000_000_000 * v <= self
                    < 100_000_000_000_000_000_000_000_000_000_000 * (v + 1));
            }
            let rest = int_part_log10_less_than_16(v as u64);
            proof {
                lemma_pow10_adds(32, rest as nat);
                lemma_pow10_adds(32, (rest + 1) as nat);
                assert(100_000_000_000_000_000_000_000_000_000_000 * pow10(rest as nat)
                    <= 100_000_000_000_000_000_000_000_000_000_000 * (v as int));
                assert(100_000_000_000_000_000_000_000_000_000_000 * (v as int + 1)
                    <= 100_000_000_000_000_000_000_000_000_000_000 * pow10((rest + 1) as nat));
            }
            return 32 + rest;
        }
        if self >= 10_000_000_000_000_000 {
            let v = self / 10_000_000_000_000_000;
            proof {
                assert(1 <= v < 10_000_000_000_000_000);
                assert(10_000_000_000_000_000 * v <= self < 10_000_000_000_000_000 * (v + 1));
            }
            let rest = int_part_log10_less_than_16(v as u64);
            proof {
                lemma_pow10_adds(16, rest as nat);
                lemma_pow10_adds(16, (rest + 1) as nat);
                assert(10_000_000_000_000_000 * pow10(rest as nat) <= 10_000_000_000_000_000 * (
                v as int));
                assert(10_000_000_000_000_000 * (v as int + 1) <= 10_000_000_000_000_000 * pow10(
                    (rest + 1) as nat,
                ));
            }
            return 16 + rest;
        }
        int_part_log10_less_than_16(self as u64)
    }

    fn frac_part_log10(self) -> (r: i32)
        ensures
            r < 0,
            self.val() * pow10((-r) as nat) >= Self::modulus(),
            self.val() * pow10((-r - 1) as nat) < Self::modulus(),
    {
        proof {
            lemma_pow10_values();
        }
        let mut v = self;
        let mut log: i32 = 0;
        if v <= u128::MAX / 100_000_000_000_000_000_000_000_000_000_000 {
            proof {
                assert(v as int == self.val() * pow10(0));
                lemma_scale_step(self.val(), v as int, 0, 32);
            }
            v = v * 100_000_000_000_000_000_000_000_000_000_000;
            log = -32;
            proof {
                assert(v as int == self.val() * pow10(32));
            }
        } else {
            proof {
                assert(v as int == self.val() * pow10(0));
            }
        }
        proof {
            assert(-32 <= log <= 0);
            assert(v as int == self.val() * pow10((-log) as nat));
            assert(v > u128::MAX / 100_000_000_000_000_000_000_000_000_000_000);
        }
        if v <= u128::MAX / 10_000_000_000_000_000 {
            proof {
                lemma_scale_step(self.val(), v as int, (-log) as nat, 16);
            }
            v = v * 10_000_000_000_000_000;
            log = log - 16;
            proof {
                assert(v as int == self.val() * pow10((-log) as nat));
            }
        }
        proof {
            assert(v > u128::MAX / 10_000_000_000_000_000);
        }
        if v <= u128::MAX / 100_000_000 {
            proof {
                lemma_scale_step(self.val(), v as int, (-log) as nat, 8);
            }
            v = v * 100_000_000;
            log = log - 8;
            proof {
                assert(v as int == self.val() * pow10((-log) as nat));
            }
        }
        proof {
            assert(v > u128::MAX / 100_000_000);
        }
        if v <= u128::MAX / 10_000 {
            proof {
                lemma_scale_step(self.val(), v as int, (-log) as nat, 4);
            }
            v = v * 10_000;
            log = log - 4;
            proof {
                assert(v as int == self.val() * pow10((-log) as nat));
            }
        }
        let ghost k = (-log) as nat;
        proof {
            assert(v as int == self.val() * pow10(k));
            assert(v > u128::MAX / 10_000);
        }
        if v > u128::MAX / 10 {
            proof {
                lemma_scale_step(self.val(), v as int, k, 1);
            }
            return log - 1;
        }
        if v > u128::MAX / 100 {
            proof {
                lemma_scale_step(self.val(), v as int, k, 2);
                lemma_scale_step(self.val(), v as int, k, 1);
            }
            return log - 2;
        }
        if v > u128::MAX / 1000 {
            proof {
                lemma_scale_step(self.val(), v as int, k, 3);
                lemma_scale_step(self.val(), v as int, k, 2);
            }
            return log - 3;
        }
        proof {
            lemma_scale_step(self.val(), v as int, k, 4);
            lemma_scale_step(self.val(), v as int, k, 3);
        }
        log - 4
    }
}

} // verus!
