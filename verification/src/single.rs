//! Samples as single-precision arithmetic gives them, worked out over whole
//! numbers.
//!
//! A single-precision number keeps 24 binary digits of a value, rounded to
//! the nearest, a tie to the even neighbour. A sample is made in three steps:
//! the written number becomes the nearest single-precision number; that
//! times 65535 becomes the nearest single-precision number again; and this
//! is rounded to a whole number, a half upward, and clipped.

use crate::decimal::{at_most, Exact};
use crate::digits::{lemma_pow10_add, pow10};
use vstd::arithmetic::power2::pow2;
use vstd::arithmetic::power2::{lemma2_to64, lemma2_to64_rest, lemma_pow2_unfold};
use vstd::prelude::*;

verus! {

/// How many binary digits `t` has: 0 for zero.
pub open spec fn bit_len(t: nat) -> nat
    decreases t,
{
    if t == 0 {
        0
    } else {
        1 + bit_len(t / 2)
    }
}

/// `t`, which stands for a value from `t` up to but not `t + 1`, above `t`
/// where `inexact` holds, with all but its 24 leading binary digits cleared
/// and the rest rounded to the nearest: upward where more than half of the
/// last kept digit is cleared, and on a tie where the last kept digit is
/// odd.
pub open spec fn nearest_24(t: nat, inexact: bool) -> nat {
    if bit_len(t) <= 24 {
        t
    } else {
        let unit = pow2((bit_len(t) - 24) as nat);
        let kept = t / unit;
        let cleared = t % unit;
        let half = unit / 2;
        if cleared > half || (cleared == half && (inexact || kept % 2 == 1)) {
            (kept + 1) * unit
        } else {
            kept * unit
        }
    }
}

/// The sample for a value of `t` 2^42ths, or slightly more where `inexact`
/// holds.
pub open spec fn window_sample(t: nat, inexact: bool) -> int {
    let number = nearest_24(t, inexact);
    let product = nearest_24(number * 65535, false);
    let rounded = (product + pow2(41)) / pow2(42);
    if rounded > 65535 {
        65535
    } else {
        rounded as int
    }
}

/// The sample for the number `x` in single precision.
///
/// A number that is not above zero gives 0. From 2 on the sample is 65535, and below
/// 2^-18 it is 0: the product with 65535 is then at least 131070, or at most
/// a quarter. Between the two the value is taken in 2^42ths, which loses
/// nothing that the rounding to 24 binary digits could see.
pub open spec fn single_sample(x: Exact) -> int {
    if x.num <= 0 {
        0
    } else {
        let scaled = x.num * pow2(42);
        let whole = scaled / (pow10(x.places) as int);
        let inexact = scaled % (pow10(x.places) as int) != 0;
        if whole >= pow2(43) {
            65535
        } else if whole < pow2(24) {
            0
        } else {
            window_sample(whole as nat, inexact)
        }
    }
}

/// A number with `n` binary digits is at least 2^(n-1) and below 2^n.
pub proof fn lemma_bit_len_bounds(t: nat)
    requires
        t >= 1,
    ensures
        bit_len(t) >= 1,
        pow2((bit_len(t) - 1) as nat) <= t < pow2(bit_len(t)),
    decreases t,
{
    lemma2_to64();
    if t >= 2 {
        lemma_bit_len_bounds(t / 2);
        lemma_pow2_unfold(bit_len(t));
        lemma_pow2_unfold((bit_len(t) - 1) as nat);
    } else {
        assert(bit_len(1) == 1 + bit_len(0));
    }
}

/// A number below 2^n has at most `n` binary digits.
pub proof fn lemma_bit_len_le(t: nat, n: nat)
    requires
        t < pow2(n),
    ensures
        bit_len(t) <= n,
    decreases t,
{
    if t >= 1 {
        lemma2_to64();
        if n == 0 {
        } else {
            lemma_pow2_unfold(n);
            lemma_bit_len_le(t / 2, (n - 1) as nat);
        }
    }
}

/// The larger of two numbers has no fewer binary digits.
pub proof fn lemma_bit_len_ordered(a: nat, b: nat)
    requires
        a <= b,
    ensures
        bit_len(a) <= bit_len(b),
    decreases b,
{
    if a >= 1 {
        lemma_bit_len_ordered(a / 2, b / 2);
    }
}

/// Whether the value that `t1` stands for, above `t1` where `above1` holds,
/// is at most the value that `t2` stands for.
pub open spec fn stands_at_most(t1: nat, above1: bool, t2: nat, above2: bool) -> bool {
    t1 < t2 || (t1 == t2 && (above1 ==> above2))
}

/// What `nearest_24` keeps of a number of more than 24 binary digits: the
/// 24 leading digits as a number from 2^23 up to but not 2^24, the rest
/// below one unit.
proof fn lemma_kept_digits(t: nat)
    requires
        bit_len(t) > 24,
    ensures
        ({
            let unit = pow2((bit_len(t) - 24) as nat);
            &&& unit >= 2
            &&& t == (t / unit) * unit + t % unit
            &&& 0 <= t % unit < unit
            &&& pow2(23) <= t / unit < pow2(24)
            &&& pow2(23) * unit == pow2((bit_len(t) - 1) as nat)
            &&& pow2(24) * unit == pow2(bit_len(t))
        }),
{
    let drop = (bit_len(t) - 24) as nat;
    let unit = pow2(drop) as int;
    lemma2_to64();
    lemma_bit_len_bounds(t);
    vstd::arithmetic::power2::lemma_pow2_adds(23, drop);
    vstd::arithmetic::power2::lemma_pow2_adds(24, drop);
    vstd::arithmetic::power2::lemma_pow2_strictly_increases(0, drop);
    vstd::arithmetic::div_mod::lemma_fundamental_div_mod(t as int, unit);
    vstd::arithmetic::div_mod::lemma_mod_bound(t as int, unit);
    let kept = t as int / unit;
    let cleared = t as int % unit;
    assert(t == unit * kept + cleared);
    assert(kept * unit == unit * kept) by (nonlinear_arith);
    assert(kept >= pow2(23)) by (nonlinear_arith)
        requires
            t == unit * kept + cleared,
            0 <= cleared < unit,
            t >= pow2(23) * unit,
            unit > 0,
    ;
    assert(kept < pow2(24)) by (nonlinear_arith)
        requires
            t == unit * kept + cleared,
            0 <= cleared < unit,
            t < pow2(24) * unit,
            unit > 0,
    ;
}

/// Of two values the smaller has no larger nearest number of 24 binary
/// digits.
pub proof fn lemma_nearest_24_ordered(t1: nat, above1: bool, t2: nat, above2: bool)
    requires
        stands_at_most(t1, above1, t2, above2),
    ensures
        nearest_24(t1, above1) <= nearest_24(t2, above2),
{
    lemma_bit_len_ordered(t1, t2);
    lemma2_to64();
    let b1 = bit_len(t1);
    let b2 = bit_len(t2);
    if b2 <= 24 {
    } else if b1 <= 24 {
        lemma_kept_digits(t2);
        if t1 >= 1 {
            lemma_bit_len_bounds(t1);
            vstd::arithmetic::power2::lemma_pow2_strictly_increases(b1, b2);
        }
        let unit2 = pow2((b2 - 24) as nat) as int;
        let kept2 = t2 as int / unit2;
        assert(kept2 * unit2 >= pow2(23) * unit2) by (nonlinear_arith)
            requires
                kept2 >= pow2(23),
                unit2 > 0,
        ;
        assert((kept2 + 1) * unit2 >= kept2 * unit2) by (nonlinear_arith)
            requires
                unit2 > 0,
        ;
        lemma_bit_len_bounds(t2);
        if t1 >= 1 {
            if b1 < b2 - 1 {
                vstd::arithmetic::power2::lemma_pow2_strictly_increases(b1, (b2 - 1) as nat);
            }
        }
    } else {
        lemma_kept_digits(t1);
        lemma_kept_digits(t2);
        let unit1 = pow2((b1 - 24) as nat) as int;
        let unit2 = pow2((b2 - 24) as nat) as int;
        let kept1 = t1 as int / unit1;
        let kept2 = t2 as int / unit2;
        assert((kept1 + 1) * unit1 <= pow2(24) * unit1) by (nonlinear_arith)
            requires
                kept1 < pow2(24),
                unit1 > 0,
        ;
        assert((kept1 + 1) * unit1 >= kept1 * unit1) by (nonlinear_arith)
            requires
                unit1 > 0,
        ;
        assert(kept2 * unit2 >= pow2(23) * unit2) by (nonlinear_arith)
            requires
                kept2 >= pow2(23),
                unit2 > 0,
        ;
        assert((kept2 + 1) * unit2 >= kept2 * unit2) by (nonlinear_arith)
            requires
                unit2 > 0,
        ;
        if b1 < b2 {
            if b1 < b2 - 1 {
                vstd::arithmetic::power2::lemma_pow2_strictly_increases(b1, (b2 - 1) as nat);
            }
        } else {
            assert(unit1 == unit2);
            if kept1 < kept2 {
                assert((kept1 + 1) * unit1 <= kept2 * unit1) by (nonlinear_arith)
                    requires
                        kept1 + 1 <= kept2,
                        unit1 > 0,
                ;
            } else {
                assert(kept1 == kept2) by (nonlinear_arith)
                    requires
                        t1 == kept1 * unit1 + t1 % (unit1 as nat),
                        t2 == kept2 * unit1 + t2 % (unit1 as nat),
                        0 <= t1 % (unit1 as nat) < unit1,
                        0 <= t2 % (unit1 as nat) < unit1,
                        t1 <= t2,
                        kept1 >= kept2,
                        unit1 > 0,
                ;
            }
        }
    }
}

/// Of two values the smaller has no larger sample.
pub proof fn lemma_window_sample_ordered(t1: nat, above1: bool, t2: nat, above2: bool)
    requires
        stands_at_most(t1, above1, t2, above2),
    ensures
        0 <= window_sample(t1, above1) <= window_sample(t2, above2) <= 65535,
{
    lemma_nearest_24_ordered(t1, above1, t2, above2);
    let n1 = nearest_24(t1, above1);
    let n2 = nearest_24(t2, above2);
    lemma_nearest_24_ordered(n1 * 65535, false, n2 * 65535, false);
    let p1 = nearest_24(n1 * 65535, false);
    let p2 = nearest_24(n2 * 65535, false);
    lemma2_to64_rest();
    vstd::arithmetic::div_mod::lemma_div_is_ordered(
        (p1 + pow2(41)) as int,
        (p2 + pow2(41)) as int,
        pow2(42) as int,
    );
}

/// Of two numbers the smaller has no larger sample in single precision.
pub proof fn lemma_single_sample_ordered(x1: Exact, x2: Exact)
    requires
        at_most(x1, x2),
    ensures
        0 <= single_sample(x1) <= single_sample(x2) <= 65535,
{
    lemma2_to64();
    lemma2_to64_rest();
    lemma_pow10_add(x1.places, 0);
    lemma_pow10_add(x2.places, 0);
    let u1 = pow10(x1.places) as int;
    let u2 = pow10(x2.places) as int;
    let c = pow2(42) as int;
    let sc1 = x1.num * c;
    let sc2 = x2.num * c;
    let w1 = sc1 / u1;
    let w2 = sc2 / u2;
    let r1 = sc1 % u1;
    let r2 = sc2 % u2;
    vstd::arithmetic::div_mod::lemma_fundamental_div_mod(sc1, u1);
    vstd::arithmetic::div_mod::lemma_fundamental_div_mod(sc2, u2);
    vstd::arithmetic::div_mod::lemma_mod_bound(sc1, u1);
    vstd::arithmetic::div_mod::lemma_mod_bound(sc2, u2);
    if x2.num > 0 {
        assert(w2 >= 0) by (nonlinear_arith)
            requires
                sc2 == u2 * w2 + r2,
                0 <= r2 < u2,
                sc2 == x2.num * c,
                x2.num > 0,
                c > 0,
        ;
        if pow2(24) <= w2 < pow2(43) {
            lemma_window_sample_ordered(w2 as nat, r2 != 0, w2 as nat, r2 != 0);
        }
    }
    if x1.num > 0 {
        assert(x2.num > 0) by (nonlinear_arith)
            requires
                x1.num * u2 <= x2.num * u1,
                x1.num > 0,
                u1 > 0,
                u2 > 0,
        ;
        assert(w1 >= 0) by (nonlinear_arith)
            requires
                sc1 == u1 * w1 + r1,
                0 <= r1 < u1,
                sc1 == x1.num * c,
                x1.num > 0,
                c > 0,
        ;
        assert(sc1 * u2 <= sc2 * u1) by (nonlinear_arith)
            requires
                x1.num * u2 <= x2.num * u1,
                sc1 == x1.num * c,
                sc2 == x2.num * c,
                c > 0,
        ;
        assert(w1 <= w2 && (w1 == w2 && r1 != 0 ==> r2 != 0)) by (nonlinear_arith)
            requires
                sc1 * u2 <= sc2 * u1,
                sc1 == u1 * w1 + r1,
                sc2 == u2 * w2 + r2,
                0 <= r1 < u1,
                0 <= r2 < u2,
        ;
        if pow2(24) <= w1 && w2 < pow2(43) {
            lemma_window_sample_ordered(w1 as nat, r1 != 0, w2 as nat, r2 != 0);
        }
    }
}

/// How many binary digits `t` has.
fn bit_length(t: u64) -> (n: u32)
    ensures
        n == bit_len(t as nat),
        n <= 64,
{
    proof {
        lemma2_to64();
        lemma_bit_len_le(t as nat, 64);
    }
    let mut rest: u64 = t;
    let mut n: u32 = 0;
    while rest > 0
        invariant
            n + bit_len(rest as nat) == bit_len(t as nat),
            bit_len(t as nat) <= 64,
        decreases rest,
    {
        rest = rest / 2;
        n = n + 1;
    }
    n
}

/// Two to the power `n`.
fn two_to(n: u32) -> (p: u64)
    requires
        n <= 62,
    ensures
        p == pow2(n as nat),
        p <= 0x4000_0000_0000_0000,
{
    proof {
        lemma2_to64();
        lemma2_to64_rest();
    }
    let mut p: u64 = 1;
    let mut i: u32 = 0;
    while i < n
        invariant
            i <= n <= 62,
            p == pow2(i as nat),
            pow2(62) == 0x4000_0000_0000_0000,
        decreases n - i,
    {
        proof {
            lemma_pow2_unfold((i + 1) as nat);
            if i + 1 < 62 {
                vstd::arithmetic::power2::lemma_pow2_strictly_increases((i + 1) as nat, 62);
            }
        }
        p = 2 * p;
        i = i + 1;
    }
    proof {
        if n < 62 {
            vstd::arithmetic::power2::lemma_pow2_strictly_increases(n as nat, 62);
        }
    }
    p
}

/// `t` with all but its 24 leading binary digits cleared, rounded to the
/// nearest, a tie to the even side.
fn round_to_24(t: u64, inexact: bool) -> (kept: u64)
    requires
        t < 0x2000_0000_0000_0000,
    ensures
        kept == nearest_24(t as nat, inexact),
        kept <= 2 * t,
{
    let n: u32 = bit_length(t);
    if n <= 24 {
        return t;
    }
    proof {
        lemma2_to64();
        lemma2_to64_rest();
        lemma_bit_len_bounds(t as nat);
        lemma_bit_len_le(t as nat, 61);
        vstd::arithmetic::power2::lemma_pow2_strictly_increases((n - 24) as nat, (n - 1) as nat);
    }
    let unit: u64 = two_to(n - 24);
    let high: u64 = t / unit;
    let cleared: u64 = t % unit;
    let half: u64 = unit / 2;
    assert(high * unit <= t) by (nonlinear_arith)
        requires
            high == t / unit,
            unit > 0,
    ;
    if cleared > half || (cleared == half && (inexact || high % 2 == 1)) {
        assert((high + 1) * unit == high * unit + unit) by (nonlinear_arith);
        (high + 1) * unit
    } else {
        high * unit
    }
}

/// The sample for a value of `t` 2^42ths, or slightly more where `inexact`
/// holds.
pub fn sample_in_window(t: u64, inexact: bool) -> (sample: u16)
    requires
        t < 0x800_0000_0000,
    ensures
        sample as int == window_sample(t as nat, inexact),
{
    proof {
        lemma2_to64();
        lemma2_to64_rest();
    }
    let number: u64 = round_to_24(t, inexact);
    let product: u64 = round_to_24(number * 65535, false);
    let rounded: u64 = (product + 0x200_0000_0000) / 0x400_0000_0000;
    if rounded > 65535 {
        65535
    } else {
        rounded as u16
    }
}

} // verus!
