//! Exact decimal numbers and their rounding to sixteen-bit samples.

use crate::digits::{all_digits, digits_value, le_value, low_places, place_digit, pow10};
use crate::digits::{lemma_le_value_bound, lemma_low_places, lemma_pow10_add};
use crate::single::{sample_in_window, single_sample};
use vstd::arithmetic::power2::pow2;
use vstd::prelude::*;

verus! {

/// Largest value of a sample.
pub const SAMPLE_MAX: u16 = 65535;

/// An exact decimal number: `num` divided by ten to the power `places`.
pub struct Exact {
    pub num: int,
    pub places: nat,
}

/// A decimal number held digit by digit, so that no digit of the text it
/// was read from is lost.
#[derive(Debug, Clone)]
pub struct Decimal {
    /// Whether a minus sign stands before the digits.
    pub negative: bool,
    /// The digits, most significant first.
    pub digits: Vec<u8>,
    /// How many of the digits stand behind the decimal point.
    pub places: usize,
}

impl Decimal {
    /// Every digit is 0 to 9, and the point stands within the digits.
    pub open spec fn wf(&self) -> bool {
        &&& all_digits(self.digits@)
        &&& self.places <= self.digits@.len()
    }
}

impl View for Decimal {
    type V = Exact;

    open spec fn view(&self) -> Exact {
        Exact {
            num: if self.negative {
                -(digits_value(self.digits@) as int)
            } else {
                digits_value(self.digits@) as int
            },
            places: self.places as nat,
        }
    }
}

/// `num` divided by ten to the power `places`, rounded to the nearest whole
/// number, a half rounded upward.
pub open spec fn round_half_up(num: int, places: nat) -> int {
    (2 * num + pow10(places)) / (2 * pow10(places) as int)
}

/// `x` brought into the range of a sample: below zero it is zero, above
/// 65535 it is 65535.
pub open spec fn clip_sample(x: int) -> int {
    if x < 0 {
        0
    } else if x > 65535 {
        65535
    } else {
        x
    }
}

/// The sample for the number `x`: `x` times 65535, rounded and clipped.
pub open spec fn quantized(x: Exact) -> int {
    clip_sample(round_half_up(65535 * x.num, x.places))
}

/// `wl` times `l` plus `wr` times `r`, as an exact decimal.
pub open spec fn weighted_sum(l: Exact, wl: int, r: Exact, wr: int) -> Exact {
    let places = if l.places >= r.places {
        l.places
    } else {
        r.places
    };
    Exact {
        num: wl * l.num * pow10((places - l.places) as nat) + wr * r.num * pow10(
            (places - r.places) as nat,
        ),
        places,
    }
}

/// The sample for `wl` times `l` plus `wr` times `r`: the sum is rounded
/// once, after it has been formed exactly, and then clipped.
pub open spec fn blended(l: Exact, wl: int, r: Exact, wr: int) -> int {
    let sum = weighted_sum(l, wl, r, wr);
    clip_sample(round_half_up(sum.num, sum.places))
}

/// Rounding `n / m` to the nearest whole number needs only the whole part
/// `h` of `2n / m`.
pub proof fn lemma_round_from_whole_part(n2: int, h: int, low: int, m: int)
    requires
        m > 0,
        n2 == h * m + low,
        0 <= low < m,
    ensures
        (n2 + m) / (2 * m) == (h + 1) / 2,
{
    let u = (h + 1) / 2;
    let v = (h + 1) % 2;
    assert(h + 1 == 2 * u + v);
    let rest = v * m + low;
    assert(0 <= rest < 2 * m) by (nonlinear_arith)
        requires
            0 <= v < 2,
            0 <= low < m,
            rest == v * m + low,
    ;
    assert(n2 + m == u * (2 * m) + rest) by (nonlinear_arith)
        requires
            n2 == h * m + low,
            h + 1 == 2 * u + v,
            rest == v * m + low,
    ;
    vstd::arithmetic::div_mod::lemma_fundamental_div_mod_converse(n2 + m, 2 * m, u, rest);
}

/// Splits `t` into the tens below it and the digit that is left, rounding
/// the quotient downward for negative `t` too.
fn floor_div10(t: i64) -> (qr: (i64, u8))
    requires
        -1_000_000_000_000_000 < t < 1_000_000_000_000_000,
    ensures
        t == 10 * qr.0 + qr.1,
        qr.1 <= 9,
{
    if t >= 0 {
        let q: i64 = t / 10;
        let r: i64 = t % 10;
        (q, r as u8)
    } else {
        let m: i64 = -t;
        let q0: i64 = (m + 9) / 10;
        let r: i64 = 10 * q0 - m;
        (-q0, r as u8)
    }
}

/// The digit of `digits`, followed by `shift` zeros, that stands `i` places
/// above the lowest.
fn shifted_digit(digits: &Vec<u8>, shift: usize, i: u128) -> (d: u8)
    requires
        all_digits(digits@),
    ensures
        d as nat == place_digit(digits@, shift as nat, i as nat),
        d <= 9,
{
    let s: u128 = shift as u128;
    if i >= s && i - s < digits.len() as u128 {
        let j: usize = (i - s) as usize;
        digits[digits.len() - 1 - j]
    } else {
        0
    }
}

/// Twice the weight `w`, with the sign of the number it multiplies.
fn signed_double(w: u16, negative: bool) -> (c: i64)
    ensures
        c == if negative {
            -2 * (w as int)
        } else {
            2 * (w as int)
        },
{
    let d: i64 = 2 * (w as i64);
    if negative {
        -d
    } else {
        d
    }
}

/// Largest factor that a digit string is multiplied by: two to the power 43.
pub const WEIGHT_MAX: i64 = 8_796_093_022_208;

/// Adds up, place by place from the lowest, `cl` times the first digit
/// string and `cr` times the second, each followed by its number of zeros,
/// over the lowest `k` places. Returns the digits of the sum at those places,
/// lowest first, and what is carried beyond them.
fn add_places(ld: &Vec<u8>, cl: i64, sl: usize, rd: &Vec<u8>, cr: i64, sr: usize, k: u128) -> (sum: (
    i64,
    Vec<u8>,
))
    requires
        all_digits(ld@),
        all_digits(rd@),
        -WEIGHT_MAX <= cl <= WEIGHT_MAX,
        -WEIGHT_MAX <= cr <= WEIGHT_MAX,
    ensures
        -2 * WEIGHT_MAX <= sum.0 <= 2 * WEIGHT_MAX,
        sum.1@.len() == k,
        all_digits(sum.1@),
        cl * low_places(ld@, sl as nat, k as nat) + cr * low_places(rd@, sr as nat, k as nat)
            == sum.0 * pow10(k as nat) + le_value(sum.1@),
{
    let mut carry: i64 = 0;
    let mut out: Vec<u8> = Vec::new();
    let mut i: u128 = 0;
    proof {
        assert(le_value(out@) == 0);
        assert(low_places(ld@, sl as nat, 0) == 0);
        assert(low_places(rd@, sr as nat, 0) == 0);
        assert(cl * 0 + cr * 0 == 0 * pow10(0) + 0) by (nonlinear_arith);
    }
    while i < k
        invariant
            i <= k,
            out@.len() == i,
            all_digits(out@),
            all_digits(ld@),
            all_digits(rd@),
            -2 * WEIGHT_MAX <= carry <= 2 * WEIGHT_MAX,
            -WEIGHT_MAX <= cl <= WEIGHT_MAX,
            -WEIGHT_MAX <= cr <= WEIGHT_MAX,
            cl * low_places(ld@, sl as nat, i as nat) + cr * low_places(rd@, sr as nat, i as nat)
                == carry * pow10(i as nat) + le_value(out@),
        decreases k - i,
    {
        let dl: u8 = shifted_digit(ld, sl, i);
        let dr: u8 = shifted_digit(rd, sr, i);
        assert(-9 * WEIGHT_MAX <= cl * dl <= 9 * WEIGHT_MAX) by (nonlinear_arith)
            requires
                -WEIGHT_MAX <= cl <= WEIGHT_MAX,
                0 <= dl <= 9,
        ;
        assert(-9 * WEIGHT_MAX <= cr * dr <= 9 * WEIGHT_MAX) by (nonlinear_arith)
            requires
                -WEIGHT_MAX <= cr <= WEIGHT_MAX,
                0 <= dr <= 9,
        ;
        let t: i64 = cl * (dl as i64) + cr * (dr as i64) + carry;
        let (q, r) = floor_div10(t);
        proof {
            let pi = pow10(i as nat) as int;
            let a = low_places(ld@, sl as nat, i as nat) as int;
            let b = low_places(rd@, sr as nat, i as nat) as int;
            let e = le_value(out@) as int;
            let next = out@.push(r);
            assert(next.drop_last() =~= out@);
            assert(le_value(next) == e + r * pi);
            assert(pow10((i + 1) as nat) == 10 * pi);
            assert(low_places(ld@, sl as nat, (i + 1) as nat) == a + dl * pi);
            assert(low_places(rd@, sr as nat, (i + 1) as nat) == b + dr * pi);
            assert(cl * (a + dl * pi) + cr * (b + dr * pi) == q * (10 * pi) + (e + r * pi))
                by (nonlinear_arith)
                requires
                    cl * a + cr * b == carry * pi + e,
                    cl * dl + cr * dr + carry == 10 * q + r,
            ;
        }
        out.push(r);
        carry = q;
        i = i + 1;
    }
    (carry, out)
}

/// Digits, lowest first, that are all zero write zero, and no others do.
pub proof fn lemma_le_value_zero(digits: Seq<u8>)
    ensures
        le_value(digits) == 0 <==> forall|i: int| 0 <= i < digits.len() ==> digits[i] == 0,
    decreases digits.len(),
{
    if digits.len() > 0 {
        let rest = digits.drop_last();
        lemma_le_value_zero(rest);
        lemma_pow10_add((digits.len() - 1) as nat, 0);
        let p = pow10((digits.len() - 1) as nat) as int;
        let d = digits.last() as int;
        assert(d * p == 0 <==> d == 0) by (nonlinear_arith)
            requires
                p > 0,
                d >= 0,
        ;
        assert(d * p >= 0) by (nonlinear_arith)
            requires
                p > 0,
                d >= 0,
        ;
        if forall|i: int| 0 <= i < digits.len() ==> digits[i] == 0 {
            assert forall|i: int| 0 <= i < rest.len() implies rest[i] == 0 by {
                assert(rest[i] == digits[i]);
            }
        }
        if le_value(digits) == 0 {
            assert forall|i: int| 0 <= i < digits.len() implies digits[i] == 0 by {
                if i < rest.len() {
                    assert(rest[i] == digits[i]);
                }
            }
        }
    }
}

/// `h` where it is at most `cap`, else `cap`.
pub open spec fn whole_capped(h: int, cap: int) -> int {
    if h > cap {
        cap
    } else {
        h
    }
}

/// What the number `carry` followed by the digits `out`, lowest first,
/// holds above its lowest `places` places, or `cap` where that is more; and
/// whether anything but zeros stands at those lowest places.
fn upper_part(carry: i64, out: &Vec<u8>, places: usize, cap: u64) -> (found: (u64, bool))
    requires
        0 <= carry <= 2 * WEIGHT_MAX,
        2 * WEIGHT_MAX <= cap <= 1_000_000_000_000_000,
        all_digits(out@),
        places <= out@.len(),
    ensures
        found.0 == whole_capped(
            (carry * pow10(out@.len()) + le_value(out@)) / (pow10(places as nat) as int),
            cap as int,
        ),
        found.1 == ((carry * pow10(out@.len()) + le_value(out@)) % (pow10(places as nat) as int)
            != 0),
{
    let total: usize = out.len();
    let ghost n2 = carry * pow10(out@.len()) + le_value(out@);
    let mut v: u64 = carry as u64;
    let ghost mut h: int = carry as int;
    let mut j: usize = total;
    assert(out@.take(j as int) =~= out@);
    while j > places
        invariant
            places <= j <= total,
            total == out@.len(),
            all_digits(out@),
            2 * WEIGHT_MAX <= cap <= 1_000_000_000_000_000,
            h >= 0,
            v == whole_capped(h, cap as int),
            n2 == h * pow10(j as nat) + le_value(out@.take(j as int)),
        decreases j,
    {
        j = j - 1;
        let d: u8 = out[j];
        proof {
            let pj = pow10(j as nat) as int;
            let upper = out@.take(j + 1);
            let lower = out@.take(j as int);
            assert(upper.drop_last() =~= lower);
            assert(upper.last() == d);
            assert(le_value(upper) == le_value(lower) + d * pj);
            assert(pow10((j + 1) as nat) == 10 * pj);
            assert(h * (10 * pj) + (le_value(lower) + d * pj) == (10 * h + d) * pj + le_value(
                lower,
            )) by (nonlinear_arith);
            h = 10 * h + d;
        }
        let w: u64 = 10 * v + d as u64;
        v = if w > cap {
            cap
        } else {
            w
        };
    }
    let mut inexact: bool = false;
    let mut i: usize = 0;
    while i < places
        invariant
            i <= places <= out@.len(),
            inexact == exists|k: int| 0 <= k < i && out@[k] != 0,
        decreases places - i,
    {
        if out[i] != 0 {
            inexact = true;
        }
        i = i + 1;
    }
    proof {
        let low = out@.take(places as int);
        assert(all_digits(low));
        lemma_le_value_bound(low);
        lemma_le_value_zero(low);
        lemma_pow10_add(places as nat, 0);
        vstd::arithmetic::div_mod::lemma_fundamental_div_mod_converse(
            n2,
            pow10(places as nat) as int,
            h,
            le_value(low) as int,
        );
        if inexact {
            let k = choose|k: int| 0 <= k < places && out@[k] != 0;
            assert(low[k] != 0);
        } else {
            assert forall|k: int| 0 <= k < low.len() implies low[k] == 0 by {
                assert(low[k] == out@[k]);
            }
        }
    }
    (v, inexact)
}

impl Decimal {
    /// The sample for `wl` times `left` plus `wr` times `right`.
    ///
    /// The sum is formed place by place from the lowest place upward, so it
    /// is exact however long the two numbers are; it is rounded once and
    /// clipped to the range of a sample.
    pub fn blend(left: &Decimal, wl: u16, right: &Decimal, wr: u16) -> (sample: u16)
        requires
            left.wf(),
            right.wf(),
        ensures
            sample as int == blended(left@, wl as int, right@, wr as int),
    {
        let places: usize = if left.places >= right.places {
            left.places
        } else {
            right.places
        };
        let sl: usize = places - left.places;
        let sr: usize = places - right.places;
        let kl: u128 = left.digits.len() as u128 + sl as u128;
        let kr: u128 = right.digits.len() as u128 + sr as u128;
        let k: u128 = if kl >= kr {
            kl
        } else {
            kr
        };
        let cl: i64 = signed_double(wl, left.negative);
        let cr: i64 = signed_double(wr, right.negative);
        let (carry, out) = add_places(&left.digits, cl, sl, &right.digits, cr, sr, k);
        let ghost n2 = carry * pow10(k as nat) + le_value(out@);
        let ghost m = pow10(places as nat) as int;
        let ghost sum = weighted_sum(left@, wl as int, right@, wr as int);
        proof {
            lemma_low_places(left.digits@, sl as nat, k as nat);
            lemma_low_places(right.digits@, sr as nat, k as nat);
            lemma_pow10_add(places as nat, 0);
            lemma_pow10_add(k as nat, 0);
            lemma_le_value_bound(out@);
            lemma_signed_double(
                left.negative,
                digits_value(left.digits@) as int,
                wl as int,
                pow10(sl as nat) as int,
            );
            lemma_signed_double(
                right.negative,
                digits_value(right.digits@) as int,
                wr as int,
                pow10(sr as nat) as int,
            );
            assert(n2 == 2 * sum.num);
        }
        if carry < 0 {
            proof {
                let pk = pow10(k as nat) as int;
                assert(carry * pk <= -pk) by (nonlinear_arith)
                    requires
                        carry <= -1,
                        pk > 0,
                ;
                assert((n2 + m) / (2 * m) <= 0) by (nonlinear_arith)
                    requires
                        n2 < 0,
                        m > 0,
                ;
            }
            return 0;
        }
        assert(k == out@.len());
        let (whole, _inexact) = upper_part(carry, &out, places, 2 * WEIGHT_MAX as u64);
        let v: u64 = if whole > 131070 {
            131070
        } else {
            whole
        };
        proof {
            let h = n2 / m;
            let low = n2 % m;
            vstd::arithmetic::div_mod::lemma_fundamental_div_mod(n2, m);
            vstd::arithmetic::div_mod::lemma_mod_bound(n2, m);
            assert(n2 == h * m + low) by (nonlinear_arith)
                requires
                    n2 == m * h + low,
            ;
            lemma_round_from_whole_part(n2, h, low, m);
            assert(round_half_up(sum.num, sum.places) == (h + 1) / 2);
            assert(carry * pow10(k as nat) >= 0) by (nonlinear_arith)
                requires
                    carry >= 0,
                    pow10(k as nat) > 0,
            ;
            assert(n2 >= 0);
            assert(h >= 0) by (nonlinear_arith)
                requires
                    n2 == h * m + low,
                    n2 >= 0,
                    0 <= low < m,
            ;
        }
        ((v + 1) / 2) as u16
    }

    /// The sample for this number as single-precision arithmetic gives it.
    pub fn single_sample(&self) -> (sample: u16)
        requires
            self.wf(),
        ensures
            sample as int == single_sample(self@),
    {
        if self.negative {
            return 0;
        }
        let k: u128 = self.digits.len() as u128;
        let factor: i64 = 0x400_0000_0000;
        let (carry, out) = add_places(&self.digits, factor, 0, &self.digits, 0, 0, k);
        let ghost value = digits_value(self.digits@) as int;
        let ghost n = factor * value;
        proof {
            vstd::arithmetic::power2::lemma2_to64_rest();
            lemma_low_places(self.digits@, 0, k as nat);
            lemma_pow10_add(k as nat, 0);
            lemma_le_value_bound(out@);
            assert(value * pow10(0) == value) by (nonlinear_arith)
                requires
                    pow10(0) == 1,
            ;
            let low = low_places(self.digits@, 0, k as nat) as int;
            assert(factor * low + 0 * low == factor * value) by (nonlinear_arith)
                requires
                    low == value,
            ;
            assert(n == carry * pow10(k as nat) + le_value(out@));
            assert(n >= 0) by (nonlinear_arith)
                requires
                    n == factor * value,
                    factor > 0,
                    value >= 0,
            ;
            assert(carry >= 0) by (nonlinear_arith)
                requires
                    carry * pow10(k as nat) + le_value(out@) >= 0,
                    le_value(out@) < pow10(k as nat),
                    pow10(k as nat) > 0,
            ;
            assert(self@.num * pow2(42) == n) by (nonlinear_arith)
                requires
                    self@.num == value,
                    pow2(42) == factor,
                    n == factor * value,
            ;
        }
        let (whole, inexact) = upper_part(carry, &out, self.places, 0x1000_0000_0000);
        proof {
            vstd::arithmetic::power2::lemma2_to64();
            lemma_pow10_add(self.places as nat, 0);
            let unit = pow10(self.places as nat) as int;
            if value == 0 {
                assert(n == 0) by (nonlinear_arith)
                    requires
                        n == factor * value,
                        value == 0,
                ;
                assert(0int / unit == 0) by (nonlinear_arith)
                    requires
                        unit > 0,
                ;
            }
        }
        if whole >= 0x800_0000_0000 {
            return 65535;
        }
        if whole < 0x100_0000 {
            return 0;
        }
        sample_in_window(whole, inexact)
    }

    /// The sample for this number: the number times 65535, rounded and
    /// clipped.
    pub fn quantize(&self) -> (sample: u16)
        requires
            self.wf(),
        ensures
            sample as int == quantized(self@),
    {
        proof {
            lemma_blend_alone(self@);
        }
        Decimal::blend(self, SAMPLE_MAX, self, 0)
    }
}

/// A doubled weight that carries the sign of its number, times the
/// number's magnitude, is twice the weight times the number.
proof fn lemma_signed_double(negative: bool, magnitude: int, w: int, power: int)
    ensures
        (if negative {
            -2 * w
        } else {
            2 * w
        }) * (magnitude * power) == 2 * (w * (if negative {
            -magnitude
        } else {
            magnitude
        }) * power),
{
    if negative {
        assert((-2 * w) * (magnitude * power) == 2 * (w * (-magnitude) * power))
            by (nonlinear_arith);
    } else {
        assert((2 * w) * (magnitude * power) == 2 * (w * magnitude * power)) by (nonlinear_arith);
    }
}

/// A blend that gives one number the whole weight is that number's sample.
pub proof fn lemma_blend_alone(x: Exact)
    ensures
        blended(x, 65535, x, 0) == quantized(x),
{
    lemma_blend_level(x, 65535, 0);
}

/// Writing a number with `k` more places, all zero, does not change what it
/// is rounded to.
pub proof fn lemma_round_more_places(num: int, places: nat, k: nat)
    ensures
        round_half_up(num * pow10(k), places + k) == round_half_up(num, places),
{
    lemma_pow10_add(places, k);
    lemma_pow10_add(k, 0);
    let m = pow10(places) as int;
    let kk = pow10(k) as int;
    let q = (2 * num + m) / (2 * m);
    let r = (2 * num + m) % (2 * m);
    vstd::arithmetic::div_mod::lemma_fundamental_div_mod(2 * num + m, 2 * m);
    assert(0 <= r < 2 * m) by {
        vstd::arithmetic::div_mod::lemma_mod_bound(2 * num + m, 2 * m);
    }
    assert(0 <= r * kk < 2 * (m * kk)) by (nonlinear_arith)
        requires
            0 <= r < 2 * m,
            kk > 0,
    ;
    assert(2 * (num * kk) + m * kk == q * (2 * (m * kk)) + r * kk) by (nonlinear_arith)
        requires
            2 * num + m == (2 * m) * q + r,
    ;
    vstd::arithmetic::div_mod::lemma_fundamental_div_mod_converse(
        2 * (num * kk) + m * kk,
        2 * (m * kk),
        q,
        r * kk,
    );
}

/// Where both numbers of a blend are the same, only the sum of the weights
/// counts; where the weights add up to 65535, the blend is the number's
/// sample.
pub proof fn lemma_blend_level(x: Exact, wl: int, wr: int)
    ensures
        blended(x, wl, x, wr) == clip_sample(round_half_up((wl + wr) * x.num, x.places)),
        wl + wr == 65535 ==> blended(x, wl, x, wr) == quantized(x),
{
    assert(pow10(0) == 1);
    assert(wl * x.num * 1 + wr * x.num * 1 == (wl + wr) * x.num) by (nonlinear_arith);
}

/// Whether the number `a` is at most the number `b`.
pub open spec fn at_most(a: Exact, b: Exact) -> bool {
    a.num * pow10(b.places) <= b.num * pow10(a.places)
}

/// Of two numbers the smaller is rounded to no more than the larger.
pub proof fn lemma_round_ordered(a: Exact, b: Exact)
    requires
        at_most(a, b),
    ensures
        round_half_up(a.num, a.places) <= round_half_up(b.num, b.places),
{
    lemma_round_more_places(a.num, a.places, b.places);
    lemma_round_more_places(b.num, b.places, a.places);
    lemma_pow10_add(a.places, b.places);
    lemma_pow10_add(b.places, a.places);
    let unit = pow10(a.places + b.places) as int;
    let x = a.num * pow10(b.places);
    let y = b.num * pow10(a.places);
    assert(unit > 0) by (nonlinear_arith)
        requires
            unit == pow10(a.places) * pow10(b.places),
            pow10(a.places) > 0,
            pow10(b.places) > 0,
    ;
    assert(pow10(b.places + a.places) == unit);
    vstd::arithmetic::div_mod::lemma_div_is_ordered(2 * x + unit, 2 * y + unit, 2 * unit);
}

/// A weighted sum times `p`, term by term.
proof fn lemma_weighted_times(wl: int, l: int, sl: int, wr: int, r: int, sr: int, p: int)
    ensures
        (wl * l * sl + wr * r * sr) * p == wl * (l * sl * p) + wr * (r * sr * p),
{
    vstd::arithmetic::mul::lemma_mul_is_associative(wl, l, sl);
    vstd::arithmetic::mul::lemma_mul_is_associative(wr, r, sr);
    vstd::arithmetic::mul::lemma_mul_is_associative(wl, l * sl, p);
    vstd::arithmetic::mul::lemma_mul_is_associative(wr, r * sr, p);
    vstd::arithmetic::mul::lemma_mul_is_distributive_add_other_way(
        p,
        wl * (l * sl),
        wr * (r * sr),
    );
}

/// A blend whose weights add up to 65535 lies between the samples of two
/// numbers that both of its numbers lie between.
pub proof fn lemma_blend_between(low: Exact, l: Exact, r: Exact, high: Exact, wl: int, wr: int)
    requires
        wl >= 0,
        wr >= 0,
        wl + wr == 65535,
        at_most(low, l),
        at_most(low, r),
        at_most(l, high),
        at_most(r, high),
    ensures
        quantized(low) <= blended(l, wl, r, wr) <= quantized(high),
{
    let sum = weighted_sum(l, wl, r, wr);
    let sl = pow10((sum.places - l.places) as nat) as int;
    let sr = pow10((sum.places - r.places) as nat) as int;
    let unit = pow10(sum.places) as int;
    lemma_pow10_add(l.places, (sum.places - l.places) as nat);
    lemma_pow10_add(r.places, (sum.places - r.places) as nat);
    lemma_pow10_add((sum.places - l.places) as nat, 0);
    lemma_pow10_add((sum.places - r.places) as nat, 0);
    let pl = pow10(l.places) as int;
    let pr = pow10(r.places) as int;
    let plow = pow10(low.places) as int;
    let phigh = pow10(high.places) as int;
    let under = Exact { num: 65535 * low.num, places: low.places };
    let over = Exact { num: 65535 * high.num, places: high.places };
    assert(wl * (low.num * unit) <= wl * (l.num * sl * plow)) by (nonlinear_arith)
        requires
            low.num * pl <= l.num * plow,
            unit == pl * sl,
            sl > 0,
            wl >= 0,
    ;
    assert(wr * (low.num * unit) <= wr * (r.num * sr * plow)) by (nonlinear_arith)
        requires
            low.num * pr <= r.num * plow,
            unit == pr * sr,
            sr > 0,
            wr >= 0,
    ;
    assert(under.num * unit == wl * (low.num * unit) + wr * (low.num * unit))
        by (nonlinear_arith)
        requires
            under.num == (wl + wr) * low.num,
    ;
    lemma_weighted_times(wl, l.num, sl, wr, r.num, sr, plow);
    assert(under.num * unit <= sum.num * plow);
    assert(wl * (l.num * sl * phigh) <= wl * (high.num * unit)) by (nonlinear_arith)
        requires
            l.num * phigh <= high.num * pl,
            unit == pl * sl,
            sl > 0,
            wl >= 0,
    ;
    assert(wr * (r.num * sr * phigh) <= wr * (high.num * unit)) by (nonlinear_arith)
        requires
            r.num * phigh <= high.num * pr,
            unit == pr * sr,
            sr > 0,
            wr >= 0,
    ;
    assert(over.num * unit == wl * (high.num * unit) + wr * (high.num * unit))
        by (nonlinear_arith)
        requires
            over.num == (wl + wr) * high.num,
    ;
    lemma_weighted_times(wl, l.num, sl, wr, r.num, sr, phigh);
    assert(sum.num * phigh <= over.num * unit);
    lemma_round_ordered(under, sum);
    lemma_round_ordered(sum, over);
}

/// A number with the weight zero has no part in a blend.
pub proof fn lemma_blend_right_only(l: Exact, r: Exact, wr: int)
    ensures
        blended(l, 0, r, wr) == clip_sample(round_half_up(wr * r.num, r.places)),
        blended(l, 0, r, 65535) == quantized(r),
{
    let sum = weighted_sum(l, 0, r, wr);
    let k = (sum.places - r.places) as nat;
    assert(0 * l.num * pow10((sum.places - l.places) as nat) == 0) by (nonlinear_arith);
    assert(sum.num == (wr * r.num) * pow10(k));
    lemma_round_more_places(wr * r.num, r.places, k);
    if wr != 65535 {
        let other = weighted_sum(l, 0, r, 65535);
        assert(0 * l.num * pow10((other.places - l.places) as nat) == 0) by (nonlinear_arith);
        lemma_round_more_places(65535 * r.num, r.places, k);
    }
}

} // verus!
