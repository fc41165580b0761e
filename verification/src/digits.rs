//! Decimal digit strings and their values.

use vstd::prelude::*;

verus! {

/// Ten to the power `n`.
pub open spec fn pow10(n: nat) -> nat
    decreases n,
{
    if n == 0 {
        1
    } else {
        10 * pow10((n - 1) as nat)
    }
}

/// Ten to the power `a + b` is the product of the two powers.
pub proof fn lemma_pow10_add(a: nat, b: nat)
    ensures
        pow10(a + b) == pow10(a) * pow10(b),
        pow10(a) > 0,
    decreases a,
{
    if a == 0 {
        assert(pow10(0 + b) == 1 * pow10(b));
    } else {
        lemma_pow10_add((a - 1) as nat, b);
        assert(pow10(a + b) == 10 * pow10((a - 1 + b) as nat));
        assert(10 * (pow10((a - 1) as nat) * pow10(b)) == (10 * pow10((a - 1) as nat)) * pow10(b))
            by (nonlinear_arith);
    }
}

/// Whether every entry of `digits` is a decimal digit, 0 to 9.
pub open spec fn all_digits(digits: Seq<u8>) -> bool {
    forall|i: int| 0 <= i < digits.len() ==> #[trigger] digits[i] <= 9
}

/// The number that `digits` writes in base ten, most significant digit
/// first. The empty string writes zero.
pub open spec fn digits_value(digits: Seq<u8>) -> nat
    decreases digits.len(),
{
    if digits.len() == 0 {
        0
    } else {
        10 * digits_value(digits.drop_last()) + digits.last() as nat
    }
}

/// The value of two digit strings written one after the other.
pub proof fn lemma_digits_value_concat(a: Seq<u8>, b: Seq<u8>)
    ensures
        digits_value(a + b) == digits_value(a) * pow10(b.len()) + digits_value(b),
    decreases b.len(),
{
    if b.len() == 0 {
        assert(a + b =~= a);
        assert(digits_value(a) * 1 == digits_value(a));
    } else {
        lemma_digits_value_concat(a, b.drop_last());
        assert((a + b).drop_last() =~= a + b.drop_last());
        assert((a + b).last() == b.last());
        let x = digits_value(a) as int;
        let p = pow10((b.len() - 1) as nat) as int;
        let y = digits_value(b.drop_last()) as int;
        assert(pow10(b.len()) == 10 * p);
        assert(digits_value(a + b) == 10 * (x * p + y) + b.last());
        assert(digits_value(b) == 10 * y + b.last());
        assert(10 * (x * p + y) == x * (10 * p) + 10 * y) by (nonlinear_arith);
    }
}

/// Every power of ten is at least one, and a larger exponent gives no
/// smaller power.
pub proof fn lemma_pow10_monotonic(a: nat, b: nat)
    requires
        a <= b,
    ensures
        1 <= pow10(a) <= pow10(b),
    decreases b,
{
    if a == b {
        lemma_pow10_add(a, 0);
    } else {
        lemma_pow10_monotonic(a, (b - 1) as nat);
    }
}

/// A string of `len` digits writes a number below ten to the power `len`.
pub proof fn lemma_digits_value_bound(digits: Seq<u8>)
    requires
        all_digits(digits),
    ensures
        digits_value(digits) < pow10(digits.len()),
    decreases digits.len(),
{
    if digits.len() > 0 {
        lemma_digits_value_bound(digits.drop_last());
    }
}

/// A string of zeros writes zero.
pub proof fn lemma_zeros_value(digits: Seq<u8>)
    requires
        forall|i: int| 0 <= i < digits.len() ==> digits[i] == 0,
    ensures
        digits_value(digits) == 0,
    decreases digits.len(),
{
    if digits.len() > 0 {
        lemma_zeros_value(digits.drop_last());
    }
}

/// The digit that stands `i` places above the lowest place of the number
/// written by `digits` followed by `shift` zeros. Places beyond the string
/// hold zero.
pub open spec fn place_digit(digits: Seq<u8>, shift: nat, i: nat) -> nat {
    if shift <= i && i - shift < digits.len() {
        digits[digits.len() - 1 - (i - shift)] as nat
    } else {
        0
    }
}

/// The part of the number written by `digits` followed by `shift` zeros
/// that its lowest `k` places hold.
pub open spec fn low_places(digits: Seq<u8>, shift: nat, k: nat) -> nat
    decreases k,
{
    if k == 0 {
        0
    } else {
        low_places(digits, shift, (k - 1) as nat) + place_digit(digits, shift, (k - 1) as nat)
            * pow10((k - 1) as nat)
    }
}

/// The lowest `k` places of a shifted digit string, for each of the three
/// ranges of `k`: within the zeros, within the digits, and beyond them.
pub proof fn lemma_low_places(digits: Seq<u8>, shift: nat, k: nat)
    ensures
        k <= shift ==> low_places(digits, shift, k) == 0,
        shift <= k <= shift + digits.len() ==> low_places(digits, shift, k) == digits_value(
            digits.skip(digits.len() - (k - shift)),
        ) * pow10(shift),
        k >= shift + digits.len() ==> low_places(digits, shift, k) == digits_value(digits) * pow10(
            shift,
        ),
    decreases k,
{
    let len = digits.len();
    let none = Seq::<u8>::empty();
    assert(digits.skip(len as int) =~= none);
    assert(digits.skip(0) =~= digits);
    assert(digits_value(none) == 0);
    assert(0 * pow10(shift) == 0);
    if len == 0 {
        assert(digits =~= none);
    }
    if k > 0 {
        let i = (k - 1) as nat;
        lemma_low_places(digits, shift, i);
        if k <= shift {
            assert(place_digit(digits, shift, i) == 0);
            assert(0 * pow10(i) == 0);
        } else if k <= shift + len {
            let j = (i - shift) as nat;
            let d = digits[len - 1 - j];
            let rest = digits.skip(len - j);
            let one = seq![d];
            assert(digits.skip(len - j - 1) =~= one + rest);
            lemma_digits_value_concat(one, rest);
            assert(one.drop_last() =~= none);
            assert(one.last() == d);
            assert(digits_value(one) == d as nat);
            lemma_pow10_add(j, shift);
            let pj = pow10(j) as int;
            let ps = pow10(shift) as int;
            let r = digits_value(rest) as int;
            let dd = d as int;
            assert(rest.len() == j);
            assert(digits_value(one + rest) == dd * pj + r);
            assert((dd * pj + r) * ps == r * ps + dd * (pj * ps)) by (nonlinear_arith);
            assert(place_digit(digits, shift, i) == d as nat);
            assert(low_places(digits, shift, i) == r * ps);
            assert(low_places(digits, shift, k) == r * ps + dd * pow10(i));
            assert(low_places(digits, shift, k) == digits_value(digits.skip(len - j - 1)) * ps);
        } else {
            assert(place_digit(digits, shift, i) == 0);
            assert(0 * pow10(i) == 0);
        }
    }
}

/// The number that `digits` writes in base ten, least significant digit
/// first.
pub open spec fn le_value(digits: Seq<u8>) -> nat
    decreases digits.len(),
{
    if digits.len() == 0 {
        0
    } else {
        le_value(digits.drop_last()) + digits.last() as nat * pow10((digits.len() - 1) as nat)
    }
}

/// A string of `len` digits, least significant first, writes a number below
/// ten to the power `len`.
pub proof fn lemma_le_value_bound(digits: Seq<u8>)
    requires
        all_digits(digits),
    ensures
        le_value(digits) < pow10(digits.len()),
    decreases digits.len(),
{
    if digits.len() > 0 {
        lemma_le_value_bound(digits.drop_last());
        let p = pow10((digits.len() - 1) as nat) as int;
        let d = digits.last() as int;
        assert(d * p <= 9 * p) by (nonlinear_arith)
            requires
                d <= 9,
                p >= 0,
        ;
    }
}

} // verus!
