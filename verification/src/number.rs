//! The written form of a number and the decimal it denotes.

use crate::decimal::{Decimal, Exact};
use crate::digits::{all_digits, digits_value, pow10};
use crate::digits::{lemma_digits_value_concat, lemma_zeros_value};
use vstd::prelude::*;

verus! {

/// Exponents from here on are all held as this one: each moves the point
/// further than any number has digits.
pub const POWER_CAP: u128 = 1_000_000_000_000_000_000_000_000_000_000;

/// Whether `c` is one of the ten decimal digits.
pub open spec fn is_digit(c: char) -> bool {
    '0' <= c && c <= '9'
}

/// The value of the digit `c`.
pub open spec fn digit_of(c: char) -> u8 {
    (c as u32 - 48) as u8
}

/// The values of a string of digit characters.
pub open spec fn digits_of(s: Seq<char>) -> Seq<u8> {
    Seq::new(s.len(), |i: int| digit_of(s[i]))
}

/// How many digits stand in `s` from position `from` on, without a break.
pub open spec fn digit_run(s: Seq<char>, from: int) -> nat
    decreases s.len() - from,
{
    if 0 <= from < s.len() && is_digit(s[from]) {
        1 + digit_run(s, from + 1)
    } else {
        0
    }
}

/// 1 where a sign stands in `s` at position `at`, else 0.
pub open spec fn sign_len(s: Seq<char>, at: int) -> int {
    if 0 <= at < s.len() && (s[at] == '+' || s[at] == '-') {
        1
    } else {
        0
    }
}

/// Whether a minus sign stands in `s` at position `at`.
pub open spec fn minus_at(s: Seq<char>, at: int) -> bool {
    0 <= at < s.len() && s[at] == '-'
}

/// The parts that a number is written in: an optional sign, digits before
/// and after an optional point, and an optional exponent, itself a mark `e`
/// or `E`, an optional sign and digits.
pub struct Parts {
    /// A minus sign leads.
    pub negative: bool,
    /// The digits before the point.
    pub whole: Seq<char>,
    /// The digits after the point.
    pub fraction: Seq<char>,
    /// An exponent mark follows the digits.
    pub marked: bool,
    /// A minus sign follows the exponent mark.
    pub exponent_negative: bool,
    /// The digits of the exponent.
    pub exponent: Seq<char>,
    /// Where the last part ends.
    pub end: int,
}

/// The parts of `s`, each taken as long as it can be, from the left.
pub open spec fn number_parts(s: Seq<char>) -> Parts {
    let a = sign_len(s, 0);
    let b = a + digit_run(s, a);
    let point = b < s.len() && s[b] == '.';
    let c = if point {
        b + 1
    } else {
        b
    };
    let d = if point {
        c + digit_run(s, c)
    } else {
        c
    };
    let marked = d < s.len() && (s[d] == 'e' || s[d] == 'E');
    let e = if marked {
        d + 1 + sign_len(s, d + 1)
    } else {
        d
    };
    let f = if marked {
        e + digit_run(s, e)
    } else {
        e
    };
    Parts {
        negative: minus_at(s, 0),
        whole: s.subrange(a, b),
        fraction: s.subrange(c, d),
        marked,
        exponent_negative: marked && minus_at(s, d + 1),
        exponent: s.subrange(e, f),
        end: f,
    }
}

/// Whether `s` is written in digits: a whole number, a decimal or either
/// with an exponent. At least one digit stands beside the point, an exponent
/// mark is followed by at least one digit, and nothing follows the last
/// part.
pub open spec fn is_decimal(s: Seq<char>) -> bool {
    let p = number_parts(s);
    &&& p.whole.len() + p.fraction.len() >= 1
    &&& p.marked ==> p.exponent.len() >= 1
    &&& p.end == s.len()
}

/// Whether `c` is the small letter `small` or its capital.
pub open spec fn same_letter(c: char, small: char) -> bool {
    c == small || ('A' <= c && c <= 'Z' && c as u32 + 32 == small as u32)
}

/// Whether `s` from `from` on spells `word`, in small letters or capitals.
pub open spec fn spells(s: Seq<char>, from: int, word: Seq<char>) -> bool {
    &&& s.len() - from == word.len()
    &&& forall|i: int| 0 <= i < word.len() ==> same_letter(#[trigger] s[from + i], word[i])
}

/// Whether `s` is `inf` or `infinity`, with or without a sign.
pub open spec fn is_infinity(s: Seq<char>) -> bool {
    spells(s, sign_len(s, 0), "inf"@) || spells(s, sign_len(s, 0), "infinity"@)
}

/// Whether `s` is `nan`, with or without a sign.
pub open spec fn is_nan(s: Seq<char>) -> bool {
    spells(s, sign_len(s, 0), "nan"@)
}

/// Whether `s` is a number: one written in digits, an infinity, or `nan`.
pub open spec fn is_number(s: Seq<char>) -> bool {
    is_decimal(s) || is_infinity(s) || is_nan(s)
}

/// The decimal with the digits of `mantissa`, of which `fraction_len` stand
/// behind the point, times ten to the power `power`, or divided by it where
/// the exponent is negative.
pub open spec fn scaled(
    negative: bool,
    mantissa: nat,
    fraction_len: nat,
    exponent_negative: bool,
    power: nat,
) -> Exact {
    let places: int = if exponent_negative {
        fraction_len as int + power as int
    } else {
        fraction_len as int - power as int
    };
    let magnitude: int = if places >= 0 {
        mantissa as int
    } else {
        mantissa as int * pow10((-places) as nat) as int
    };
    Exact {
        num: if negative {
            -magnitude
        } else {
            magnitude
        },
        places: if places >= 0 {
            places as nat
        } else {
            0
        },
    }
}

/// The decimal that the number `s` denotes.
pub open spec fn number_value(s: Seq<char>) -> Exact {
    let p = number_parts(s);
    scaled(
        p.negative,
        digits_value(digits_of(p.whole + p.fraction)),
        p.fraction.len(),
        p.exponent_negative,
        digits_value(digits_of(p.exponent)),
    )
}

/// How many zeros stand in `digits` from `from` on, without a break.
pub open spec fn zero_run(digits: Seq<u8>, from: int) -> nat
    decreases digits.len() - from,
{
    if 0 <= from < digits.len() && digits[from] == 0 {
        1 + zero_run(digits, from + 1)
    } else {
        0
    }
}

/// Zeros stand throughout a run of zeros, and none stands right behind it.
pub proof fn lemma_zero_run(digits: Seq<u8>, from: int)
    requires
        0 <= from <= digits.len(),
    ensures
        from + zero_run(digits, from) <= digits.len(),
        forall|i: int| from <= i < from + zero_run(digits, from) ==> digits[i] == 0,
        from + zero_run(digits, from) < digits.len() ==> digits[from + zero_run(digits, from)]
            != 0,
    decreases digits.len() - from,
{
    if from < digits.len() && digits[from] == 0 {
        lemma_zero_run(digits, from + 1);
    }
}

/// A digit string with `w` digits from its first that is not zero writes a
/// number of `w` digits: at least ten to the power `w - 1` and below ten to
/// the power `w`.
pub proof fn lemma_significant_digits(digits: Seq<u8>)
    requires
        all_digits(digits),
        zero_run(digits, 0) < digits.len(),
    ensures
        pow10((digits.len() - zero_run(digits, 0) - 1) as nat) <= digits_value(digits) < pow10(
            (digits.len() - zero_run(digits, 0)) as nat,
        ),
{
    let z = zero_run(digits, 0) as int;
    lemma_zero_run(digits, 0);
    let zeros = digits.take(z);
    let rest = digits.skip(z);
    assert(digits =~= zeros + rest);
    lemma_zeros_value(zeros);
    lemma_digits_value_concat(zeros, rest);
    assert(0 * pow10(rest.len()) == 0);
    let one = seq![rest[0]];
    let tail = rest.skip(1);
    assert(rest =~= one + tail);
    lemma_digits_value_concat(one, tail);
    assert(one.drop_last() =~= Seq::<u8>::empty());
    assert(digits_value(one.drop_last()) == 0);
    assert(digits_value(one) == rest[0] as nat);
    assert(all_digits(tail));
    crate::digits::lemma_digits_value_bound(tail);
    let p = pow10(tail.len()) as int;
    let d = rest[0] as int;
    assert(pow10((tail.len() + 1) as nat) == 10 * p);
    assert(p <= d * p && d * p + p <= 10 * p) by (nonlinear_arith)
        requires
            1 <= d <= 9,
            p >= 0,
    ;
}

/// The digits of `s` on both sides of the point.
pub open spec fn mantissa(s: Seq<char>) -> Seq<u8> {
    digits_of(number_parts(s).whole + number_parts(s).fraction)
}

/// How many places the exponent of `s` moves the point to the right.
pub open spec fn exponent_of(s: Seq<char>) -> int {
    let p = number_parts(s);
    if p.exponent_negative {
        -(digits_value(digits_of(p.exponent)) as int)
    } else {
        digits_value(digits_of(p.exponent)) as int
    }
}

/// Whether every digit of `s` beside the point is zero.
pub open spec fn writes_zero(s: Seq<char>) -> bool {
    zero_run(mantissa(s), 0) == mantissa(s).len()
}

/// Where the first digit of `s` that is not zero stands: `k` for the `k`th
/// place before the point, so that the number is at least ten to the power
/// `k - 1` and below ten to the power `k`; 0 and below for places behind the
/// point.
pub open spec fn position(s: Seq<char>) -> int {
    number_parts(s).whole.len() - zero_run(mantissa(s), 0) + exponent_of(s)
}

/// What a number is read as.
pub enum NumberView {
    /// `nan`.
    NotANumber,
    /// An infinity.
    Infinite { negative: bool },
    /// A number in digits whose first digit stands too far before the point
    /// to be held.
    Huge { negative: bool },
    /// Zero, or a number in digits whose first digit stands too far behind
    /// the point to be held.
    Tiny,
    /// A number in digits, held exactly.
    Placed(Exact),
}

/// What the number `s` is read as by a reader that holds the numbers whose
/// first digit stands at most `above` places before the point and fewer than
/// `below` places behind it.
pub open spec fn reading(s: Seq<char>, above: int, below: int) -> NumberView {
    if is_nan(s) {
        NumberView::NotANumber
    } else if is_infinity(s) {
        NumberView::Infinite { negative: minus_at(s, 0) }
    } else if writes_zero(s) {
        NumberView::Tiny
    } else if position(s) > above {
        NumberView::Huge { negative: minus_at(s, 0) }
    } else if position(s) <= -below {
        NumberView::Tiny
    } else {
        NumberView::Placed(number_value(s))
    }
}

/// A number as it was read.
#[derive(Debug, Clone)]
pub enum Number {
    /// `nan`.
    NotANumber,
    /// An infinity.
    Infinite { negative: bool },
    /// A number in digits too large to be held.
    Huge { negative: bool },
    /// Zero, or a number in digits too small to be held.
    Tiny,
    /// A number in digits, held exactly.
    Placed(Decimal),
}

impl View for Number {
    type V = NumberView;

    open spec fn view(&self) -> NumberView {
        match self {
            Number::NotANumber => NumberView::NotANumber,
            Number::Infinite { negative } => NumberView::Infinite { negative: *negative },
            Number::Huge { negative } => NumberView::Huge { negative: *negative },
            Number::Tiny => NumberView::Tiny,
            Number::Placed(d) => NumberView::Placed(d@),
        }
    }
}

impl Number {
    /// A number that is held is well formed.
    pub open spec fn wf(&self) -> bool {
        match self {
            Number::Placed(d) => d.wf(),
            _ => true,
        }
    }
}

/// Whether `c` is one of the ten decimal digits.
pub fn is_digit_char(c: char) -> (yes: bool)
    ensures
        yes == is_digit(c),
{
    c >= '0' && c <= '9'
}

/// Reads the digits that stand in `token` from `from` on and appends their
/// values to `out`; returns where they end.
fn scan_digits(token: &Vec<char>, from: usize, out: &mut Vec<u8>) -> (end: usize)
    requires
        from <= token@.len(),
        all_digits(old(out)@),
    ensures
        end == from + digit_run(token@, from as int),
        end <= token@.len(),
        final(out)@ == old(out)@ + digits_of(token@.subrange(from as int, end as int)),
        all_digits(final(out)@),
{
    let mut i: usize = from;
    assert(digits_of(token@.subrange(from as int, from as int)) =~= Seq::<u8>::empty());
    assert(out@ + Seq::<u8>::empty() =~= out@);
    while i < token.len() && is_digit_char(token[i])
        invariant
            from <= i <= token@.len(),
            digit_run(token@, from as int) == (i - from) + digit_run(token@, i as int),
            out@ == old(out)@ + digits_of(token@.subrange(from as int, i as int)),
            all_digits(out@),
        decreases token@.len() - i,
    {
        let c: char = token[i];
        let d: u8 = (c as u32 - 48) as u8;
        proof {
            let before = digits_of(token@.subrange(from as int, i as int));
            let after = digits_of(token@.subrange(from as int, i + 1));
            assert(after =~= before.push(d));
            assert(old(out)@ + after =~= (old(out)@ + before).push(d));
        }
        out.push(d);
        i = i + 1;
    }
    i
}

/// `v` where it is at most `POWER_CAP`, else `POWER_CAP`.
pub open spec fn capped(v: nat) -> int {
    if v > POWER_CAP {
        POWER_CAP as int
    } else {
        v as int
    }
}

/// Reads the digits of an exponent from `from` on; returns where they end
/// and the number they write, or `POWER_CAP` where that number is larger.
fn scan_exponent(token: &Vec<char>, from: usize) -> (found: (usize, u128))
    requires
        from <= token@.len(),
    ensures
        found.0 == from + digit_run(token@, from as int),
        found.0 <= token@.len(),
        found.1 == capped(digits_value(digits_of(token@.subrange(from as int, found.0 as int)))),
{
    let mut i: usize = from;
    let mut value: u128 = 0;
    assert(digits_of(token@.subrange(from as int, from as int)) =~= Seq::<u8>::empty());
    while i < token.len() && is_digit_char(token[i])
        invariant
            from <= i <= token@.len(),
            digit_run(token@, from as int) == (i - from) + digit_run(token@, i as int),
            value == capped(digits_value(digits_of(token@.subrange(from as int, i as int)))),
        decreases token@.len() - i,
    {
        let c: char = token[i];
        let d: u128 = (c as u32 - 48) as u128;
        proof {
            let before = digits_of(token@.subrange(from as int, i as int));
            let after = digits_of(token@.subrange(from as int, i + 1));
            assert(after.drop_last() =~= before);
            assert(after.last() == d);
        }
        let next: u128 = 10 * value + d;
        value = if next > POWER_CAP {
            POWER_CAP
        } else {
            next
        };
        i = i + 1;
    }
    (i, value)
}

/// `count` zeros followed by `digits`.
fn zeros_then(count: u32, digits: &Vec<u8>) -> (padded: Vec<u8>)
    requires
        all_digits(digits@),
    ensures
        padded@.len() == count + digits@.len(),
        all_digits(padded@),
        digits_value(padded@) == digits_value(digits@),
{
    let mut padded: Vec<u8> = Vec::new();
    let mut i: u32 = 0;
    while i < count
        invariant
            i <= count,
            padded@.len() == i,
            forall|j: int| 0 <= j < padded@.len() ==> padded@[j] == 0,
        decreases count - i,
    {
        padded.push(0);
        i = i + 1;
    }
    let ghost lead = padded@;
    let mut k: usize = 0;
    while k < digits.len()
        invariant
            k <= digits@.len(),
            padded@ == lead + digits@.take(k as int),
        decreases digits@.len() - k,
    {
        proof {
            assert(digits@.take(k + 1) =~= digits@.take(k as int).push(digits@[k as int]));
            assert(lead + digits@.take(k + 1) =~= (lead + digits@.take(k as int)).push(
                digits@[k as int],
            ));
        }
        padded.push(digits[k]);
        k = k + 1;
    }
    proof {
        assert(digits@.take(digits@.len() as int) =~= digits@);
        lemma_zeros_value(lead);
        lemma_digits_value_concat(lead, digits@);
        assert(0 * pow10(digits@.len()) == 0);
    }
    padded
}

/// Appends `count` zeros to `digits`.
pub(crate) fn push_zeros(digits: &mut Vec<u8>, count: u32)
    requires
        all_digits(old(digits)@),
    ensures
        final(digits)@.len() == old(digits)@.len() + count,
        all_digits(final(digits)@),
        digits_value(final(digits)@) == digits_value(old(digits)@) * pow10(count as nat),
{
    let mut i: u32 = 0;
    assert(digits_value(digits@) * 1 == digits_value(digits@));
    while i < count
        invariant
            i <= count,
            digits@.len() == old(digits)@.len() + i,
            all_digits(digits@),
            digits_value(digits@) == digits_value(old(digits)@) * pow10(i as nat),
        decreases count - i,
    {
        proof {
            let next = digits@.push(0u8);
            assert(next.drop_last() =~= digits@);
            let v = digits_value(old(digits)@) as int;
            let p = pow10(i as nat) as int;
            assert(10 * (v * p) == v * (10 * p)) by (nonlinear_arith);
        }
        digits.push(0);
        i = i + 1;
    }
}

/// Whether a sign stands in `token` at position `at`.
fn has_sign(token: &Vec<char>, at: usize) -> (yes: bool)
    ensures
        yes == (sign_len(token@, at as int) == 1),
{
    at < token.len() && (token[at] == '+' || token[at] == '-')
}

/// What a scan of a token found, part by part.
struct Scan {
    negative: bool,
    digits: Vec<u8>,
    whole_len: usize,
    fraction_len: usize,
    marked: bool,
    exponent_negative: bool,
    exponent_len: usize,
    power: u128,
    end: usize,
}

/// Reads the sign and the digits on both sides of the point.
fn scan_mantissa(token: &Vec<char>) -> (found: (bool, Vec<u8>, usize, usize, usize))
    ensures
        found.0 == number_parts(token@).negative,
        found.1@ == digits_of(number_parts(token@).whole + number_parts(token@).fraction),
        all_digits(found.1@),
        found.2 == number_parts(token@).whole.len(),
        found.3 == number_parts(token@).fraction.len(),
        found.4 <= token@.len(),
        number_parts(token@).marked == (found.4 < token@.len() && (token@[found.4 as int] == 'e'
            || token@[found.4 as int] == 'E')),
        number_parts(token@).marked ==> {
            let e = found.4 + 1 + sign_len(token@, found.4 + 1);
            &&& number_parts(token@).exponent == token@.subrange(
                e,
                e + digit_run(token@, e),
            )
            &&& number_parts(token@).end == e + digit_run(token@, e)
            &&& number_parts(token@).exponent_negative == minus_at(token@, found.4 + 1)
        },
        !number_parts(token@).marked ==> {
            &&& number_parts(token@).exponent == Seq::<char>::empty()
            &&& number_parts(token@).end == found.4
            &&& !number_parts(token@).exponent_negative
        },
{
    let n: usize = token.len();
    let ghost s = token@;
    let ghost p = number_parts(s);
    let negative: bool = n > 0 && token[0] == '-';
    let a: usize = if has_sign(token, 0) {
        1
    } else {
        0
    };
    let mut digits: Vec<u8> = Vec::new();
    let b: usize = scan_digits(token, a, &mut digits);
    let point: bool = b < n && token[b] == '.';
    let c: usize = if point {
        b + 1
    } else {
        b
    };
    let d: usize = if point {
        scan_digits(token, c, &mut digits)
    } else {
        c
    };
    proof {
        assert(s.subrange(c as int, c as int) =~= Seq::<char>::empty());
        assert(s.subrange(d as int, d as int) =~= Seq::<char>::empty());
        assert(digits_of(Seq::<char>::empty()) =~= Seq::<u8>::empty());
        assert(digits@ =~= digits_of(p.whole) + digits_of(p.fraction));
        assert(digits@ =~= digits_of(p.whole + p.fraction));
    }
    (negative, digits, b - a, d - c, d)
}

/// Reads `token` part by part.
fn scan(token: &Vec<char>) -> (found: Scan)
    ensures
        found.negative == number_parts(token@).negative,
        found.digits@ == digits_of(number_parts(token@).whole + number_parts(token@).fraction),
        all_digits(found.digits@),
        found.digits@.len() == found.whole_len + found.fraction_len,
        found.whole_len == number_parts(token@).whole.len(),
        found.fraction_len == number_parts(token@).fraction.len(),
        found.marked == number_parts(token@).marked,
        found.exponent_negative == number_parts(token@).exponent_negative,
        found.exponent_len == number_parts(token@).exponent.len(),
        found.power == capped(digits_value(digits_of(number_parts(token@).exponent))),
        found.end == number_parts(token@).end,
{
    let n: usize = token.len();
    let (negative, digits, whole_len, fraction_len, d) = scan_mantissa(token);
    let marked: bool = d < n && (token[d] == 'e' || token[d] == 'E');
    if marked {
        let exponent_negative: bool = d + 1 < n && token[d + 1] == '-';
        let e: usize = if has_sign(token, d + 1) {
            d + 2
        } else {
            d + 1
        };
        let (end, power) = scan_exponent(token, e);
        Scan {
            negative,
            digits,
            whole_len,
            fraction_len,
            marked,
            exponent_negative,
            exponent_len: end - e,
            power,
            end,
        }
    } else {
        proof {
            assert(digits_of(Seq::<char>::empty()) =~= Seq::<u8>::empty());
        }
        Scan {
            negative,
            digits,
            whole_len,
            fraction_len,
            marked,
            exponent_negative: false,
            exponent_len: 0,
            power: 0,
            end: d,
        }
    }
}

/// Builds the decimal with the given digits, the point moved by the
/// exponent.
fn move_point(
    negative: bool,
    digits: Vec<u8>,
    fraction_len: usize,
    exponent_negative: bool,
    power: u128,
) -> (number: Decimal)
    requires
        all_digits(digits@),
        fraction_len <= digits@.len(),
        exponent_negative ==> fraction_len + power <= digits@.len() + 255,
        !exponent_negative ==> power <= fraction_len + 255,
    ensures
        number.wf(),
        number@ == scaled(
            negative,
            digits_value(digits@),
            fraction_len as nat,
            exponent_negative,
            power as nat,
        ),
{
    let whole_len: usize = digits.len() - fraction_len;
    let mut digits = digits;
    if exponent_negative {
        if power <= whole_len as u128 {
            Decimal { negative, digits, places: fraction_len + power as usize }
        } else {
            let padded = zeros_then((power - whole_len as u128) as u32, &digits);
            let places: usize = padded.len();
            Decimal { negative, digits: padded, places }
        }
    } else {
        if power <= fraction_len as u128 {
            Decimal { negative, digits, places: fraction_len - power as usize }
        } else {
            push_zeros(&mut digits, (power - fraction_len as u128) as u32);
            Decimal { negative, digits, places: 0 }
        }
    }
}

/// How many zeros stand at the head of `digits`.
fn count_zeros(digits: &Vec<u8>) -> (count: usize)
    ensures
        count == zero_run(digits@, 0),
        count <= digits@.len(),
{
    let mut i: usize = 0;
    while i < digits.len() && digits[i] == 0
        invariant
            i <= digits@.len(),
            zero_run(digits@, 0) == i + zero_run(digits@, i as int),
        decreases digits@.len() - i,
    {
        i = i + 1;
    }
    i
}

/// Whether `token` from `from` on spells `word`, in small letters or
/// capitals.
fn spells_word(token: &Vec<char>, from: usize, word: &str) -> (yes: bool)
    requires
        from <= token@.len(),
    ensures
        yes == spells(token@, from as int, word@),
{
    let letters = crate::text::chars_of(word);
    if token.len() - from != letters.len() {
        return false;
    }
    let mut i: usize = 0;
    while i < letters.len()
        invariant
            i <= letters@.len(),
            letters@ == word@,
            from + letters@.len() == token@.len(),
            token@.len() <= usize::MAX,
            forall|j: int| 0 <= j < i ==> same_letter(#[trigger] token@[from + j], letters@[j]),
        decreases letters@.len() - i,
    {
        let c: char = token[from + i];
        let small: char = letters[i];
        if !(c == small || (c >= 'A' && c <= 'Z' && c as u32 + 32 == small as u32)) {
            assert(!same_letter(token@[from + i], word@[i as int]));
            return false;
        }
        i = i + 1;
    }
    true
}

/// Reads `token` as a number, or returns `None` where it is none.
///
/// A number in digits is held exactly, digit for digit, where its first
/// digit that is not zero stands at most `above` places before the point
/// and fewer than `below` places behind it. Beyond that only its side is
/// kept.
pub fn parse_number(token: &Vec<char>, above: u8, below: u8) -> (parsed: Option<Number>)
    ensures
        parsed is Some <==> is_number(token@),
        parsed is Some ==> parsed->0.wf() && parsed->0@ == reading(
            token@,
            above as int,
            below as int,
        ),
{
    let start: usize = if has_sign(token, 0) {
        1
    } else {
        0
    };
    if spells_word(token, start, "nan") {
        return Some(Number::NotANumber);
    }
    if spells_word(token, start, "inf") || spells_word(token, start, "infinity") {
        return Some(Number::Infinite { negative: token.len() > 0 && token[0] == '-' });
    }
    let found = scan(token);
    if (found.whole_len == 0 && found.fraction_len == 0) || (found.marked && found.exponent_len
        == 0) || found.end != token.len() {
        return None;
    }
    let zeros: usize = count_zeros(&found.digits);
    if zeros == found.digits.len() {
        return Some(Number::Tiny);
    }
    let whole: i128 = found.whole_len as i128;
    let moved: i128 = if found.exponent_negative {
        -(found.power as i128)
    } else {
        found.power as i128
    };
    let first: i128 = whole - zeros as i128 + moved;
    if first > above as i128 {
        return Some(Number::Huge { negative: found.negative });
    }
    if first <= -(below as i128) {
        return Some(Number::Tiny);
    }
    Some(
        Number::Placed(
            move_point(
                found.negative,
                found.digits,
                found.fraction_len,
                found.exponent_negative,
                found.power,
            ),
        ),
    )
}

} // verus!
