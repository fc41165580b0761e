//! Reading the export of a curve editor: a master curve and one curve for
//! each of red, green and blue, composed into three channel tables.

use crate::compose::{compose, composed, project_to_u8, TABLE_LEN};
use crate::error::CurveError;
use crate::digits::{all_digits, digits_value, pow10};
use crate::digits::{lemma_pow10_add, lemma_pow10_monotonic, lemma_zeros_value};
use crate::number::{digit_run, exponent_of, is_decimal, is_digit, is_infinity, is_nan};
use crate::number::{mantissa, minus_at, same_letter};
use crate::number::{is_number, parse_number, reading, Number, NumberView};
use crate::number::{lemma_significant_digits, lemma_zero_run};
use crate::number::{number_parts, number_value, position, sign_len, writes_zero, zero_run};
use vstd::arithmetic::power2::{lemma2_to64, lemma2_to64_rest, pow2};
use crate::decimal::at_most;
use crate::single::{lemma_single_sample_ordered, single_sample};
use crate::pattern::{capture_first_groups, first_groups};
use crate::text::{chars_of, contains_word, occurs_in, split_chars, split_on};
use vstd::prelude::*;

verus! {

/// Number of sample blocks that a curve export must hold at least: the
/// master curve, then red, green and blue.
pub const MIN_BLOCKS: usize = 4;

/// A number in digits is held for sampling where it is below ten.
pub const SAMPLED_ABOVE: u8 = 1;

/// A number in digits is held for sampling where it is at least a
/// millionth.
pub const SAMPLED_BELOW: u8 = 6;

/// The sample for a number as it was read, as single-precision arithmetic
/// gives it: 0 for `nan`, for every negative number and for every number
/// below a millionth; 65535 for infinity and for every number from ten on.
pub open spec fn number_sample(number: NumberView) -> int {
    match number {
        NumberView::NotANumber => 0,
        NumberView::Infinite { negative } => if negative {
            0
        } else {
            65535
        },
        NumberView::Huge { negative } => if negative {
            0
        } else {
            65535
        },
        NumberView::Tiny => 0,
        NumberView::Placed(x) => single_sample(x),
    }
}

/// The sample that the number `token` stands for.
pub open spec fn sample_of(token: Seq<char>) -> u16 {
    number_sample(reading(token, SAMPLED_ABOVE as int, SAMPLED_BELOW as int)) as u16
}

/// The sample of a number in digits is its sample in single precision,
/// whether the number is held for sampling or not: from ten on that sample
/// is 65535, and below a millionth it is 0.
pub proof fn lemma_sample_is_single(s: Seq<char>)
    requires
        is_decimal(s),
    ensures
        number_sample(reading(s, SAMPLED_ABOVE as int, SAMPLED_BELOW as int)) == single_sample(
            number_value(s),
        ),
{
    lemma_digits_or_word(s);
    let digits = mantissa(s);
    let p = number_parts(s);
    let x = number_value(s);
    let m = digits_value(digits) as int;
    lemma2_to64();
    lemma2_to64_rest();
    assert(all_digits(digits)) by {
        assert forall|i: int| 0 <= i < digits.len() implies #[trigger] digits[i] <= 9 by {
            lemma_all_digit_chars(s);
        }
    }
    lemma_zero_run(digits, 0);
    let shift = p.fraction.len() - exponent_of(s);
    let k: int = if shift >= 0 {
        1
    } else {
        pow10((-shift) as nat) as int
    };
    assert(m * 1 == m);
    assert(x.num == if p.negative {
        -(m * k)
    } else {
        m * k
    });
    if writes_zero(s) {
        lemma_zeros_value(digits);
        assert(m * k == 0) by (nonlinear_arith)
            requires
                m == 0,
        ;
    } else if minus_at(s, 0) {
        assert(m * k >= 0) by (nonlinear_arith)
            requires
                m >= 0,
                k >= 0,
        ;
    } else {
        lemma_significant_digits(digits);
        let w = digits.len() - zero_run(digits, 0);
        let places = w - position(s);
        let unit = pow10(x.places) as int;
        lemma_pow10_add(x.places, 0);
        if position(s) > SAMPLED_ABOVE {
            if places >= 0 {
                lemma_pow10_add(places as nat, (w - 1 - places) as nat);
                lemma_pow10_monotonic(1, (w - 1 - places) as nat);
                assert(pow10(1) == 10 * pow10(0));
                assert(x.num >= 2 * unit) by (nonlinear_arith)
                    requires
                        x.num >= unit * pow10((w - 1 - places) as nat),
                        pow10((w - 1 - places) as nat) >= 10,
                        unit > 0,
                ;
            } else {
                lemma_pow10_monotonic(1, (-places) as nat);
                assert(pow10(1) == 10 * pow10(0));
                assert(x.num >= 2 * unit) by (nonlinear_arith)
                    requires
                        x.num == m * pow10((-places) as nat),
                        m >= 1,
                        pow10((-places) as nat) >= 10,
                        unit == 1,
                ;
            }
            assert((x.num * pow2(42)) / unit >= pow2(43)) by (nonlinear_arith)
                requires
                    x.num >= 2 * unit,
                    unit > 0,
                    pow2(42) == 0x400_0000_0000,
                    pow2(43) == 0x800_0000_0000,
            ;
        } else if position(s) <= -SAMPLED_BELOW {
            lemma_pow10_add(w as nat, (places - w) as nat);
            lemma_pow10_monotonic(6, (places - w) as nat);
            lemma_pow10_six();
            assert((x.num * pow2(42)) / unit < pow2(24)) by (nonlinear_arith)
                requires
                    0 < x.num < pow10(w as nat),
                    unit == pow10(w as nat) * pow10((places - w) as nat),
                    pow10((places - w) as nat) >= 1_000_000,
                    pow2(42) == 0x400_0000_0000,
                    pow2(24) == 0x100_0000,
            ;
        }
    }
}

/// Of two numbers in digits the smaller has no larger sample: the samples
/// of a list keep the order of its numbers.
pub proof fn lemma_samples_keep_order(s1: Seq<char>, s2: Seq<char>)
    requires
        is_decimal(s1),
        is_decimal(s2),
        at_most(number_value(s1), number_value(s2)),
    ensures
        sample_of(s1) <= sample_of(s2),
{
    lemma_sample_is_single(s1);
    lemma_sample_is_single(s2);
    lemma_single_sample_ordered(number_value(s1), number_value(s2));
}

/// A number is written either in digits or as a word, never both.
pub proof fn lemma_digits_or_word(s: Seq<char>)
    ensures
        is_decimal(s) ==> !is_nan(s) && !is_infinity(s),
{
    reveal_strlit("nan");
    reveal_strlit("inf");
    reveal_strlit("infinity");
    let a = sign_len(s, 0);
    if is_nan(s) || is_infinity(s) {
        assert(a < s.len());
        assert(same_letter(s[a + 0], 'n') || same_letter(s[a + 0], 'i'));
        assert(!is_digit(s[a]));
        assert(digit_run(s, a) == 0);
        assert(number_parts(s).whole.len() == 0);
        assert(number_parts(s).fraction.len() == 0);
    }
}

/// Ten to the power six is a million.
proof fn lemma_pow10_six()
    ensures
        pow10(6) == 1_000_000,
{
    assert(pow10(0) == 1);
    assert(pow10(1) == 10 * pow10(0));
    assert(pow10(2) == 10 * pow10(1));
    assert(pow10(3) == 10 * pow10(2));
    assert(pow10(4) == 10 * pow10(3));
    assert(pow10(5) == 10 * pow10(4));
    assert(pow10(6) == 10 * pow10(5));
}

/// The digits of a number are digits.
proof fn lemma_all_digit_chars(s: Seq<char>)
    ensures
        all_digits(mantissa(s)),
{
    let p = number_parts(s);
    let a = sign_len(s, 0);
    lemma_digit_run(s, a);
    let b = a + digit_run(s, a);
    if b < s.len() && s[b] == '.' {
        lemma_digit_run(s, b + 1);
    }
    assert forall|i: int| 0 <= i < mantissa(s).len() implies #[trigger] mantissa(s)[i] <= 9 by {
        let both = p.whole + p.fraction;
        if i < p.whole.len() {
            assert(both[i] == p.whole[i]);
        } else {
            assert(both[i] == p.fraction[i - p.whole.len()]);
        }
    }
}

/// Digits stand throughout a run of digits, and the run ends within the
/// text.
proof fn lemma_digit_run(s: Seq<char>, from: int)
    requires
        0 <= from <= s.len(),
    ensures
        from + digit_run(s, from) <= s.len(),
        forall|i: int| from <= i < from + digit_run(s, from) ==> is_digit(#[trigger] s[i]),
    decreases s.len() - from,
{
    if from < s.len() && is_digit(s[from]) {
        lemma_digit_run(s, from + 1);
    }
}

/// The sample for a number as it was read.
pub fn sample_number(number: &Number) -> (sample: u16)
    requires
        number.wf(),
    ensures
        sample as int == number_sample(number@),
{
    match number {
        Number::NotANumber => 0,
        Number::Infinite { negative } => if *negative {
            0
        } else {
            65535
        },
        Number::Huge { negative } => if *negative {
            0
        } else {
            65535
        },
        Number::Tiny => 0,
        Number::Placed(d) => d.single_sample(),
    }
}

/// Whether each of `tokens` is a number.
pub open spec fn all_numbers(tokens: Seq<Seq<char>>) -> bool {
    forall|i: int| 0 <= i < tokens.len() ==> is_number(#[trigger] tokens[i])
}

/// The samples that `input` lists, separated by single spaces, or `None`
/// where one of the pieces between the spaces is not a number.
pub open spec fn curve_samples(input: Seq<char>) -> Option<Seq<u16>> {
    let tokens = split_on(input, ' ');
    if all_numbers(tokens) {
        Some(Seq::new(tokens.len(), |i: int| sample_of(tokens[i])))
    } else {
        None
    }
}

/// Reads a list of numbers such as `0.0 0.001 0.033`, each scaled from the
/// range 0 to 1 to a sample in 0..=65535, in single precision.
pub fn parse_u16_curve_vec(input: &str) -> (parsed: Result<Vec<u16>, CurveError>)
    ensures
        parsed is Ok <==> curve_samples(input@) is Some,
        parsed is Ok ==> parsed->Ok_0@ == curve_samples(input@)->0,
        parsed is Err ==> parsed->Err_0 == CurveError::MalformedNumber,
{
    let chars = chars_of(input);
    let tokens = split_chars(&chars, ' ');
    let ghost spec_tokens = split_on(input@, ' ');
    let mut samples: Vec<u16> = Vec::new();
    let mut i: usize = 0;
    while i < tokens.len()
        invariant
            i <= tokens@.len(),
            tokens@.len() == spec_tokens.len(),
            spec_tokens == split_on(input@, ' '),
            forall|j: int| 0 <= j < tokens@.len() ==> (#[trigger] tokens@[j])@ == spec_tokens[j],
            samples@.len() == i,
            forall|j: int| 0 <= j < i ==> is_number(#[trigger] spec_tokens[j]),
            forall|j: int| 0 <= j < i ==> samples@[j] == sample_of(spec_tokens[j]),
        decreases tokens@.len() - i,
    {
        assert(tokens@[i as int]@ == spec_tokens[i as int]);
        match parse_number(&tokens[i], SAMPLED_ABOVE, SAMPLED_BELOW) {
            Some(number) => {
                let sample = sample_number(&number);
                samples.push(sample);
            },
            None => {
                assert(!is_number(spec_tokens[i as int]));
                return Err(CurveError::MalformedNumber);
            },
        }
        i = i + 1;
    }
    assert(samples@ =~= curve_samples(input@)->0);
    Ok(samples)
}

/// The three channel tables that the sample blocks of a curve export give,
/// red, green and blue, or the reason why they give none.
///
/// The first block is the master curve and must hold 256 samples; the next
/// three are the channel curves, each composed with the master curve. Blocks
/// after the fourth are not read.
pub open spec fn block_curves(blocks: Seq<Seq<char>>) -> Result<Seq<Seq<u16>>, CurveError> {
    if blocks.len() < MIN_BLOCKS {
        Err(CurveError::CountTooLow)
    } else {
        match curve_samples(blocks[0]) {
            None => Err(CurveError::MalformedNumber),
            Some(master) => if master.len() != TABLE_LEN {
                Err(CurveError::MasterLengthMismatch)
            } else {
                match (curve_samples(blocks[1]), curve_samples(blocks[2]), curve_samples(blocks[3])) {
                    (Some(red), Some(green), Some(blue)) => Ok(
                        seq![composed(master, red), composed(master, green), composed(master, blue)],
                    ),
                    _ => Err(CurveError::MalformedNumber),
                }
            },
        }
    }
}

/// Where at least four blocks list numbers and the first lists 256 of them,
/// there are three tables; each is as long as the channel curve it was made
/// from, and each of its entries is the master curve's entry at the
/// eight-bit projection of the channel curve's entry: a plain lookup.
pub proof fn lemma_tables_are_lookups(blocks: Seq<Seq<char>>)
    requires
        blocks.len() >= MIN_BLOCKS,
        curve_samples(blocks[0]) is Some,
        curve_samples(blocks[0])->0.len() == TABLE_LEN,
        curve_samples(blocks[1]) is Some,
        curve_samples(blocks[2]) is Some,
        curve_samples(blocks[3]) is Some,
    ensures
        block_curves(blocks) is Ok,
        block_curves(blocks)->Ok_0.len() == 3,
        forall|c: int|
            0 <= c < 3 ==> (#[trigger] block_curves(blocks)->Ok_0[c]).len() == curve_samples(
                blocks[c + 1],
            )->0.len(),
        forall|c: int, i: int|
            #![trigger block_curves(blocks)->Ok_0[c][i]]
            0 <= c < 3 && 0 <= i < curve_samples(blocks[c + 1])->0.len() ==> {
                let master = curve_samples(blocks[0])->0;
                let channel = curve_samples(blocks[c + 1])->0;
                let table = block_curves(blocks)->Ok_0[c];
                &&& 0 <= project_to_u8(channel[i] as int) < TABLE_LEN
                &&& table[i] == master[project_to_u8(channel[i] as int)]
            },
{
}

/// The texts of the blocks, where none is missing.
pub open spec fn present_groups(groups: Seq<Option<Seq<char>>>) -> Option<Seq<Seq<char>>> {
    if forall|i: int| 0 <= i < groups.len() ==> (#[trigger] groups[i]) is Some {
        Some(Seq::new(groups.len(), |i: int| groups[i]->0))
    } else {
        None
    }
}

/// The three channel tables for the outcome of the search for sample
/// blocks.
pub open spec fn search_curves(found: Option<Seq<Option<Seq<char>>>>) -> Result<
    Seq<Seq<u16>>,
    CurveError,
> {
    match found {
        None => Err(CurveError::SearchFailed),
        Some(groups) => match present_groups(groups) {
            None => Err(CurveError::SearchFailed),
            Some(blocks) => block_curves(blocks),
        },
    }
}

/// The texts of a list of strings.
pub open spec fn texts(blocks: Seq<String>) -> Seq<Seq<char>> {
    Seq::new(blocks.len(), |i: int| blocks[i]@)
}

/// The tables of an outcome as sequences.
pub open spec fn outcome_view(outcome: Result<Vec<Vec<u16>>, CurveError>) -> Result<
    Seq<Seq<u16>>,
    CurveError,
> {
    match outcome {
        Ok(tables) => Ok(Seq::new(tables@.len(), |i: int| tables@[i]@)),
        Err(e) => Err(e),
    }
}

/// Composes the sample blocks of a curve export into the three channel
/// tables, red, green and blue.
pub fn compose_curves(blocks: &Vec<String>) -> (outcome: Result<Vec<Vec<u16>>, CurveError>)
    ensures
        outcome_view(outcome) == block_curves(texts(blocks@)),
{
    if blocks.len() < MIN_BLOCKS {
        return Err(CurveError::CountTooLow);
    }
    assert(texts(blocks@)[0] == blocks@[0]@);
    assert(texts(blocks@)[1] == blocks@[1]@);
    assert(texts(blocks@)[2] == blocks@[2]@);
    assert(texts(blocks@)[3] == blocks@[3]@);
    let master = match parse_u16_curve_vec(blocks[0].as_str()) {
        Ok(samples) => samples,
        Err(e) => {
            return Err(e);
        },
    };
    if master.len() != TABLE_LEN {
        return Err(CurveError::MasterLengthMismatch);
    }
    let red = match parse_u16_curve_vec(blocks[1].as_str()) {
        Ok(channel) => compose(&master, &channel),
        Err(e) => {
            return Err(e);
        },
    };
    let green = match parse_u16_curve_vec(blocks[2].as_str()) {
        Ok(channel) => compose(&master, &channel),
        Err(e) => {
            return Err(e);
        },
    };
    let blue = match parse_u16_curve_vec(blocks[3].as_str()) {
        Ok(channel) => compose(&master, &channel),
        Err(e) => {
            return Err(e);
        },
    };
    let mut tables: Vec<Vec<u16>> = Vec::new();
    tables.push(red);
    tables.push(green);
    tables.push(blue);
    proof {
        assert(outcome_view(Ok(tables))->Ok_0 =~= block_curves(texts(blocks@))->Ok_0);
    }
    Ok(tables)
}

/// The mark of a curve that was saved in linear light.
pub open spec fn linear_mark() -> Seq<char> {
    "linear yes"@
}

/// Whether the curves of `text` were saved in linear light. Tables made
/// from such curves may not look as the curves did; the tables are made all
/// the same.
pub fn saved_in_linear_light(text: &str) -> (yes: bool)
    ensures
        yes == occurs_in(text@, linear_mark()),
{
    let chars = chars_of(text);
    let mark = chars_of("linear yes");
    contains_word(&chars, &mark)
}

/// The pattern that a line with a sample block matches: leading spaces,
/// `(samples`, a count, the samples, and `))` at the end of the line. Lines
/// may end in a line feed or in a carriage return and a line feed. The
/// samples are the first group.
pub const SAMPLES_PATTERN: &'static str = r"(?Rm)^ *\(samples \d+ (.*)\)\)$";

/// Takes the texts out of the groups, or returns `None` where one is
/// missing.
fn collect_groups(groups: Vec<Option<String>>) -> (blocks: Option<Vec<String>>)
    ensures
        blocks is Some <==> present_groups(crate::pattern::groups_chars(groups@)) is Some,
        blocks is Some ==> texts(blocks->0@) == present_groups(
            crate::pattern::groups_chars(groups@),
        )->0,
{
    let ghost chars = crate::pattern::groups_chars(groups@);
    let mut blocks: Vec<String> = Vec::new();
    let mut i: usize = 0;
    while i < groups.len()
        invariant
            i <= groups@.len(),
            chars == crate::pattern::groups_chars(groups@),
            blocks@.len() == i,
            forall|j: int| 0 <= j < i ==> (#[trigger] chars[j]) is Some,
            forall|j: int| 0 <= j < i ==> (#[trigger] blocks@[j])@ == chars[j]->0,
        decreases groups@.len() - i,
    {
        match &groups[i] {
            Some(text) => {
                blocks.push(text.clone());
            },
            None => {
                assert(chars[i as int] is None);
                return None;
            },
        }
        i = i + 1;
    }
    assert(texts(blocks@) =~= present_groups(chars)->0);
    Some(blocks)
}

/// Reads the export of a curve editor and returns the three channel
/// tables, red, green and blue.
///
/// The sample blocks are found by a search for `SAMPLES_PATTERN`; what the
/// search yields is composed as `compose_curves` says.
pub fn parse_curves(text: String) -> (outcome: Result<Vec<Vec<u16>>, CurveError>)
    ensures
        outcome_view(outcome) == search_curves(first_groups(SAMPLES_PATTERN@, text@)),
{
    match capture_first_groups(SAMPLES_PATTERN, text.as_str()) {
        None => Err(CurveError::SearchFailed),
        Some(groups) => match collect_groups(groups) {
            None => Err(CurveError::SearchFailed),
            Some(blocks) => compose_curves(&blocks),
        },
    }
}

} // verus!
