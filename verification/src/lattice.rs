//! Reading the export of a cubic colour lattice: its size and its triplets.

use crate::decimal::{Decimal, Exact};
use crate::digits::digits_value;
use crate::error::LatticeError;
use crate::digits::pow10;
use crate::number::{digit_run, digits_of, is_digit_char, is_number, parse_number, push_zeros};
use crate::number::{reading, Number, NumberView};
use crate::text::{blank_run, chars_of, gap_run, is_break, word_at, word_run};
use crate::text::lemma_word_run_bound;
use crate::text::{stands_at, word_stands_at};
use crate::text::{is_blank_char, is_break_char, skip_blanks, skip_gap, take_word};
use vstd::prelude::*;

verus! {

/// The word that announces the size of the lattice.
pub open spec fn directive_key() -> Seq<char> {
    "LUT_3D_SIZE"@
}

/// Sizes from here on are all held as this one: the cube of each is more
/// than any list can hold.
pub const SIZE_CAP: u64 = 3_000_000;

/// Where the digits of a size directive at `at` begin: behind the key and
/// the blanks that follow it.
pub open spec fn size_digits_at(s: Seq<char>, at: int) -> int {
    let after = at + directive_key().len();
    after + blank_run(s, after)
}

/// Whether a size directive stands in `s` at `at`: the key, at least one
/// blank, and at least one digit.
pub open spec fn directive_at(s: Seq<char>, at: int) -> bool {
    &&& stands_at(s, directive_key(), at)
    &&& blank_run(s, at + directive_key().len()) >= 1
    &&& digit_run(s, size_digits_at(s, at)) >= 1
}

/// The size that the directive at `at` declares.
pub open spec fn size_at(s: Seq<char>, at: int) -> nat {
    let from = size_digits_at(s, at);
    digits_value(digits_of(s.subrange(from, from + digit_run(s, from))))
}

/// The position of the first size directive in `s` at or after `from`.
pub open spec fn first_directive(s: Seq<char>, from: int) -> Option<int>
    decreases s.len() - from,
{
    if from < 0 || from >= s.len() {
        None
    } else if directive_at(s, from) {
        Some(from)
    } else {
        first_directive(s, from + 1)
    }
}

/// The size that `s` declares in its first size directive.
pub open spec fn declared_size(s: Seq<char>) -> Option<nat> {
    match first_directive(s, 0) {
        Some(at) => Some(size_at(s, at)),
        None => None,
    }
}

/// Reads the digits that begin at `from` as a size; a size of `SIZE_CAP` or
/// more is returned as `SIZE_CAP`.
fn read_size(text: &Vec<char>, from: usize) -> (found: (usize, u64))
    requires
        from <= text@.len(),
    ensures
        found.0 == digit_run(text@, from as int),
        found.1 == capped_size(
            digits_value(digits_of(text@.subrange(from as int, from + found.0))),
        ),
{
    let mut i: usize = from;
    let mut value: u64 = 0;
    assert(digits_of(text@.subrange(from as int, from as int)) =~= Seq::<u8>::empty());
    while i < text.len() && is_digit_char(text[i])
        invariant
            from <= i <= text@.len(),
            digit_run(text@, from as int) == (i - from) + digit_run(text@, i as int),
            value == capped_size(digits_value(digits_of(text@.subrange(from as int, i as int)))),
        decreases text@.len() - i,
    {
        let c: char = text[i];
        let d: u64 = (c as u32 - 48) as u64;
        proof {
            let before = digits_of(text@.subrange(from as int, i as int));
            let after = digits_of(text@.subrange(from as int, i + 1));
            assert(after.drop_last() =~= before);
            assert(after.last() == d);
        }
        let next: u64 = 10 * value + d;
        value = if next > SIZE_CAP {
            SIZE_CAP
        } else {
            next
        };
        i = i + 1;
    }
    (i - from, value)
}

/// `n` where it is below `SIZE_CAP`, else `SIZE_CAP`.
pub open spec fn capped_size(n: nat) -> int {
    if n >= SIZE_CAP {
        SIZE_CAP as int
    } else {
        n as int
    }
}

/// Finds the first size directive and reads the size it declares; a size of
/// `SIZE_CAP` or more is returned as `SIZE_CAP`.
pub fn find_size(text: &Vec<char>) -> (size: Option<u64>)
    ensures
        size is Some <==> declared_size(text@) is Some,
        size is Some ==> size->0 == capped_size(declared_size(text@)->0),
{
    let key = chars_of("LUT_3D_SIZE");
    let mut at: usize = 0;
    while at < text.len()
        invariant
            at <= text@.len(),
            key@ == directive_key(),
            first_directive(text@, 0) == first_directive(text@, at as int),
        decreases text@.len() - at,
    {
        if word_stands_at(text, &key, at) {
            let after: usize = at + key.len();
            let digits_from: usize = skip_blanks(text, after);
            if digits_from > after {
                let (count, value) = read_size(text, digits_from);
                if count >= 1 {
                    return Some(value);
                }
            }
        }
        at = at + 1;
    }
    None
}

/// Whether a line begins in `s` at `at`.
pub open spec fn line_start(s: Seq<char>, at: int) -> bool {
    at == 0 || (0 < at <= s.len() && is_break(s[at - 1]))
}

/// Whether the line that begins at `at` opens with three numbers: three
/// words on that line, parted by blanks, each of them a number.
pub open spec fn data_line_at(s: Seq<char>, at: int) -> bool {
    let a = at + gap_run(s, at);
    let b = a + word_run(s, a);
    let c = b + gap_run(s, b);
    let d = c + word_run(s, c);
    let e = d + gap_run(s, d);
    &&& is_number(word_at(s, a))
    &&& is_number(word_at(s, c))
    &&& is_number(word_at(s, e))
}

/// The beginning of the first line at or after `from` that opens with three
/// numbers, or the length of `s` where there is no such line.
pub open spec fn data_start_from(s: Seq<char>, from: int) -> int
    decreases s.len() - from,
{
    if from < 0 || from >= s.len() {
        s.len() as int
    } else if line_start(s, from) && data_line_at(s, from) {
        from
    } else {
        data_start_from(s, from + 1)
    }
}

/// Where the data of `s` begin: everything before is heading.
pub open spec fn data_start(s: Seq<char>) -> int {
    data_start_from(s, 0)
}

/// A number in digits is held exactly where it is below ten to the power
/// 40; from there on it is held as ten to the power 40.
pub const HELD_ABOVE: u8 = 40;

/// A number in digits is held exactly where it is at least ten to the power
/// -50; below that it is held as zero.
pub const HELD_BELOW: u8 = 50;

/// The number that a lattice holds for a number as it was read: the number
/// itself where it is held exactly; ten to the power 40, with its sign, for
/// an infinity and for a number too large; zero for a number too small and
/// for `nan`.
pub open spec fn held(number: NumberView) -> Exact {
    match number {
        NumberView::NotANumber => Exact { num: 0, places: 0 },
        NumberView::Infinite { negative } => Exact {
            num: if negative {
                -(pow10(40) as int)
            } else {
                pow10(40) as int
            },
            places: 0,
        },
        NumberView::Huge { negative } => Exact {
            num: if negative {
                -(pow10(40) as int)
            } else {
                pow10(40) as int
            },
            places: 0,
        },
        NumberView::Tiny => Exact { num: 0, places: 0 },
        NumberView::Placed(x) => x,
    }
}

/// The number that the word `word` stands for in a lattice.
pub open spec fn held_value(word: Seq<char>) -> Exact {
    held(reading(word, HELD_ABOVE as int, HELD_BELOW as int))
}

/// The decimal that a lattice holds for a number as it was read.
pub fn hold(number: Number) -> (value: Decimal)
    requires
        number.wf(),
    ensures
        value.wf(),
        value@ == held(number@),
{
    match number {
        Number::Placed(d) => d,
        Number::Infinite { negative } => limit(negative),
        Number::Huge { negative } => limit(negative),
        _ => {
            let digits: Vec<u8> = Vec::new();
            assert(digits_value(digits@) == 0);
            Decimal { negative: false, digits, places: 0 }
        },
    }
}

/// Ten to the power 40, with a sign.
fn limit(negative: bool) -> (value: Decimal)
    ensures
        value.wf(),
        value@ == (Exact {
            num: if negative {
                -(pow10(40) as int)
            } else {
                pow10(40) as int
            },
            places: 0,
        }),
{
    let mut digits: Vec<u8> = Vec::new();
    digits.push(1);
    proof {
        assert(digits@.drop_last() =~= Seq::<u8>::empty());
        assert(digits_value(digits@.drop_last()) == 0);
        assert(digits_value(digits@) == 1);
    }
    push_zeros(&mut digits, 40);
    assert(digits_value(digits@) == pow10(40)) by (nonlinear_arith)
        requires
            digits_value(digits@) == 1 * pow10(40),
    ;
    Decimal { negative, digits, places: 0 }
}

/// The numbers among the words of `s` from `from` on, in order. A word that
/// is not a number is passed over.
pub open spec fn numbers_from(s: Seq<char>, from: int) -> Seq<Exact>
    decreases s.len() - from,
    via numbers_from_decreases
{
    if from < 0 || from >= s.len() {
        Seq::empty()
    } else if word_run(s, from) == 0 {
        numbers_from(s, from + 1)
    } else if is_number(word_at(s, from)) {
        seq![held_value(word_at(s, from))] + numbers_from(s, from + word_run(s, from))
    } else {
        numbers_from(s, from + word_run(s, from))
    }
}

#[via_fn]
proof fn numbers_from_decreases(s: Seq<char>, from: int) {
    if 0 <= from < s.len() {
        lemma_word_run_bound(s, from);
    }
}

/// The exact values of a list of decimals.
pub open spec fn values_of(numbers: Seq<Decimal>) -> Seq<Exact> {
    Seq::new(numbers.len(), |i: int| numbers[i]@)
}

/// Whether each of `numbers` is well formed.
pub open spec fn all_wf(numbers: Seq<Decimal>) -> bool {
    forall|i: int| 0 <= i < numbers.len() ==> (#[trigger] numbers[i]).wf()
}

/// Whether the word that begins at `from` is a number; also where it ends.
fn number_word(text: &Vec<char>, from: usize) -> (found: (bool, usize))
    requires
        from <= text@.len(),
    ensures
        found.0 == is_number(word_at(text@, from as int)),
        found.1 == from + word_run(text@, from as int),
        found.1 <= text@.len(),
{
    let (word, end) = take_word(text, from);
    (parse_number(&word, HELD_ABOVE, HELD_BELOW).is_some(), end)
}

/// Whether the line that begins at `at` opens with three numbers.
fn is_data_line(text: &Vec<char>, at: usize) -> (yes: bool)
    requires
        at <= text@.len(),
    ensures
        yes == data_line_at(text@, at as int),
{
    let a: usize = skip_gap(text, at);
    let (first, b) = number_word(text, a);
    let c: usize = skip_gap(text, b);
    let (second, d) = number_word(text, c);
    let e: usize = skip_gap(text, d);
    let (third, _f) = number_word(text, e);
    first && second && third
}

/// Finds where the data begin.
pub fn find_data_start(text: &Vec<char>) -> (start: usize)
    ensures
        start == data_start(text@),
        start <= text@.len(),
{
    let mut at: usize = 0;
    while at < text.len()
        invariant
            at <= text@.len(),
            data_start(text@) == data_start_from(text@, at as int),
        decreases text@.len() - at,
    {
        if (at == 0 || is_break_char(text[at - 1])) && is_data_line(text, at) {
            return at;
        }
        at = at + 1;
    }
    at
}

/// Reads the words from `from` on and keeps those that are numbers.
pub fn read_numbers(text: &Vec<char>, from: usize) -> (numbers: Vec<Decimal>)
    requires
        from <= text@.len(),
    ensures
        all_wf(numbers@),
        values_of(numbers@) == numbers_from(text@, from as int),
{
    let mut numbers: Vec<Decimal> = Vec::new();
    let mut at: usize = from;
    assert(values_of(numbers@) =~= Seq::<Exact>::empty());
    assert(Seq::<Exact>::empty() + numbers_from(text@, from as int) =~= numbers_from(
        text@,
        from as int,
    ));
    while at < text.len()
        invariant
            from <= at <= text@.len(),
            all_wf(numbers@),
            values_of(numbers@) + numbers_from(text@, at as int) == numbers_from(
                text@,
                from as int,
            ),
        decreases text@.len() - at,
    {
        if is_blank_char(text[at]) {
            at = at + 1;
        } else {
            let (word, end) = take_word(text, at);
            match parse_number(&word, HELD_ABOVE, HELD_BELOW) {
                Some(read) => {
                    let number = hold(read);
                    proof {
                        let rest = numbers_from(text@, end as int);
                        let before = values_of(numbers@);
                        let after = values_of(numbers@.push(number));
                        assert(after =~= before.push(number@));
                        assert(after + rest =~= before + (seq![number@] + rest));
                    }
                    numbers.push(number);
                },
                None => {},
            }
            at = end;
        }
    }
    assert(values_of(numbers@) + Seq::<Exact>::empty() =~= values_of(numbers@));
    numbers
}

/// A cubic lattice of colours as a mathematical value.
pub struct LatticeView {
    /// Number of cells along each axis.
    pub size: nat,
    /// The components of all cells: red, green and blue of the first cell,
    /// then of the second, and so on.
    pub values: Seq<Exact>,
}

/// A cubic lattice of colours. The cell with the indices `(r, g, b)` along
/// the three axes is cell number `r + g * size + b * size * size`.
#[derive(Debug, Clone)]
pub struct Lattice {
    /// Number of cells along each axis.
    pub size: usize,
    /// The components of all cells: red, green and blue of the first cell,
    /// then of the second, and so on.
    pub values: Vec<Decimal>,
}

impl View for Lattice {
    type V = LatticeView;

    open spec fn view(&self) -> LatticeView {
        LatticeView { size: self.size as nat, values: values_of(self.values@) }
    }
}

impl Lattice {
    /// Each axis has at least one cell, every cell has its three
    /// components, and each component is well formed.
    pub open spec fn wf(&self) -> bool {
        &&& self.size >= 1
        &&& self.values@.len() == 3 * (self.size * self.size * self.size)
        &&& all_wf(self.values@)
    }
}

/// The lattice that the text `s` describes, or the reason why it describes
/// none.
///
/// The size is what the first size directive declares. The components are
/// the numbers among the words from the first line on that opens with three
/// numbers. There must be three for each cell of a lattice of the declared
/// size, which is at least 1.
pub open spec fn lattice_of(s: Seq<char>) -> Result<LatticeView, LatticeError> {
    match declared_size(s) {
        None => Err(LatticeError::DirectiveMissing),
        Some(size) => {
            let values = numbers_from(s, data_start(s));
            if size >= 1 && values.len() == 3 * (size * size * size) {
                Ok(LatticeView { size, values })
            } else {
                Err(LatticeError::CountMismatch)
            }
        },
    }
}

/// A size of three million or more has a cube beyond what any list holds.
proof fn lemma_cap_cube(n: int)
    requires
        n >= SIZE_CAP,
    ensures
        n * n * n >= 27_000_000_000_000_000_000,
{
    assert(n * n >= 9_000_000_000_000) by (nonlinear_arith)
        requires
            n >= 3_000_000,
    ;
    assert(n * n * n >= 27_000_000_000_000_000_000) by (nonlinear_arith)
        requires
            n >= 3_000_000,
            n * n >= 9_000_000_000_000,
    ;
}

/// Reads the export of a cubic colour lattice.
pub fn parse_lattice(text: &str) -> (outcome: Result<Lattice, LatticeError>)
    ensures
        outcome is Ok <==> lattice_of(text@) is Ok,
        outcome is Ok ==> outcome->Ok_0.wf() && outcome->Ok_0@ == lattice_of(text@)->Ok_0,
        outcome is Err ==> outcome->Err_0 == lattice_of(text@)->Err_0,
{
    let chars = chars_of(text);
    let size: u64 = match find_size(&chars) {
        Some(size) => size,
        None => {
            return Err(LatticeError::DirectiveMissing);
        },
    };
    let start: usize = find_data_start(&chars);
    let values = read_numbers(&chars, start);
    let ghost declared = declared_size(text@)->0 as int;
    let count: u128 = values.len() as u128;
    assert(size * size <= 9_000_000_000_000) by (nonlinear_arith)
        requires
            size <= 3_000_000,
    ;
    let square: u128 = (size as u128) * (size as u128);
    assert(square * size <= 27_000_000_000_000_000_000) by (nonlinear_arith)
        requires
            square <= 9_000_000_000_000,
            size <= 3_000_000,
    ;
    let cube: u128 = square * (size as u128);
    proof {
        if declared >= SIZE_CAP {
            lemma_cap_cube(declared);
            assert(square == 9_000_000_000_000) by (nonlinear_arith)
                requires
                    square == size * size,
                    size == 3_000_000,
            ;
            assert(cube == 27_000_000_000_000_000_000) by (nonlinear_arith)
                requires
                    cube == square * size,
                    square == 9_000_000_000_000,
                    size == 3_000_000,
            ;
            assert(count <= usize::MAX);
            assert(count != 3 * cube);
        } else {
            assert(cube == declared * declared * declared);
        }
    }
    if size == 0 || count != 3 * cube {
        return Err(LatticeError::CountMismatch);
    }
    assert(declared < SIZE_CAP);
    Ok(Lattice { size: size as usize, values })
}

} // verus!
