//! Sampling a lattice along one axis into a channel table.

use crate::compose::TABLE_LEN;
use crate::decimal::{blended, quantized, Decimal, Exact};
use crate::decimal::{at_most, lemma_blend_between, lemma_blend_level, lemma_blend_right_only};
use crate::error::LatticeError;
use crate::lattice::{lattice_of, parse_lattice, Lattice, LatticeView};
use vstd::prelude::*;

verus! {

/// One of the three colour channels.
#[derive(Debug, Clone, Copy, PartialEq, Eq)]
pub enum Channel {
    Red,
    Green,
    Blue,
}

/// The place of a channel's component within a cell: 0, 1 or 2.
pub open spec fn channel_offset(channel: Channel) -> int {
    match channel {
        Channel::Red => 0,
        Channel::Green => 1,
        Channel::Blue => 2,
    }
}

/// The number of the cell with the indices `(ir, ig, ib)` along the red,
/// green and blue axes of a lattice of the given size.
pub open spec fn flat_index(size: int, ir: int, ig: int, ib: int) -> int {
    ir + ig * size + ib * size * size
}

/// The number of the cell that lies `k` cells along the axis of `channel`,
/// at index 0 of the other two axes.
pub open spec fn axis_cell(size: int, channel: Channel, k: int) -> int {
    match channel {
        Channel::Red => flat_index(size, k, 0, 0),
        Channel::Green => flat_index(size, 0, k, 0),
        Channel::Blue => flat_index(size, 0, 0, k),
    }
}

/// The whole part of the axis coordinate of table entry `a`: the entry's
/// share `a / 255` of the way from cell 0 to cell `size - 1`.
pub open spec fn axis_position(size: int, a: int) -> int {
    (a * (size - 1)) / 255
}

/// The fraction of the axis coordinate of table entry `a`, in 255ths.
pub open spec fn axis_rest(size: int, a: int) -> int {
    (a * (size - 1)) % 255
}

/// The cell after `k` along an axis, or the last cell where `k` is the
/// last.
pub open spec fn next_cell(size: int, k: int) -> int {
    if k + 1 <= size - 1 {
        k + 1
    } else {
        size - 1
    }
}

impl LatticeView {
    /// The component of `channel` in cell number `cell`.
    pub open spec fn component(self, cell: int, channel: Channel) -> Exact {
        self.values[3 * cell + channel_offset(channel)]
    }
}

/// Entry `a` of the table of `channel`.
///
/// The entry lies between two cells on the channel's axis, the fraction
/// `rest / 255` of the way from the lower to the upper. The lower cell's
/// component is weighted with that fraction and the upper cell's with what
/// is left of 1; the sum, times 65535, is rounded and clipped.
pub open spec fn axis_sample(lattice: LatticeView, channel: Channel, a: int) -> int {
    let size = lattice.size as int;
    let lower = axis_position(size, a);
    let upper = next_cell(size, lower);
    let rest = axis_rest(size, a);
    blended(
        lattice.component(axis_cell(size, channel, lower), channel),
        257 * rest,
        lattice.component(axis_cell(size, channel, upper), channel),
        257 * (255 - rest),
    )
}

/// The table of `channel`: 256 entries.
pub open spec fn axis_table(lattice: LatticeView, channel: Channel) -> Seq<u16> {
    Seq::new(TABLE_LEN as nat, |a: int| axis_sample(lattice, channel, a) as u16)
}

/// The first table entry lies on cell 0 and the last on the last cell, both
/// exactly; behind the last cell there is none, so its neighbour is the
/// last cell itself.
pub proof fn lemma_axis_ends(size: int)
    requires
        size >= 1,
    ensures
        axis_position(size, 0) == 0,
        axis_rest(size, 0) == 0,
        axis_position(size, 255) == size - 1,
        axis_rest(size, 255) == 0,
        next_cell(size, axis_position(size, 255)) == axis_position(size, 255),
{
    assert(0 * (size - 1) == 0);
    vstd::arithmetic::div_mod::lemma_fundamental_div_mod_converse(
        255 * (size - 1),
        255,
        size - 1,
        0,
    );
}

/// The last entry of a table is the sample of the last cell on the axis, and
/// the first entry is the sample of the cell after cell 0: the fraction is
/// zero at both ends, and the whole weight is on the upper cell.
pub proof fn lemma_end_entries(lattice: LatticeView, channel: Channel)
    requires
        lattice.size >= 1,
    ensures
        axis_sample(lattice, channel, 255) == quantized(
            lattice.component(axis_cell(lattice.size as int, channel, lattice.size - 1), channel),
        ),
        axis_sample(lattice, channel, 0) == quantized(
            lattice.component(
                axis_cell(lattice.size as int, channel, next_cell(lattice.size as int, 0)),
                channel,
            ),
        ),
{
    let size = lattice.size as int;
    lemma_axis_ends(size);
    let last = lattice.component(axis_cell(size, channel, size - 1), channel);
    lemma_blend_right_only(last, last, 65535);
    let first = lattice.component(axis_cell(size, channel, 0), channel);
    let second = lattice.component(axis_cell(size, channel, next_cell(size, 0)), channel);
    lemma_blend_right_only(first, second, 65535);
}

/// Where every cell on the axis of `channel` holds the same component, every
/// entry of the table is that component's sample: a level axis gives a level
/// table.
pub proof fn lemma_level_axis(lattice: LatticeView, channel: Channel, level: Exact)
    requires
        lattice.size >= 1,
        forall|k: int|
            0 <= k < lattice.size ==> lattice.component(
                #[trigger] axis_cell(lattice.size as int, channel, k),
                channel,
            ) == level,
    ensures
        forall|a: int|
            0 <= a <= 255 ==> #[trigger] axis_sample(lattice, channel, a) == quantized(level),
{
    let size = lattice.size as int;
    assert forall|a: int| 0 <= a <= 255 implies #[trigger] axis_sample(lattice, channel, a)
        == quantized(level) by {
        lemma_axis_position_bounds(size, a);
        let lower = axis_position(size, a);
        let upper = next_cell(size, lower);
        let rest = axis_rest(size, a);
        assert(lattice.component(axis_cell(size, channel, lower), channel) == level);
        assert(lattice.component(axis_cell(size, channel, upper), channel) == level);
        lemma_blend_level(level, 257 * rest, 257 * (255 - rest));
    }
}

/// The component of `channel` in the cell that lies `k` cells along the
/// channel's axis.
pub open spec fn axis_component(lattice: LatticeView, channel: Channel, k: int) -> Exact {
    lattice.component(axis_cell(lattice.size as int, channel, k), channel)
}

/// Where the components do not fall along the axis of `channel`, every entry
/// of the table lies between the samples of the first and of the last cell.
/// The entries themselves may fall from one to the next.
pub proof fn lemma_rising_axis(lattice: LatticeView, channel: Channel)
    requires
        lattice.size >= 1,
        forall|i: int, j: int|
            #![trigger axis_component(lattice, channel, i), axis_component(lattice, channel, j)]
            0 <= i <= j < lattice.size ==> at_most(
                axis_component(lattice, channel, i),
                axis_component(lattice, channel, j),
            ),
    ensures
        forall|a: int|
            0 <= a <= 255 ==> quantized(axis_component(lattice, channel, 0)) <= #[trigger] axis_sample(
                lattice,
                channel,
                a,
            ) <= quantized(axis_component(lattice, channel, lattice.size - 1)),
{
    let size = lattice.size as int;
    assert forall|a: int| 0 <= a <= 255 implies quantized(axis_component(lattice, channel, 0))
        <= #[trigger] axis_sample(lattice, channel, a) <= quantized(
        axis_component(lattice, channel, size - 1),
    ) by {
        lemma_axis_position_bounds(size, a);
        let lower = axis_position(size, a);
        let upper = next_cell(size, lower);
        let rest = axis_rest(size, a);
        let first = axis_component(lattice, channel, 0);
        let last = axis_component(lattice, channel, size - 1);
        let l = axis_component(lattice, channel, lower);
        let r = axis_component(lattice, channel, upper);
        assert(at_most(first, l));
        assert(at_most(first, r));
        assert(at_most(l, last));
        assert(at_most(r, last));
        lemma_blend_between(first, l, r, last, 257 * rest, 257 * (255 - rest));
    }
}

/// Every table entry lies between two cells of the lattice.
pub proof fn lemma_axis_position_bounds(size: int, a: int)
    requires
        size >= 1,
        0 <= a <= 255,
    ensures
        0 <= axis_position(size, a) <= size - 1,
        0 <= axis_rest(size, a) < 255,
        axis_position(size, a) <= next_cell(size, axis_position(size, a)) <= size - 1,
{
    let t = a * (size - 1);
    assert(0 <= t <= 255 * (size - 1)) by (nonlinear_arith)
        requires
            0 <= a <= 255,
            size >= 1,
            t == a * (size - 1),
    ;
    let q = t / 255;
    let r = t % 255;
    assert(t == 255 * q + r);
}

/// How many cells lie between one cell and the next along the axis of
/// `channel`.
pub open spec fn stride_of(size: int, channel: Channel) -> int {
    match channel {
        Channel::Red => 1,
        Channel::Green => size,
        Channel::Blue => size * size,
    }
}

/// A cell on an axis is `k` strides from cell 0 and lies within the
/// lattice.
pub proof fn lemma_axis_cell(size: int, channel: Channel, k: int)
    requires
        size >= 1,
        0 <= k <= size - 1,
    ensures
        axis_cell(size, channel, k) == k * stride_of(size, channel),
        0 <= axis_cell(size, channel, k) < size * size * size,
        1 <= stride_of(size, channel) <= size * size * size,
{
    assert(size * size >= size >= 1) by (nonlinear_arith)
        requires
            size >= 1,
    ;
    assert(size * size * size >= size * size) by (nonlinear_arith)
        requires
            size >= 1,
    ;
    assert(k * size >= 0 && k * size <= size * size - size) by (nonlinear_arith)
        requires
            size >= 1,
            0 <= k <= size - 1,
    ;
    assert(k * (size * size) == k * size * size) by (nonlinear_arith);
    assert(k * (size * size) >= 0 && k * (size * size) <= size * size * size - size * size)
        by (nonlinear_arith)
        requires
            size >= 1,
            0 <= k <= size - 1,
    ;
    assert(0 * size == 0);
    assert(0 * size * size == 0);
}

/// Samples the lattice along the axis of `channel`, at index 0 of the other
/// two axes, into a table of 256 entries.
///
/// The weight of the fraction goes to the lower of the two cells that an
/// entry lies between, not to the upper: on a rising axis the entries fall
/// within each cell.
pub fn sample_axis(lattice: &Lattice, channel: Channel) -> (table: Vec<u16>)
    requires
        lattice.wf(),
    ensures
        table@.len() == TABLE_LEN,
        table@ == axis_table(lattice@, channel),
        forall|a: int| 0 <= a < TABLE_LEN ==> table@[a] as int == axis_sample(lattice@, channel, a),
{
    let size: usize = lattice.size;
    let len: usize = lattice.values.len();
    let ghost n = size as int;
    assert(len == 3 * (n * n * n));
    proof {
        lemma_axis_cell(n, channel, 0);
        assert(n * n >= 1 && n * n <= n * n * n) by (nonlinear_arith)
            requires
                n >= 1,
        ;
    }
    let stride: usize = match channel {
        Channel::Red => 1,
        Channel::Green => size,
        Channel::Blue => size * size,
    };
    let offset: usize = match channel {
        Channel::Red => 0,
        Channel::Green => 1,
        Channel::Blue => 2,
    };
    let mut table: Vec<u16> = Vec::new();
    let mut a: usize = 0;
    while a < TABLE_LEN
        invariant
            a <= TABLE_LEN,
            lattice.wf(),
            size == lattice.size,
            n == size as int,
            len == 3 * (n * n * n),
            len == lattice.values@.len(),
            stride == stride_of(n, channel),
            offset == channel_offset(channel),
            table@.len() == a,
            forall|j: int| 0 <= j < a ==> table@[j] as int == axis_sample(lattice@, channel, j),
        decreases TABLE_LEN - a,
    {
        assert(a * (size - 1) <= 255 * usize::MAX) by (nonlinear_arith)
            requires
                0 <= a <= 255,
                0 <= size - 1 <= usize::MAX,
        ;
        let t: u128 = (a as u128) * ((size - 1) as u128);
        let lower: usize = (t / 255) as usize;
        let rest: u16 = (t % 255) as u16;
        proof {
            lemma_axis_position_bounds(n, a as int);
            assert(lower == axis_position(n, a as int));
            assert(rest == axis_rest(n, a as int));
        }
        let upper: usize = if lower + 1 <= size - 1 {
            lower + 1
        } else {
            size - 1
        };
        proof {
            lemma_axis_cell(n, channel, lower as int);
            lemma_axis_cell(n, channel, upper as int);
            assert(lower * stride < n * n * n);
            assert(upper * stride < n * n * n);
        }
        let lower_at: usize = 3 * (lower * stride) + offset;
        let upper_at: usize = 3 * (upper * stride) + offset;
        proof {
            assert(lattice.values@[lower_at as int].wf());
            assert(lattice.values@[upper_at as int].wf());
            assert(lattice@.values[lower_at as int] == lattice.values@[lower_at as int]@);
            assert(lattice@.values[upper_at as int] == lattice.values@[upper_at as int]@);
        }
        let sample: u16 = Decimal::blend(
            &lattice.values[lower_at],
            257 * rest,
            &lattice.values[upper_at],
            257 * (255 - rest),
        );
        table.push(sample);
        a = a + 1;
    }
    assert(table@ =~= axis_table(lattice@, channel));
    table
}

/// The tables of red, green and blue, in that order.
pub open spec fn axis_tables(lattice: LatticeView) -> Seq<Seq<u16>> {
    seq![
        axis_table(lattice, Channel::Red),
        axis_table(lattice, Channel::Green),
        axis_table(lattice, Channel::Blue),
    ]
}

/// The tables of a list as sequences.
pub open spec fn tables_view(tables: Vec<Vec<u16>>) -> Seq<Seq<u16>> {
    Seq::new(tables@.len(), |i: int| tables@[i]@)
}

/// Samples the lattice along each of its three axes: the tables of red,
/// green and blue, in that order.
pub fn sample_axes(lattice: &Lattice) -> (tables: Vec<Vec<u16>>)
    requires
        lattice.wf(),
    ensures
        tables_view(tables) == axis_tables(lattice@),
{
    let mut tables: Vec<Vec<u16>> = Vec::new();
    tables.push(sample_axis(lattice, Channel::Red));
    tables.push(sample_axis(lattice, Channel::Green));
    tables.push(sample_axis(lattice, Channel::Blue));
    assert(tables_view(tables) =~= axis_tables(lattice@));
    tables
}

/// The three channel tables for the text of a lattice export, or the
/// reason why there are none.
pub open spec fn lattice_text_tables(s: Seq<char>) -> Result<Seq<Seq<u16>>, LatticeError> {
    match lattice_of(s) {
        Ok(lattice) => Ok(axis_tables(lattice)),
        Err(e) => Err(e),
    }
}

/// Reads the export of a cubic colour lattice and returns the three channel
/// tables, red, green and blue.
pub fn lattice_tables(text: &str) -> (outcome: Result<Vec<Vec<u16>>, LatticeError>)
    ensures
        outcome is Ok <==> lattice_text_tables(text@) is Ok,
        outcome is Ok ==> tables_view(outcome->Ok_0) == lattice_text_tables(text@)->Ok_0,
        outcome is Err ==> outcome->Err_0 == lattice_text_tables(text@)->Err_0,
{
    match parse_lattice(text) {
        Ok(lattice) => Ok(sample_axes(&lattice)),
        Err(e) => Err(e),
    }
}

} // verus!
