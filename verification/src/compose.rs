//! Composition of a channel curve with the master curve.

use vstd::prelude::*;

verus! {

/// Number of entries of a master curve and of a channel table.
pub const TABLE_LEN: usize = 256;

/// The eight-bit projection of a sixteen-bit sample: the sample scaled from
/// the range 0..=65535 to the range 0..=255, the fraction cut off.
pub open spec fn project_to_u8(sample: int) -> int {
    (sample * 255) / 65535
}

/// Scales a sample from 0..=65535 down to 0..=255, cutting the fraction off.
pub fn scale_u16_to_u8_range(input: u16) -> (scaled: u8)
    ensures
        scaled as int == project_to_u8(input as int),
        scaled as int == input as int / 257,
{
    let q: u16 = input / 257;
    q as u8
}

/// The table that results when the channel curve `channel` is followed by
/// the master curve `master`: entry `i` is the master curve's entry at the
/// eight-bit projection of the channel's entry `i`.
pub open spec fn composed(master: Seq<u16>, channel: Seq<u16>) -> Seq<u16> {
    Seq::new(channel.len(), |i: int| master[project_to_u8(channel[i] as int)])
}

/// Applies the master curve to what the channel curve puts out. Nothing is
/// interpolated: each entry is looked up in `master`.
pub fn compose(master: &Vec<u16>, channel: &Vec<u16>) -> (table: Vec<u16>)
    requires
        master@.len() == TABLE_LEN,
    ensures
        table@ == composed(master@, channel@),
        table@.len() == channel@.len(),
        forall|i: int|
            0 <= i < channel@.len() ==> table@[i] == master@[project_to_u8(channel@[i] as int)],
{
    let mut table: Vec<u16> = Vec::new();
    let mut i: usize = 0;
    while i < channel.len()
        invariant
            i <= channel@.len(),
            master@.len() == TABLE_LEN,
            table@.len() == i,
            forall|j: int| 0 <= j < i ==> table@[j] == master@[project_to_u8(channel@[j] as int)],
        decreases channel@.len() - i,
    {
        let at: u8 = scale_u16_to_u8_range(channel[i]);
        table.push(master[at as usize]);
        i = i + 1;
    }
    assert(table@ =~= composed(master@, channel@));
    table
}

} // verus!
