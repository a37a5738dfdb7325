//! The energy sequence: the lower half of a power spectrum, by level.
//!
//! The spectrum of a real block mirrors itself about its middle, so only
//! the bins below the middle are kept. A bin whose pattern encodes no
//! number counts as holding less than any number does: it is never the
//! strongest bin and never a peak.

use vstd::prelude::*;
use crate::level::{is_nan, is_nan_bits, level, level_of, LEVEL_MAX};

verus! {

/// The energy that a pattern stands for: its level, or the lowest level
/// of all if it encodes no number.
pub open spec fn energy_of(bits: u32) -> i64 {
    if is_nan(bits) {
        (-LEVEL_MAX) as i64
    } else {
        level(bits) as i64
    }
}

/// The energy sequence of a power spectrum: the energies of its first
/// `len / 2` bins.
pub open spec fn energy(power: Seq<u32>) -> Seq<i64> {
    Seq::new(power.len() / 2, |i: int| energy_of(power[i]))
}

/// Computes the energy that a pattern stands for.
pub fn energy_level(bits: u32) -> (e: i64)
    ensures
        e == energy_of(bits),
        -LEVEL_MAX <= e <= LEVEL_MAX,
{
    if is_nan_bits(bits) {
        -LEVEL_MAX
    } else {
        level_of(bits)
    }
}

/// Computes the energy sequence of a power spectrum.
pub fn extract_energy(power: &Vec<u32>) -> (e: Vec<i64>)
    ensures
        e@ == energy(power@),
        forall|i: int| 0 <= i < e.len() ==> -LEVEL_MAX <= #[trigger] e[i] <= LEVEL_MAX,
{
    let half: usize = power.len() / 2;
    let mut e: Vec<i64> = Vec::new();
    let mut i: usize = 0;
    while i < half
        invariant
            half == power.len() / 2,
            i <= half,
            e.len() == i,
            forall|j: int| 0 <= j < i ==> #[trigger] e[j] == energy_of(power[j]),
        decreases half - i,
    {
        e.push(energy_level(power[i]));
        i += 1;
    }
    assert(e@ =~= energy(power@));
    e
}

/// Finds the bin of the energy sequence that holds the most energy.
///
/// The answer is the first bin that no bin exceeds, provided that its
/// energy is a number above zero; where no bin holds such energy, and
/// where the sequence is empty, it is bin 0. A bin whose pattern encodes
/// no number is passed over.
pub fn strongest_bin(power: &Vec<u32>) -> (bin: usize)
    ensures
        bin == 0 || bin < power.len() / 2,
        bin > 0 ==> !is_nan(power[bin as int]) && level(power[bin as int]) > 0,
        forall|i: int|
            0 <= i < bin && !is_nan(#[trigger] power[i]) ==> level(power[i]) < level(
                power[bin as int],
            ),
        forall|i: int|
            0 <= i < power.len() / 2 && !is_nan(#[trigger] power[i]) && level(power[i]) > 0
                ==> !is_nan(power[bin as int]) && level(power[i]) <= level(power[bin as int]),
{
    let half: usize = power.len() / 2;
    let mut best: i64 = 0;
    let mut bin: usize = 0;
    let mut i: usize = 0;
    while i < half
        invariant
            half == power.len() / 2,
            i <= half,
            bin == 0 || bin < i,
            best >= 0,
            bin > 0 ==> best > 0,
            best > 0 ==> bin < i && !is_nan(power[bin as int]) && best == level(
                power[bin as int],
            ),
            forall|j: int| 0 <= j < i && !is_nan(#[trigger] power[j]) ==> level(power[j]) <= best,
            best > 0 ==> forall|j: int|
                0 <= j < bin && !is_nan(#[trigger] power[j]) ==> level(power[j]) < best,
        decreases half - i,
    {
        if !is_nan_bits(power[i]) {
            let here: i64 = level_of(power[i]);
            if best < here {
                best = here;
                bin = i;
            }
        }
        i += 1;
    }
    bin
}

} // verus!
