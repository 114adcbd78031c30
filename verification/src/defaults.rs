//! Default parameters: the configuration a fresh session starts from.
//!
//! These mirror the conventional setup for a guitar: a 650 mm scale, six
//! weighted harmonics (the 2nd through the 7th), a search over the first
//! half of the sample range, a 1000-sample heat map, and a palette running
//! from black through blue, cyan, green, yellow and red to white.

use crate::score::weights_ok;
use vstd::prelude::*;

verus! {

/// Default string length: a typical guitar scale, in millimetres.
pub fn default_string_length() -> (length: u64)
    ensures
        length == 650,
{
    650
}

/// Default harmonic weights, in thousandths: 0.15 for harmonic 2, 1.5 for
/// harmonics 3 to 5, and 0.75 for harmonics 6 and 7.
pub fn default_weights() -> (weights: Vec<u64>)
    ensures
        weights@ == seq![150u64, 1500u64, 1500u64, 1500u64, 750u64, 750u64],
        weights_ok(weights@),
{
    let mut weights: Vec<u64> = Vec::new();
    weights.push(150);
    weights.push(1500);
    weights.push(1500);
    weights.push(1500);
    weights.push(750);
    weights.push(750);
    proof {
        assert(weights@ =~= seq![150u64, 1500u64, 1500u64, 1500u64, 750u64, 750u64]);
    }
    weights
}

/// Default search limit for a string of `length` length units: half the
/// length, read as a sample index.
pub fn default_search_limit(length: u64) -> (limit: u64)
    ensures
        limit == length / 2,
{
    length / 2
}

/// Default heat-map resolution.
pub fn default_heat_map_resolution() -> (resolution: usize)
    ensures
        resolution == 1000,
{
    1000
}

/// The heat-map palette as `0xRRGGBB` codes: black, blue, cyan, green,
/// yellow, red, white.
pub fn heat_map_hex_stops() -> (stops: Vec<u32>)
    ensures
        stops@ == seq![
            0x000000u32,
            0x0000FFu32,
            0x00FFFFu32,
            0x00FF00u32,
            0xFFFF00u32,
            0xFF0000u32,
            0xFFFFFFu32,
        ],
{
    let mut stops: Vec<u32> = Vec::new();
    stops.push(0x000000);
    stops.push(0x0000FF);
    stops.push(0x00FFFF);
    stops.push(0x00FF00);
    stops.push(0xFFFF00);
    stops.push(0xFF0000);
    stops.push(0xFFFFFF);
    proof {
        assert(stops@ =~= seq![
            0x000000u32,
            0x0000FFu32,
            0x00FFFFu32,
            0x00FF00u32,
            0xFFFF00u32,
            0xFF0000u32,
            0xFFFFFFu32,
        ]);
    }
    stops
}

} // verus!
