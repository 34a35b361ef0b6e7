//! Pixel intensity from escape time.

use vstd::prelude::*;
use crate::render::ESCAPE_LIMIT;

verus! {

/// The grey level of a point by its escape time: black for a point that
/// stayed bounded, and `255 - i` (taken modulo 256) for one that escaped at
/// iteration `i`.
pub open spec fn intensity_of(escape: Option<u32>) -> u8 {
    match escape {
        None => 0u8,
        Some(count) => (255 - count % 256) as u8,
    }
}

/// Grey level for an escape time.
pub fn intensity(escape: Option<u32>) -> (level: u8)
    ensures
        level == intensity_of(escape),
{
    match escape {
        None => 0,
        Some(count) => 255 - (count % 256) as u8,
    }
}

/// Within the iteration budget the grey level is `255 - i` without any
/// wrapping: a point that escaped is never black, and the sooner it escaped
/// the brighter it is.
pub proof fn lemma_intensity_polarity(sooner: u32, later: u32)
    requires
        sooner < later < ESCAPE_LIMIT,
    ensures
        intensity_of(Some(sooner)) == 255 - sooner,
        intensity_of(Some(later)) == 255 - later,
        intensity_of(Some(sooner)) > intensity_of(Some(later)) >= 1,
        intensity_of(None) == 0,
{
}

} // verus!
