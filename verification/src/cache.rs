//! The key under which the viewer caches the points it plotted.
use vstd::prelude::*;

verus! {

/// What a cached plot was computed from: a field of a topic, the time range
/// shown, and the number of points asked for.
#[derive(Debug, Clone, Copy, PartialEq, Eq, Hash)]
pub struct Key<'a> {
    pub topic: &'a str,
    pub field: &'a str,
    pub time_range: [i64; 2],
    pub num_points: usize,
}

/// Whether a cached entry last used in generation `used` stays in the cache
/// when frame `current` ends: only the entries used during that frame stay.
pub fn kept_at_frame_end(used: u32, current: u32) -> (b: bool)
    ensures
        b == (used == current),
{
    used == current
}

/// The generation of the frame after `current`, wrapping around after
/// `u32::MAX`.
pub fn next_generation(current: u32) -> (n: u32)
    ensures
        n == (current + 1) % 0x1_0000_0000,
{
    if current == u32::MAX {
        0
    } else {
        current + 1
    }
}

} // verus!
