use vstd::prelude::*;
use bevy_turborand::prelude::{DelegatedRng, RngComponent};
use crate::world::SpawnJitter;

verus! {

#[verifier::external_type_specification]
#[verifier::external_body]
pub struct ExRngComponent(RngComponent);

/// Forward jitter of a spawn stays below this many thousandths of a lane unit.
pub const FORWARD_JITTER: u32 = 10_000;

/// Lateral jitter of a spawn stays below this many thousandths of a lane unit.
pub const LATERAL_JITTER: u32 = 2_000;

/// Relies on bevy_turborand's `DelegatedRng::u32`, which hands the range on to
/// turborand's `TurboRand::u32`: the value drawn lies inside the range, and only an
/// empty range panics.
#[verifier::external_body]
fn draw_below(rng: &mut RngComponent, bound: u32) -> (r: u32)
    requires
        bound > 0,
    ensures
        r < bound,
{
    rng.u32(0..bound)
}

/// The jitter of one spawn is within its bounds.
pub open spec fn jitter_in_bounds(j: SpawnJitter) -> bool {
    j.forward < FORWARD_JITTER && j.lateral < LATERAL_JITTER
}

/// Draws the random part of one spawn position from `rng`.
pub fn draw_jitter(rng: &mut RngComponent) -> (r: SpawnJitter)
    ensures
        jitter_in_bounds(r),
{
    let forward = draw_below(rng, FORWARD_JITTER);
    let lateral = draw_below(rng, LATERAL_JITTER);
    SpawnJitter { forward, lateral }
}

/// Draws the jitter of `n` spawns from `rng`.
pub fn draw_jitters(rng: &mut RngComponent, n: usize) -> (r: Vec<SpawnJitter>)
    ensures
        r@.len() == n,
        forall|i: int| 0 <= i < n ==> jitter_in_bounds(#[trigger] r@[i]),
{
    let mut r: Vec<SpawnJitter> = Vec::new();
    let mut i: usize = 0;
    while i < n
        invariant
            i <= n,
            r@.len() == i,
            forall|k: int| 0 <= k < i ==> jitter_in_bounds(#[trigger] r@[k]),
        decreases n - i,
    {
        r.push(draw_jitter(rng));
        i += 1;
    }
    r
}

} // verus!
