use vstd::prelude::*;
use crate::units::UnitType;
use crate::world::SpawnUnit;

verus! {

/// Time between two enemy waves, in milliseconds.
pub const WAVE_PERIOD_MS: u32 = 5000;

/// A repeating timer that sends an enemy unit every `WAVE_PERIOD_MS` milliseconds.
#[derive(Debug)]
pub struct WaveClock {
    elapsed_ms: u32,
}

/// The unit an enemy wave brings.
pub open spec fn wave_unit() -> SpawnUnit {
    SpawnUnit { is_foe: true, unit_type: UnitType::Shadow }
}

impl WaveClock {
    #[verifier::type_invariant]
    spec fn within_period(&self) -> bool {
        self.elapsed_ms < WAVE_PERIOD_MS
    }

    /// Milliseconds since the last wave.
    pub closed spec fn elapsed(&self) -> nat {
        self.elapsed_ms as nat
    }

    /// A clock that has just started.
    pub fn new() -> (r: WaveClock)
        ensures
            r.elapsed() == 0,
    {
        WaveClock { elapsed_ms: 0 }
    }

    /// Lets `dt_ms` milliseconds pass; returns the enemy spawn request when a period
    /// completes (one request per tick, however many periods it spans).
    pub fn generate_waves(&mut self, dt_ms: u32) -> (r: Option<SpawnUnit>)
        ensures
            old(self).elapsed() < WAVE_PERIOD_MS,
            final(self).elapsed() < WAVE_PERIOD_MS,
            old(self).elapsed() + dt_ms >= WAVE_PERIOD_MS ==> r == Some(wave_unit()) && final(self).elapsed()
                == (old(self).elapsed() + dt_ms) % (WAVE_PERIOD_MS as int),
            old(self).elapsed() + dt_ms < WAVE_PERIOD_MS ==> r is None && final(self).elapsed() == old(
                self,
            ).elapsed() + dt_ms,
    {
        proof {
            use_type_invariant(&*self);
        }
        let total: u64 = self.elapsed_ms as u64 + dt_ms as u64;
        if total >= WAVE_PERIOD_MS as u64 {
            self.elapsed_ms = (total % WAVE_PERIOD_MS as u64) as u32;
            Some(SpawnUnit { is_foe: true, unit_type: UnitType::Shadow })
        } else {
            self.elapsed_ms = total as u32;
            None
        }
    }
}

} // verus!
