use vstd::prelude::*;
use crate::units::UnitType;

verus! {

/// Walking speed, in thousandths of a lane unit per millisecond.
#[derive(Debug, Clone, Copy, PartialEq, Eq, Structural)]
pub struct MovementStats {
    pub speed: u32,
}

/// Reach (thousandths of a lane unit) and damage per strike (health points).
#[derive(Debug, Clone, Copy, PartialEq, Eq, Structural)]
pub struct AttackStats {
    pub attack_range: u32,
    pub attack_damage: u32,
}

/// Health points. `current` may drop below zero; such an entity is dead.
#[derive(Debug, Clone, Copy, PartialEq, Eq, Structural)]
pub struct Health {
    pub current: i64,
    pub max: i64,
}

/// The walking speed of archetype `t`.
pub open spec fn movement_of(t: UnitType) -> MovementStats {
    match t {
        UnitType::Farmer => MovementStats { speed: 10 },
        UnitType::Shadow => MovementStats { speed: 10 },
        UnitType::Archer => MovementStats { speed: 10 },
    }
}

/// The reach and damage of archetype `t`.
pub open spec fn attack_of(t: UnitType) -> AttackStats {
    match t {
        UnitType::Farmer => AttackStats { attack_range: 25_000, attack_damage: 2 },
        UnitType::Shadow => AttackStats { attack_range: 20_000, attack_damage: 2 },
        UnitType::Archer => AttackStats { attack_range: 100_000, attack_damage: 2 },
    }
}

/// The maximum health of archetype `t`.
pub open spec fn max_health_of(t: UnitType) -> u32 {
    match t {
        UnitType::Farmer => 5,
        UnitType::Shadow => 10,
        UnitType::Archer => 2,
    }
}

/// Full health for archetype `t`.
pub open spec fn health_of(t: UnitType) -> Health {
    Health { current: max_health_of(t) as i64, max: max_health_of(t) as i64 }
}


impl From<UnitType> for MovementStats {
    fn from(unit_type: UnitType) -> (r: MovementStats)
        ensures
            r == movement_of(unit_type),
    {
        match unit_type {
            UnitType::Farmer => MovementStats { speed: 10 },
            UnitType::Shadow => MovementStats { speed: 10 },
            UnitType::Archer => MovementStats { speed: 10 },
        }
    }
}

impl vstd::std_specs::convert::FromSpecImpl<UnitType> for MovementStats {
    open spec fn obeys_from_spec() -> bool {
        true
    }

    open spec fn from_spec(v: UnitType) -> MovementStats {
        movement_of(v)
    }
}

impl From<UnitType> for AttackStats {
    fn from(value: UnitType) -> (r: AttackStats)
        ensures
            r == attack_of(value),
    {
        match value {
            UnitType::Farmer => AttackStats { attack_range: 25_000, attack_damage: 2 },
            UnitType::Shadow => AttackStats { attack_range: 20_000, attack_damage: 2 },
            UnitType::Archer => AttackStats { attack_range: 100_000, attack_damage: 2 },
        }
    }
}

impl vstd::std_specs::convert::FromSpecImpl<UnitType> for AttackStats {
    open spec fn obeys_from_spec() -> bool {
        true
    }

    open spec fn from_spec(v: UnitType) -> AttackStats {
        attack_of(v)
    }
}

impl Health {
    /// Full health: `current` equals `max`.
    pub fn from_max(max: u32) -> (r: Health)
        ensures
            r.current == max,
            r.max == max,
    {
        Health { current: max as i64, max: max as i64 }
    }

    /// A health of zero or less is dead.
    pub fn is_dead(&self) -> (r: bool)
        ensures
            r == (self.current <= 0),
    {
        self.current <= 0
    }

    /// Lowers `current` by `damage`; the maximum stays.
    pub fn apply_damage(&mut self, damage: u32)
        requires
            old(self).current - damage >= i64::MIN,
        ensures
            final(self).current == old(self).current - damage,
            final(self).max == old(self).max,
    {
        self.current = self.current - damage as i64;
    }
}

impl From<UnitType> for Health {
    fn from(value: UnitType) -> (r: Health)
        ensures
            r == health_of(value),
    {
        let max: u32 = match value {
            UnitType::Farmer => 5,
            UnitType::Shadow => 10,
            UnitType::Archer => 2,
        };
        Health::from_max(max)
    }
}

impl vstd::std_specs::convert::FromSpecImpl<UnitType> for Health {
    open spec fn obeys_from_spec() -> bool {
        true
    }

    open spec fn from_spec(v: UnitType) -> Health {
        health_of(v)
    }
}

} // verus!
