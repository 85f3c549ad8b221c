use vstd::prelude::*;
use crate::stats::{attack_of, health_of, AttackStats, Health};
use crate::units::UnitType;

verus! {

/// A point on the battlefield: `x` runs along the lane (friendly base on the negative
/// side), `y` is the lateral offset from the lane's centre line. Both are in thousandths
/// of a lane unit.
#[derive(Debug, Clone, Copy, PartialEq, Eq, Structural)]
pub struct Position {
    pub x: i64,
    pub y: i32,
}

/// What an entity is: a side's base, or a unit of some archetype.
#[derive(Debug, Clone, Copy, PartialEq, Eq, Structural)]
pub enum EntityKind {
    Base,
    Unit(UnitType),
}

/// The attack cycle of a unit. The timers hold the milliseconds left in the phase.
#[derive(Debug, Clone, Copy, PartialEq, Eq, Structural)]
pub enum Attacking {
    Start,
    Foreswing(u32),
    Backswing(u32),
}

/// A base or a unit in the entity store.
#[derive(Debug, Clone, Copy, PartialEq, Eq, Structural)]
pub struct Entity {
    pub id: u64,
    pub kind: EntityKind,
    pub is_foe: bool,
    pub position: Position,
    pub health: Health,
    pub attacking: Option<Attacking>,
}

/// A request to spawn a unit for a side; its price has been paid by whoever raised it.
#[derive(Debug, Clone, Copy, PartialEq, Eq, Structural)]
pub struct SpawnUnit {
    pub is_foe: bool,
    pub unit_type: UnitType,
}

/// The random part of a spawn position, in thousandths of a lane unit: how much farther
/// than the fixed offset the unit appears in front of its base, and how far to the side.
#[derive(Debug, Clone, Copy, PartialEq, Eq, Structural)]
pub struct SpawnJitter {
    pub forward: u32,
    pub lateral: u32,
}

/// A strike, emitted when a unit's wind-up completes: who struck, with what reach and
/// damage, from where, and facing which way (+1 or -1 along the lane).
#[derive(Debug, Clone, Copy, PartialEq, Eq, Structural)]
pub struct Attack {
    pub is_foe: bool,
    pub stats: AttackStats,
    pub position: Position,
    pub direction: i64,
}

/// The way a side faces along the lane: friendly units walk toward +x, foes toward -x.
pub open spec fn facing(is_foe: bool) -> int {
    if is_foe {
        -1
    } else {
        1
    }
}

/// An entity is alive while its health is above zero.
pub open spec fn alive(e: Entity) -> bool {
    e.health.current > 0
}

/// `offset` (target minus source, along the lane) has the sign of `direction` and is
/// at most `range` away.
pub open spec fn in_reach(direction: int, range: int, offset: int) -> bool {
    &&& (direction > 0 && offset > 0) || (direction < 0 && offset < 0)
    &&& -range <= offset <= range
}

/// `target` is a valid target for a member of side `is_foe` standing at `from`, facing
/// `direction`, with reach `range`: a living entity of the other side, in front, in reach.
pub open spec fn can_strike(is_foe: bool, direction: int, range: int, from: Position, target: Entity) -> bool {
    &&& target.is_foe != is_foe
    &&& alive(target)
    &&& in_reach(direction, range, target.position.x - from.x)
}

/// `v` held to the range of `i64`.
pub open spec fn clamp_i64(v: int) -> int {
    if v < i64::MIN {
        i64::MIN as int
    } else if v > i64::MAX {
        i64::MAX as int
    } else {
        v
    }
}

/// `v` held to the range of `i32`.
pub open spec fn clamp_i32(v: int) -> int {
    if v < i32::MIN {
        i32::MIN as int
    } else if v > i32::MAX {
        i32::MAX as int
    } else {
        v
    }
}

/// `x + delta`, held to the range of `i64`.
pub fn shift_x(x: i64, delta: i128) -> (r: i64)
    requires
        -0x1_0000_0000_0000_0000_0000 <= delta <= 0x1_0000_0000_0000_0000_0000,
    ensures
        r == clamp_i64(x + delta),
{
    let v: i128 = x as i128 + delta;
    if v < i64::MIN as i128 {
        i64::MIN
    } else if v > i64::MAX as i128 {
        i64::MAX
    } else {
        v as i64
    }
}

/// The fixed distance, in thousandths of a lane unit, at which a unit appears in front
/// of its base.
pub const SPAWN_OFFSET: u32 = 100_000;

/// Where a unit of side `is_foe` appears next to a base at `base`.
pub open spec fn spawn_position(base: Position, is_foe: bool, jitter: SpawnJitter) -> Position {
    Position {
        x: clamp_i64(base.x + facing(is_foe) * (SPAWN_OFFSET + jitter.forward)) as i64,
        y: clamp_i32(base.y + jitter.lateral) as i32,
    }
}

/// A fresh unit with id `id` made for `request` at `position`: full health, idle.
pub open spec fn new_unit(id: u64, request: SpawnUnit, position: Position) -> Entity {
    Entity {
        id,
        kind: EntityKind::Unit(request.unit_type),
        is_foe: request.is_foe,
        position,
        health: health_of(request.unit_type),
        attacking: None,
    }
}

/// Computes where a unit of side `is_foe` appears next to a base at `base`.
pub fn place_spawn(base: Position, is_foe: bool, jitter: SpawnJitter) -> (r: Position)
    ensures
        r == spawn_position(base, is_foe, jitter),
{
    let ahead: i128 = SPAWN_OFFSET as i128 + jitter.forward as i128;
    let delta: i128 = if is_foe {
        -ahead
    } else {
        ahead
    };
    let y: i64 = base.y as i64 + jitter.lateral as i64;
    let y: i32 = if y > i32::MAX as i64 {
        i32::MAX
    } else {
        y as i32
    };
    Position { x: shift_x(base.x, delta), y }
}

/// The reach and damage of a unit entity; a base has none.
pub open spec fn strike_stats(kind: EntityKind) -> AttackStats {
    match kind {
        EntityKind::Base => AttackStats { attack_range: 0, attack_damage: 0 },
        EntityKind::Unit(t) => attack_of(t),
    }
}

/// Tells whether `target` is a valid target for a member of side `is_foe` at `from`,
/// facing `direction`, with reach `range`.
pub fn check_strike(is_foe: bool, direction: i64, range: u32, from: Position, target: &Entity) -> (r: bool)
    ensures
        r == can_strike(is_foe, direction as int, range as int, from, *target),
{
    let offset: i128 = target.position.x as i128 - from.x as i128;
    let ahead = (direction > 0 && offset > 0) || (direction < 0 && offset < 0);
    target.is_foe != is_foe && target.health.current > 0 && ahead && -(range as i128) <= offset
        && offset <= range as i128
}

} // verus!
