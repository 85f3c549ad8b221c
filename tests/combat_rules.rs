use lane_battler::combat::{attack, attack_animation, die, move_units, unit_behavior};
use lane_battler::rng::{draw_jitter, draw_jitters};
use lane_battler::simulation::{find_base, game_end, spawn_unit};
use lane_battler::{
    Attack, AttackStats, Attacking, Entity, EntityKind, Health, Position, SpawnJitter, SpawnUnit, UnitType,
    WaveClock, Winner,
};
use bevy_turborand::prelude::RngComponent;

fn unit(id: u64, t: UnitType, is_foe: bool, x: i64) -> Entity {
    Entity {
        id,
        kind: EntityKind::Unit(t),
        is_foe,
        position: Position { x, y: 0 },
        health: Health::from(t),
        attacking: None,
    }
}

fn base(id: u64, is_foe: bool, x: i64) -> Entity {
    Entity {
        id,
        kind: EntityKind::Base,
        is_foe,
        position: Position { x, y: 0 },
        health: Health::from_max(100),
        attacking: None,
    }
}

fn strike(is_foe: bool, x: i64, range: u32, damage: u32) -> Attack {
    Attack {
        is_foe,
        stats: AttackStats { attack_range: range, attack_damage: damage },
        position: Position { x, y: 0 },
        direction: if is_foe { -1 } else { 1 },
    }
}

#[test]
fn targeting_starts_attack_only_with_enemy_in_front_and_in_reach() {
    let es = vec![
        unit(0, UnitType::Farmer, false, 0),
        unit(1, UnitType::Shadow, true, 25_000),
        unit(2, UnitType::Farmer, false, 100_000),
    ];
    let r = unit_behavior(&es);
    assert_eq!(r[0].attacking, Some(Attacking::Start));
    // the shadow faces -x and reaches 20 units; the farmer is 25 units away
    assert_eq!(r[1].attacking, None);
    // an enemy behind is no target
    assert_eq!(r[2].attacking, None);
}

#[test]
fn targeting_ignores_allies_and_the_dead() {
    let mut dead = unit(1, UnitType::Shadow, true, 10_000);
    dead.health.current = 0;
    let es = vec![unit(0, UnitType::Farmer, false, 0), dead, unit(2, UnitType::Farmer, false, 5_000)];
    let r = unit_behavior(&es);
    assert_eq!(r[0].attacking, None);
}

#[test]
fn target_at_the_same_lane_position_is_not_in_front() {
    let es = vec![unit(0, UnitType::Farmer, false, 0), unit(1, UnitType::Farmer, true, 0)];
    let r = unit_behavior(&es);
    assert_eq!(r[0].attacking, None);
    assert_eq!(r[1].attacking, None);
}

#[test]
fn idle_units_walk_and_attackers_and_bases_stay() {
    let mut busy = unit(1, UnitType::Farmer, false, 0);
    busy.attacking = Some(Attacking::Foreswing(300));
    let es = vec![unit(0, UnitType::Farmer, false, 0), busy, unit(2, UnitType::Shadow, true, 0), base(3, false, 7)];
    let r = move_units(&es, 100);
    assert_eq!(r[0].position, Position { x: 1_000, y: 0 });
    assert_eq!(r[1].position, Position { x: 0, y: 0 });
    assert_eq!(r[2].position, Position { x: -1_000, y: 0 });
    assert_eq!(r[3].position, Position { x: 7, y: 0 });
}

#[test]
fn walking_saturates_at_the_end_of_the_coordinate_range() {
    let es = vec![unit(0, UnitType::Farmer, false, i64::MAX - 5)];
    let r = move_units(&es, 1000);
    assert_eq!(r[0].position.x, i64::MAX);
}

#[test]
fn attack_cycle_steps() {
    let mut a = unit(0, UnitType::Farmer, false, 0);
    a.attacking = Some(Attacking::Start);
    let mut b = unit(1, UnitType::Farmer, false, 0);
    b.attacking = Some(Attacking::Foreswing(150));
    let mut c = unit(2, UnitType::Farmer, false, 0);
    c.attacking = Some(Attacking::Backswing(100));
    let mut d = unit(3, UnitType::Farmer, false, 0);
    d.attacking = Some(Attacking::Backswing(500));
    let (r, attacks) = attack_animation(&vec![a, b, c, d], 100);
    assert_eq!(r[0].attacking, Some(Attacking::Foreswing(1000)));
    assert_eq!(r[1].attacking, Some(Attacking::Foreswing(50)));
    assert_eq!(r[2].attacking, None);
    assert_eq!(r[3].attacking, Some(Attacking::Backswing(400)));
    assert!(attacks.is_empty());
}

#[test]
fn completed_windup_strikes_once_even_without_target() {
    let mut a = unit(4, UnitType::Archer, true, 12_000);
    a.attacking = Some(Attacking::Foreswing(50));
    let (r, attacks) = attack_animation(&vec![a], 100);
    assert_eq!(r[0].attacking, Some(Attacking::Backswing(500)));
    assert_eq!(attacks, vec![strike(true, 12_000, 100_000, 2)]);
    // nobody to hit: the strike is lost
    let after = attack(r.clone(), &attacks);
    assert_eq!(after, r);
}

#[test]
fn strikes_come_out_in_store_order() {
    let mut a = unit(0, UnitType::Farmer, false, 1);
    a.attacking = Some(Attacking::Foreswing(100));
    let mut b = unit(1, UnitType::Shadow, true, 2);
    b.attacking = Some(Attacking::Foreswing(100));
    let (_, attacks) = attack_animation(&vec![a, b], 100);
    assert_eq!(attacks, vec![strike(false, 1, 25_000, 2), strike(true, 2, 20_000, 2)]);
}

#[test]
fn strike_lands_on_the_nearest_target() {
    let es = vec![
        unit(0, UnitType::Shadow, true, 20_000),
        unit(1, UnitType::Shadow, true, 10_000),
        unit(2, UnitType::Shadow, false, 5_000),
    ];
    let r = attack(es, &vec![strike(false, 0, 25_000, 2)]);
    assert_eq!(r[0].health.current, 10);
    assert_eq!(r[1].health.current, 8);
    assert_eq!(r[2].health.current, 10);
}

#[test]
fn lateral_offset_counts_in_the_distance() {
    let mut near_lane = unit(0, UnitType::Shadow, true, 10_000);
    near_lane.position.y = 9_000;
    let far_lane = unit(1, UnitType::Shadow, true, 12_000);
    let r = attack(vec![near_lane, far_lane], &vec![strike(false, 0, 25_000, 2)]);
    assert_eq!(r[0].health.current, 10);
    assert_eq!(r[1].health.current, 8);
}

#[test]
fn equal_distance_goes_to_the_smaller_id() {
    let mut later = unit(9, UnitType::Shadow, true, 10_000);
    later.position.y = 1;
    let mut earlier = unit(3, UnitType::Shadow, true, 10_000);
    earlier.position.y = -1;
    let r = attack(vec![later, earlier], &vec![strike(false, 0, 25_000, 2)]);
    assert_eq!(r[0].health.current, 10);
    assert_eq!(r[1].health.current, 8);
}

#[test]
fn killed_unit_takes_no_further_hits_and_is_swept() {
    let es = vec![unit(0, UnitType::Farmer, true, 10_000), unit(1, UnitType::Farmer, true, 20_000)];
    let evs = vec![
        strike(false, 0, 25_000, 2),
        strike(false, 0, 25_000, 3),
        strike(false, 0, 25_000, 2),
    ];
    let r = attack(es, &evs);
    assert_eq!(r[0].health.current, 0);
    assert_eq!(r[1].health.current, 3);
    let living = die(&r);
    assert_eq!(living.len(), 1);
    assert_eq!(living[0].id, 1);
    assert_eq!(die(&living), living);
}

#[test]
fn spawn_places_units_ahead_of_their_base() {
    let es = vec![base(0, false, -200_000), base(1, true, 200_000)];
    let reqs = vec![
        SpawnUnit { is_foe: false, unit_type: UnitType::Farmer },
        SpawnUnit { is_foe: true, unit_type: UnitType::Shadow },
    ];
    let jit = vec![SpawnJitter { forward: 3_000, lateral: 1_500 }, SpawnJitter { forward: 9_999, lateral: 0 }];
    let (r, next) = spawn_unit(es, 2, &reqs, &jit);
    assert_eq!(next, 4);
    assert_eq!(r.len(), 4);
    assert_eq!(r[2], Entity { position: Position { x: -97_000, y: 1_500 }, ..unit(2, UnitType::Farmer, false, 0) });
    assert_eq!(r[3], Entity { position: Position { x: 90_001, y: 0 }, ..unit(3, UnitType::Shadow, true, 0) });
}

#[test]
fn spawn_for_a_side_without_base_is_dropped() {
    let es = vec![base(0, false, -200_000)];
    let reqs = vec![SpawnUnit { is_foe: true, unit_type: UnitType::Shadow }];
    let jit = vec![SpawnJitter { forward: 0, lateral: 0 }];
    let (r, next) = spawn_unit(es.clone(), 5, &reqs, &jit);
    assert_eq!(r, es);
    assert_eq!(next, 5);
}

#[test]
fn spawn_with_no_free_id_is_dropped() {
    let es = vec![base(0, false, -200_000)];
    let reqs = vec![SpawnUnit { is_foe: false, unit_type: UnitType::Farmer }];
    let jit = vec![SpawnJitter { forward: 0, lateral: 0 }];
    let (r, next) = spawn_unit(es.clone(), u64::MAX, &reqs, &jit);
    assert_eq!(r, es);
    assert_eq!(next, u64::MAX);
}

#[test]
fn bases_are_found_by_side() {
    let es = vec![unit(5, UnitType::Farmer, true, 0), base(0, false, -1), base(1, true, 1)];
    assert_eq!(find_base(&es, false), Some(1));
    assert_eq!(find_base(&es, true), Some(2));
    assert_eq!(find_base(&es[..1].to_vec(), true), None);
}

#[test]
fn winner_is_decided_by_the_bases_left() {
    let both = vec![base(0, false, -1), base(1, true, 1)];
    assert_eq!(game_end(&both), None);
    assert_eq!(game_end(&vec![base(0, false, -1)]), Some(Winner::Player));
    assert_eq!(game_end(&vec![base(1, true, 1)]), Some(Winner::Enemy));
    assert_eq!(game_end(&vec![]), Some(Winner::Player));
}

#[test]
fn jitter_stays_within_bounds() {
    let mut rng = RngComponent::with_seed(7);
    let mut seen_nonzero = false;
    for _ in 0..500 {
        let j = draw_jitter(&mut rng);
        assert!(j.forward < 10_000);
        assert!(j.lateral < 2_000);
        seen_nonzero |= j.forward > 0;
    }
    assert!(seen_nonzero);
    assert_eq!(draw_jitters(&mut rng, 3).len(), 3);
}

#[test]
fn waves_come_every_five_seconds() {
    let mut clock = WaveClock::new();
    for _ in 0..49 {
        assert_eq!(clock.generate_waves(100), None);
    }
    assert_eq!(
        clock.generate_waves(100),
        Some(SpawnUnit { is_foe: true, unit_type: UnitType::Shadow })
    );
    assert_eq!(clock.generate_waves(4_900), None);
    assert!(clock.generate_waves(12_000).is_some());
    assert_eq!(clock.generate_waves(3_000), None);
    assert!(clock.generate_waves(100).is_some());
}
