use lane_battler::{
    Attacking, Entity, EntityKind, GameState, Position, Simulation, SpawnJitter, SpawnUnit, TickSummary, UnitType,
    Winner,
};
use bevy_turborand::prelude::RngComponent;

fn tick(sim: &mut Simulation, dt: u32) -> TickSummary {
    sim.advance(dt, &vec![], &vec![])
}

fn find(s: &TickSummary, id: u64) -> Option<Entity> {
    s.entities.iter().copied().find(|e| e.id == id)
}

#[test]
fn match_starts_with_two_bases() {
    let sim = Simulation::setup_in_game();
    let s = sim.summary();
    assert_eq!(s.entities.len(), 2);
    assert_eq!(s.entities[0].kind, EntityKind::Base);
    assert!(!s.entities[0].is_foe);
    assert_eq!(s.entities[0].position, Position { x: -200_000, y: 0 });
    assert_eq!(s.entities[1].position, Position { x: 200_000, y: 0 });
    assert_eq!(s.entities[1].health.current, 100);
    assert_eq!(s.state, GameState::InGame);
    assert_eq!(s.winner, None);
    assert_eq!(sim.stats(), None);
}

#[test]
fn coins_accrue_for_both_sides() {
    let mut sim = Simulation::new(1000, 10);
    let mut s = sim.summary();
    for _ in 0..50 {
        s = tick(&mut sim, 100);
    }
    assert_eq!(s.player_coins, 50_000);
    assert_eq!(s.enemy_coins, 50_000);
}

#[test]
fn spending_checks_funds() {
    let mut sim = Simulation::new(1000, 1);
    tick(&mut sim, 15_000);
    assert!(!sim.try_spend(false, 20));
    assert_eq!(sim.summary().player_coins, 15_000);
    assert!(sim.try_spend(false, 10));
    assert_eq!(sim.summary().player_coins, 5_000);
    assert_eq!(sim.summary().enemy_coins, 15_000);
}

#[test]
fn unit_walks_to_the_enemy_base_and_strikes_after_the_windup() {
    let mut sim = Simulation::setup_in_game();
    let s = sim.advance(
        100,
        &vec![SpawnUnit { is_foe: false, unit_type: UnitType::Farmer }],
        &vec![SpawnJitter { forward: 0, lateral: 0 }],
    );
    let id = 2;
    let spawned = find(&s, id).unwrap();
    // spawned 100 units ahead of its base, then walked one tick
    assert_eq!(spawned.position.x, -100_000 + 1_000);
    let mut entered: Option<usize> = None;
    let mut started: Option<usize> = None;
    let mut struck: Option<usize> = None;
    for t in 1..1000 {
        let before = find(&sim.summary(), id).unwrap();
        let s = tick(&mut sim, 100);
        let after = find(&s, id).unwrap();
        if entered.is_none() && after.position.x >= 175_000 {
            entered = Some(t);
        }
        if started.is_none() && after.attacking.is_some() {
            started = Some(t);
            assert_eq!(after.attacking, Some(Attacking::Foreswing(1000)));
            assert!(before.position.x >= 175_000);
        }
        if after.attacking.is_some() {
            assert_eq!(after.position, before.position);
        }
        if !s.attacks.is_empty() {
            struck = Some(t);
            assert_eq!(s.attacks.len(), 1);
            assert_eq!(s.attacks[0].position, after.position);
            assert_eq!(s.entities[1].health.current, 98);
            break;
        }
    }
    let entered = entered.unwrap();
    let started = started.unwrap();
    assert_eq!(started, entered + 1);
    // ten ticks of 100 ms after the attack started
    assert_eq!(struck.unwrap(), started + 10);
}

#[test]
fn opposing_units_stop_and_fight_instead_of_passing() {
    let mut sim = Simulation::setup_in_game();
    let a = sim.place_unit(SpawnUnit { is_foe: false, unit_type: UnitType::Shadow }, Position { x: 0, y: 0 }).unwrap();
    let b = sim
        .place_unit(SpawnUnit { is_foe: true, unit_type: UnitType::Shadow }, Position { x: 30_000, y: 0 })
        .unwrap();
    let mut both_attacking = false;
    for _ in 0..30 {
        let pre = sim.summary();
        let (pa, pb) = (find(&pre, a).unwrap(), find(&pre, b).unwrap());
        let s = tick(&mut sim, 100);
        let (ea, eb) = match (find(&s, a), find(&s, b)) {
            (Some(x), Some(y)) => (x, y),
            _ => break,
        };
        assert!(ea.position.x < eb.position.x);
        if ea.attacking.is_some() && pa.attacking.is_none() {
            assert!(pb.position.x - pa.position.x <= 20_000);
        }
        if eb.attacking.is_some() && pb.attacking.is_none() {
            assert!(pb.position.x - pa.position.x <= 20_000);
        }
        if ea.attacking.is_some() {
            assert_eq!(ea.position, pa.position);
        }
        if ea.attacking.is_some() && eb.attacking.is_some() {
            both_attacking = true;
        }
    }
    assert!(both_attacking);
    let s = sim.summary();
    assert_eq!(find(&s, b).unwrap().position.x - find(&s, a).unwrap().position.x, 20_000);
}

#[test]
fn unit_dies_when_cumulative_damage_reaches_its_health() {
    let mut sim = Simulation::setup_in_game();
    // a farmer (5 health) facing two enemy shadows that strike for 2 each
    let victim = sim.place_unit(SpawnUnit { is_foe: false, unit_type: UnitType::Farmer }, Position { x: 0, y: 0 }).unwrap();
    sim.place_unit(SpawnUnit { is_foe: true, unit_type: UnitType::Shadow }, Position { x: 10_000, y: 0 }).unwrap();
    sim.place_unit(SpawnUnit { is_foe: true, unit_type: UnitType::Shadow }, Position { x: 10_000, y: 5 }).unwrap();
    let mut dead_at = None;
    for t in 0..200 {
        let s = tick(&mut sim, 100);
        match find(&s, victim) {
            Some(e) => assert!(e.health.current > 0),
            None => {
                dead_at = Some(t);
                break;
            }
        }
        assert!(s.entities.iter().all(|e| e.health.current > 0));
    }
    assert!(dead_at.is_some());
    // nothing it could strike at is hit after it is gone
    let s = tick(&mut sim, 100);
    assert!(s.attacks.iter().all(|a| a.is_foe));
}

#[test]
fn destroyed_enemy_base_ends_the_match_and_freezes_it() {
    let mut sim = Simulation::setup_in_game();
    for i in 0..10 {
        sim.place_unit(SpawnUnit { is_foe: false, unit_type: UnitType::Archer }, Position { x: 150_000, y: i })
            .unwrap();
    }
    let mut last = None;
    for _ in 0..10_000 {
        let s = tick(&mut sim, 100);
        if s.state == GameState::PostGame {
            last = Some(s);
            break;
        }
    }
    let ended = last.unwrap();
    assert_eq!(ended.winner, Some(Winner::Player));
    assert!(ended.entities.iter().all(|e| !(e.is_foe && e.kind == EntityKind::Base)));
    assert_eq!(sim.stats().unwrap().winner, Winner::Player);
    let snapshot = sim.summary();
    let again = sim.advance(
        100,
        &vec![SpawnUnit { is_foe: false, unit_type: UnitType::Farmer }],
        &vec![SpawnJitter { forward: 1, lateral: 1 }],
    );
    assert_eq!(again, snapshot);
    let mut rng = RngComponent::with_seed(3);
    let third = sim.advance_with_rng(5_000, &vec![SpawnUnit { is_foe: true, unit_type: UnitType::Shadow }], &mut rng);
    assert_eq!(third, snapshot);
}

#[test]
fn random_spawns_land_within_the_jitter_bounds() {
    let mut sim = Simulation::setup_in_game();
    let mut rng = RngComponent::with_seed(11);
    let reqs = vec![
        SpawnUnit { is_foe: false, unit_type: UnitType::Archer },
        SpawnUnit { is_foe: true, unit_type: UnitType::Shadow },
    ];
    let s = sim.advance_with_rng(0, &reqs, &mut rng);
    assert_eq!(s.entities.len(), 4);
    let friend = s.entities[2];
    let foe = s.entities[3];
    assert!(friend.position.x >= -100_000 && friend.position.x < -90_000);
    assert!(friend.position.y >= 0 && friend.position.y < 2_000);
    assert!(foe.position.x <= 100_000 && foe.position.x > 90_000);
    assert_eq!(friend.kind, EntityKind::Unit(UnitType::Archer));
    assert_eq!(friend.health.current, 2);
    assert!(foe.is_foe);
}
