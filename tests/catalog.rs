use lane_battler::{AttackStats, Health, MovementStats, UnitType};

#[test]
fn unit_costs() {
    assert_eq!(UnitType::Farmer.cost(), 10);
    assert_eq!(UnitType::Archer.cost(), 20);
    assert_eq!(UnitType::Shadow.cost(), 0);
}

#[test]
fn player_units_are_farmer_then_archer() {
    assert_eq!(UnitType::player_units(), vec![UnitType::Farmer, UnitType::Archer]);
}

#[test]
fn archetype_stats() {
    assert_eq!(MovementStats::from(UnitType::Farmer).speed, 10);
    assert_eq!(
        AttackStats::from(UnitType::Farmer),
        AttackStats { attack_range: 25_000, attack_damage: 2 }
    );
    assert_eq!(AttackStats::from(UnitType::Shadow).attack_range, 20_000);
    assert_eq!(AttackStats::from(UnitType::Archer).attack_range, 100_000);
    assert_eq!(Health::from(UnitType::Farmer), Health { current: 5, max: 5 });
    assert_eq!(Health::from(UnitType::Shadow).max, 10);
    assert_eq!(Health::from(UnitType::Archer).max, 2);
}

#[test]
fn health_takes_damage_below_zero() {
    let mut h = Health::from_max(5);
    assert!(!h.is_dead());
    h.apply_damage(2);
    assert_eq!(h.current, 3);
    assert!(!h.is_dead());
    h.apply_damage(4);
    assert_eq!(h.current, -1);
    assert_eq!(h.max, 5);
    assert!(h.is_dead());
}

#[test]
fn unit_names() {
    assert_eq!(UnitType::Farmer.name(), "Farmer");
    assert_eq!(UnitType::Archer.name(), "Archer");
    assert_eq!(UnitType::Shadow.name(), "Shadow");
}
