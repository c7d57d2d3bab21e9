use dungeon_feature::combat::{apply_damage, calculate_damage, EnemyKind, Health};

#[test]
fn test_damage_calculation_normal() {
    assert_eq!(calculate_damage(15, 5), 10);
}

#[test]
fn test_damage_calculation_minimum() {
    assert_eq!(calculate_damage(3, 10), 1);
}

#[test]
fn test_damage_calculation_zero_defense() {
    assert_eq!(calculate_damage(10, 0), 10);
}

#[test]
fn damage_is_at_least_one_even_when_defense_is_equal() {
    assert_eq!(calculate_damage(7, 7), 1);
    assert_eq!(calculate_damage(0, 0), 1);
}

#[test]
fn damage_lowers_health_and_saturates_at_zero() {
    let mut h = Health { current: 30, max: 100 };
    assert!(apply_damage(&mut h, 12, false));
    assert_eq!(h, Health { current: 18, max: 100 });
    assert!(apply_damage(&mut h, 50, false));
    assert_eq!(h, Health { current: 0, max: 100 });
}

#[test]
fn damage_skips_invincible_and_dead_targets() {
    let mut h = Health { current: 30, max: 100 };
    assert!(!apply_damage(&mut h, 12, true));
    assert_eq!(h.current, 30);
    let mut dead = Health { current: 0, max: 100 };
    assert!(!apply_damage(&mut dead, 12, false));
    assert_eq!(dead.current, 0);
}

#[test]
fn enemy_meta_indices_are_distinct() {
    let kinds = [EnemyKind::Slime, EnemyKind::Bat, EnemyKind::Golem];
    let mut seen = Vec::new();
    for k in kinds {
        let i = k.meta_index();
        assert!(!seen.contains(&i));
        seen.push(i);
    }
    assert_eq!(EnemyKind::default(), EnemyKind::Slime);
}
