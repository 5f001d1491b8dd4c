use agario_core::entity::{PlayerCell, Position};
use agario_core::physics::{collides, isqrt, log10_fixed, mass_to_radius, speed};

#[test]
fn isqrt_exact_values() {
    assert_eq!(isqrt(0), 0);
    assert_eq!(isqrt(1), 1);
    assert_eq!(isqrt(3), 1);
    assert_eq!(isqrt(4), 2);
    assert_eq!(isqrt(10_000_000), 3162);
    assert_eq!(isqrt(u64::MAX), 4294967295);
}

#[test]
fn radius_formula_default_masses() {
    // 4.0 + sqrt(10) * 6.0 = 22.973... in milli-units, floored sqrt
    assert_eq!(mass_to_radius(10_000), 22_972);
    // food: 4.0 + sqrt(1) * 6.0 = 10.0 exactly
    assert_eq!(mass_to_radius(1_000), 10_000);
}

#[test]
fn radius_tracks_mass_updates() {
    let mut c = PlayerCell::new(Position { x: 100_000, y: 100_000 }, 42);
    assert_eq!(c.radius, mass_to_radius(c.mass));
    c.update_mass(40_000);
    assert_eq!(c.radius, mass_to_radius(40_000));
    c.update_mass(123_456);
    assert_eq!(c.radius, mass_to_radius(123_456));
}

#[test]
fn log10_fixed_powers_of_ten() {
    // mass 10.0 => log10 = 1.0
    assert_eq!(log10_fixed(10_000), 1000);
    // mass 100.0 => log10 = 2.0
    assert_eq!(log10_fixed(100_000), 2000);
    // mass 1000.0 => log10 = 3.0
    assert_eq!(log10_fixed(1_000_000), 3000);
}

#[test]
fn speed_scales_to_zero_near_target() {
    // below the 20-unit threshold the cell does not move
    assert_eq!(speed(10_000, 1_000, 0), 0);
    assert_eq!(speed(10_000, 1_000, 20_000), 0);
    // far away: full speed = 5 / log10(10) + 1 = 6 units
    assert_eq!(speed(10_000, 1_000, 1_000_000), 6_000);
    // halfway up the ramp: (30 - 20) / 20 = 0.5 of full speed
    assert_eq!(speed(10_000, 1_000, 30_000), 3_000);
}

#[test]
fn collision_test_uses_attacker_radius() {
    // attacker radius 22.972 at origin-ish; target 5 units right: taxicab hit
    assert!(collides(100_000, 100_000, 22_972, 105_000, 100_000));
    // target 30 units right: axis distance exceeds the radius
    assert!(!collides(100_000, 100_000, 22_972, 130_000, 100_000));
    // diagonal just inside the circle: dx = dy = 16, dist ~= 22.6 < 22.972
    assert!(collides(100_000, 100_000, 22_972, 116_000, 116_000));
    // diagonal outside the circle: dx = dy = 17, dist ~= 24.04
    assert!(!collides(100_000, 100_000, 22_972, 117_000, 117_000));
}

#[test]
fn split_conserves_mass() {
    let mut c = PlayerCell::new(Position { x: 100_000, y: 100_000 }, 7);
    c.update_mass(30_000);
    let before = c.mass;
    let sibling = c.split(5_000).expect("heavy cell splits");
    assert_eq!(c.mass + sibling.mass, before);
    assert_eq!(sibling.mass, 15_000);
    assert_eq!(c.last_split, Some(5_000));
    assert_eq!(sibling.last_split, Some(5_000));
    assert_eq!(sibling.pos.x, c.pos.x);
    assert_eq!(sibling.momentum, 25_000);
}

#[test]
fn split_conserves_mass_odd_remainder() {
    let mut c = PlayerCell::new(Position { x: 100_000, y: 100_000 }, 7);
    c.update_mass(30_001);
    let sibling = c.split(1).expect("heavy cell splits");
    assert_eq!(c.mass + sibling.mass, 30_001);
    assert_eq!(sibling.mass, 15_000);
    assert_eq!(c.mass, 15_001);
}

#[test]
fn split_refused_below_twice_default() {
    let mut c = PlayerCell::new(Position { x: 100_000, y: 100_000 }, 7);
    c.update_mass(19_999);
    assert!(c.split(0).is_none());
    assert_eq!(c.mass, 19_999);
    assert_eq!(c.last_split, None);
}

#[test]
fn merge_cooldown_clock() {
    let mut c = PlayerCell::new(Position { x: 100_000, y: 100_000 }, 7);
    assert!(c.can_merge(0));
    c.update_mass(30_000);
    c.split(10_000);
    assert!(!c.can_merge(10_000));
    assert!(!c.can_merge(15_000));
    assert!(c.can_merge(15_001));
    // a clock reading before the stamp counts as elapsed
    assert!(c.can_merge(9_999));
}
