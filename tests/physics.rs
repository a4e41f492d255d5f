use atoms::collision::{
    apply_corrections, collision, contact, corrections, detect, pair_indices, Contact, Correction,
};
use atoms::fixed::{div_toward_zero, floor_sqrt, Vec2, LIMIT};
use atoms::frame::step;
use atoms::gravity::{apply_gravity, gravity};
use atoms::motion::{apply_motion, movement};
use atoms::particle::Particle;
use atoms::spawn::{particle_from_samples, spread_sample, startup, ATOM_RADIUS, BOUNDARY_SIZE};

fn particle(x: i64, y: i64, vx: i64, vy: i64, radius: i64) -> Particle {
    Particle::new(Vec2::new(x, y), Vec2::new(vx, vy), radius)
}

#[test]
fn division_rounds_toward_zero() {
    assert_eq!(div_toward_zero(7, 2), 3);
    assert_eq!(div_toward_zero(-7, 2), -3);
    assert_eq!(div_toward_zero(0, 5), 0);
}

#[test]
fn square_root_rounds_down() {
    assert_eq!(floor_sqrt(0), 0);
    assert_eq!(floor_sqrt(1), 1);
    assert_eq!(floor_sqrt(15), 3);
    assert_eq!(floor_sqrt(16), 4);
    assert_eq!(floor_sqrt(225_000_000), 15_000);
    assert_eq!(floor_sqrt(u64::MAX), 4_294_967_295);
}

#[test]
fn gravity_pulls_toward_origin() {
    // Ten units from the origin, one 16 ms frame: 1000 / 10 * 0.016 = 1.6 units/s.
    let mut p = particle(10_000, 0, 0, 0, 10_000);
    apply_gravity(&mut p, 16_000);
    assert_eq!(p.velocity.0, Vec2::new(-1_600, 0));
    assert_eq!(p.position, Vec2::new(10_000, 0));
}

#[test]
fn gravity_raises_inward_speed_on_a_diagonal() {
    let mut p = particle(-3_000, 4_000, 100, 100, 10_000);
    let before = -(p.velocity.0.x * p.position.x + p.velocity.0.y * p.position.y);
    apply_gravity(&mut p, 16_000);
    let after = -(p.velocity.0.x * p.position.x + p.velocity.0.y * p.position.y);
    assert!(after > before);
    // 1000 * 16000 / 25_000_000 = 0.64 per milli-unit of offset.
    assert_eq!(p.velocity.0, Vec2::new(100 + 1_920, 100 - 2_560));
}

#[test]
fn gravity_registers_small_pull() {
    // A thousand units out, a one-microsecond frame: the exact pull is far
    // below one fixed-point unit, yet the particle still starts to fall.
    let mut p = particle(1_000_000, 0, 0, 0, 10_000);
    apply_gravity(&mut p, 1);
    assert_eq!(p.velocity.0, Vec2::new(-1, 0));
}

#[test]
fn gravity_change_stays_within_cap() {
    // Just outside the dead zone, one microsecond: the exact pull is about
    // 1.995 thousandths per second; the change may not exceed it.
    let mut p = particle(354, 354, 0, 0, 10_000);
    apply_gravity(&mut p, 1);
    assert_eq!(p.velocity.0, Vec2::new(-1, -1));
}

#[test]
fn gravity_dead_zone_keeps_velocity() {
    let mut p = particle(300, 300, 5, -7, 10_000);
    apply_gravity(&mut p, 16_000);
    assert_eq!(p.velocity.0, Vec2::new(5, -7));
}

#[test]
fn gravity_at_origin_does_nothing() {
    let mut ps = vec![particle(0, 0, 1, 2, 10_000)];
    gravity(&mut ps, 1_000_000);
    assert_eq!(ps[0], particle(0, 0, 1, 2, 10_000));
}

#[test]
fn gravity_out_of_range_leaves_particle() {
    let mut p = particle(500, 0, -LIMIT, 0, 10_000);
    apply_gravity(&mut p, 1_000_000);
    assert_eq!(p.velocity.0, Vec2::new(-LIMIT, 0));
}

#[test]
fn movement_adds_velocity_times_dt() {
    let mut p = particle(100, 200, 1_000, -2_000, 10_000);
    apply_motion(&mut p, 16_000);
    assert_eq!(p.position, Vec2::new(116, 168));
    assert_eq!(p.velocity.0, Vec2::new(1_000, -2_000));
}

#[test]
fn movement_repeats_exactly() {
    let mut ps = vec![particle(0, 0, 1_000, -2_000, 10_000)];
    for _ in 0..10 {
        movement(&mut ps, 16_000);
    }
    assert_eq!(ps[0].position, Vec2::new(160, -320));
}

#[test]
fn movement_out_of_range_stays() {
    let mut p = particle(LIMIT, 0, 1_000_000, 0, 10_000);
    apply_motion(&mut p, 1_000_000);
    assert_eq!(p.position, Vec2::new(LIMIT, 0));
}

#[test]
fn pairs_cover_each_unordered_pair_once() {
    let pairs = pair_indices(4);
    let mut sorted = pairs.clone();
    sorted.sort();
    assert_eq!(sorted, vec![(0, 1), (0, 2), (0, 3), (1, 2), (1, 3), (2, 3)]);
    assert!(pair_indices(0).is_empty());
    assert!(pair_indices(1).is_empty());
    assert_eq!(pair_indices(1000).len(), 499_500);
}

#[test]
fn approaching_pair_scenario() {
    // Radius 10 at (0,0) and (15,0), velocities (1,0) and (-1,0).
    let mut ps = vec![
        particle(0, 0, 1_000, 0, 10_000),
        particle(15_000, 0, -1_000, 0, 10_000),
    ];
    let before_gap = ps[1].position.x - ps[0].position.x;
    let before_closing = ps[1].velocity.0.x - ps[0].velocity.0.x;
    collision(&mut ps);
    let after_gap = ps[1].position.x - ps[0].position.x;
    let after_closing = ps[1].velocity.0.x - ps[0].velocity.0.x;
    assert!(after_gap >= before_gap);
    assert!(after_closing.abs() < before_closing.abs());
    assert!(after_closing <= 0);
    assert_eq!(ps[0], particle(-2_500, 0, 600, 0, 10_000));
    assert_eq!(ps[1], particle(17_500, 0, -600, 0, 10_000));
}

#[test]
fn tiny_overlap_is_corrected() {
    // Radius 10 at (0,0) and (19.999,0): the half overlap is below one unit.
    let mut ps = vec![
        particle(0, 0, 1_000, 0, 10_000),
        particle(19_999, 0, -1_000, 0, 10_000),
    ];
    collision(&mut ps);
    assert!(ps[1].position.x - ps[0].position.x > 19_999);
    assert_eq!(ps[0].position, Vec2::new(-1, 0));
    assert_eq!(ps[1].position, Vec2::new(20_000, 0));
}

#[test]
fn energy_raising_impulse_is_dropped() {
    let a = particle(0, 0, 0, 0, 10_000);
    let b = particle(1_000, 10, 0, -1_000, 10_000);
    let c = contact(&a, &b).unwrap();
    assert_eq!(c.impulse, Vec2::new(0, 0));
    let mut ps = vec![a, b];
    collision(&mut ps);
    let energy = |p: &Particle| p.velocity.0.x * p.velocity.0.x + p.velocity.0.y * p.velocity.0.y;
    assert!(energy(&ps[0]) + energy(&ps[1]) <= 1_000_000);
}

#[test]
fn separating_pair_untouched() {
    let a = particle(0, 0, -1_000, 0, 10_000);
    let b = particle(15_000, 0, 1_000, 0, 10_000);
    assert_eq!(contact(&a, &b), None);
    let mut ps = vec![a, b];
    collision(&mut ps);
    assert_eq!(ps, vec![a, b]);
}

#[test]
fn distant_pair_untouched() {
    let a = particle(0, 0, 1_000, 0, 10_000);
    let b = particle(20_001, 0, -1_000, 0, 10_000);
    assert_eq!(contact(&a, &b), None);
    let touching = particle(20_000, 0, -1_000, 0, 10_000);
    assert!(contact(&a, &touching).is_some());
}

#[test]
fn coincident_pair_is_skipped() {
    let a = particle(5_000, 5_000, 1_000, 0, 10_000);
    let b = particle(5_000, 5_000, -1_000, 0, 10_000);
    assert_eq!(contact(&a, &b), None);
    let mut ps = vec![a, b];
    collision(&mut ps);
    assert_eq!(ps, vec![a, b]);
}

#[test]
fn contact_is_antisymmetric() {
    let a = particle(1_000, 2_000, 300, -100, 10_000);
    let b = particle(9_000, -3_000, -500, 700, 8_000);
    let ab = contact(&a, &b).unwrap();
    let ba = contact(&b, &a).unwrap();
    assert_eq!(ba.impulse, Vec2::new(-ab.impulse.x, -ab.impulse.y));
    assert_eq!(ba.correction, Vec2::new(-ab.correction.x, -ab.correction.y));
    assert!(ab.impulse != Vec2::new(0, 0));
}

#[test]
fn detection_keeps_pair_order() {
    let ps = vec![
        particle(0, 0, 1_000, 0, 10_000),
        particle(15_000, 0, -1_000, 0, 10_000),
        particle(900_000, 0, 0, 0, 10_000),
    ];
    let pairs = vec![(0, 1), (0, 2), (1, 2)];
    let found = detect(&ps, &pairs);
    assert_eq!(found.len(), 3);
    assert_eq!(found[0], contact(&ps[0], &ps[1]));
    assert!(found[0].is_some());
    assert_eq!(found[1], None);
    assert_eq!(found[2], None);
}

#[test]
fn corrections_are_two_sided() {
    let c = Contact { impulse: Vec2::new(400, 0), correction: Vec2::new(-2_500, 0) };
    let recs = corrections(&vec![(0, 1), (1, 2)], &vec![Some(c), None]);
    assert_eq!(
        recs,
        vec![
            Correction { id: 0, position: Vec2::new(-2_500, 0), velocity: Vec2::new(-400, 0) },
            Correction { id: 1, position: Vec2::new(2_500, 0), velocity: Vec2::new(400, 0) },
        ]
    );
}

#[test]
fn apply_sums_repeated_records() {
    let mut ps = vec![particle(0, 0, 0, 0, 10_000), particle(50, 50, 1, 1, 10_000)];
    let recs = vec![
        Correction { id: 0, position: Vec2::new(1, 2), velocity: Vec2::new(3, 4) },
        Correction { id: 0, position: Vec2::new(10, 20), velocity: Vec2::new(30, 40) },
        Correction { id: 7, position: Vec2::new(9, 9), velocity: Vec2::new(9, 9) },
    ];
    apply_corrections(&mut ps, &recs);
    assert_eq!(ps[0], particle(11, 22, 33, 44, 10_000));
    assert_eq!(ps[1], particle(50, 50, 1, 1, 10_000));
}

#[test]
fn apply_skips_out_of_range_result() {
    let mut ps = vec![particle(LIMIT, 0, 0, 0, 10_000)];
    let recs = vec![Correction { id: 0, position: Vec2::new(1, 0), velocity: Vec2::new(5, 0) }];
    apply_corrections(&mut ps, &recs);
    assert_eq!(ps[0], particle(LIMIT, 0, 0, 0, 10_000));
}

#[test]
fn samples_map_into_ranges() {
    assert_eq!(spread_sample(0, BOUNDARY_SIZE), -500_000);
    assert_eq!(spread_sample(u32::MAX, BOUNDARY_SIZE), 499_999);
    assert_eq!(spread_sample(0x8000_0000, 2_000), 0);
    let p = particle_from_samples(0, u32::MAX, 0, u32::MAX);
    assert_eq!(p, particle(-500_000, 499_999, -1_000, 999, ATOM_RADIUS));
}

#[test]
fn startup_seeds_inside_boundary() {
    let ps = startup(1000);
    assert_eq!(ps.len(), 1000);
    for p in &ps {
        assert!(-500_000 <= p.position.x && p.position.x < 500_000);
        assert!(-500_000 <= p.position.y && p.position.y < 500_000);
        assert!(-1_000 <= p.velocity.0.x && p.velocity.0.x < 1_000);
        assert_eq!(p.atom.radius, ATOM_RADIUS);
    }
}

fn mean_distance2(ps: &[Particle]) -> f64 {
    let total: f64 = ps
        .iter()
        .map(|p| (p.position.x as f64).powi(2) + (p.position.y as f64).powi(2))
        .sum();
    total / ps.len() as f64
}

#[test]
fn population_falls_toward_origin() {
    let mut ps = startup(1000);
    for p in ps.iter_mut() {
        p.velocity.0 = Vec2::new(0, 0);
    }
    // The first frame mostly separates particles seeded on top of each other.
    step(&mut ps, 100_000);
    let mut last = mean_distance2(&ps);
    for _ in 0..10 {
        step(&mut ps, 100_000);
        let now = mean_distance2(&ps);
        assert!(now < last);
        last = now;
    }
}
