use particle_life::config::SimConfig;
use particle_life::fixed::{isqrt, Vec2, ONE};
use particle_life::force::{force_between, wrap_displacement};
use particle_life::particle::{Particle, Particles};
use particle_life::types::ParticleType;

fn classic() -> SimConfig {
    SimConfig::standard()
}

fn unit_table() -> Vec<ParticleType> {
    vec![ParticleType::new(vec![ONE])]
}

fn store_of(cfg: &SimConfig, points: &[(i64, i64)]) -> Particles {
    let mut store = Particles::new(cfg);
    for &(x, y) in points {
        store.add_particle(Particle::new([x, y], [0, 0], 0));
    }
    store
}

/// Velocity of particle `i` after the force phase alone.
fn force_phase_velocity(cfg: &SimConfig, types: &Vec<ParticleType>, store: &mut Particles, i: usize) -> Vec2 {
    store.rebuild_grid(cfg);
    let cells = store.grid().cells.len();
    let writes = store.update_cells(cfg, types, 0, cells);
    writes.iter().find(|w| w.0 == i).expect("every particle is written").1
}

#[test]
fn midpoint_attraction_is_attract_constant() {
    let cfg = classic();
    let f = force_between(&cfg, ONE, 80 * ONE, 0);
    assert_eq!(f, Vec2::new(30_000, 0));
}

#[test]
fn midpoint_attraction_through_the_store() {
    let cfg = classic();
    let types = unit_table();
    let mut store = store_of(&cfg, &[(100 * ONE, 100 * ONE), (180 * ONE, 100 * ONE)]);
    assert_eq!(force_phase_velocity(&cfg, &types, &mut store, 0), Vec2::new(30_000, 0));
    assert_eq!(force_phase_velocity(&cfg, &types, &mut store, 1), Vec2::new(-30_000, 0));
}

#[test]
fn repulsion_below_min_distance() {
    let cfg = classic();
    // distance 5, repel 2: magnitude 2 * (10 - 5) / 10 = 1.0, away from the neighbour
    assert_eq!(force_between(&cfg, ONE, 5 * ONE, 0), Vec2::new(-ONE, 0));
    assert_eq!(force_between(&cfg, -ONE, 0, -5 * ONE), Vec2::new(0, ONE));
}

#[test]
fn repulsion_through_the_store() {
    let cfg = classic();
    let types = unit_table();
    let mut store = store_of(&cfg, &[(500 * ONE, 500 * ONE), (505 * ONE, 500 * ONE)]);
    assert_eq!(force_phase_velocity(&cfg, &types, &mut store, 0), Vec2::new(-ONE, 0));
}

#[test]
fn coincident_particles_do_not_interact() {
    let cfg = classic();
    assert_eq!(force_between(&cfg, ONE, 0, 0), Vec2::new(0, 0));
    let types = unit_table();
    let mut store = store_of(&cfg, &[(700 * ONE, 700 * ONE), (700 * ONE, 700 * ONE)]);
    assert_eq!(force_phase_velocity(&cfg, &types, &mut store, 0), Vec2::new(0, 0));
    assert_eq!(force_phase_velocity(&cfg, &types, &mut store, 1), Vec2::new(0, 0));
}

#[test]
fn tent_profile_at_the_band_edges() {
    let cfg = classic();
    // at min_distance the tent factor is 1 - 70 / 140 = 0.5
    assert_eq!(force_between(&cfg, ONE, 10 * ONE, 0), Vec2::new(15_000, 0));
    // just below max_distance it is about 0.5 again, beyond it nothing
    assert_eq!(force_between(&cfg, ONE, 150 * ONE - 1, 0), Vec2::new(15_000, 0));
    assert_eq!(force_between(&cfg, ONE, 150 * ONE, 0), Vec2::new(0, 0));
}

#[test]
fn negative_coefficient_repels_in_the_band() {
    let cfg = classic();
    assert_eq!(force_between(&cfg, -ONE, 0, 80 * ONE), Vec2::new(0, -30_000));
    assert_eq!(force_between(&cfg, ONE / 2, 0, 80 * ONE), Vec2::new(0, 15_000));
}

#[test]
fn diagonal_force_is_split_along_the_axes() {
    let cfg = classic();
    // 3-4-5 triangle scaled to distance 80: direction (0.6, 0.8)
    assert_eq!(force_between(&cfg, ONE, 48 * ONE, 64 * ONE), Vec2::new(18_000, 24_000));
}

#[test]
fn isolated_particle_keeps_its_velocity_in_the_force_phase() {
    let cfg = classic();
    let types = unit_table();
    let mut store = Particles::new(&cfg);
    store.add_particle(Particle::new([100 * ONE, 100 * ONE], [1234, -567], 0));
    store.add_particle(Particle::new([900 * ONE, 900 * ONE], [0, 0], 0));
    assert_eq!(force_phase_velocity(&cfg, &types, &mut store, 0), Vec2::new(1234, -567));
}

#[test]
fn cutoff_pair_in_neighbouring_cells_contributes_nothing() {
    let cfg = classic();
    let types = unit_table();
    // 160 apart: neighbouring cells of the 150-wide grid, beyond max_distance
    let mut store = store_of(&cfg, &[(140 * ONE, 10 * ONE), (300 * ONE, 10 * ONE)]);
    assert_eq!(force_phase_velocity(&cfg, &types, &mut store, 0), Vec2::new(0, 0));
    // exactly max_distance apart
    let mut store = store_of(&cfg, &[(140 * ONE, 10 * ONE), (290 * ONE, 10 * ONE)]);
    assert_eq!(force_phase_velocity(&cfg, &types, &mut store, 0), Vec2::new(0, 0));
}

#[test]
fn interaction_across_the_wrap() {
    let cfg = classic();
    let types = unit_table();
    // 80 apart through the right edge: x = 1460 and x = 40
    let mut store = store_of(&cfg, &[(1460 * ONE, 10 * ONE), (40 * ONE, 10 * ONE)]);
    assert_eq!(force_phase_velocity(&cfg, &types, &mut store, 0), Vec2::new(30_000, 0));
    assert_eq!(force_phase_velocity(&cfg, &types, &mut store, 1), Vec2::new(-30_000, 0));
    // 160 apart through the bottom edge: beyond the cutoff
    let mut store = store_of(&cfg, &[(10 * ONE, 1420 * ONE), (10 * ONE, 80 * ONE)]);
    assert_eq!(force_phase_velocity(&cfg, &types, &mut store, 0), Vec2::new(0, 0));
}

#[test]
fn minimum_image_never_exceeds_half_the_axis() {
    assert_eq!(wrap_displacement(600, 1000), -400);
    assert_eq!(wrap_displacement(-600, 1000), 400);
    assert_eq!(wrap_displacement(500, 1000), 500);
    assert_eq!(wrap_displacement(-500, 1000), -500);
    assert_eq!(wrap_displacement(999, 1000), -1);
    assert_eq!(wrap_displacement(0, 1000), 0);
    for d in -1000i64 + 1..1000 {
        assert!(wrap_displacement(d, 1000).abs() * 2 <= 1000);
        assert!(wrap_displacement(d, 1001).abs() * 2 <= 1001);
    }
}

#[test]
fn integer_square_root() {
    assert_eq!(isqrt(0), 0);
    assert_eq!(isqrt(1), 1);
    assert_eq!(isqrt(15), 3);
    assert_eq!(isqrt(16), 4);
    assert_eq!(isqrt(6_400_000_000_000_000), 80_000_000);
    assert_eq!(isqrt((1u128 << 80) - 1), (1u64 << 40) - 1);
}
