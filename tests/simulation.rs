use particle_life::config::{ConfigError, SimConfig};
use particle_life::fixed::{Vec2, ONE};
use particle_life::force::{force_between, wrap_displacement};
use particle_life::grid::Grid;
use particle_life::particle::{Particle, Particles};
use particle_life::schedule::{plan_chunks, worker_count, workers_for};
use particle_life::setup::{initialize_particles, initialize_types, SetupError};
use particle_life::types::{nudge_attraction, set_attraction, ParticleType};

fn classic() -> SimConfig {
    SimConfig::standard()
}

fn random_world(count: usize, kinds: usize) -> (SimConfig, Vec<ParticleType>, Particles) {
    let cfg = classic();
    let types = initialize_types(kinds, None).unwrap();
    let store = initialize_particles(&cfg, count, kinds).unwrap();
    (cfg, types, store)
}

/// One tick with the force phase split into chunks, each computed alone.
fn chunked_update(store: &mut Particles, cfg: &SimConfig, types: &Vec<ParticleType>, workers: usize) {
    store.rebuild_grid(cfg);
    let plan = plan_chunks(store.grid().cells.len(), workers);
    let sets: Vec<_> = plan.iter().map(|&(lo, hi)| store.update_cells(cfg, types, lo, hi)).collect();
    for set in &sets {
        assert!(store.apply_writes(set));
    }
    store.integrate(cfg);
}

#[test]
fn positions_stay_in_the_domain() {
    let (cfg, types, mut store) = random_world(400, 4);
    for _ in 0..30 {
        store.update(&cfg, &types);
        for p in store.snapshot() {
            assert!(0 <= p.pos.x && p.pos.x < cfg.width);
            assert!(0 <= p.pos.y && p.pos.y < cfg.height);
        }
    }
}

#[test]
fn fast_particles_wrap_into_the_domain() {
    let cfg = classic();
    let types = vec![ParticleType::new(vec![0])];
    let mut store = Particles::new(&cfg);
    store.add_particle(Particle::new([10 * ONE, 10 * ONE], [-3200 * ONE, 4600 * ONE], 0));
    store.update(&cfg, &types);
    let p = store.get(0);
    assert_eq!(p.pos, Vec2::new(1310 * ONE, 110 * ONE));
    // friction 0.15 keeps 85%
    assert_eq!(p.vel, Vec2::new(-2720 * ONE, 3910 * ONE));
}

#[test]
fn full_friction_stops_everything() {
    // no forces at all: zero attraction, no repulsion
    let cfg = SimConfig::new(10 * ONE, 150 * ONE, 0, 30_000, ONE, 1500 * ONE, 1500 * ONE).unwrap();
    let types = initialize_types(3, Some(0)).unwrap();
    let mut store = Particles::new(&cfg);
    for k in 0..50i64 {
        store.add_particle(Particle::new([k * 29 * ONE, k * 17 * ONE], [k * 1000 - 20_000, 7_000 - k * 300], (k % 3) as usize));
    }
    store.update(&cfg, &types);
    let after_first = store.snapshot();
    assert!(after_first.iter().all(|p| p.vel == Vec2::new(0, 0)));
    assert_eq!(after_first[0].pos, Vec2::new(1500 * ONE - 20_000, 7_000));
    for _ in 0..5 {
        store.update(&cfg, &types);
    }
    for (a, b) in after_first.iter().zip(store.snapshot().iter()) {
        assert_eq!(a.pos, b.pos);
        assert_eq!(b.vel, Vec2::new(0, 0));
    }
}

#[test]
fn every_particle_is_written_by_exactly_one_chunk() {
    let (cfg, types, mut store) = random_world(500, 4);
    store.rebuild_grid(&cfg);
    let cells = store.grid().cells.len();
    for workers in [1usize, 2, 3, 7, 16, 100, 1000] {
        let plan = plan_chunks(cells, workers);
        assert!(plan.len() <= workers);
        let mut writer = vec![usize::MAX; store.len()];
        let mut written = vec![0usize; store.len()];
        for (k, &(lo, hi)) in plan.iter().enumerate() {
            for (i, _) in store.update_cells(&cfg, &types, lo, hi) {
                assert!(writer[i] == usize::MAX || writer[i] == k);
                writer[i] = k;
                written[i] += 1;
            }
        }
        assert!(written.iter().all(|&n| n == 1));
    }
}

#[test]
fn chunk_plan_tiles_the_cells() {
    assert_eq!(plan_chunks(100, 8), vec![(0, 13), (13, 26), (26, 39), (39, 52), (52, 65), (65, 78), (78, 91), (91, 100)]);
    assert_eq!(plan_chunks(100, 1), vec![(0, 100)]);
    assert_eq!(plan_chunks(3, 8), vec![(0, 1), (1, 2), (2, 3)]);
    assert_eq!(plan_chunks(9, 3), vec![(0, 3), (3, 6), (6, 9)]);
    assert_eq!(plan_chunks(0, 4), vec![]);
}

#[test]
fn chunked_force_phase_equals_single_threaded() {
    let (cfg, types, store) = random_world(600, 5);
    let start = store.snapshot();
    for workers in [1usize, 2, 4, 13] {
        let mut a = Particles::new(&cfg);
        let mut b = Particles::new(&cfg);
        for p in &start {
            a.add_particle(*p);
            b.add_particle(*p);
        }
        for _ in 0..5 {
            a.update(&cfg, &types);
            chunked_update(&mut b, &cfg, &types, workers);
        }
        assert_eq!(a.snapshot(), b.snapshot());
    }
}

#[test]
fn apply_writes_refuses_foreign_indices() {
    let cfg = classic();
    let mut store = Particles::new(&cfg);
    store.add_particle(Particle::new([ONE, ONE], [5, 5], 0));
    let before = store.snapshot();
    assert!(!store.apply_writes(&vec![(0, Vec2::new(1, 1)), (1, Vec2::new(2, 2))]));
    assert_eq!(store.snapshot(), before);
    assert!(store.apply_writes(&vec![(0, Vec2::new(1, 1)), (0, Vec2::new(2, 3))]));
    assert_eq!(store.get(0).vel, Vec2::new(2, 3));
    assert_eq!(store.get(0).pos, Vec2::new(ONE, ONE));
}

#[test]
fn short_grid_axes_visit_each_cell_once() {
    // 300 x 300 with cutoff 150: a 2 x 2 grid, whose neighbourhood wraps onto itself
    let cfg = SimConfig::new(10 * ONE, 150 * ONE, 2 * ONE, 30_000, 0, 300 * ONE, 300 * ONE).unwrap();
    let types = vec![ParticleType::new(vec![ONE])];
    let mut store = Particles::new(&cfg);
    store.add_particle(Particle::new([100 * ONE, 100 * ONE], [0, 0], 0));
    store.add_particle(Particle::new([180 * ONE, 100 * ONE], [0, 0], 0));
    store.rebuild_grid(&cfg);
    assert_eq!(store.grid().shape, (2, 2));
    let writes = store.update_cells(&cfg, &types, 0, 4);
    let v0 = writes.iter().find(|w| w.0 == 0).unwrap().1;
    assert_eq!(v0, Vec2::new(30_000, 0));
    // one cell only when the cutoff exceeds the domain
    let cfg = SimConfig::new(10 * ONE, 150 * ONE, 2 * ONE, 30_000, 0, 100 * ONE, 100 * ONE).unwrap();
    let mut store = Particles::new(&cfg);
    store.add_particle(Particle::new([10 * ONE, 10 * ONE], [0, 0], 0));
    store.add_particle(Particle::new([90 * ONE, 10 * ONE], [0, 0], 0));
    store.rebuild_grid(&cfg);
    assert_eq!(store.grid().shape, (1, 1));
    let writes = store.update_cells(&cfg, &types, 0, 1);
    // 20 apart through the wrap: repulsion 2 * (10 - 20)... beyond min, inside the band
    let v0 = writes.iter().find(|w| w.0 == 0).unwrap().1;
    assert_eq!(v0, force_between(&cfg, ONE, -20 * ONE, 0));
}

#[test]
fn grid_shape_and_cells() {
    let g = Grid::new(1500 * ONE, 1500 * ONE, 150 * ONE);
    assert_eq!(g.shape, (10, 10));
    assert_eq!(g.cells.len(), 100);
    assert_eq!(g.cells[37].pos, (7, 3));
    // 1500 / 140 = 10.7: ten stretched cells of 150
    let g = Grid::new(1500 * ONE, 800 * ONE, 140 * ONE);
    assert_eq!(g.shape, (10, 5));
    assert_eq!(g.cell_pos_from_pos(Vec2::new(149 * ONE, 159 * ONE)), (0, 0));
    assert_eq!(g.cell_pos_from_pos(Vec2::new(150 * ONE, 160 * ONE)), (1, 1));
    assert_eq!(g.cell_pos_from_pos(Vec2::new(1500 * ONE - 1, 800 * ONE - 1)), (9, 4));
    // a vanishing cutoff is limited to 1024 cells per axis
    let g = Grid::new(1500 * ONE, 10 * ONE, 1);
    assert_eq!(g.shape, (1024, 1024));
    let g = Grid::new(ONE, ONE, 0);
    assert_eq!(g.shape, (1, 1));
}

#[test]
fn grid_insert_places_index_in_home_cell() {
    let mut g = Grid::new(1500 * ONE, 1500 * ONE, 150 * ONE);
    g.insert(4, Vec2::new(320 * ONE, 1499 * ONE));
    g.insert(9, Vec2::new(320 * ONE, 1499 * ONE));
    assert_eq!(g.cells[9 * 10 + 2].particles, vec![4, 9]);
    assert_eq!(g.cells.iter().map(|c| c.particles.len()).sum::<usize>(), 2);
}

#[test]
fn config_errors() {
    let ok = SimConfig::new(10 * ONE, 150 * ONE, 2 * ONE, 30_000, 150_000, 1500 * ONE, 1500 * ONE);
    assert_eq!(ok, Ok(classic()));
    let e = |min, max, rep, att, fr, w, h| SimConfig::new(min, max, rep, att, fr, w, h).unwrap_err();
    assert_eq!(e(-1, 10, 0, 0, 0, ONE, ONE), ConfigError::NegativeDistance);
    assert_eq!(e(20, 10, 0, 0, 0, ONE, ONE), ConfigError::InvertedDistances);
    assert_eq!(e(0, 68_719_476_737, 0, 0, 0, ONE, ONE), ConfigError::DistanceTooLarge);
    assert_eq!(e(0, 10, 4_294_967_297, 0, 0, ONE, ONE), ConfigError::ConstantTooLarge);
    assert_eq!(e(0, 10, 0, -4_294_967_297, 0, ONE, ONE), ConfigError::ConstantTooLarge);
    assert_eq!(e(0, 10, 0, 0, ONE + 1, ONE, ONE), ConfigError::FrictionOutOfRange);
    assert_eq!(e(0, 10, 0, 0, -1, ONE, ONE), ConfigError::FrictionOutOfRange);
    assert_eq!(e(0, 10, 0, 0, 0, 0, ONE), ConfigError::NonPositiveDomain);
    assert_eq!(e(0, 10, 0, 0, 0, ONE, -5), ConfigError::NonPositiveDomain);
    assert_eq!(e(0, 10, 0, 0, 0, ONE, 68_719_476_737), ConfigError::DomainTooLarge);
    // equal distances are accepted
    assert!(SimConfig::new(10, 10, 0, 0, 0, ONE, ONE).is_ok());
}

#[test]
fn setup_errors() {
    let cfg = classic();
    assert_eq!(initialize_types(0, None).err(), Some(SetupError::NoTypes));
    assert_eq!(initialize_types(3, Some(ONE + 1)).err(), Some(SetupError::CoefficientOutOfRange));
    assert_eq!(initialize_types(3, Some(-ONE - 1)).err(), Some(SetupError::CoefficientOutOfRange));
    assert_eq!(initialize_particles(&cfg, 0, 4).err(), Some(SetupError::NoParticles));
    assert_eq!(initialize_particles(&cfg, 10, 0).err(), Some(SetupError::NoTypes));
}

#[test]
fn cleared_table_is_all_zero() {
    let types = initialize_types(4, Some(0)).unwrap();
    assert_eq!(types.len(), 4);
    for t in &types {
        assert_eq!(t.attraction, vec![0, 0, 0, 0]);
    }
}

#[test]
fn random_table_draws_within_bounds() {
    let types = initialize_types(6, None).unwrap();
    let all: Vec<i64> = types.iter().flat_map(|t| t.attraction.iter().copied()).collect();
    assert_eq!(all.len(), 36);
    assert!(all.iter().all(|&c| -ONE <= c && c <= ONE));
    assert!(all.iter().any(|&c| c != all[0]));
    assert!(all.iter().any(|&c| c != -ONE));
}

#[test]
fn random_population_covers_domain_and_types() {
    let cfg = classic();
    let store = initialize_particles(&cfg, 1000, 4).unwrap();
    let ps = store.snapshot();
    assert_eq!(ps.len(), 1000);
    assert!(ps.iter().all(|p| p.type_id < 4 && p.vel == Vec2::new(0, 0)));
    assert!(ps.iter().all(|p| 0 <= p.pos.x && p.pos.x < cfg.width && 0 <= p.pos.y && p.pos.y < cfg.height));
    for kind in 0..4 {
        assert!(ps.iter().any(|p| p.type_id == kind));
    }
    assert!(ps.iter().any(|p| p.pos.x > cfg.width / 2));
    assert!(ps.iter().any(|p| p.pos.y != ps[0].pos.y));
}

#[test]
fn attraction_editing_is_clamped() {
    let mut types = initialize_types(2, Some(0)).unwrap();
    set_attraction(&mut types, 0, 1, 3 * ONE);
    assert_eq!(types[0].attraction, vec![0, ONE]);
    set_attraction(&mut types, 1, 0, -250_000);
    assert_eq!(types[1].attraction, vec![-250_000, 0]);
    set_attraction(&mut types, 1, 1, i64::MIN);
    assert_eq!(types[1].attraction, vec![-250_000, -ONE]);
    nudge_attraction(&mut types, 0, 1, 20_000);
    assert_eq!(types[0].attraction[1], ONE);
    nudge_attraction(&mut types, 0, 0, -20_000);
    assert_eq!(types[0].attraction[0], -20_000);
    nudge_attraction(&mut types, 1, 1, i64::MAX);
    assert_eq!(types[1].attraction[1], ONE);
}

#[test]
fn worker_numbers() {
    assert_eq!(workers_for(8, 4), 4);
    assert_eq!(workers_for(2, 4), 2);
    assert_eq!(workers_for(0, 4), 1);
    assert_eq!(workers_for(8, 0), 1);
    let n = worker_count(64);
    assert!(n >= 1 && n <= 64);
    assert_eq!(worker_count(1), 1);
}

#[test]
fn grid_force_phase_equals_all_pairs() {
    for (count, kinds, max_distance) in [(400usize, 4usize, 150 * ONE), (150, 3, 700 * ONE), (200, 2, 40 * ONE)] {
        let cfg = SimConfig::new(10 * ONE, max_distance, 2 * ONE, 30_000, 150_000, 1500 * ONE, 1500 * ONE).unwrap();
        let types = initialize_types(kinds, None).unwrap();
        let mut store = initialize_particles(&cfg, count, kinds).unwrap();
        let ps = store.snapshot();
        store.rebuild_grid(&cfg);
        let writes = store.update_cells(&cfg, &types, 0, store.grid().cells.len());
        assert_eq!(writes.len(), count);
        for (i, v) in writes {
            let (mut sx, mut sy) = (0i128, 0i128);
            for j in 0..count {
                if j == i {
                    continue;
                }
                let dx = wrap_displacement(ps[j].pos.x - ps[i].pos.x, cfg.width);
                let dy = wrap_displacement(ps[j].pos.y - ps[i].pos.y, cfg.height);
                let coef = types[ps[i].type_id].attraction[ps[j].type_id];
                let f = force_between(&cfg, coef, dx, dy);
                sx += f.x as i128;
                sy += f.y as i128;
            }
            assert_eq!(v, Vec2::new((ps[i].vel.x as i128 + sx) as i64, (ps[i].vel.y as i128 + sy) as i64));
        }
    }
}

#[test]
fn cell_lookup_wraps_outside_the_domain() {
    let g = Grid::new(1500 * ONE, 1500 * ONE, 150 * ONE);
    assert_eq!(g.cell_pos_from_pos(Vec2::new(-1, -1)), (9, 9));
    assert_eq!(g.cell_pos_from_pos(Vec2::new(-150 * ONE, 0)), (9, 0));
    assert_eq!(g.cell_pos_from_pos(Vec2::new(-150 * ONE - 1, 0)), (8, 0));
    assert_eq!(g.cell_pos_from_pos(Vec2::new(1500 * ONE, 1650 * ONE)), (0, 1));
    assert_eq!(g.cell_pos_from_pos(Vec2::new(i64::MIN, i64::MAX)).0 < 10, true);
    let mut g = g;
    g.insert(3, Vec2::new(-10, 1510 * ONE));
    assert_eq!(g.cells[9].particles, vec![3]);
}

#[test]
fn cell_writes_right_after_adding_particles() {
    let cfg = classic();
    let types = vec![ParticleType::new(vec![ONE])];
    let mut store = Particles::new(&cfg);
    store.add_particle(Particle::new([100 * ONE, 100 * ONE], [0, 0], 0));
    store.add_particle(Particle::new([180 * ONE, 100 * ONE], [0, 0], 0));
    assert_eq!(store.grid().shape, (10, 10));
    assert_eq!(store.update_cell(&cfg, &types, 0), vec![(0, Vec2::new(30_000, 0))]);
    assert_eq!(store.update_cell(&cfg, &types, 1), vec![(1, Vec2::new(-30_000, 0))]);
    let mut store = Particles::new(&cfg);
    store.add_particle(Particle::new([100 * ONE, 100 * ONE], [0, 0], 0));
    store.add_particle(Particle::new([105 * ONE, 100 * ONE], [0, 0], 0));
    assert_eq!(
        store.update_cell(&cfg, &types, 0),
        vec![(0, Vec2::new(-ONE, 0)), (1, Vec2::new(ONE, 0))]
    );
}
