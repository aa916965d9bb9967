use worldmap::firegrid::FireGrid;
use worldmap::hash::hash3;
use worldmap::land::{LandGrid, FINE_WIDTH};
use worldmap::sim::{
    cooldown_elapsed, fallout_damage, fire_damage, spread_count, target_fire_count, City, Explosion,
    Fallout, Fire, Simulation, Spawn, FALLOUT_INTENSITY, MAX_FIRES,
};
use worldmap::spatial::SpatialGrid;

type Place = (i32, i32);

fn cities_at(pops: &[u64]) -> SpatialGrid<City<Place>> {
    let mut grid = SpatialGrid::new();
    for (i, &p) in pops.iter().enumerate() {
        grid.insert(i as i32, 0, City::new((i as i32, 0), format!("c{}", i), p, false, false));
    }
    grid
}

#[test]
fn target_fire_count_at_world_zoom_is_capped() {
    // radius 50 + 700 / 1.0 = 750 km: area pi * 750^2 = 1767145 km2
    assert_eq!(target_fire_count(1_767_145), 20000);
}

#[test]
fn target_fire_count_at_zoom_ten_is_not_capped() {
    // radius 50 + 700 / 10.0 = 120 km: area pi * 120^2 = 45238 km2
    assert_eq!(target_fire_count(45_238), 9247);
    assert_eq!(target_fire_count(0), 200);
}

#[test]
fn cooldown_window() {
    assert!(!cooldown_elapsed(14, 0));
    assert!(cooldown_elapsed(15, 0));
    assert!(!cooldown_elapsed(u64::MAX - 1, u64::MAX - 10));
    assert!(cooldown_elapsed(100, 85));
}

#[test]
fn spread_count_follows_hash_draws() {
    assert_eq!(spread_count(200, 0, 7, 3), 0);
    assert_eq!(spread_count(200, 10, 7, 3), 1);
    assert_eq!(spread_count(200, 25, 7, 3), 2);
    assert_eq!(spread_count(60, 25, 7, 3), 0);
}

#[test]
fn damage_formulas() {
    assert_eq!(fallout_damage(1_000_000, 1000), 5000);
    assert_eq!(fallout_damage(10, 1), 1);
    assert_eq!(fire_damage(1_000_000, 3), 30000);
    assert_eq!(fire_damage(50, 1), 1);
    assert_eq!(fire_damage(u64::MAX, 9), (u64::MAX as u128 * 9 / 100) as u64);
}

fn burning_at(n: usize) -> Vec<(Fire<Place>, usize, usize)> {
    (0..n).map(|a| (Fire { place: (a as i32, 0), intensity: 220 }, 0, 0)).collect()
}

#[test]
fn launch_then_second_launch_within_cooldown_is_refused() {
    let mut sim: Simulation<Place> = Simulation::new();
    for _ in 0..20 {
        sim.advance();
    }
    let land: Option<LandGrid> = None;
    assert!(sim.launch(&land, (1, 1), (1, 1), 3, &burning_at(6)));
    assert!(!sim.launch(&land, (1, 1), (1, 1), 3, &burning_at(6)));
    assert_eq!(sim.explosions.len(), 1);
    assert_eq!(sim.fallout.len(), 1);
    assert_eq!(sim.fires.len(), 3);
    assert_eq!(sim.fires[2].place, (2, 0));
    assert_eq!(sim.fallout[0].intensity, FALLOUT_INTENSITY);
    assert_eq!(sim.explosions[0].frame, 0);
    assert_eq!(sim.last_launch_frame, 20);
}

#[test]
fn launch_allowed_again_after_cooldown() {
    let mut sim: Simulation<Place> = Simulation::new();
    for _ in 0..15 {
        sim.advance();
    }
    assert!(sim.launch(&None, (0, 0), (0, 0), 1, &burning_at(2)));
    for _ in 0..14 {
        sim.advance();
    }
    assert!(!sim.can_launch());
    sim.advance();
    assert!(sim.launch(&None, (0, 0), (0, 0), 1, &burning_at(2)));
    assert_eq!(sim.fallout.len(), 2);
}

#[test]
fn launch_before_first_cooldown_is_refused() {
    let mut sim: Simulation<Place> = Simulation::new();
    assert!(!sim.launch(&None, (0, 0), (0, 0), 5, &burning_at(10)));
    assert!(!sim.is_active());
}

#[test]
fn launch_keeps_only_fires_on_land() {
    let land = Some(LandGrid::from_land_cells(&vec![10 * FINE_WIDTH + 4]));
    let mut sim: Simulation<Place> = Simulation::new();
    for _ in 0..15 {
        sim.advance();
    }
    let candidates: Vec<(Fire<Place>, usize, usize)> = (0..8)
        .map(|a| {
            let lon_idx = if a % 2 == 0 { 4 } else { 5 };
            (Fire { place: (lon_idx as i32, a), intensity: 210 }, lon_idx, 10)
        })
        .collect();
    assert!(sim.launch(&land, (0, 0), (0, 0), 4, &candidates));
    let places: Vec<Place> = sim.fires.iter().map(|f| f.place).collect();
    assert_eq!(places, vec![(4, 0), (4, 2), (4, 4), (4, 6)]);
}

#[test]
fn launch_stops_after_twice_target_attempts() {
    let land = Some(LandGrid::from_land_cells(&vec![0]));
    let mut sim: Simulation<Place> = Simulation::new();
    for _ in 0..15 {
        sim.advance();
    }
    let mut candidates: Vec<(Fire<Place>, usize, usize)> =
        (0..4).map(|a| (Fire { place: (a, 0), intensity: 210 }, 9, 9)).collect();
    candidates.push((Fire { place: (99, 0), intensity: 210 }, 0, 0));
    assert!(sim.launch(&land, (0, 0), (0, 0), 2, &candidates));
    assert!(sim.fires.is_empty());
    assert_eq!(sim.explosions.len(), 1);
}

#[test]
fn advance_ages_and_expires_entities() {
    let mut sim: Simulation<Place> = Simulation::new();
    sim.explosions.push(Explosion { place: (0, 0), frame: 58 });
    sim.explosions.push(Explosion { place: (1, 0), frame: 3 });
    sim.fires.push(Fire { place: (0, 0), intensity: 1 });
    sim.fires.push(Fire { place: (1, 0), intensity: 9 });
    sim.fallout.push(Fallout { place: (0, 0), intensity: 1 });
    sim.fallout.push(Fallout { place: (0, 0), intensity: 500 });
    for _ in 0..4 {
        sim.advance();
    }
    assert_eq!(sim.frame, 4);
    assert_eq!(sim.fires.len(), 2);
    sim.advance();
    assert_eq!(sim.frame, 5);
    assert_eq!(sim.explosions.len(), 1);
    assert_eq!(sim.explosions[0].frame, 8);
    assert_eq!(sim.fires.len(), 1);
    assert_eq!(sim.fires[0].intensity, 8);
    assert_eq!(sim.fallout.len(), 1);
    assert_eq!(sim.fallout[0].intensity, 495);
    for f in &sim.fires {
        assert!(f.intensity > 0);
    }
}

#[test]
fn spread_plan_follows_hash_draws() {
    let mut sim: Simulation<Place> = Simulation::new();
    sim.frame = 3;
    sim.fires.push(Fire { place: (25, 7), intensity: 200 });
    sim.fires.push(Fire { place: (0, 7), intensity: 200 });
    sim.fires.push(Fire { place: (25, 7), intensity: 60 });
    let plan = sim.spread_plan(&vec![(25, 7), (0, 7), (25, 7)]);
    assert_eq!(
        plan,
        vec![
            Spawn { parent: 0, seed: hash3(25, 7, 3), intensity: 190 },
            Spawn { parent: 0, seed: hash3(25, 7, 4), intensity: 190 },
        ]
    );
}

#[test]
fn admit_spread_keeps_land_fires_in_order() {
    let land = Some(LandGrid::from_land_cells(&vec![0]));
    let mut sim: Simulation<Place> = Simulation::new();
    sim.fires.push(Fire { place: (0, 0), intensity: 100 });
    let spawns = vec![
        (Fire { place: (1, 0), intensity: 90 }, 0, 0),
        (Fire { place: (2, 0), intensity: 90 }, 1, 0),
        (Fire { place: (3, 0), intensity: 0 }, 0, 0),
        (Fire { place: (4, 0), intensity: 80 }, 0, 0),
    ];
    sim.admit_spread(&land, &spawns);
    let places: Vec<Place> = sim.fires.iter().map(|f| f.place).collect();
    assert_eq!(places, vec![(0, 0), (1, 0), (4, 0)]);
}

#[test]
fn spread_respects_fire_cap() {
    let mut sim: Simulation<Place> = Simulation::new();
    for _ in 0..MAX_FIRES - 1 {
        sim.fires.push(Fire { place: (25, 7), intensity: 200 });
    }
    let spawns = vec![
        (Fire { place: (1, 0), intensity: 90 }, 0, 0),
        (Fire { place: (2, 0), intensity: 90 }, 0, 0),
    ];
    sim.admit_spread(&None, &spawns);
    assert_eq!(sim.fires.len(), MAX_FIRES);
    assert_eq!(sim.fires[MAX_FIRES - 1].place, (1, 0));
    sim.admit_spread(&None, &spawns);
    assert_eq!(sim.fires.len(), MAX_FIRES);
}

#[test]
fn blast_damage_lowers_population_and_counts_casualties() {
    let mut cities = cities_at(&[1000, 0, 500]);
    let mut sim: Simulation<Place> = Simulation::new();
    sim.apply_blast_damage(&mut cities, &vec![(0, 1200), (1, 700), (2, 950), (7, 5)]);
    assert_eq!(cities.get(0).unwrap().population, 0);
    assert_eq!(cities.get(1).unwrap().population, 0);
    assert_eq!(cities.get(2).unwrap().population, 0);
    assert_eq!(cities.get(0).unwrap().original_population, 1000);
    assert_eq!(sim.casualties, 1200 + 950);
}

#[test]
fn repeated_blows_compound_on_current_population() {
    let mut cities = cities_at(&[1_000_000]);
    let mut sim: Simulation<Place> = Simulation::new();
    sim.apply_fallout_damage(&mut cities, &vec![0, 0], 1000);
    assert_eq!(cities.get(0).unwrap().population, 990_025);
    assert_eq!(sim.casualties, 5000 + 4975);
}

#[test]
fn fire_damage_skips_cities_away_from_fire() {
    let mut cities = cities_at(&[100_000, 0]);
    let mut grid = FireGrid::new(8, 8);
    grid.rebuild(&vec![(6, 6, 200)]);
    let mut sim: Simulation<Place> = Simulation::new();
    sim.apply_fire_damage(&mut cities, &grid, &vec![(1, 1), (6, 6)]);
    assert_eq!(cities.get(0).unwrap().population, 100_000);
    assert_eq!(sim.casualties, 0);
}

#[test]
fn damage_city_saturates() {
    let mut cities = cities_at(&[10]);
    let mut sim: Simulation<Place> = Simulation::new();
    sim.casualties = u64::MAX - 1;
    sim.damage_city(&mut cities, 0, 4);
    assert_eq!(cities.get(0).unwrap().population, 6);
    assert_eq!(sim.casualties, u64::MAX);
}

#[test]
fn fallout_damage_hits_overlapping_cities() {
    let mut cities = cities_at(&[1_000_000, 1_000_000]);
    let mut sim: Simulation<Place> = Simulation::new();
    sim.apply_fallout_damage(&mut cities, &vec![0], 1000);
    assert_eq!(cities.get(0).unwrap().population, 995_000);
    assert_eq!(cities.get(1).unwrap().population, 1_000_000);
    assert_eq!(sim.casualties, 5000);
}

#[test]
fn fire_damage_scales_with_burning_cells() {
    let mut cities = cities_at(&[100_000, 100_000]);
    let mut grid = FireGrid::new(8, 8);
    grid.rebuild(&vec![(1, 1, 200), (2, 1, 200)]);
    let mut sim: Simulation<Place> = Simulation::new();
    sim.apply_fire_damage(&mut cities, &grid, &vec![(1, 1), (2, 1)]);
    assert_eq!(cities.get(0).unwrap().population, 98_000);
    assert_eq!(cities.get(1).unwrap().population, 98_000);
    assert_eq!(sim.casualties, 4000);
}

#[test]
fn damage_frames_every_tenth() {
    let mut sim: Simulation<Place> = Simulation::new();
    assert!(sim.is_damage_frame());
    sim.advance();
    assert!(!sim.is_damage_frame());
    for _ in 0..9 {
        sim.advance();
    }
    assert!(sim.is_damage_frame());
}
