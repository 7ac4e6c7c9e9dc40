use rainfall::bank::RainBank;
use rainfall::env::{classify, WALL_LEVEL};
use rainfall::{Environment, Topology, DROPS_PER_UNIT};

fn drops(units: f64) -> u64 {
    (units * DROPS_PER_UNIT as f64).round() as u64
}

fn settle(relief: &[u32], hours: f64) -> (Environment, u64) {
    let mut env = Environment::new(relief.to_vec());
    let leftover = env.rain(drops(hours));
    (env, leftover)
}

fn waters(env: &Environment) -> Vec<u64> {
    (1..=env.len()).map(|pos| env.water(pos)).collect()
}

const RELIEFS: [&[u32]; 6] = [
    &[3, 7, 4, 5, 3],
    &[4, 2, 7, 8, 8, 7, 2, 4, 5, 1],
    &[1, 2, 3, 4, 5, 6, 7, 8, 9],
    &[9, 8, 7, 6, 5, 4, 3, 2, 1],
    &[3, 1, 6, 4, 8, 9],
    &[5, 5, 5, 5],
];

#[test]
fn classify_covers_each_shape() {
    assert_eq!(classify(5, 1, 5), Topology::Valley);
    assert_eq!(classify(1, 5, 1), Topology::Peak);
    assert_eq!(classify(5, 3, 1), Topology::Downwards);
    assert_eq!(classify(3, 3, 1), Topology::Downwards);
    assert_eq!(classify(1, 3, 3), Topology::SPlateau);
    assert_eq!(classify(5, 3, 3), Topology::LPlateau);
    assert_eq!(classify(1, 3, 5), Topology::Uphill);
    assert_eq!(classify(3, 3, 3), Topology::Level);
    assert_eq!(classify(3, 3, 5), Topology::Level);
}

#[test]
fn bank_claims_each_entry_once() {
    let mut bank = RainBank::new(3, 7);
    assert_eq!(bank.len(), 3);
    assert_eq!(bank.claim(1), 7);
    assert_eq!(bank.claim(1), 0);
    assert_eq!(bank.drain(), 14);
    assert_eq!(bank.drain(), 0);
}

#[test]
fn rain_conserves_water() {
    for relief in RELIEFS {
        for hours in [0.5, 1.0, 2.0, 3.25] {
            let (env, leftover) = settle(relief, hours);
            let pooled: u64 = waters(&env).iter().sum();
            assert_eq!(leftover, 0);
            assert_eq!(pooled, relief.len() as u64 * drops(hours));
        }
    }
}

#[test]
fn rain_on_single_column_fills_it() {
    let (env, leftover) = settle(&[1], 1.0);
    assert_eq!(leftover, 0);
    assert_eq!(env.water_level(1), 2 * DROPS_PER_UNIT);
    assert_eq!(env.water_level(0), WALL_LEVEL);
    assert_eq!(env.water_level(2), WALL_LEVEL);
}

#[test]
fn levels_lists_interior_columns() {
    let (env, _) = settle(&[3, 1], 1.0);
    assert_eq!(env.levels(), vec![3 * DROPS_PER_UNIT, 3 * DROPS_PER_UNIT]);
}

#[test]
fn no_rain_leaves_terrain_dry() {
    for relief in RELIEFS {
        let (env, leftover) = settle(relief, 0.0);
        assert_eq!(leftover, 0);
        assert!(waters(&env).iter().all(|w| *w == 0));
    }
}

#[test]
fn water_level_never_below_terrain() {
    for relief in RELIEFS {
        let (env, _) = settle(relief, 2.0);
        for (i, h) in relief.iter().enumerate() {
            let pos = i + 1;
            let level = env.water_level(pos);
            assert!(level >= *h as u64 * DROPS_PER_UNIT);
            if env.water(pos) == 0 {
                assert_eq!(level, *h as u64 * DROPS_PER_UNIT);
            }
        }
    }
}

#[test]
fn adjacent_wet_columns_share_a_level() {
    for relief in RELIEFS {
        let (env, _) = settle(relief, 1.0);
        for pos in 1..env.len() {
            if env.water(pos) > 0 && env.water(pos + 1) > 0 {
                let a = env.water_level(pos) as i64;
                let b = env.water_level(pos + 1) as i64;
                assert!((a - b).abs() <= 64, "columns {} and {}", pos, pos + 1);
            }
        }
    }
}

#[test]
fn water_is_held_between_higher_ground() {
    for relief in RELIEFS {
        let (env, _) = settle(relief, 1.0);
        let height = |pos: usize| -> u64 {
            if pos == 0 || pos > relief.len() {
                WALL_LEVEL
            } else {
                relief[pos - 1] as u64 * DROPS_PER_UNIT
            }
        };
        for pos in 1..=relief.len() {
            if env.water(pos) > 0 {
                let level = env.water_level(pos);
                assert!((0..=pos).any(|j| height(j) >= level));
                assert!((pos..=relief.len() + 1).any(|k| height(k) >= level));
            }
        }
    }
}

#[test]
fn more_rain_never_lowers_water() {
    for relief in RELIEFS {
        let (less, _) = settle(relief, 1.0);
        let (more, _) = settle(relief, 2.0);
        for (a, b) in waters(&less).iter().zip(waters(&more).iter()) {
            assert!(b >= a);
        }
    }
}

#[test]
fn flow_with_no_steps_hands_water_back() {
    let mut env = Environment::new(vec![3, 1]);
    assert_eq!(env.flow(1, 5, 0), (5, 0));
    assert_eq!(env.water(1), 0);
}

#[test]
fn grid_draws_terrain_water_and_air() {
    let (env, _) = settle(&[3, 1], 1.0);
    let rows: Vec<String> = env
        .grid()
        .into_iter()
        .map(|row| String::from_utf8(row).unwrap())
        .collect();
    assert_eq!(rows, vec!["Ox", "Ox", "OO"]);

    let (env, _) = settle(&[1, 3, 1], 0.0);
    let rows: Vec<String> = env
        .grid()
        .into_iter()
        .map(|row| String::from_utf8(row).unwrap())
        .collect();
    assert_eq!(rows, vec![" O ", " O ", "OOO"]);
}

#[test]
fn flow_leaves_columns_left_of_its_start_alone() {
    let mut env = Environment::new(vec![1, 5, 2, 2]);
    env.set_pending(vec![drops(1.0); 4]);
    let (back, _) = env.flow(3, drops(1.0), rainfall::env::STEP_BUDGET);
    assert_eq!(env.water(1), 0);
    assert_eq!(env.water(2), 0);
    let pooled = env.water(3) + env.water(4);
    assert_eq!(pooled + back, drops(3.0));
}

#[test]
fn flow_past_the_right_wall_hands_water_back() {
    let mut env = Environment::new(vec![3, 1]);
    assert_eq!(env.flow(3, 9, 10), (9, 9));
    assert_eq!(env.flow(7, 9, 10), (9, 9));
    assert_eq!(env.water(1) + env.water(2), 0);
}

#[test]
fn valley_spreads_drops_that_do_not_divide_evenly() {
    let mut env = Environment::new(vec![3, 1, 1, 3]);
    env.set_pending(vec![0; 4]);
    let (back, _) = env.flow(2, 5, rainfall::env::STEP_BUDGET);
    assert_eq!(back, 0);
    assert_eq!(env.water(2), 3);
    assert_eq!(env.water(3), 2);
}
