use rainfall::env::STEP_BUDGET;
use rainfall::{Column, Environment, DROPS_PER_UNIT};

const TOLERANCE: f64 = 1e-5;

fn drops(units: f64) -> u64 {
    (units * DROPS_PER_UNIT as f64).round() as u64
}

fn units(drops: u64) -> f64 {
    drops as f64 / DROPS_PER_UNIT as f64
}

fn approx_eq(actual: f64, expected: f64) {
    assert!(
        (actual - expected).abs() <= TOLERANCE,
        "expected {} but found {}",
        expected,
        actual
    );
}

fn level(env: &Environment, pos: usize) -> f64 {
    units(env.water_level(pos))
}

fn with_pending(relief: Vec<u32>, pending: Vec<f64>) -> Environment {
    let mut env = Environment::new(relief);
    env.set_pending(pending.into_iter().map(drops).collect());
    env
}

fn flow(env: &mut Environment, pos: usize, water: f64) -> f64 {
    let (back, _) = env.flow(pos, drops(water), STEP_BUDGET);
    units(back)
}

fn rain(env: &mut Environment, hours: f64) -> f64 {
    units(env.rain(drops(hours)))
}

#[test]
fn test_column_ops() {
    let mut column = Column::new(4);
    assert_eq!(units(column.water_level()), 4.);

    column.add_water(drops(2.5));
    assert_eq!(units(column.water_level()), 6.5);

    approx_eq(units(column.request_water(drops(1.))), 1.);
    assert_eq!(units(column.water_level()), 5.5);

    approx_eq(units(column.request_water(drops(4.))), 1.5);
    assert_eq!(units(column.water_level()), 4.);
}

#[test]
fn test_handle_valley_overflow_left() {
    let mut env = with_pending(vec![3, 1], vec![0., 2.]);

    let backwater = flow(&mut env, 2, 2.0);
    approx_eq(backwater, 2.);
}

#[test]
fn test_handle_valley_overflow_right() {
    let mut env = with_pending(vec![3, 1, 2], vec![0., 0., 0.]);

    let backwater = flow(&mut env, 2, 2.0);
    approx_eq(backwater, 0.);

    approx_eq(level(&env, 2), 2.5);
    approx_eq(level(&env, 3), 2.5);
}

#[test]
fn test_handle_valley_overflow_equal() {
    let mut env = with_pending(vec![3, 1, 1, 3, 1], vec![0., 0., 0., 0., 0.]);

    let backwater = flow(&mut env, 2, 5.0);
    approx_eq(backwater, 0.5);

    approx_eq(level(&env, 2), 3.);
    approx_eq(level(&env, 3), 3.);
    approx_eq(level(&env, 4), 3.);
    approx_eq(level(&env, 5), 1.5);
}

#[test]
fn test_handle_valley_complete_overflow() {
    let mut env = with_pending(vec![3, 1, 2], vec![0., 0., 0.]);

    let backwater = flow(&mut env, 2, 4.0);
    approx_eq(backwater, 1.);

    approx_eq(level(&env, 2), 3.);
    approx_eq(level(&env, 3), 3.);
}

#[test]
fn test_peak_splitting() {
    let mut env = with_pending(vec![1, 4, 2], vec![0., 0., 0.]);

    let backwater = flow(&mut env, 2, 1.0);
    approx_eq(backwater, 0.5);

    approx_eq(level(&env, 2), 4.);
    approx_eq(level(&env, 3), 2.5);
}

#[test]
fn test_wide_peak() {
    let mut env = with_pending(vec![1, 4, 4, 2], vec![0., 0., 1., 0.]);

    let backwater = flow(&mut env, 2, 1.0);
    approx_eq(backwater, 1.);

    approx_eq(level(&env, 2), 4.);
    approx_eq(level(&env, 3), 4.);
    approx_eq(level(&env, 4), 3.);
}

#[test]
fn test_s_steps_backwater() {
    let mut env = with_pending(vec![1, 4, 4, 6], vec![0., 0., 1., 0.]);

    let backwater = flow(&mut env, 2, 1.0);
    approx_eq(backwater, 2.);

    approx_eq(level(&env, 2), 4.);
    approx_eq(level(&env, 3), 4.);
    approx_eq(level(&env, 4), 6.);
}

#[test]
fn test_peak_overflow() {
    let mut env = with_pending(vec![1, 4, 2], vec![0., 0., 0.]);

    let backwater = flow(&mut env, 2, 5.0);
    approx_eq(backwater, 3.);

    approx_eq(level(&env, 2), 4.);
    approx_eq(level(&env, 3), 4.);
}

#[test]
fn test_handle_plateau_valley_no_overflow() {
    let mut env = with_pending(vec![4, 2, 2], vec![0., 0., 0.]);

    let backwater = flow(&mut env, 2, 3.0);
    approx_eq(backwater, 0.);

    approx_eq(level(&env, 2), 3.5);
    approx_eq(level(&env, 3), 3.5);
}

#[test]
fn test_handle_plateau_valley_with_overflow() {
    let mut env = with_pending(vec![4, 2, 2], vec![0., 0., 0.]);

    let backwater = flow(&mut env, 2, 5.0);
    approx_eq(backwater, 1.);

    approx_eq(level(&env, 2), 4.0);
    approx_eq(level(&env, 3), 4.0);
}

#[test]
fn test_handle_plateau_downward_no_backwater() {
    let mut env = with_pending(vec![4, 2, 2, 1], vec![0., 0., 0., 0.]);

    let backwater = flow(&mut env, 2, 1.0);
    approx_eq(backwater, 0.);

    approx_eq(level(&env, 2), 2.0);
    approx_eq(level(&env, 3), 2.0);
    approx_eq(level(&env, 4), 2.0);
}

#[test]
fn test_handle_plateau_downward_with_backwater() {
    let mut env = with_pending(vec![4, 2, 2, 1], vec![0., 0., 0., 0.]);

    let backwater = flow(&mut env, 2, 2.0);
    approx_eq(backwater, 0.);

    approx_eq(level(&env, 2), 2.333333);
    approx_eq(level(&env, 3), 2.333333);
    approx_eq(level(&env, 4), 2.333333);
}

#[test]
fn test_handle_plateau_downward_with_overflow() {
    let mut env = with_pending(vec![4, 2, 2, 1], vec![0., 0., 0., 0.]);

    let backwater = flow(&mut env, 2, 8.0);
    approx_eq(backwater, 1.);

    approx_eq(level(&env, 2), 4.0);
    approx_eq(level(&env, 3), 4.0);
    approx_eq(level(&env, 4), 4.0);
}

#[test]
fn test_handle_downwards_with_overflow() {
    let mut env = with_pending(vec![4, 3, 2, 1], vec![0., 0., 0., 0.]);

    let backwater = flow(&mut env, 2, 7.0);
    approx_eq(backwater, 1.);

    approx_eq(level(&env, 2), 4.0);
    approx_eq(level(&env, 3), 4.0);
    approx_eq(level(&env, 4), 4.0);
}

#[test]
fn test_complex_relief_no_rain() {
    let mut env = Environment::new(vec![4, 2, 7, 8, 8, 7, 2, 4, 5, 1]);
    let backwater = rain(&mut env, 0.0);
    approx_eq(backwater, 0.);
}

#[test]
fn test_1_cols_1_water() {
    let mut env = Environment::new(vec![1]);

    let backwater = rain(&mut env, 1.0);
    approx_eq(backwater, 0.);

    approx_eq(level(&env, 1), 2.0)
}

#[test]
fn test_11_cols_1_water() {
    let mut env = Environment::new(vec![1, 1]);
    rain(&mut env, 1.0);
    approx_eq(level(&env, 1), 2.0)
}

#[test]
fn test_31_cols_1_water() {
    let mut env = Environment::new(vec![3, 1]);

    let backwater = rain(&mut env, 1.0);
    approx_eq(backwater, 0.);

    approx_eq(level(&env, 1), 3.0);
    approx_eq(level(&env, 2), 3.0);
}

#[test]
fn test_31_cols_2_water() {
    let mut env = Environment::new(vec![3, 1]);

    let backwater = rain(&mut env, 2.0);
    approx_eq(backwater, 0.);

    approx_eq(level(&env, 1), 4.0);
    approx_eq(level(&env, 2), 4.0);
}

#[test]
fn test_13_cols_1_water() {
    let mut env = Environment::new(vec![1, 3]);

    let backwater = rain(&mut env, 1.0);
    approx_eq(backwater, 0.);

    approx_eq(level(&env, 1), 3.0);
    approx_eq(level(&env, 2), 3.0);
}

#[test]
fn test_13_cols_2_water() {
    let mut env = Environment::new(vec![1, 3]);

    let backwater = rain(&mut env, 2.0);
    approx_eq(backwater, 0.);

    approx_eq(level(&env, 1), 4.0);
    approx_eq(level(&env, 2), 4.0);
}

#[test]
fn test_37453_cols_2_water() {
    let mut env = Environment::new(vec![3, 7, 4, 5, 3]);

    let backwater = rain(&mut env, 2.0);
    approx_eq(backwater, 0.);

    approx_eq(level(&env, 1), 6.0);
    approx_eq(level(&env, 2), 7.0);
    approx_eq(level(&env, 3), 6.3333333);
    approx_eq(level(&env, 4), 6.3333333);
    approx_eq(level(&env, 5), 6.3333333);
}

#[test]
fn test_3_50_50_50_50_50_1_water() {
    let mut env = Environment::new(vec![3, 50, 50, 50, 50, 50, 3]);

    let backwater = rain(&mut env, 1.0);
    approx_eq(backwater, 0.);

    approx_eq(level(&env, 1), 6.5);
    approx_eq(level(&env, 2), 50.0);
    approx_eq(level(&env, 4), 50.0);
    approx_eq(level(&env, 5), 50.0);
    approx_eq(level(&env, 6), 50.0);
    approx_eq(level(&env, 7), 6.5);
}

#[test]
fn test_316489_1_water() {
    let mut env = Environment::new(vec![3, 1, 6, 4, 8, 9]);

    let backwater = rain(&mut env, 1.0);
    approx_eq(backwater, 0.);

    approx_eq(level(&env, 1), 4.);
    approx_eq(level(&env, 2), 4.);
    approx_eq(level(&env, 3), 6.);
    approx_eq(level(&env, 4), 6.);
    approx_eq(level(&env, 5), 8.);
    approx_eq(level(&env, 6), 9.);
}

#[test]
fn test_123456789_1_water() {
    let mut env = Environment::new(vec![1, 2, 3, 4, 5, 6, 7, 8, 9]);

    let backwater = rain(&mut env, 1.0);
    approx_eq(backwater, 0.);

    approx_eq(level(&env, 1), 4.75);
    approx_eq(level(&env, 2), 4.75);
    approx_eq(level(&env, 3), 4.75);
    approx_eq(level(&env, 4), 4.75);
    approx_eq(level(&env, 5), 5.);
    approx_eq(level(&env, 6), 6.);
    approx_eq(level(&env, 7), 7.);
    approx_eq(level(&env, 8), 8.);
    approx_eq(level(&env, 9), 9.);
}
