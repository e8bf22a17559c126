use pacanele::fruit::Fruit;
use pacanele::rule_set::RuleSet;

fn space() -> Vec<(Fruit, u16)> {
    vec![(Fruit::cherry, 60000), (Fruit::lemon, 5000), (Fruit::orange, 535)]
}

#[test]
fn exact_return_of_single_entry() {
    let rs = RuleSet::new(space(), vec![((Fruit::cherry, 3), 10)], 3).unwrap();
    let (num, den) = rs.projected_return_exact();
    assert_eq!(num, 10 * 60000u128 * 60000 * 60000);
    assert_eq!(den, 65535u128 * 65535 * 65535);
}

#[test]
fn exact_return_uses_binomial_weights() {
    // C(3,1) * 5000 * 60535^2 * 4 + C(3,2) * 535^2 * 65000 * 7
    let rs = RuleSet::new(
        space(),
        vec![((Fruit::lemon, 1), 4), ((Fruit::orange, 2), 7)],
        3,
    )
    .unwrap();
    let (num, den) = rs.projected_return_exact();
    assert_eq!(num, 3 * 5000u128 * 60535 * 60535 * 4 + 3 * 535u128 * 535 * 65000 * 7);
    assert_eq!(den, 281462092005375);
}

#[test]
fn exact_return_of_empty_table_is_zero() {
    let rs = RuleSet::new(space(), vec![], 2).unwrap();
    assert_eq!(rs.projected_return_exact(), (0, 65535 * 65535));
}

#[test]
fn exact_return_of_reward_for_absent_symbol_is_zero() {
    let rs = RuleSet::new(space(), vec![((Fruit::seven, 2), 50)], 3).unwrap();
    assert_eq!(rs.projected_return_exact().0, 0);
    let rs = RuleSet::new(space(), vec![((Fruit::seven, 2), 50)], 2).unwrap();
    assert_eq!(rs.projected_return_exact().0, 0);
}

#[test]
fn exact_return_of_default_rule_set() {
    let rs = RuleSet::default_internal_deserialize().unwrap();
    let (num, den) = rs.projected_return_exact();
    let ret = num as f64 / den as f64;
    assert!((ret - 0.963521055509099).abs() < 1e-9, "return {ret}");
}

#[test]
fn simulation_agrees_with_exact_return() {
    let rs = RuleSet::new(
        vec![(Fruit::cherry, 30000), (Fruit::lemon, 20000), (Fruit::orange, 15535)],
        vec![
            ((Fruit::cherry, 2), 1),
            ((Fruit::cherry, 3), 4),
            ((Fruit::lemon, 2), 2),
            ((Fruit::lemon, 3), 9),
            ((Fruit::orange, 3), 20),
        ],
        3,
    )
    .unwrap();
    let (num, den) = rs.projected_return_exact();
    let exact = num as f64 / den as f64;
    let trials: u32 = 400_000;
    let total = rs.play_monte_carlo_total(trials);
    assert!(total <= trials as u64 * 55666);
    let empirical = total as f64 / trials as f64;
    // per-spin rewards are at most 20, so the standard error is below 0.01
    assert!((empirical - exact).abs() < 0.02 * exact.max(1.0), "{empirical} vs {exact}");
}

#[test]
fn simulation_of_zero_trials_is_zero() {
    let rs = RuleSet::default_internal_deserialize().unwrap();
    assert_eq!(rs.play_monte_carlo_total(0), 0);
}
