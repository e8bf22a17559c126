use pacanele::estimate::{combinari, factorial};
use pacanele::fruit::Fruit;
use pacanele::rule_set::{drop_zero_rewards, RuleSet, MAX_REWARD, TOTAL_WEIGHT};

fn three_symbol_space() -> Vec<(Fruit, u16)> {
    vec![(Fruit::cherry, 60000), (Fruit::lemon, 5000), (Fruit::orange, 535)]
}

fn single_entry_rule_set() -> RuleSet {
    RuleSet::new(three_symbol_space(), vec![((Fruit::cherry, 3), 10)], 3).unwrap()
}

#[test]
fn zero_seed_resolves_to_first_symbol() {
    let rs = single_entry_rule_set();
    let (symbols, _) = rs.play_random_from_seed(&[0, 0, 0]);
    assert_eq!(symbols, vec![Fruit::cherry, Fruit::cherry, Fruit::cherry]);
}

#[test]
fn three_of_a_kind_pays_table_reward() {
    let rs = single_entry_rule_set();
    assert_eq!(
        rs.play_random_from_seed(&[0, 0, 0]),
        (vec![Fruit::cherry, Fruit::cherry, Fruit::cherry], 10)
    );
}

#[test]
fn absent_combination_pays_nothing() {
    let rs = single_entry_rule_set();
    // 60001 is past the first threshold and within the second.
    assert_eq!(
        rs.play_random_from_seed(&[0, 0, 60001]),
        (vec![Fruit::cherry, Fruit::cherry, Fruit::lemon], 0)
    );
}

#[test]
fn thresholds_are_inclusive() {
    let rs = single_entry_rule_set();
    let (a, _) = rs.play_random_from_seed(&[60000, 60000, 60000]);
    assert_eq!(a, vec![Fruit::cherry; 3]);
    let (b, _) = rs.play_random_from_seed(&[65000, 65000, 65000]);
    assert_eq!(b, vec![Fruit::lemon; 3]);
    let (c, _) = rs.play_random_from_seed(&[65535, 65001, 65535]);
    assert_eq!(c, vec![Fruit::orange; 3]);
}

#[test]
fn outcome_is_ordered_by_hits() {
    let rs = single_entry_rule_set();
    let (symbols, reward) = rs.play_random_from_seed(&[60001, 0, 60001]);
    assert_eq!(symbols, vec![Fruit::lemon, Fruit::lemon, Fruit::cherry]);
    assert_eq!(reward, 0);
}

#[test]
fn ties_follow_enumeration_order() {
    let rs = single_entry_rule_set();
    let (symbols, _) = rs.play_random_from_seed(&[65100, 0, 60500]);
    assert_eq!(symbols, vec![Fruit::cherry, Fruit::lemon, Fruit::orange]);
}

#[test]
fn resolution_is_repeatable() {
    let rs = RuleSet::default_internal_deserialize().unwrap();
    for seed in [[0u16, 0, 0], [1, 2, 3], [65535, 40000, 123], [9999, 9999, 9999]] {
        assert_eq!(rs.play_random_from_seed(&seed), rs.play_random_from_seed(&seed));
    }
}

#[test]
fn rewards_of_several_symbols_add_up() {
    let rs = RuleSet::new(
        three_symbol_space(),
        vec![((Fruit::cherry, 2), 7), ((Fruit::lemon, 1), 5), ((Fruit::orange, 1), 100)],
        3,
    )
    .unwrap();
    assert_eq!(
        rs.play_random_from_seed(&[60001, 0, 0]),
        (vec![Fruit::cherry, Fruit::cherry, Fruit::lemon], 12)
    );
    assert_eq!(
        rs.play_random_from_seed(&[65100, 0, 60500]),
        (vec![Fruit::cherry, Fruit::lemon, Fruit::orange], 105)
    );
}

#[test]
fn total_reward_is_clamped() {
    let rs = RuleSet::new(
        three_symbol_space(),
        vec![((Fruit::cherry, 1), 40000), ((Fruit::lemon, 1), 40000), ((Fruit::orange, 1), 40000)],
        3,
    )
    .unwrap();
    let (_, reward) = rs.play_random_from_seed(&[65100, 0, 60500]);
    assert_eq!(reward, MAX_REWARD);
    assert_eq!(reward, 55666);
}

#[test]
fn outcome_has_one_symbol_per_reel() {
    let two = RuleSet::new(three_symbol_space(), vec![((Fruit::cherry, 2), 3)], 2).unwrap();
    let (symbols, reward) = two.play_random_from_seed(&[0, 1]);
    assert_eq!(symbols.len(), 2);
    assert_eq!(reward, 3);
    let four = RuleSet::new(three_symbol_space(), vec![((Fruit::lemon, 4), 9)], 4).unwrap();
    let (symbols, reward) = four.play_random_from_seed(&[60001, 60002, 60003, 60004]);
    assert_eq!(symbols, vec![Fruit::lemon; 4]);
    assert_eq!(reward, 9);
}

#[test]
fn random_spin_has_one_symbol_per_reel() {
    let rs = RuleSet::default_internal_deserialize().unwrap();
    for _ in 0..100 {
        let (symbols, reward) = rs.play_random();
        assert_eq!(symbols.len(), 3);
        assert!(reward <= MAX_REWARD);
    }
}

#[test]
fn new_rejects_broken_invariants() {
    // too few symbols
    assert!(RuleSet::new(vec![(Fruit::cherry, 65000), (Fruit::lemon, 535)], vec![], 3).is_none());
    // weights not summing to the total
    assert!(RuleSet::new(
        vec![(Fruit::cherry, 60000), (Fruit::lemon, 5000), (Fruit::orange, 534)],
        vec![],
        3
    )
    .is_none());
    // symbols out of order
    assert!(RuleSet::new(
        vec![(Fruit::lemon, 5000), (Fruit::cherry, 60000), (Fruit::orange, 535)],
        vec![],
        3
    )
    .is_none());
    // a symbol twice
    assert!(RuleSet::new(
        vec![(Fruit::cherry, 60000), (Fruit::cherry, 5000), (Fruit::orange, 535)],
        vec![],
        3
    )
    .is_none());
    // hit count above the reel count
    assert!(RuleSet::new(three_symbol_space(), vec![((Fruit::cherry, 4), 10)], 3).is_none());
    // hit count zero
    assert!(RuleSet::new(three_symbol_space(), vec![((Fruit::cherry, 0), 10)], 3).is_none());
    // zero reward
    assert!(RuleSet::new(three_symbol_space(), vec![((Fruit::cherry, 3), 0)], 3).is_none());
    // reward above the cap
    assert!(RuleSet::new(three_symbol_space(), vec![((Fruit::cherry, 3), 55667)], 3).is_none());
    // reward keys out of order
    assert!(RuleSet::new(
        three_symbol_space(),
        vec![((Fruit::cherry, 3), 1), ((Fruit::cherry, 2), 1)],
        3
    )
    .is_none());
    // fewer than two reels
    assert!(RuleSet::new(three_symbol_space(), vec![], 1).is_none());
}

#[test]
fn new_keeps_parts() {
    let rs = RuleSet::new(three_symbol_space(), vec![((Fruit::cherry, 3), 55666)], 3).unwrap();
    assert_eq!(rs.prob(), three_symbol_space());
    assert_eq!(rs.rewards(), vec![((Fruit::cherry, 3), 55666)]);
    assert_eq!(rs.wheel_count(), 3);
}

#[test]
fn default_rule_set_is_well_formed() {
    let rs = RuleSet::default_internal_deserialize().unwrap();
    assert_eq!(rs.wheel_count(), 3);
    let prob = rs.prob();
    assert_eq!(prob.len(), 12);
    let total: u32 = prob.iter().map(|p| p.1 as u32).sum();
    assert_eq!(total, TOTAL_WEIGHT as u32);
    assert_eq!(prob[0].0, Fruit::cherry);
    assert!(prob.windows(2).all(|w| w[0].1 >= w[1].1));
    for ((_, count), reward) in rs.rewards() {
        assert!(count >= 1 && count <= 3);
        assert!(reward >= 1 && reward <= MAX_REWARD);
    }
    assert!(rs.rewards().contains(&((Fruit::cherry, 1), 1)));
}

#[test]
fn zero_rewards_are_dropped() {
    let entries = vec![
        ((Fruit::cherry, 1), 0),
        ((Fruit::cherry, 2), 4),
        ((Fruit::lemon, 1), 0),
        ((Fruit::lemon, 3), 9),
    ];
    assert_eq!(
        drop_zero_rewards(&entries),
        vec![((Fruit::cherry, 2), 4), ((Fruit::lemon, 3), 9)]
    );
    assert_eq!(drop_zero_rewards(&vec![]), vec![]);
}

#[test]
fn factorials_and_combinations() {
    assert_eq!(factorial(0), 1);
    assert_eq!(factorial(5), 120);
    assert_eq!(factorial(20), 2432902008176640000);
    assert_eq!(combinari(3, 0), 1);
    assert_eq!(combinari(3, 1), 3);
    assert_eq!(combinari(3, 2), 3);
    assert_eq!(combinari(3, 3), 1);
    assert_eq!(combinari(20, 10), 184756);
}
