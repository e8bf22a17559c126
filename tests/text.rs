use pacanele::client::get_solana_rpc_url;
use pacanele::constructor::decimal_string;
use pacanele::fruit::{get_all_fruits, Fruit, FRUIT_COUNT};
use pacanele::rule_set::RuleSet;

#[test]
fn decimal_text() {
    assert_eq!(decimal_string(0), "0");
    assert_eq!(decimal_string(7), "7");
    assert_eq!(decimal_string(10), "10");
    assert_eq!(decimal_string(65535), "65535");
    assert_eq!(decimal_string(u32::MAX), "4294967295");
}

#[test]
fn constructor_text_rebuilds_rule_set() {
    let rs = RuleSet::new(
        vec![(Fruit::cherry, 60000), (Fruit::lemon, 5000), (Fruit::orange, 535)],
        vec![((Fruit::cherry, 3), 10), ((Fruit::lemon, 1), 2)],
        3,
    )
    .unwrap();
    let text = rs.rust_constructor("p96");
    let expected = "
use pacanele::fruit::Fruit;
use pacanele::rule_set::RuleSet;

pub fn p96() -> Option<RuleSet> {
    RuleSet::new(
        vec![
(Fruit::cherry, 60000),
(Fruit::lemon, 5000),
(Fruit::orange, 535)
        ],
        vec![
((Fruit::cherry, 3), 10),
((Fruit::lemon, 1), 2)
        ],
        3,
    )
}
";
    assert_eq!(text, expected);
}

#[test]
fn constructor_text_of_empty_table() {
    let rs = RuleSet::new(
        vec![(Fruit::cherry, 65533), (Fruit::bell, 1), (Fruit::seven, 1)],
        vec![],
        2,
    )
    .unwrap();
    let text = rs.rust_constructor("tiny");
    assert!(text.contains("pub fn tiny() -> Option<RuleSet> {"));
    assert!(text.contains("(Fruit::cherry, 65533),\n(Fruit::bell, 1),\n(Fruit::seven, 1)\n"));
    assert!(text.contains("vec![\n\n        ],\n        2,\n"));
}

#[test]
fn fruit_names_and_order() {
    let names = get_all_fruits();
    assert_eq!(names.len(), FRUIT_COUNT);
    assert_eq!(names[0], "cherry");
    assert_eq!(names[11], "seven");
    let all = Fruit::all();
    assert_eq!(all.len(), 12);
    for (i, f) in all.iter().enumerate() {
        assert_eq!(f.index() as usize, i);
        assert_eq!(Fruit::from_index(i as u8), Some(*f));
        assert_eq!(f.to_link_str(), names[i]);
    }
    assert_eq!(Fruit::from_index(12), None);
    assert_eq!(Fruit::from_index(255), None);
}

#[test]
fn rpc_url() {
    assert_eq!(get_solana_rpc_url(), "https://api.devnet.solana.com");
}
