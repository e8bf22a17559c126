use pacanele::artifact::default_artifact;
use pacanele::codec::DecodeError;
use pacanele::fruit::Fruit;
use pacanele::rule_set::RuleSet;
use std::collections::BTreeMap;

fn sample() -> RuleSet {
    RuleSet::new(
        vec![(Fruit::cherry, 60000), (Fruit::lemon, 5000), (Fruit::seven, 535)],
        vec![((Fruit::cherry, 3), 10), ((Fruit::lemon, 2), 300), ((Fruit::seven, 1), 55666)],
        3,
    )
    .unwrap()
}

#[test]
fn round_trip_keeps_rule_set() {
    let rs = sample();
    let back = RuleSet::deserialize(&rs.serialize()).unwrap();
    assert_eq!(back, rs);
    assert_eq!(back.prob(), rs.prob());
    assert_eq!(back.rewards(), rs.rewards());
}

#[test]
fn default_artifact_round_trips_byte_for_byte() {
    let bytes = default_artifact();
    let rs = RuleSet::deserialize(&bytes).unwrap();
    assert_eq!(rs.serialize(), bytes);
    assert_eq!(RuleSet::default_internal_deserialize().unwrap(), rs);
}

#[test]
fn layout_is_little_endian_and_fixed_width() {
    let bytes = sample().serialize();
    let mut expected: Vec<u8> = vec![3, 0, 0, 0, 0, 0, 0, 0];
    expected.extend([0, 0, 0, 0, 0x60, 0xea]);
    expected.extend([1, 0, 0, 0, 0x88, 0x13]);
    expected.extend([11, 0, 0, 0, 0x17, 0x02]);
    expected.extend([3, 0, 0, 0, 0, 0, 0, 0]);
    expected.extend([0, 0, 0, 0, 3, 10, 0]);
    expected.extend([1, 0, 0, 0, 2, 0x2c, 0x01]);
    expected.extend([11, 0, 0, 0, 1, 0x72, 0xd9]);
    expected.push(3);
    assert_eq!(bytes, expected);
}

#[test]
fn layout_matches_bincode_of_ordered_maps() {
    let rs = sample();
    let prob: BTreeMap<u32, u16> =
        rs.prob().into_iter().map(|(f, w)| (f.index() as u32, w)).collect();
    let rewards: BTreeMap<(u32, u8), u16> =
        rs.rewards().into_iter().map(|((f, c), r)| ((f.index() as u32, c), r)).collect();
    let expected = bincode::serialize(&(prob, rewards, rs.wheel_count())).unwrap();
    assert_eq!(rs.serialize(), expected);
}

#[test]
fn malformed_artifacts_are_rejected() {
    let good = sample().serialize();
    assert_eq!(RuleSet::deserialize(&[]), Err(DecodeError::Malformed));
    assert_eq!(RuleSet::deserialize(&good[..7]), Err(DecodeError::Malformed));
    assert_eq!(RuleSet::deserialize(&good[..good.len() - 1]), Err(DecodeError::Malformed));
    let mut longer = good.clone();
    longer.push(0);
    assert_eq!(RuleSet::deserialize(&longer), Err(DecodeError::Malformed));
    // unknown symbol index
    let mut unknown = good.clone();
    unknown[8] = 12;
    assert_eq!(RuleSet::deserialize(&unknown), Err(DecodeError::Malformed));
    // weights no longer sum to the total
    let mut weight = good.clone();
    weight[12] = 0x61;
    assert_eq!(RuleSet::deserialize(&weight), Err(DecodeError::Malformed));
    // hit count above the reel count
    let mut hits = good.clone();
    hits[8 + 18 + 8 + 4] = 4;
    assert_eq!(RuleSet::deserialize(&hits), Err(DecodeError::Malformed));
    // a single reel
    let mut reels = good.clone();
    let last = reels.len() - 1;
    reels[last] = 1;
    assert_eq!(RuleSet::deserialize(&reels), Err(DecodeError::Malformed));
    // an entry count far beyond the bytes
    let mut count = good.clone();
    count[7] = 0xff;
    assert_eq!(RuleSet::deserialize(&count), Err(DecodeError::Malformed));
}
